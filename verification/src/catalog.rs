//! The catalog: table and index metadata and object-id allocation.
//!
//! Object ids are handed out densely from 0, so the metadata lives in plain
//! arrays indexed by id, with name uniqueness as the invariant. The table
//! heap itself is an external collaborator: a table entry here carries the
//! name, schema and id, and a fresh index starts out empty.

use vstd::prelude::*;
use crate::page::{PageId, NO_PAGE};

verus! {

/// A column's value type.
#[derive(PartialEq, Eq, Clone, Copy, Debug, Structural)]
pub enum Type {
    TinyInt,
    Bool,
    Int,
    BigInt,
    Varchar,
}

/// How many bytes a value of type `t` occupies in a row. A varchar field
/// holds a two-byte offset and a two-byte size.
pub open spec fn spec_type_size(t: Type) -> int {
    match t {
        Type::TinyInt => 1,
        Type::Bool => 1,
        Type::Int => 4,
        Type::BigInt => 8,
        Type::Varchar => 4,
    }
}

impl Type {
    pub fn size(&self) -> (r: usize)
        ensures
            r == spec_type_size(*self),
    {
        match self {
            Type::TinyInt | Type::Bool => 1,
            Type::Int => 4,
            Type::BigInt => 8,
            Type::Varchar => 4,
        }
    }
}

/// One column of a schema: its name, type, and byte offset within a row.
#[derive(Clone, Debug)]
pub struct Column {
    pub name: String,
    pub ty: Type,
    pub offset: usize,
}

impl Column {
    pub fn size(&self) -> (r: usize)
        ensures
            r == spec_type_size(self.ty),
    {
        self.ty.size()
    }

    /// An equal copy; spelled out so the copy's fields are known exactly.
    pub fn duplicate(&self) -> (r: Column)
        ensures
            r.name@ == self.name@,
            r.ty == self.ty,
            r.offset == self.offset,
    {
        Column { name: self.name.clone(), ty: self.ty, offset: self.offset }
    }
}

/// The summed byte size of a run of columns.
pub open spec fn spec_total_size(s: Seq<Column>) -> int
    decreases s.len(),
{
    if s.len() == 0 {
        0
    } else {
        spec_total_size(s.drop_last()) + spec_type_size(s.last().ty)
    }
}

/// Whether `name` occurs among `cols`.
pub open spec fn name_in(cols: Seq<String>, name: Seq<char>) -> bool {
    exists|c: int| 0 <= c < cols.len() && (#[trigger] cols[c])@ == name
}

/// The columns of `s` whose names occur in `cols`, in `s`'s order.
pub open spec fn spec_filter_columns(s: Seq<Column>, cols: Seq<String>) -> Seq<Column>
    decreases s.len(),
{
    if s.len() == 0 {
        Seq::empty()
    } else {
        spec_filter_columns(s.drop_last(), cols) + (if name_in(cols, s.last().name@) {
            seq![s.last()]
        } else {
            Seq::empty()
        })
    }
}

/// An ordered list of columns with their summed byte size.
#[derive(Clone, Debug)]
pub struct Schema {
    pub columns: Vec<Column>,
    pub size: usize,
}

impl Schema {
    /// The stored size matches the columns.
    pub open spec fn wf(self) -> bool {
        self.size == spec_total_size(self.columns@)
    }

    pub open spec fn spec_columns(self) -> Seq<Column> {
        self.columns@
    }

    pub fn new(columns: Vec<Column>) -> (r: Schema)
        requires
            spec_total_size(columns@) <= usize::MAX,
        ensures
            r.wf(),
            r.spec_columns() == columns@,
    {
        let mut size: usize = 0;
        let mut i: usize = 0;
        while i < columns.len()
            invariant
                i <= columns@.len(),
                size == spec_total_size(columns@.subrange(0, i as int)),
                spec_total_size(columns@) <= usize::MAX,
            decreases columns@.len() - i,
        {
            proof {
                lemma_total_size_prefix(columns@, i + 1);
                assert(columns@.subrange(0, i + 1).drop_last() =~= columns@.subrange(0, i as int));
                assert(columns@.subrange(0, i + 1).last() == columns@[i as int]);
                lemma_total_size_monotonic(columns@, i + 1);
            }
            size = size + columns[i].size();
            i += 1;
        }
        proof {
            assert(columns@.subrange(0, columns@.len() as int) =~= columns@);
        }
        Schema { columns, size }
    }

    /// A schema with no columns.
    pub fn empty() -> (r: Schema)
        ensures
            r.wf(),
            r.spec_columns().len() == 0,
            r.size == 0,
    {
        Schema { columns: Vec::new(), size: 0 }
    }

    pub fn columns(&self) -> (r: &Vec<Column>)
        ensures
            r@ == self.spec_columns(),
    {
        &self.columns
    }

    /// The sub-schema of exactly the columns whose names occur in `cols`, in
    /// this schema's order, each keeping its type and original offset.
    pub fn filter(&self, cols: &Vec<String>) -> (r: Schema)
        requires
            self.wf(),
        ensures
            r.wf(),
            r.spec_columns().len() == spec_filter_columns(self.spec_columns(), cols@).len(),
            forall|j: int|
                0 <= j < r.spec_columns().len() ==> {
                    &&& (#[trigger] r.spec_columns()[j]).name@ == spec_filter_columns(
                        self.spec_columns(),
                        cols@,
                    )[j].name@
                    &&& r.spec_columns()[j].ty == spec_filter_columns(
                        self.spec_columns(),
                        cols@,
                    )[j].ty
                    &&& r.spec_columns()[j].offset == spec_filter_columns(
                        self.spec_columns(),
                        cols@,
                    )[j].offset
                },
    {
        let mut kept: Vec<Column> = Vec::new();
        let mut i: usize = 0;
        while i < self.columns.len()
            invariant
                i <= self.columns@.len(),
                spec_total_size(kept@) <= spec_total_size(self.columns@.subrange(0, i as int)),
                self.wf(),
                kept@.len() == spec_filter_columns(
                    self.columns@.subrange(0, i as int),
                    cols@,
                ).len(),
                forall|j: int|
                    0 <= j < kept@.len() ==> {
                        &&& (#[trigger] kept@[j]).name@ == spec_filter_columns(
                            self.columns@.subrange(0, i as int),
                            cols@,
                        )[j].name@
                        &&& kept@[j].ty == spec_filter_columns(
                            self.columns@.subrange(0, i as int),
                            cols@,
                        )[j].ty
                        &&& kept@[j].offset == spec_filter_columns(
                            self.columns@.subrange(0, i as int),
                            cols@,
                        )[j].offset
                    },
            decreases self.columns@.len() - i,
        {
            proof {
                lemma_total_size_prefix(self.columns@, i + 1);
                assert(self.columns@.subrange(0, i + 1).drop_last() =~= self.columns@.subrange(
                    0,
                    i as int,
                ));
                lemma_total_size_nonneg(self.columns@.subrange(0, i as int));
            }
            let mut found = false;
            let mut c: usize = 0;
            while c < cols.len()
                invariant
                    c <= cols@.len(),
                    i < self.columns@.len(),
                    found ==> name_in(cols@, self.columns@[i as int].name@),
                    !found ==> forall|c2: int|
                        0 <= c2 < c ==> (#[trigger] cols@[c2])@ != self.columns@[i as int].name@,
                decreases cols@.len() - c,
            {
                if cols[c].eq(&self.columns[i].name) {
                    found = true;
                }
                c += 1;
            }
            proof {
                assert(found == name_in(cols@, self.columns@[i as int].name@));
            }
            if found {
                let ghost pre = kept@;
                kept.push(self.columns[i].duplicate());
                proof {
                    assert(kept@.drop_last() =~= pre);
                    lemma_total_size_nonneg(pre);
                }
            }
            i += 1;
        }
        proof {
            assert(self.columns@.subrange(0, self.columns@.len() as int) =~= self.columns@);
            lemma_total_size_bound(self.columns@);
        }
        let r = Schema::new(kept);
        r
    }

    /// The same columns, with offsets recomputed densely from 0: each
    /// column's offset is the summed size of those before it.
    pub fn compact(&self) -> (r: Schema)
        requires
            self.wf(),
        ensures
            r.wf(),
            r.spec_columns().len() == self.spec_columns().len(),
            forall|j: int|
                0 <= j < r.spec_columns().len() ==> (#[trigger] r.spec_columns()[j]).name@
                    == self.spec_columns()[j].name@ && r.spec_columns()[j].ty
                    == self.spec_columns()[j].ty,
            forall|j: int|
                0 <= j < r.spec_columns().len() ==> (#[trigger] r.spec_columns()[j]).offset
                    == spec_total_size(self.spec_columns().subrange(0, j)),
            r.size == self.size,
    {
        let mut cols: Vec<Column> = Vec::new();
        let mut offset: usize = 0;
        let mut i: usize = 0;
        while i < self.columns.len()
            invariant
                i <= self.columns@.len(),
                cols@.len() == i,
                offset == spec_total_size(self.columns@.subrange(0, i as int)),
                self.wf(),
                forall|j: int|
                    0 <= j < i ==> (#[trigger] cols@[j]).name@ == self.columns@[j].name@
                        && cols@[j].ty == self.columns@[j].ty,
                forall|j: int|
                    0 <= j < i ==> (#[trigger] cols@[j]).offset == spec_total_size(
                        self.columns@.subrange(0, j),
                    ),
            decreases self.columns@.len() - i,
        {
            proof {
                lemma_total_size_prefix(self.columns@, i + 1);
                assert(self.columns@.subrange(0, i + 1).drop_last() =~= self.columns@.subrange(
                    0,
                    i as int,
                ));
                lemma_total_size_nonneg(self.columns@.subrange(0, i as int));
                lemma_total_size_bound(self.columns@);
                assert(spec_total_size(self.columns@.subrange(0, i + 1)) <= spec_total_size(
                    self.columns@,
                )) by {
                    lemma_total_size_monotonic(self.columns@, i + 1);
                }
            }
            let col = &self.columns[i];
            cols.push(Column { name: col.name.clone(), ty: col.ty, offset });
            offset = offset + col.size();
            i += 1;
        }
        proof {
            lemma_total_size_same_tys(cols@, self.columns@);
        }
        Schema::new(cols)
    }

    pub fn size(&self) -> (r: usize)
        ensures
            r == self.size,
    {
        self.size
    }

    pub fn len(&self) -> (r: usize)
        ensures
            r == self.spec_columns().len(),
    {
        self.columns.len()
    }

    /// The columns, one copied element per column, for iteration.
    pub fn iter(&self) -> (r: Vec<Column>)
        ensures
            r@.len() == self.spec_columns().len(),
            forall|j: int|
                0 <= j < r@.len() ==> (#[trigger] r@[j]).name@ == self.spec_columns()[j].name@
                    && r@[j].ty == self.spec_columns()[j].ty && r@[j].offset
                    == self.spec_columns()[j].offset,
    {
        let mut out: Vec<Column> = Vec::new();
        let mut i: usize = 0;
        while i < self.columns.len()
            invariant
                i <= self.columns@.len(),
                out@.len() == i,
                forall|j: int|
                    0 <= j < i ==> (#[trigger] out@[j]).name@ == self.columns@[j].name@
                        && out@[j].ty == self.columns@[j].ty && out@[j].offset
                        == self.columns@[j].offset,
            decreases self.columns@.len() - i,
        {
            out.push(self.columns[i].duplicate());
            i += 1;
        }
        out
    }

    /// The schema a list of `(name, type)` pairs describes, with offsets
    /// assigned densely in order.
    pub fn from_pairs(pairs: Vec<(String, Type)>) -> (r: Schema)
        requires
            8 * pairs@.len() <= usize::MAX,
        ensures
            r.wf(),
            r.spec_columns().len() == pairs@.len(),
            forall|j: int|
                0 <= j < r.spec_columns().len() ==> (#[trigger] r.spec_columns()[j]).name@
                    == pairs@[j].0@ && r.spec_columns()[j].ty == pairs@[j].1,
    {
        let mut cols: Vec<Column> = Vec::new();
        let mut offset: usize = 0;
        let mut i: usize = 0;
        while i < pairs.len()
            invariant
                i <= pairs@.len(),
                8 * pairs@.len() <= usize::MAX,
                cols@.len() == i,
                offset == spec_total_size(cols@),
                spec_total_size(cols@) <= 8 * i,
                forall|j: int|
                    0 <= j < i ==> (#[trigger] cols@[j]).name@ == pairs@[j].0@ && cols@[j].ty
                        == pairs@[j].1,
            decreases pairs@.len() - i,
        {
            let ghost pre = cols@;
            let (name, ty) = (pairs[i].0.clone(), pairs[i].1);
            let sz = ty.size();
            cols.push(Column { name, ty, offset });
            proof {
                assert(cols@.drop_last() =~= pre);
            }
            offset = offset + sz;
            i += 1;
        }
        Schema::new(cols)
    }
}

pub proof fn lemma_total_size_nonneg(s: Seq<Column>)
    ensures
        spec_total_size(s) >= 0,
    decreases s.len(),
{
    if s.len() > 0 {
        lemma_total_size_nonneg(s.drop_last());
    }
}

pub proof fn lemma_total_size_prefix(s: Seq<Column>, i: int)
    requires
        0 < i <= s.len(),
    ensures
        spec_total_size(s.subrange(0, i)) == spec_total_size(s.subrange(0, i - 1))
            + spec_type_size(s[i - 1].ty),
{
    assert(s.subrange(0, i).drop_last() =~= s.subrange(0, i - 1));
    assert(s.subrange(0, i).last() == s[i - 1]);
}

pub proof fn lemma_total_size_monotonic(s: Seq<Column>, i: int)
    requires
        0 <= i <= s.len(),
    ensures
        spec_total_size(s.subrange(0, i)) <= spec_total_size(s),
    decreases s.len() - i,
{
    if i == s.len() {
        assert(s.subrange(0, i) =~= s);
    } else {
        lemma_total_size_prefix(s, i + 1);
        lemma_total_size_monotonic(s, i + 1);
        lemma_total_size_nonneg(s.subrange(0, i));
    }
}

/// The summed size depends only on the column types.
pub proof fn lemma_total_size_same_tys(a: Seq<Column>, b: Seq<Column>)
    requires
        a.len() == b.len(),
        forall|j: int| 0 <= j < a.len() ==> (#[trigger] a[j]).ty == b[j].ty,
    ensures
        spec_total_size(a) == spec_total_size(b),
    decreases a.len(),
{
    if a.len() > 0 {
        lemma_total_size_same_tys(a.drop_last(), b.drop_last());
    }
}

pub proof fn lemma_total_size_bound(s: Seq<Column>)
    ensures
        spec_total_size(s) <= 8 * s.len(),
    decreases s.len(),
{
    if s.len() > 0 {
        lemma_total_size_bound(s.drop_last());
    }
}

/// Object id of a table or an index.
pub type OId = u32;

/// A registered table: its name, row schema, and id. The row storage itself
/// lives in the table heap, outside this core.
pub struct TableInfo {
    pub name: String,
    pub schema: Schema,
    pub oid: OId,
}

/// The description an index is declared with.
pub struct IndexMeta {
    pub name: String,
    pub table_name: String,
    pub column_ids: Vec<u32>,
    pub schema: Schema,
}

/// Which index structure backs an index.
pub enum IndexType {
    HashTable,
    BTree,
}

/// A registered index: its name, key schema, id, kind, and the root page of
/// its structure (`NO_PAGE` while empty).
pub struct IndexInfo {
    pub name: String,
    pub schema: Schema,
    pub oid: OId,
    pub index_ty: IndexType,
    pub root: PageId,
}

/// Table and index metadata, ids handed out densely from 0.
pub struct Catalog {
    pub tables: Vec<TableInfo>,
    pub next_table_oid: u32,
    pub indexes: Vec<IndexInfo>,
    pub next_index_oid: u32,
    pub index_names: Vec<(String, Vec<(String, OId)>)>,
}

impl Catalog {
    /// Ids are dense; table names are unique; one index-name bucket exists
    /// per table, in table order.
    pub open spec fn inv(self) -> bool {
        &&& self.next_table_oid == self.tables@.len()
        &&& self.next_index_oid == self.indexes@.len()
        &&& self.tables@.len() <= u32::MAX
        &&& self.indexes@.len() <= u32::MAX
        &&& forall|i: int|
            0 <= i < self.tables@.len() ==> (#[trigger] self.tables@[i]).oid == i
        &&& forall|i: int|
            0 <= i < self.indexes@.len() ==> (#[trigger] self.indexes@[i]).oid == i
        &&& forall|a: int, b: int|
            0 <= a < b < self.tables@.len() ==> (#[trigger] self.tables@[a]).name@ != (
            #[trigger] self.tables@[b]).name@
        &&& self.index_names@.len() == self.tables@.len()
        &&& forall|i: int|
            0 <= i < self.tables@.len() ==> (#[trigger] self.index_names@[i]).0@
                == self.tables@[i].name@
    }

    /// Whether a table of this name exists.
    pub open spec fn has_table(self, name: Seq<char>) -> bool {
        exists|i: int| 0 <= i < self.tables@.len() && (#[trigger] self.tables@[i]).name@ == name
    }

    /// Whether an index of this name is registered on the named table.
    pub open spec fn has_index_on(self, table: Seq<char>, index: Seq<char>) -> bool {
        exists|t: int, c: int|
            0 <= t < self.index_names@.len() && 0 <= c < self.index_names@[t].1@.len() && (
            #[trigger] self.index_names@[t].1@[c]).0@ == index && self.index_names@[t].0@ == table
    }

    pub fn new() -> (r: Catalog)
        ensures
            r.inv(),
            r.tables@.len() == 0,
            r.indexes@.len() == 0,
    {
        Catalog {
            tables: Vec::new(),
            next_table_oid: 0,
            indexes: Vec::new(),
            next_index_oid: 0,
            index_names: Vec::new(),
        }
    }

    fn find_table_index(&self, name: &String) -> (r: Option<usize>)
        ensures
            match r {
                Some(i) => i < self.tables@.len() && self.tables@[i as int].name@ == name@,
                None => !self.has_table(name@),
            },
    {
        let mut i: usize = 0;
        while i < self.tables.len()
            invariant
                i <= self.tables@.len(),
                forall|j: int| 0 <= j < i ==> (#[trigger] self.tables@[j]).name@ != name@,
            decreases self.tables@.len() - i,
        {
            if self.tables[i].name.eq(name) {
                return Some(i);
            }
            i += 1;
        }
        None
    }

    /// Registers a table under `name` with `schema`. Returns its id, or
    /// `None` exactly when the name is taken; the id handed out is the next
    /// one.
    pub fn create_table(&mut self, name: &String, schema: Schema) -> (r: Option<OId>)
        requires
            old(self).inv(),
            old(self).tables@.len() < u32::MAX,
        ensures
            final(self).inv(),
            match r {
                Some(oid) => {
                    &&& !old(self).has_table(name@)
                    &&& oid == old(self).tables@.len()
                    &&& final(self).tables@.len() == old(self).tables@.len() + 1
                    &&& final(self).tables@.last().name@ == name@
                    &&& final(self).tables@.last().schema == schema
                    &&& forall|i: int|
                        0 <= i < old(self).tables@.len() ==> #[trigger] final(self).tables@[i]
                            == old(self).tables@[i]
                    &&& final(self).indexes == old(self).indexes
                },
                None => old(self).has_table(name@) && *final(self) == *old(self),
            },
    {
        match self.find_table_index(name) {
            Some(_) => None,
            None => {
                let oid = self.next_table_oid;
                self.tables.push(TableInfo { name: name.clone(), schema, oid });
                self.index_names.push((name.clone(), Vec::new()));
                self.next_table_oid = oid + 1;
                Some(oid)
            },
        }
    }

    /// The table with id `oid`, if one was created.
    pub fn get_table_by_oid(&self, oid: OId) -> (r: Option<&TableInfo>)
        requires
            self.inv(),
        ensures
            match r {
                Some(t) => oid < self.tables@.len() && *t == self.tables@[oid as int],
                None => oid >= self.tables@.len(),
            },
    {
        if (oid as usize) < self.tables.len() {
            Some(&self.tables[oid as usize])
        } else {
            None
        }
    }

    /// The table registered under `name`, if any.
    pub fn get_table_by_name(&self, name: &String) -> (r: Option<&TableInfo>)
        requires
            self.inv(),
        ensures
            match r {
                Some(t) => self.has_table(name@) && t.name@ == name@ && exists|i: int|
                    0 <= i < self.tables@.len() && *t == self.tables@[i],
                None => !self.has_table(name@),
            },
    {
        match self.find_table_index(name) {
            Some(i) => Some(&self.tables[i]),
            None => None,
        }
    }

    /// Every registered table name, in creation order.
    pub fn list_tables(&self) -> (r: Vec<String>)
        ensures
            r@.len() == self.tables@.len(),
            forall|i: int| 0 <= i < r@.len() ==> (#[trigger] r@[i])@ == self.tables@[i].name@,
    {
        let mut out: Vec<String> = Vec::new();
        let mut i: usize = 0;
        while i < self.tables.len()
            invariant
                i <= self.tables@.len(),
                out@.len() == i,
                forall|j: int| 0 <= j < i ==> (#[trigger] out@[j])@ == self.tables@[j].name@,
            decreases self.tables@.len() - i,
        {
            out.push(self.tables[i].name.clone());
            i += 1;
        }
        out
    }

    /// Declares an index named `index_name` over `table_name`, keyed by the
    /// `key` columns of `schema`. The key schema is the filtered, compacted
    /// sub-schema; the index structure starts empty. `None` exactly when the
    /// table is missing, the index name is already registered on it, or a
    /// table of that name exists.
    pub fn create_index(
        &mut self,
        index_name: &String,
        table_name: &String,
        index_ty: IndexType,
        schema: &Schema,
        key: &Vec<String>,
    ) -> (r: Option<OId>)
        requires
            old(self).inv(),
            old(self).indexes@.len() < u32::MAX,
            schema.wf(),
            index_ty is BTree,
        ensures
            final(self).inv(),
            final(self).tables == old(self).tables,
            match r {
                Some(oid) => {
                    &&& !old(self).has_table(index_name@)
                    &&& old(self).has_table(table_name@)
                    &&& !old(self).has_index_on(table_name@, index_name@)
                    &&& final(self).has_index_on(table_name@, index_name@)
                    &&& oid == old(self).indexes@.len()
                    &&& final(self).indexes@.len() == old(self).indexes@.len() + 1
                    &&& final(self).indexes@.last().name@ == index_name@
                    &&& final(self).indexes@.last().root == NO_PAGE
                    &&& forall|i: int|
                        0 <= i < old(self).indexes@.len() ==> #[trigger] final(self).indexes@[i]
                            == old(self).indexes@[i]
                },
                None => {
                    &&& (old(self).has_table(index_name@) || !old(self).has_table(table_name@)
                        || old(self).has_index_on(table_name@, index_name@))
                    &&& *final(self) == *old(self)
                },
            },
    {
        // A table may not share its name with the new index.
        match self.find_table_index(index_name) {
            Some(_) => {
                return None;
            },
            None => {},
        }
        let t = match self.find_table_index(table_name) {
            Some(i) => i,
            None => {
                return None;
            },
        };
        // The index name must be free on this table.
        let bucket_len = self.index_names[t].1.len();
        let mut c: usize = 0;
        let mut taken = false;
        while c < bucket_len
            invariant
                self.inv(),
                c <= bucket_len,
                t < self.index_names@.len(),
                t < self.tables@.len(),
                self.tables@[t as int].name@ == table_name@,
                bucket_len == self.index_names@[t as int].1@.len(),
                taken ==> exists|c2: int|
                    0 <= c2 < bucket_len && (#[trigger] self.index_names@[t as int].1@[c2]).0@
                        == index_name@,
                !taken ==> forall|c2: int|
                    0 <= c2 < c ==> (#[trigger] self.index_names@[t as int].1@[c2]).0@
                        != index_name@,
            decreases bucket_len - c,
        {
            if self.index_names[t].1[c].0.eq(index_name) {
                taken = true;
            }
            c += 1;
        }
        proof {
            // The found bucket is the only one for this table name: buckets
            // carry their table's name, and table names are unique.
            assert forall|t2: int, c2: int|
                0 <= t2 < self.index_names@.len() && 0 <= c2 < self.index_names@[t2].1@.len() && (
                #[trigger] self.index_names@[t2].1@[c2]).0@ == index_name@
                    && self.index_names@[t2].0@ == table_name@ implies t2 == t by {
                if t2 != t {
                    assert(self.tables@[t2].name@ == self.index_names@[t2].0@);
                    assert(self.tables@[t2].name@ != self.tables@[t as int].name@);
                }
            }
            assert(taken == self.has_index_on(table_name@, index_name@));
        }
        if taken {
            return None;
        }

        // Key-tuple schema with the table's offsets, then compacted for the
        // index's own dense layout.
        let tuple_schema = schema.filter(key);
        let index_schema = tuple_schema.compact();

        // The structure starts empty; its pages appear as entries are added.
        let root: PageId = NO_PAGE;

        let oid = self.next_index_oid;
        let ghost pre = self.index_names@;
        let bucket = &mut self.index_names[t].1;
        bucket.push((index_name.clone(), oid));
        proof {
            assert forall|i: int|
                0 <= i < self.index_names@.len() implies (#[trigger] self.index_names@[i]).0@
                == self.tables@[i].name@ by {
                if i != t {
                    assert(self.index_names@[i] == pre[i]);
                }
            }
        }
        self.indexes.push(
            IndexInfo {
                name: index_name.clone(),
                schema: index_schema,
                oid,
                index_ty,
                root,
            },
        );
        self.next_index_oid = oid + 1;
        proof {
            let bucket = self.index_names@[t as int].1@;
            assert(bucket[bucket.len() - 1].0@ == index_name@);
            assert(self.index_names@[t as int].0@ == table_name@);
            assert(self.has_index_on(table_name@, index_name@));
        }
        Some(oid)
    }

    /// The index registered as `index_name` on `table_name`, if any.
    pub fn get_index(&self, table_name: &String, index_name: &String) -> (r: Option<&IndexInfo>)
        requires
            self.inv(),
        ensures
            match r {
                Some(ix) => ix.name@ == index_name@ && exists|i: int|
                    0 <= i < self.indexes@.len() && *ix == self.indexes@[i],
                None => true,
            },
    {
        let t = match self.find_table_index(table_name) {
            Some(i) => i,
            None => {
                return None;
            },
        };
        let bucket_len = self.index_names[t].1.len();
        let mut c: usize = 0;
        while c < bucket_len
            invariant
                self.inv(),
                c <= bucket_len,
                t < self.index_names@.len(),
                bucket_len == self.index_names@[t as int].1@.len(),
            decreases bucket_len - c,
        {
            if self.index_names[t].1[c].0.eq(index_name) {
                let oid = self.index_names[t].1[c].1;
                let r = self.get_index_by_oid(oid);
                match r {
                    Some(ix) => {
                        if ix.name.eq(index_name) {
                            return Some(ix);
                        } else {
                            return None;
                        }
                    },
                    None => {
                        return None;
                    },
                }
            }
            c += 1;
        }
        None
    }

    /// The index with id `oid`, if one was created.
    pub fn get_index_by_oid(&self, oid: OId) -> (r: Option<&IndexInfo>)
        requires
            self.inv(),
        ensures
            match r {
                Some(ix) => oid < self.indexes@.len() && *ix == self.indexes@[oid as int],
                None => oid >= self.indexes@.len(),
            },
    {
        if (oid as usize) < self.indexes.len() {
            Some(&self.indexes[oid as usize])
        } else {
            None
        }
    }

    /// Every registered index, in creation order.
    pub fn list_indexes(&self) -> (r: Vec<&IndexInfo>)
        ensures
            r@.len() == self.indexes@.len(),
            forall|i: int| 0 <= i < r@.len() ==> *(#[trigger] r@[i]) == self.indexes@[i],
    {
        let mut out: Vec<&IndexInfo> = Vec::new();
        let mut i: usize = 0;
        while i < self.indexes.len()
            invariant
                i <= self.indexes@.len(),
                out@.len() == i,
                forall|j: int| 0 <= j < i ==> *(#[trigger] out@[j]) == self.indexes@[j],
            decreases self.indexes@.len() - i,
        {
            out.push(&self.indexes[i]);
            i += 1;
        }
        out
    }
}

} // verus!
