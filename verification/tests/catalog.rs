use pagedb::catalog::{Catalog, Column, IndexType, Schema, Type};
use pagedb::page::NO_PAGE;

fn sample_schema() -> Schema {
    Schema::from_pairs(vec![
        (String::from("col_a"), Type::Int),
        (String::from("col_b"), Type::Varchar),
        (String::from("col_c"), Type::BigInt),
    ])
}

#[test]
fn type_sizes() {
    assert_eq!(Type::TinyInt.size(), 1);
    assert_eq!(Type::Bool.size(), 1);
    assert_eq!(Type::Int.size(), 4);
    assert_eq!(Type::BigInt.size(), 8);
    assert_eq!(Type::Varchar.size(), 4);
    let c = Column {
        name: String::from("c"),
        ty: Type::BigInt,
        offset: 0,
    };
    assert_eq!(c.size(), 8);
}

#[test]
fn schema_layout() {
    let schema = sample_schema();
    assert_eq!(schema.len(), 3);
    assert_eq!(schema.size(), 16);
    let cols = schema.columns();
    assert_eq!(cols[0].offset, 0);
    assert_eq!(cols[1].offset, 4);
    assert_eq!(cols[2].offset, 8);
    assert_eq!(Schema::empty().len(), 0);
    assert_eq!(Schema::empty().size(), 0);
}

#[test]
fn schema_filter_and_compact() {
    let schema = sample_schema();
    let key = vec![String::from("col_a"), String::from("col_c")];
    let filtered = schema.filter(&key);
    assert_eq!(filtered.len(), 2);
    assert_eq!(filtered.size(), 12);
    // Filtering keeps the table's offsets; compacting reassigns them densely.
    assert_eq!(filtered.columns()[1].offset, 8);
    let compacted = filtered.compact();
    assert_eq!(compacted.columns()[0].offset, 0);
    assert_eq!(compacted.columns()[1].offset, 4);
    assert_eq!(compacted.size(), 12);

    let it = schema.iter();
    assert_eq!(it.len(), 3);
    assert_eq!(it[2].name, "col_c");
}

#[test]
fn catalog_tables_and_indexes() {
    let mut catalog = Catalog::new();
    let schema = sample_schema();

    let oid = catalog
        .create_table(&String::from("table_a"), schema.clone())
        .expect("table_a should be created");
    assert_eq!(oid, 0);
    // A second table under the same name is refused.
    assert!(catalog
        .create_table(&String::from("table_a"), schema.clone())
        .is_none());

    let info = catalog
        .get_table_by_name(&String::from("table_a"))
        .expect("table_a should exist");
    assert_eq!(info.oid, 0);
    assert_eq!(info.schema.len(), 3);
    assert!(catalog.get_table_by_oid(0).is_some());
    assert!(catalog.get_table_by_oid(1).is_none());
    assert_eq!(catalog.list_tables(), vec![String::from("table_a")]);

    let key = vec![String::from("col_a"), String::from("col_c")];
    let ix_oid = catalog
        .create_index(
            &String::from("index_a"),
            &String::from("table_a"),
            IndexType::BTree,
            &schema,
            &key,
        )
        .expect("index_a should be created");
    assert_eq!(ix_oid, 0);

    let index = catalog
        .get_index(&String::from("table_a"), &String::from("index_a"))
        .expect("index_a should exist");
    assert_eq!(index.name, "index_a");
    assert_eq!(index.root, NO_PAGE);
    assert_eq!(index.schema.len(), 2);
    assert!(catalog.get_index_by_oid(0).is_some());
    assert_eq!(catalog.list_indexes().len(), 1);

    // The same index name on the same table is refused.
    assert!(catalog
        .create_index(
            &String::from("index_a"),
            &String::from("table_a"),
            IndexType::BTree,
            &schema,
            &key,
        )
        .is_none());
    // An index over a missing table is refused.
    assert!(catalog
        .create_index(
            &String::from("index_b"),
            &String::from("table_b"),
            IndexType::BTree,
            &schema,
            &key,
        )
        .is_none());
}
