use aerospike::index_types::{CollectionIndexType, IndexType};

#[test]
fn index_type_names() {
    assert_eq!(IndexType::Numeric.to_string(), "NUMERIC");
    assert_eq!(IndexType::String.to_string(), "STRING");
    assert_eq!(IndexType::Geo2DSphere.to_string(), "GEO2DSPHERE");
}

#[test]
fn collection_index_type_names() {
    assert_eq!(CollectionIndexType::List.to_string(), "LIST");
    assert_eq!(CollectionIndexType::MapKeys.to_string(), "MAPKEYS");
    assert_eq!(CollectionIndexType::MapValues.to_string(), "MAPVALUES");
}
