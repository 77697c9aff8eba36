//! Kinds of secondary index.
use vstd::prelude::*;

verus! {

/// What a secondary index orders its entries by.
#[derive(Debug, Clone, PartialEq, Eq, Structural)]
pub enum IndexType {
    Numeric,
    String,
    Geo2DSphere,
}

/// Which part of a collection bin a secondary index covers.
#[derive(Debug, Clone, PartialEq, Eq, Structural)]
pub enum CollectionIndexType {
    Default,
    List,
    MapKeys,
    MapValues,
}

/// The name of an index type.
pub open spec fn index_type_name(t: IndexType) -> Seq<char> {
    match t {
        IndexType::Numeric => "NUMERIC"@,
        IndexType::String => "STRING"@,
        IndexType::Geo2DSphere => "GEO2DSPHERE"@,
    }
}

/// The name of a collection index type; `Default` has none.
pub open spec fn collection_index_type_name(t: CollectionIndexType) -> Seq<char> {
    match t {
        CollectionIndexType::Default => Seq::empty(),
        CollectionIndexType::List => "LIST"@,
        CollectionIndexType::MapKeys => "MAPKEYS"@,
        CollectionIndexType::MapValues => "MAPVALUES"@,
    }
}

impl IndexType {
    /// The name that the server knows this index type by.
    pub fn to_string(&self) -> (r: String)
        ensures
            r@ == index_type_name(*self),
    {
        match self {
            IndexType::Numeric => "NUMERIC".to_owned(),
            IndexType::String => "STRING".to_owned(),
            IndexType::Geo2DSphere => "GEO2DSPHERE".to_owned(),
        }
    }
}

impl CollectionIndexType {
    /// The name that the server knows this collection index type by.
    pub fn to_string(&self) -> (r: String)
        requires
            *self != CollectionIndexType::Default,
        ensures
            r@ == collection_index_type_name(*self),
    {
        match self {
            CollectionIndexType::Default => unreached(),
            CollectionIndexType::List => "LIST".to_owned(),
            CollectionIndexType::MapKeys => "MAPKEYS".to_owned(),
            CollectionIndexType::MapValues => "MAPVALUES".to_owned(),
        }
    }
}

} // verus!
