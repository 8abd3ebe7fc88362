use vstd::prelude::*;

verus! {

/// Marker for the delta-lake table provider. The catalog layer registers
/// its provider factory under the table type this marker names; the
/// scheduler core only needs the name to route `CREATE EXTERNAL TABLE`
/// statements of that type.
pub struct DeltaTableFactory {}

impl DeltaTableFactory {
    pub fn new() -> (r: Self) {
        DeltaTableFactory {  }
    }

    /// The table type this factory serves.
    pub fn table_type(&self) -> (r: String)
        ensures
            r@ == "DELTATABLE"@,
    {
        "DELTATABLE".to_owned()
    }
}

} // verus!
