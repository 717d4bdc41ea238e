//! The mutable domain entity: a single row of the backing table, identified
//! by an integer primary key and a unique name, carrying an exact decimal
//! percentage.  Records are created and destroyed outside this crate; a
//! boundary call only ever loads one, changes one field, and hands it back
//! for persisting.

use vstd::prelude::*;
use crate::decimal::Decimal;

verus! {

#[derive(Clone, Debug, PartialEq, Eq)]
pub struct Record {
    pub id: i32,
    pub name: String,
    pub percentage: Decimal,
}

impl Record {
    pub open spec fn wf(self) -> bool {
        self.percentage.wf()
    }
}

} // verus!
