pub mod codec;
pub mod error;
pub mod laws;
pub mod order;
pub mod page;
pub mod query;
pub mod row;
pub mod storage;
pub mod table;
pub mod value;

use vstd::prelude::*;

verus! {

} // verus!
