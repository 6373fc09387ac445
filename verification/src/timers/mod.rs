pub mod hpet;
pub mod lapic;
use vstd::prelude::*;
verus! {
}
