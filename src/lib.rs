use vstd::prelude::*;

pub mod db;
pub mod oui;
pub mod refresh;

verus! {

} // verus!
