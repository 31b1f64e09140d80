//! Watches source repositories for new release tags and decides, once per
//! polling cycle, which remote workflow dispatches are due.
//!
//! The crate holds the reconciliation core: the configuration model with
//! trigger resolution, the record of last-seen tags, and the engine that
//! compares fresh observations against the record. All network and file
//! traffic stays outside; the core works on plain values handed in.

use vstd::prelude::*;

pub mod config;
pub mod engine;
pub mod record;

verus! {

/// Compares two string slices by contents.
pub fn str_eq(a: &str, b: &str) -> (r: bool)
    ensures
        r == (a@ == b@),
{
    let x: String = a.to_owned();
    let y: String = b.to_owned();
    x.eq(&y)
}

} // verus!
