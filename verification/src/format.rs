//! Text of the displayed values that are whole numbers.

use vstd::prelude::*;
use crate::text::{dec, dec_string};

verus! {

/// A fan speed: "1200 rpm".
pub fn fmt_rpm(v: u32) -> (r: String)
    ensures
        r@ == dec(v as nat) + " rpm"@,
{
    let mut r = dec_string(v as u64);
    r.append(" rpm");
    r
}

} // verus!
