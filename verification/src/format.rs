//! The storage status line the pass publishes: used and allowed bytes
//! in human units, with the infinity sign for an unlimited account.

use vstd::prelude::*;

verus! {

/// The human rendering of a byte count in the appropriate binary unit,
/// as `byte_unit` formats it. It depends on the count alone.
pub uninterp spec fn human_size_of(n: u64) -> Seq<char>;

/// Relies on byte_unit::Byte::get_appropriate_unit with binary units:
/// the rendering of a byte count, a pure function of the count.
#[verifier::external_body]
fn human_size(n: u64) -> (r: String)
    ensures
        r@ == human_size_of(n),
{
    byte_unit::Byte::from_u64(n).get_appropriate_unit(byte_unit::UnitType::Binary).to_string()
}

/// The status line spec: `<used> / <quota> used`, with `∞` for an
/// unlimited quota.
pub open spec fn storage_line_of(used: u64, quota: Option<u64>) -> Seq<char> {
    human_size_of(used) + " / "@ + (match quota {
        Some(q) => human_size_of(q),
        None => "∞"@,
    }) + " used"@
}

/// Render the storage status line for an account.
pub fn storage_status_line(used: u64, quota: Option<u64>) -> (r: String)
    ensures
        r@ == storage_line_of(used, quota),
{
    let mut out = human_size(used);
    out.append(" / ");
    match quota {
        Some(q) => {
            let m = human_size(q);
            out.append(m.as_str());
        }
        None => {
            out.append("∞");
        }
    }
    out.append(" used");
    out
}

} // verus!
