//! The texts the library writes: a triangle's key, and the line that
//! reports the winner of a reaction.
use vstd::prelude::*;
use crate::decimal::{
    computable, decimal_repr, decimal_to_text, decimal_with_scale, is_computable, rescaled, written,
};
use crate::reaction::EarnSortedData;
use crate::triangle::TriangleKey;

verus! {

/// The fractional digits a final amount is reported with.
pub const DISPLAY_SCALE: i64 = 6;

/// The text that Rust's `Debug` writes for a key with these four strings.
pub uninterp spec fn debug_text(a: Seq<char>, b: Seq<char>, c: Seq<char>, d: Seq<char>) -> Seq<char>;

/// `format!("{:?}", key)`: the key as `Debug` writes it, under its name.
#[verifier::external_body]
fn key_debug(key: &TriangleKey) -> (r: String)
    ensures
        r@ == debug_text(key.a@, key.b@, key.c@, key.d@),
{
    format!("{:?}", key)
}

/// A key written out: `TriangleKey(a: .., b: .., c: .., d: ..)`.
pub open spec fn key_text(a: Seq<char>, b: Seq<char>, c: Seq<char>, d: Seq<char>) -> Seq<char> {
    "TriangleKey(a: "@ + a + ", b: "@ + b + ", c: "@ + c + ", d: "@ + d + ")"@
}

impl TriangleKey {
    /// The key written out.
    pub fn to_text(&self) -> (r: String)
        ensures
            r@ == key_text(self.a@, self.b@, self.c@, self.d@),
    {
        let mut out = String::from_str("TriangleKey(a: ");
        out.append(self.a.as_str());
        out.append(", b: ");
        out.append(self.b.as_str());
        out.append(", c: ");
        out.append(self.c.as_str());
        out.append(", d: ");
        out.append(self.d.as_str());
        out.append(")");
        out
    }
}

/// The line that reports a winner: the process identifier, the time, the
/// key, the final amount with six fractional digits and the earn.
pub open spec fn line_text(
    uid: Seq<char>,
    time: Seq<char>,
    key: Seq<char>,
    final_amount: (int, int),
    earn: (int, int),
) -> Seq<char> {
    uid + "  "@ + time + " MAX -> "@ + key + ", Final Amount: "@ + written(
        rescaled(final_amount, DISPLAY_SCALE as int),
    ) + ", Earn: "@ + written(earn) + "\n"@
}

/// The line that reports `found`, for the process `uid` at the time
/// `time`. Nothing where an amount has a scale the library does not
/// compute with.
pub fn opportunity_line(uid: &str, time: &str, found: &EarnSortedData) -> (r: Option<String>)
    ensures
        r is Some <==> computable(decimal_repr(found.final_amount)) && computable(
            decimal_repr(found.earn),
        ),
        r is Some ==> r->Some_0@ == line_text(
            uid@,
            time@,
            debug_text(
                found.triangle_key.a@,
                found.triangle_key.b@,
                found.triangle_key.c@,
                found.triangle_key.d@,
            ),
            decimal_repr(found.final_amount),
            decimal_repr(found.earn),
        ),
{
    if !is_computable(&found.final_amount) || !is_computable(&found.earn) {
        return None;
    }
    let shown = decimal_with_scale(&found.final_amount, DISPLAY_SCALE);
    let mut out = String::from_str(uid);
    out.append("  ");
    out.append(time);
    out.append(" MAX -> ");
    out.append(key_debug(&found.triangle_key).as_str());
    out.append(", Final Amount: ");
    out.append(decimal_to_text(&shown).as_str());
    out.append(", Earn: ");
    out.append(decimal_to_text(&found.earn).as_str());
    out.append("\n");
    Some(out)
}

} // verus!
