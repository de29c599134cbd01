//! The identifier a process gives itself: letters and digits drawn at
//! random, by the `rand` crate.
use vstd::prelude::*;
use rand::Rng;

verus! {

/// `Rng::gen_range` on the thread's generator, over `0..bound`: some
/// number below `bound`, a different one from call to call. The crate
/// panics on an empty range.
#[verifier::external_body]
fn random_below(bound: usize) -> (r: usize)
    requires
        bound > 0,
    ensures
        r < bound,
{
    rand::thread_rng().gen_range(0..bound)
}

/// The characters an identifier is drawn from.
pub open spec fn alphabet() -> Seq<char> {
    "abcdefghijklmnopqrstuvwxyzABCDEFGHIJKLMNOPQRSTUVWXYZ0123456789"@
}

/// An identifier of `length` characters, each a letter or a digit.
pub fn generate_random_id(length: usize) -> (r: String)
    ensures
        r@.len() == length,
        forall|i: int| 0 <= i < length ==> alphabet().contains(#[trigger] r@[i]),
{
    let chars = "abcdefghijklmnopqrstuvwxyzABCDEFGHIJKLMNOPQRSTUVWXYZ0123456789";
    proof {
        reveal_strlit("abcdefghijklmnopqrstuvwxyzABCDEFGHIJKLMNOPQRSTUVWXYZ0123456789");
    }
    let n = chars.unicode_len();
    let mut id = String::new();
    let mut i: usize = 0;
    while i < length
        invariant
            i <= length,
            chars@ == alphabet(),
            n == chars@.len(),
            n > 0,
            id@.len() == i,
            forall|k: int| 0 <= k < i ==> alphabet().contains(#[trigger] id@[k]),
        decreases length - i,
    {
        let at = random_below(n);
        let ghost before = id@;
        id.append(chars.substring_char(at, at + 1));
        proof {
            assert(id@ =~= before.push(chars@[at as int]));
            assert forall|k: int| 0 <= k < i + 1 implies alphabet().contains(#[trigger] id@[k]) by {
                if k < i {
                    assert(id@[k] == before[k]);
                } else {
                    assert(alphabet()[at as int] == id@[k]);
                }
            }
        }
        i += 1;
    }
    id
}

} // verus!
