//! The order in which symbols are sorted: character by character, a string
//! before every longer string it begins.
use vstd::prelude::*;
use crate::text::chars_of;

verus! {

/// Whether `a` stands before `b`, both read from character `from` on.
pub open spec fn before_from(a: Seq<char>, b: Seq<char>, from: int) -> bool
    decreases a.len() - from,
{
    if from < 0 || from >= b.len() {
        false
    } else if from >= a.len() {
        true
    } else if a[from] != b[from] {
        a[from] < b[from]
    } else {
        before_from(a, b, from + 1)
    }
}

/// Whether `a` stands before `b`.
pub open spec fn before(a: Seq<char>, b: Seq<char>) -> bool {
    before_from(a, b, 0)
}

proof fn lemma_never_before_itself(a: Seq<char>, from: int)
    requires
        0 <= from,
    ensures
        !before_from(a, a, from),
    decreases a.len() - from,
{
    if from < a.len() {
        lemma_never_before_itself(a, from + 1);
    }
}

proof fn lemma_one_way(a: Seq<char>, b: Seq<char>, from: int)
    requires
        0 <= from,
        before_from(a, b, from),
    ensures
        !before_from(b, a, from),
    decreases a.len() - from,
{
    if from < a.len() && from < b.len() && a[from] == b[from] {
        lemma_one_way(a, b, from + 1);
    }
}

proof fn lemma_neither_means_same(a: Seq<char>, b: Seq<char>, from: int)
    requires
        0 <= from,
        !before_from(a, b, from),
        !before_from(b, a, from),
    ensures
        a.len() <= from && b.len() <= from || a.len() == b.len(),
        forall|j: int| from <= j < a.len() ==> a[j] == b[j],
    decreases a.len() - from,
{
    if from < a.len() && from < b.len() {
        if a[from] != b[from] {
            assert(a[from] < b[from] || b[from] < a[from]);
        }
        lemma_neither_means_same(a, b, from + 1);
        assert forall|j: int| from <= j < a.len() implies a[j] == b[j] by {
            if j > from {
            }
        }
    }
}

proof fn lemma_chain(a: Seq<char>, b: Seq<char>, c: Seq<char>, from: int)
    requires
        0 <= from,
        before_from(a, b, from),
        before_from(b, c, from),
    ensures
        before_from(a, c, from),
    decreases a.len() - from,
{
    if from < a.len() && from < b.len() && from < c.len() {
        if a[from] == b[from] && b[from] == c[from] {
            lemma_chain(a, b, c, from + 1);
        }
    }
}

/// No string stands before itself.
pub proof fn lemma_before_is_strict(a: Seq<char>)
    ensures
        !before(a, a),
{
    lemma_never_before_itself(a, 0);
}

/// Of two different strings exactly one stands before the other.
pub proof fn lemma_before_is_total(a: Seq<char>, b: Seq<char>)
    ensures
        a != b ==> (before(a, b) || before(b, a)),
        before(a, b) ==> !before(b, a),
{
    if before(a, b) {
        lemma_one_way(a, b, 0);
    }
    if !before(a, b) && !before(b, a) {
        lemma_neither_means_same(a, b, 0);
        assert(a =~= b);
    }
}

/// What stands before a string stands before everything the string stands
/// before.
pub proof fn lemma_before_is_transitive(a: Seq<char>, b: Seq<char>, c: Seq<char>)
    requires
        before(a, b),
        before(b, c),
    ensures
        before(a, c),
{
    lemma_chain(a, b, c, 0);
}

/// Whether `a` stands before `b`.
pub fn stands_before(a: &str, b: &str) -> (r: bool)
    ensures
        r == before(a@, b@),
{
    let x = chars_of(a);
    let y = chars_of(b);
    let mut i: usize = 0;
    loop
        invariant
            i <= x.len(),
            i <= y.len(),
            x@ == a@,
            y@ == b@,
            before(a@, b@) == before_from(a@, b@, i as int),
        decreases x.len() - i,
    {
        if i >= y.len() {
            return false;
        }
        if i >= x.len() {
            return true;
        }
        if x[i] != y[i] {
            return x[i] < y[i];
        }
        i += 1;
    }
}

} // verus!
