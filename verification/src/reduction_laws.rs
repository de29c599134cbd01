//! What holds of the reduction of cycles to triangles.
use vstd::prelude::*;
use crate::lexical::{before, lemma_before_is_strict, lemma_before_is_total, lemma_before_is_transitive};
use crate::reduction::{
    appears, canonical, canonical_all, differences, first_occurrences, outside, placed, slot,
};

verus! {

/// Whether every symbol of the list stands before all that follow it.
pub open spec fn is_rising(s: Seq<Seq<char>>) -> bool {
    forall|i: int, j: int| 0 <= i < j < s.len() ==> before(#[trigger] s[i], #[trigger] s[j])
}

proof fn lemma_slot(sorted: Seq<Seq<char>>, x: Seq<char>, from: int)
    requires
        0 <= from <= sorted.len(),
    ensures
        from <= slot(sorted, x, from) <= sorted.len(),
        forall|j: int| from <= j < slot(sorted, x, from) ==> before(#[trigger] sorted[j], x),
        slot(sorted, x, from) < sorted.len() ==> !before(sorted[slot(sorted, x, from)], x),
    decreases sorted.len() - from,
{
    if from < sorted.len() && before(sorted[from], x) {
        lemma_slot(sorted, x, from + 1);
    }
}

proof fn lemma_slot_past(sorted: Seq<Seq<char>>, x: Seq<char>, from: int)
    requires
        0 <= from <= sorted.len(),
        forall|j: int| from <= j < sorted.len() ==> before(#[trigger] sorted[j], x),
    ensures
        slot(sorted, x, from) == sorted.len(),
    decreases sorted.len() - from,
{
    if from < sorted.len() {
        lemma_slot_past(sorted, x, from + 1);
    }
}

proof fn lemma_placed(sorted: Seq<Seq<char>>, x: Seq<char>)
    requires
        is_rising(sorted),
    ensures
        is_rising(placed(sorted, x)),
        forall|s: Seq<char>| #[trigger] placed(sorted, x).contains(s) <==> (sorted.contains(s) || s == x),
{
    lemma_slot(sorted, x, 0);
    let k = slot(sorted, x, 0);
    let next = placed(sorted, x);
    if k < sorted.len() && sorted[k] == x {
        assert(sorted.contains(x));
    } else {
        assert(next == sorted.insert(k, x));
        if k < sorted.len() {
            lemma_before_is_total(sorted[k], x);
            assert(before(x, sorted[k]));
        }
        assert forall|i: int, j: int| 0 <= i < j < next.len() implies before(
            #[trigger] next[i],
            #[trigger] next[j],
        ) by {
            if j < k {
                assert(next[i] == sorted[i] && next[j] == sorted[j]);
            } else if j == k {
                assert(next[i] == sorted[i] && next[j] == x);
            } else if i < k {
                assert(next[i] == sorted[i] && next[j] == sorted[j - 1]);
            } else if i == k {
                assert(next[i] == x && next[j] == sorted[j - 1]);
                if j - 1 > k {
                    assert(before(sorted[k], sorted[j - 1]));
                    lemma_before_is_transitive(x, sorted[k], sorted[j - 1]);
                }
            } else {
                assert(next[i] == sorted[i - 1] && next[j] == sorted[j - 1]);
            }
        }
        assert forall|s: Seq<char>| #[trigger] next.contains(s) <==> (sorted.contains(s) || s == x) by {
            if next.contains(s) {
                let i = choose|i: int| 0 <= i < next.len() && next[i] == s;
                if i < k {
                    assert(sorted[i] == s);
                } else if i > k {
                    assert(sorted[i - 1] == s);
                }
            }
            if sorted.contains(s) {
                let i = choose|i: int| 0 <= i < sorted.len() && sorted[i] == s;
                if i < k {
                    assert(next[i] == s);
                } else {
                    assert(next[i + 1] == s);
                }
            }
            if s == x {
                assert(next[k] == s);
            }
        }
    }
}

/// A canonical form is in rising order, so it holds no symbol twice, and
/// it holds exactly the symbols of the list it was made from.
pub proof fn lemma_canonical_form(path: Seq<Seq<char>>, upto: int)
    requires
        0 <= upto <= path.len(),
    ensures
        is_rising(canonical(path, upto)),
        forall|s: Seq<char>| #[trigger] canonical(path, upto).contains(s) <==> path.take(upto).contains(s),
    decreases upto,
{
    if upto > 0 {
        lemma_canonical_form(path, upto - 1);
        let earlier = canonical(path, upto - 1);
        let x = path[upto - 1];
        lemma_placed(earlier, x);
        let now = canonical(path, upto);
        assert forall|s: Seq<char>| #[trigger] now.contains(s) <==> path.take(upto).contains(s) by {
            let short = path.take(upto - 1);
            let long = path.take(upto);
            if short.contains(s) {
                let i = choose|i: int| 0 <= i < short.len() && short[i] == s;
                assert(long[i] == s);
            }
            if long.contains(s) {
                let i = choose|i: int| 0 <= i < long.len() && long[i] == s;
                if i < upto - 1 {
                    assert(short[i] == s);
                }
            }
            if s == x {
                assert(long[upto - 1] == s);
            }
        }
    } else {
        assert forall|s: Seq<char>| #[trigger] canonical(path, upto).contains(s) <==> path.take(upto).contains(
            s,
        ) by {
            assert(path.take(upto).len() == 0);
        }
    }
}

/// The canonical form of a list in rising order is the list itself.
pub proof fn lemma_canonical_of_rising(s: Seq<Seq<char>>, upto: int)
    requires
        is_rising(s),
        0 <= upto <= s.len(),
    ensures
        canonical(s, upto) == s.take(upto),
    decreases upto,
{
    if upto > 0 {
        lemma_canonical_of_rising(s, upto - 1);
        let earlier = s.take(upto - 1);
        let x = s[upto - 1];
        assert forall|j: int| 0 <= j < earlier.len() implies before(#[trigger] earlier[j], x) by {
            assert(earlier[j] == s[j]);
        }
        lemma_slot_past(earlier, x, 0);
        assert(earlier.insert(upto - 1, x) =~= s.take(upto));
    } else {
        assert(s.take(0) =~= Seq::<Seq<char>>::empty());
    }
}

/// Canonicalization done twice gives what it gives done once.
pub proof fn lemma_canonical_is_idempotent(paths: Seq<Seq<Seq<char>>>)
    ensures
        canonical_all(canonical_all(paths)) == canonical_all(paths),
{
    let once = canonical_all(paths);
    let twice = canonical_all(once);
    assert forall|i: int| 0 <= i < once.len() implies #[trigger] twice[i] == once[i] by {
        lemma_canonical_form(paths[i], paths[i].len() as int);
        lemma_canonical_of_rising(once[i], once[i].len() as int);
        assert(once[i].take(once[i].len() as int) =~= once[i]);
    }
    assert(twice =~= once);
}

/// What is left when repeated lists are dropped holds no list twice and
/// every list that there was.
pub proof fn lemma_first_occurrences(cycles: Seq<Seq<Seq<char>>>, upto: int)
    requires
        0 <= upto <= cycles.len(),
    ensures
        first_occurrences(cycles, upto).no_duplicates(),
        forall|c: Seq<Seq<char>>| #[trigger]
            first_occurrences(cycles, upto).contains(c) <==> cycles.take(upto).contains(c),
    decreases upto,
{
    let now = first_occurrences(cycles, upto);
    if upto > 0 {
        lemma_first_occurrences(cycles, upto - 1);
        let earlier = first_occurrences(cycles, upto - 1);
        let x = cycles[upto - 1];
        let short = cycles.take(upto - 1);
        let long = cycles.take(upto);
        assert forall|c: Seq<Seq<char>>| #[trigger] now.contains(c) <==> long.contains(c) by {
            if now.contains(c) {
                let i = choose|i: int| 0 <= i < now.len() && now[i] == c;
                if i < earlier.len() {
                    assert(earlier[i] == c);
                    assert(earlier.contains(c));
                    let k = choose|k: int| 0 <= k < short.len() && short[k] == c;
                    assert(long[k] == c);
                } else {
                    assert(long[upto - 1] == c);
                }
            }
            if long.contains(c) {
                let k = choose|k: int| 0 <= k < long.len() && long[k] == c;
                if k < upto - 1 {
                    assert(short[k] == c);
                    assert(earlier.contains(c));
                    let i = choose|i: int| 0 <= i < earlier.len() && earlier[i] == c;
                    assert(now[i] == c);
                } else if earlier.contains(x) {
                } else {
                    assert(now[earlier.len() as int] == c);
                }
            }
        }
        if !earlier.contains(x) {
            assert forall|i: int, j: int| 0 <= i < now.len() && 0 <= j < now.len() && i != j implies now[i]
                != now[j] by {
                if i < earlier.len() && j < earlier.len() {
                    assert(now[i] == earlier[i] && now[j] == earlier[j]);
                } else if i < earlier.len() {
                    assert(now[i] == earlier[i]);
                } else {
                    assert(now[j] == earlier[j]);
                }
            }
        }
    } else {
        assert forall|c: Seq<Seq<char>>| #[trigger] now.contains(c) <==> cycles.take(upto).contains(c) by {
            assert(cycles.take(upto).len() == 0);
        }
    }
}

/// Where no list stands twice, dropping repeated lists changes nothing.
pub proof fn lemma_nothing_to_drop(cycles: Seq<Seq<Seq<char>>>, upto: int)
    requires
        cycles.no_duplicates(),
        0 <= upto <= cycles.len(),
    ensures
        first_occurrences(cycles, upto) == cycles.take(upto),
    decreases upto,
{
    if upto > 0 {
        lemma_nothing_to_drop(cycles, upto - 1);
        let earlier = cycles.take(upto - 1);
        if earlier.contains(cycles[upto - 1]) {
            let i = choose|i: int| 0 <= i < earlier.len() && earlier[i] == cycles[upto - 1];
            assert(cycles[i] == cycles[upto - 1]);
        }
        assert(earlier.push(cycles[upto - 1]) =~= cycles.take(upto));
    } else {
        assert(cycles.take(0) =~= Seq::<Seq<Seq<char>>>::empty());
    }
}

/// The unique triangles of a set of cycles: every list in its canonical
/// form, each form kept once.
pub open spec fn unique_triangles(cycles: Seq<Seq<Seq<char>>>) -> Seq<Seq<Seq<char>>> {
    first_occurrences(canonical_all(cycles), cycles.len() as int)
}

/// The whole canonicalization, sorting and dropping of repeats, done twice
/// gives what it gives done once.
pub proof fn lemma_unique_triangles_are_final(cycles: Seq<Seq<Seq<char>>>)
    ensures
        unique_triangles(unique_triangles(cycles)) == unique_triangles(cycles),
{
    let forms = canonical_all(cycles);
    let once = unique_triangles(cycles);
    lemma_first_occurrences(forms, forms.len() as int);
    assert(forms.take(forms.len() as int) =~= forms);
    let again = canonical_all(once);
    assert forall|i: int| 0 <= i < once.len() implies #[trigger] again[i] == once[i] by {
        assert(once.contains(once[i]));
        assert(forms.contains(once[i]));
        let k = choose|k: int| 0 <= k < forms.len() && forms[k] == once[i];
        lemma_canonical_form(cycles[k], cycles[k].len() as int);
        lemma_canonical_of_rising(once[i], once[i].len() as int);
        assert(once[i].take(once[i].len() as int) =~= once[i]);
    }
    assert(again =~= once);
    lemma_nothing_to_drop(once, once.len() as int);
    assert(once.take(once.len() as int) =~= once);
}

proof fn lemma_outside(symbols: Seq<Seq<char>>, lists: Seq<Seq<Seq<char>>>, upto: int)
    requires
        0 <= upto <= symbols.len(),
    ensures
        forall|s: Seq<char>| #[trigger]
            outside(symbols, lists, upto).contains(s) <==> (symbols.take(upto).contains(s) && !appears(
                lists,
                s,
            )),
    decreases upto,
{
    let now = outside(symbols, lists, upto);
    if upto > 0 {
        lemma_outside(symbols, lists, upto - 1);
        let earlier = outside(symbols, lists, upto - 1);
        let x = symbols[upto - 1];
        let short = symbols.take(upto - 1);
        let long = symbols.take(upto);
        assert forall|s: Seq<char>| #[trigger] now.contains(s) <==> (long.contains(s) && !appears(lists, s)) by {
            if now.contains(s) {
                let i = choose|i: int| 0 <= i < now.len() && now[i] == s;
                if i < earlier.len() {
                    assert(earlier[i] == s);
                    assert(earlier.contains(s));
                    let k = choose|k: int| 0 <= k < short.len() && short[k] == s;
                    assert(long[k] == s);
                } else {
                    assert(long[upto - 1] == s);
                }
            }
            if long.contains(s) && !appears(lists, s) {
                let k = choose|k: int| 0 <= k < long.len() && long[k] == s;
                if k < upto - 1 {
                    assert(short[k] == s);
                    assert(earlier.contains(s));
                    let i = choose|i: int| 0 <= i < earlier.len() && earlier[i] == s;
                    assert(now[i] == s);
                } else {
                    assert(now[earlier.len() as int] == s);
                }
            }
        }
    } else {
        assert forall|s: Seq<char>| #[trigger] now.contains(s) <==> (symbols.take(upto).contains(s)
            && !appears(lists, s)) by {
            assert(symbols.take(upto).len() == 0);
        }
    }
}

/// The pairs told apart: a pair is among the differences exactly where its
/// symbol stands in no triangle, and what `clearing` keeps against the
/// differences are exactly the pairs whose symbol stands in some triangle.
pub proof fn lemma_clearing_complements_differences(symbols: Seq<Seq<char>>, need: Seq<Seq<Seq<char>>>)
    ensures
        forall|s: Seq<char>| #[trigger]
            appears(differences(symbols, need), s) <==> (symbols.contains(s) && !appears(need, s)),
        forall|s: Seq<char>| #[trigger]
            outside(symbols, differences(symbols, need), symbols.len() as int).contains(s) <==> (
            symbols.contains(s) && appears(need, s)),
{
    let n = symbols.len() as int;
    let left = outside(symbols, need, n);
    let diff = differences(symbols, need);
    lemma_outside(symbols, need, n);
    lemma_outside(symbols, diff, n);
    assert(symbols.take(n) =~= symbols);
    assert forall|s: Seq<char>| #[trigger] appears(diff, s) <==> (symbols.contains(s) && !appears(need, s)) by {
        if appears(diff, s) {
            let (i, j) = choose|i: int, j: int|
                0 <= i < diff.len() && 0 <= j < diff[i].len() && #[trigger] diff[i][j] == s;
            assert(diff[i] == seq![left[i]]);
            assert(left[i] == s);
            assert(left.contains(s));
        }
        if symbols.contains(s) && !appears(need, s) {
            assert(left.contains(s));
            let i = choose|i: int| 0 <= i < left.len() && left[i] == s;
            assert(diff[i] == seq![left[i]]);
            assert(diff[i][0] == s);
        }
    }
}

} // verus!
