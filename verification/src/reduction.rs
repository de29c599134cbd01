//! From raw cycles to unique triangles.
//!
//! Each cycle of currencies is resolved to the pair symbols along it, each
//! list of pair symbols is brought to its canonical form, sorted and without
//! repeats, and lists that have become equal are kept once. The pairs that
//! take part in no triangle, and those that do, are told apart at the end.
use vstd::prelude::*;
use crate::currency::{has_pair, pair_symbols, ParsedPairs};
use crate::lexical::{before, stands_before};
use crate::text::{copy_texts, join, same_text};

verus! {

/// The pair symbol that two neighbouring currencies resolve to: the first
/// followed by the second where that is a pair, else the second followed by
/// the first where that is one.
pub open spec fn resolve(clean: Seq<Seq<char>>, first: Seq<char>, second: Seq<char>) -> Option<
    Seq<char>,
> {
    if clean.contains(first + second) {
        Some(first + second)
    } else if clean.contains(second + first) {
        Some(second + first)
    } else {
        None
    }
}

/// The pair symbols along the first `upto` steps of `cycle`. The step after
/// the last currency leads to the first. A step that resolves to no pair
/// leaves nothing.
pub open spec fn resolved(cycle: Seq<Seq<char>>, clean: Seq<Seq<char>>, upto: int) -> Seq<Seq<char>>
    decreases upto,
{
    if upto <= 0 {
        Seq::empty()
    } else {
        let before = resolved(cycle, clean, upto - 1);
        match resolve(clean, cycle[upto - 1], cycle[upto % (cycle.len() as int)]) {
            Some(symbol) => before.push(symbol),
            None => before,
        }
    }
}

/// Every cycle resolved to its pair symbols.
pub open spec fn resolved_all(cycles: Seq<Seq<Seq<char>>>, clean: Seq<Seq<char>>) -> Seq<
    Seq<Seq<char>>,
> {
    Seq::new(cycles.len(), |i: int| resolved(cycles[i], clean, cycles[i].len() as int))
}

/// Resolves every cycle of currencies to the pair symbols along it.
pub fn re_cycles(cycles: &Vec<Vec<String>>, clean: &[ParsedPairs]) -> (r: Vec<Vec<String>>)
    ensures
        r.deep_view() == resolved_all(cycles.deep_view(), pair_symbols(clean@)),
{
    let ghost listed = pair_symbols(clean@);
    let mut result: Vec<Vec<String>> = Vec::new();
    let mut c: usize = 0;
    while c < cycles.len()
        invariant
            c <= cycles.len(),
            listed == pair_symbols(clean@),
            result.len() == c,
            forall|j: int|
                0 <= j < c ==> (#[trigger] result[j]).deep_view() == resolved(
                    cycles[j].deep_view(),
                    listed,
                    cycles[j].len() as int,
                ),
        decreases cycles.len() - c,
    {
        let cycle = &cycles[c];
        let len = cycle.len();
        let mut inner_result: Vec<String> = Vec::new();
        let mut i: usize = 0;
        while i < len
            invariant
                i <= len,
                len == cycle.len(),
                listed == pair_symbols(clean@),
                inner_result.deep_view() == resolved(cycle.deep_view(), listed, i as int),
            decreases len - i,
        {
            let first = cycle[i].as_str();
            let second = cycle[(i + 1) % len].as_str();
            assert(cycle.deep_view()[i as int] == first@);
            assert(cycle.deep_view()[(i + 1) % (len as int)] == second@);
            let concatenated = join(first, second);
            let reversed = join(second, first);
            let ghost so_far = inner_result.deep_view();
            if has_pair(clean, concatenated.as_str()) {
                inner_result.push(concatenated);
                assert(inner_result.deep_view() =~= so_far.push(first@ + second@));
            } else if has_pair(clean, reversed.as_str()) {
                inner_result.push(reversed);
                assert(inner_result.deep_view() =~= so_far.push(second@ + first@));
            }
            i += 1;
        }
        result.push(inner_result);
        c += 1;
    }
    assert(result.deep_view() =~= resolved_all(cycles.deep_view(), listed));
    result
}

/// The first position at or after `from` whose symbol does not stand
/// before `x`, or the length of the list where every symbol does.
pub open spec fn slot(sorted: Seq<Seq<char>>, x: Seq<char>, from: int) -> int
    decreases sorted.len() - from,
{
    if from < 0 || from >= sorted.len() {
        sorted.len() as int
    } else if !before(sorted[from], x) {
        from
    } else {
        slot(sorted, x, from + 1)
    }
}

/// The sorted list with `x` in its place, unless it holds `x` there
/// already.
pub open spec fn placed(sorted: Seq<Seq<char>>, x: Seq<char>) -> Seq<Seq<char>> {
    let k = slot(sorted, x, 0);
    if k < sorted.len() && sorted[k] == x {
        sorted
    } else {
        sorted.insert(k, x)
    }
}

/// The canonical form of the first `upto` symbols of `path`: each symbol
/// once, in rising order.
pub open spec fn canonical(path: Seq<Seq<char>>, upto: int) -> Seq<Seq<char>>
    decreases upto,
{
    if upto <= 0 {
        Seq::empty()
    } else {
        placed(canonical(path, upto - 1), path[upto - 1])
    }
}

/// Every list in its canonical form.
pub open spec fn canonical_all(paths: Seq<Seq<Seq<char>>>) -> Seq<Seq<Seq<char>>> {
    Seq::new(paths.len(), |i: int| canonical(paths[i], paths[i].len() as int))
}

fn find_slot(sorted: &Vec<String>, x: &str) -> (k: usize)
    ensures
        k == slot(sorted.deep_view(), x@, 0),
        k <= sorted.len(),
{
    let ghost was = sorted.deep_view();
    let mut k: usize = 0;
    while k < sorted.len()
        invariant
            k <= sorted.len(),
            was == sorted.deep_view(),
            slot(was, x@, 0) == slot(was, x@, k as int),
        decreases sorted.len() - k,
    {
        assert(was[k as int] == sorted[k as int]@);
        if !stands_before(sorted[k].as_str(), x) {
            return k;
        }
        k += 1;
    }
    k
}

fn place(sorted: &mut Vec<String>, x: &str)
    ensures
        final(sorted).deep_view() == placed(old(sorted).deep_view(), x@),
{
    let ghost was = sorted.deep_view();
    let k = find_slot(sorted, x);
    if k < sorted.len() {
        assert(was[k as int] == sorted[k as int]@);
        if same_text(sorted[k].as_str(), x) {
            return ;
        }
    }
    sorted.insert(k, String::from_str(x));
    assert(sorted.deep_view() =~= was.insert(k as int, x@));
}

/// Brings every list to its canonical form: its symbols once each, in
/// rising order.
pub fn triangle_sorting(all_cycles: Vec<Vec<String>>) -> (r: Vec<Vec<String>>)
    ensures
        r.deep_view() == canonical_all(all_cycles.deep_view()),
{
    let mut unique_sorted_paths: Vec<Vec<String>> = Vec::new();
    let mut c: usize = 0;
    while c < all_cycles.len()
        invariant
            c <= all_cycles.len(),
            unique_sorted_paths.len() == c,
            forall|j: int|
                0 <= j < c ==> (#[trigger] unique_sorted_paths[j]).deep_view() == canonical(
                    all_cycles[j].deep_view(),
                    all_cycles[j].len() as int,
                ),
        decreases all_cycles.len() - c,
    {
        let path = &all_cycles[c];
        let mut unique_sorted: Vec<String> = Vec::new();
        let mut i: usize = 0;
        assert(unique_sorted.deep_view() =~= canonical(path.deep_view(), 0));
        while i < path.len()
            invariant
                i <= path.len(),
                unique_sorted.deep_view() == canonical(path.deep_view(), i as int),
            decreases path.len() - i,
        {
            assert(path.deep_view()[i as int] == path[i as int]@);
            place(&mut unique_sorted, path[i].as_str());
            i += 1;
        }
        unique_sorted_paths.push(unique_sorted);
        c += 1;
    }
    assert(unique_sorted_paths.deep_view() =~= canonical_all(all_cycles.deep_view()));
    unique_sorted_paths
}

/// The first `upto` lists without those that an earlier list equals.
pub open spec fn first_occurrences(cycles: Seq<Seq<Seq<char>>>, upto: int) -> Seq<Seq<Seq<char>>>
    decreases upto,
{
    if upto <= 0 {
        Seq::empty()
    } else {
        let before = first_occurrences(cycles, upto - 1);
        if before.contains(cycles[upto - 1]) {
            before
        } else {
            before.push(cycles[upto - 1])
        }
    }
}

fn same_texts(a: &Vec<String>, b: &Vec<String>) -> (r: bool)
    ensures
        r == (a.deep_view() == b.deep_view()),
{
    if a.len() != b.len() {
        assert(a.deep_view().len() != b.deep_view().len());
        return false;
    }
    let mut i: usize = 0;
    while i < a.len()
        invariant
            i <= a.len(),
            a.len() == b.len(),
            forall|j: int| 0 <= j < i ==> a[j]@ == b[j]@,
        decreases a.len() - i,
    {
        if !same_text(a[i].as_str(), b[i].as_str()) {
            assert(a.deep_view()[i as int] != b.deep_view()[i as int]);
            return false;
        }
        i += 1;
    }
    assert(a.deep_view() =~= b.deep_view());
    true
}

fn holds_list(lists: &Vec<Vec<String>>, list: &Vec<String>) -> (r: bool)
    ensures
        r == lists.deep_view().contains(list.deep_view()),
{
    let mut i: usize = 0;
    while i < lists.len()
        invariant
            i <= lists.len(),
            forall|j: int| 0 <= j < i ==> (#[trigger] lists[j]).deep_view() != list.deep_view(),
        decreases lists.len() - i,
    {
        if same_texts(&lists[i], list) {
            assert(lists.deep_view()[i as int] == list.deep_view());
            return true;
        }
        i += 1;
    }
    assert forall|j: int| 0 <= j < lists.deep_view().len() implies lists.deep_view()[j]
        != list.deep_view() by {
        assert(lists.deep_view()[j] == lists[j].deep_view());
    }
    false
}

/// Keeps of every list the first occurrence, in the order of the first
/// occurrences.
pub fn remove_duplicates(cycles: Vec<Vec<String>>) -> (r: Vec<Vec<String>>)
    ensures
        r.deep_view() == first_occurrences(cycles.deep_view(), cycles.len() as int),
{
    let mut result: Vec<Vec<String>> = Vec::new();
    let mut i: usize = 0;
    assert(result.deep_view() =~= first_occurrences(cycles.deep_view(), 0));
    while i < cycles.len()
        invariant
            i <= cycles.len(),
            result.deep_view() == first_occurrences(cycles.deep_view(), i as int),
        decreases cycles.len() - i,
    {
        assert(cycles.deep_view()[i as int] == cycles[i as int].deep_view());
        if !holds_list(&result, &cycles[i]) {
            let ghost so_far = result.deep_view();
            result.push(copy_texts(&cycles[i]));
            assert(result.deep_view() =~= so_far.push(cycles[i as int].deep_view()));
        }
        i += 1;
    }
    result
}

/// Whether `symbol` stands in one of the lists.
pub open spec fn appears(lists: Seq<Seq<Seq<char>>>, symbol: Seq<char>) -> bool {
    exists|i: int, j: int| 0 <= i < lists.len() && 0 <= j < lists[i].len() && #[trigger] lists[i][j] == symbol
}

/// The symbols below `upto` that stand in none of the lists, in their
/// order.
pub open spec fn outside(symbols: Seq<Seq<char>>, lists: Seq<Seq<Seq<char>>>, upto: int) -> Seq<
    Seq<char>,
>
    decreases upto,
{
    if upto <= 0 {
        Seq::empty()
    } else {
        let before = outside(symbols, lists, upto - 1);
        if appears(lists, symbols[upto - 1]) {
            before
        } else {
            before.push(symbols[upto - 1])
        }
    }
}

/// The pairs that take part in no triangle, each as a list of its own.
pub open spec fn differences(symbols: Seq<Seq<char>>, need: Seq<Seq<Seq<char>>>) -> Seq<
    Seq<Seq<char>>,
> {
    let left = outside(symbols, need, symbols.len() as int);
    Seq::new(left.len(), |i: int| seq![left[i]])
}

fn stands_in(lists: &Vec<Vec<String>>, symbol: &str) -> (r: bool)
    ensures
        r == appears(lists.deep_view(), symbol@),
{
    let mut i: usize = 0;
    while i < lists.len()
        invariant
            i <= lists.len(),
            forall|a: int, b: int|
                0 <= a < i && 0 <= b < lists[a].len() ==> (#[trigger] lists[a][b])@ != symbol@,
        decreases lists.len() - i,
    {
        let list = &lists[i];
        let mut j: usize = 0;
        while j < list.len()
            invariant
                j <= list.len(),
                i < lists.len(),
                *list == lists[i as int],
                forall|a: int, b: int|
                    0 <= a < i && 0 <= b < lists[a].len() ==> (#[trigger] lists[a][b])@ != symbol@,
                forall|b: int| 0 <= b < j ==> (#[trigger] list[b])@ != symbol@,
            decreases list.len() - j,
        {
            if same_text(list[j].as_str(), symbol) {
                assert(lists.deep_view()[i as int][j as int] == symbol@);
                return true;
            }
            j += 1;
        }
        i += 1;
    }
    assert forall|a: int, b: int|
        0 <= a < lists.deep_view().len() && 0 <= b < lists.deep_view()[a].len() implies #[trigger] lists.deep_view()[a][b]
        != symbol@ by {
        assert(lists.deep_view()[a] == lists[a].deep_view());
        assert(lists.deep_view()[a][b] == lists[a][b]@);
    }
    false
}

fn pairs_outside(clean_pairs: &[ParsedPairs], lists: &Vec<Vec<String>>) -> (r: Vec<String>)
    ensures
        r.deep_view() == outside(pair_symbols(clean_pairs@), lists.deep_view(), clean_pairs.len() as int),
{
    let ghost symbols = pair_symbols(clean_pairs@);
    let mut out: Vec<String> = Vec::new();
    let mut i: usize = 0;
    assert(out.deep_view() =~= outside(symbols, lists.deep_view(), 0));
    while i < clean_pairs.len()
        invariant
            i <= clean_pairs.len(),
            symbols == pair_symbols(clean_pairs@),
            out.deep_view() == outside(symbols, lists.deep_view(), i as int),
        decreases clean_pairs.len() - i,
    {
        if !stands_in(lists, clean_pairs[i].symbol.as_str()) {
            let ghost so_far = out.deep_view();
            out.push(clean_pairs[i].symbol.clone());
            assert(out.deep_view() =~= so_far.push(symbols[i as int]));
        }
        i += 1;
    }
    out
}

/// The pairs whose symbol stands in none of `need_cycles`, in the order of
/// `clean_pairs`, each as a list of its own.
pub fn find_differences(clean_pairs: &[ParsedPairs], need_cycles: &Vec<Vec<String>>) -> (r: Vec<
    Vec<String>,
>)
    ensures
        r.deep_view() == differences(pair_symbols(clean_pairs@), need_cycles.deep_view()),
{
    let mut left = pairs_outside(clean_pairs, need_cycles);
    let ghost symbols = left.deep_view();
    let mut differences: Vec<Vec<String>> = Vec::new();
    let mut i: usize = 0;
    while i < left.len()
        invariant
            i <= left.len(),
            symbols == left.deep_view(),
            differences.len() == i,
            forall|j: int| 0 <= j < i ==> (#[trigger] differences[j]).deep_view() == seq![symbols[j]],
        decreases left.len() - i,
    {
        let mut one: Vec<String> = Vec::new();
        one.push(left[i].clone());
        assert(one.deep_view() =~= seq![symbols[i as int]]);
        differences.push(one);
        i += 1;
    }
    assert(differences.deep_view() =~= crate::reduction::differences(
        pair_symbols(clean_pairs@),
        need_cycles.deep_view(),
    ));
    differences
}

/// The symbols of the pairs that stand in none of the lists of `diff`, in
/// the order of `clean_pairs`.
pub fn clearing(clean_pairs: &[ParsedPairs], diff: &Vec<Vec<String>>) -> (r: Vec<String>)
    ensures
        r.deep_view() == outside(pair_symbols(clean_pairs@), diff.deep_view(), clean_pairs.len() as int),
{
    pairs_outside(clean_pairs, diff)
}

} // verus!
