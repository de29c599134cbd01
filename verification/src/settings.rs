//! The currency lists as they are written down: one entry per line, between
//! the two marker lines of a section.
//!
//! A line that starts with `;`, blanks aside, is a comment. A line of an alt
//! currency holds one word, its symbol. A line of a base currency holds two
//! words, its symbol and its percentage. Lines with another number of words
//! are passed over, and so is every line outside the section.
use vstd::prelude::*;
use crate::currency::{AltCurrency, BaseCurrency};
use crate::text::{chars_of, same_text, slice_of};

verus! {

/// Whether a character is white space to Rust's `char::is_whitespace`.
pub uninterp spec fn is_white_space(c: char) -> bool;

/// `char::is_whitespace`: whether the character has Unicode's white space
/// property, under its name.
#[verifier::external_body]
fn is_blank(c: char) -> (r: bool)
    ensures
        r == is_white_space(c),
{
    c.is_whitespace()
}

/// The first position at or after `from` that holds no white space, or the
/// length of the line.
pub open spec fn skip_blanks(line: Seq<char>, from: int) -> int
    decreases line.len() - from,
{
    if from < 0 || from >= line.len() {
        line.len() as int
    } else if !is_white_space(line[from]) {
        from
    } else {
        skip_blanks(line, from + 1)
    }
}

/// The first position at or after `from` that holds white space, or the
/// length of the line.
pub open spec fn word_end(line: Seq<char>, from: int) -> int
    decreases line.len() - from,
{
    if from < 0 || from >= line.len() {
        line.len() as int
    } else if is_white_space(line[from]) {
        from
    } else {
        word_end(line, from + 1)
    }
}

/// The position just past the last character before `upto` that is no
/// white space, or zero.
pub open spec fn drop_blanks(line: Seq<char>, upto: int) -> int
    decreases upto,
{
    if upto <= 0 || upto > line.len() {
        0
    } else if !is_white_space(line[upto - 1]) {
        upto
    } else {
        drop_blanks(line, upto - 1)
    }
}

/// The line without the white space at its two ends.
pub open spec fn trimmed(line: Seq<char>) -> Seq<char> {
    let from = skip_blanks(line, 0);
    let to = drop_blanks(line, line.len() as int);
    if from >= to {
        Seq::empty()
    } else {
        line.subrange(from, to)
    }
}

/// The words of the line from position `from` on: its runs of characters
/// that are no white space.
pub open spec fn words_from(line: Seq<char>, from: int) -> Seq<Seq<char>>
    decreases line.len() - from,
    when from >= 0
    via words_decrease
{
    let start = skip_blanks(line, from);
    if start >= line.len() {
        Seq::empty()
    } else {
        let end = word_end(line, start);
        seq![line.subrange(start, end)] + words_from(line, end)
    }
}

#[via_fn]
proof fn words_decrease(line: Seq<char>, from: int) {
    let start = skip_blanks(line, from);
    if start < line.len() {
        lemma_skip_blanks(line, from);
        lemma_word_end(line, start);
    }
}

proof fn lemma_skip_blanks(line: Seq<char>, from: int)
    requires
        0 <= from,
    ensures
        from <= skip_blanks(line, from) || skip_blanks(line, from) == line.len(),
        skip_blanks(line, from) <= line.len(),
        skip_blanks(line, from) < line.len() ==> !is_white_space(line[skip_blanks(line, from)]),
    decreases line.len() - from,
{
    if from < line.len() && is_white_space(line[from]) {
        lemma_skip_blanks(line, from + 1);
    }
}

proof fn lemma_word_end(line: Seq<char>, from: int)
    requires
        0 <= from < line.len(),
        !is_white_space(line[from]),
    ensures
        from < word_end(line, from) <= line.len(),
{
    lemma_word_end_bounds(line, from + 1);
}

proof fn lemma_word_end_bounds(line: Seq<char>, from: int)
    requires
        0 <= from <= line.len(),
    ensures
        from <= word_end(line, from) <= line.len(),
    decreases line.len() - from,
{
    if from < line.len() && !is_white_space(line[from]) {
        lemma_word_end_bounds(line, from + 1);
    }
}

/// Whether the line is a comment: its first character that is no white
/// space is `;`.
pub open spec fn is_comment(line: Seq<char>) -> bool {
    skip_blanks(line, 0) < line.len() && line[skip_blanks(line, 0)] == ';'
}

/// The word without the percent signs at its end.
pub open spec fn without_percent(word: Seq<char>) -> Seq<char>
    decreases word.len(),
{
    if word.len() > 0 && word.last() == '%' {
        without_percent(word.drop_last())
    } else {
        word
    }
}

fn first_after_blanks(line: &Vec<char>, from: usize) -> (at: usize)
    requires
        from <= line.len(),
    ensures
        at == skip_blanks(line@, from as int),
        from <= at <= line.len(),
{
    let mut i: usize = from;
    while i < line.len()
        invariant
            from <= i <= line.len(),
            skip_blanks(line@, from as int) == skip_blanks(line@, i as int),
        decreases line.len() - i,
    {
        if !is_blank(line[i]) {
            return i;
        }
        i += 1;
    }
    i
}

fn first_blank(line: &Vec<char>, from: usize) -> (at: usize)
    requires
        from <= line.len(),
    ensures
        at == word_end(line@, from as int),
        from <= at <= line.len(),
{
    let mut i: usize = from;
    while i < line.len()
        invariant
            from <= i <= line.len(),
            word_end(line@, from as int) == word_end(line@, i as int),
        decreases line.len() - i,
    {
        if is_blank(line[i]) {
            return i;
        }
        i += 1;
    }
    i
}

fn end_before_blanks(line: &Vec<char>) -> (at: usize)
    ensures
        at == drop_blanks(line@, line.len() as int),
        at <= line.len(),
{
    let mut i: usize = line.len();
    while i > 0
        invariant
            i <= line.len(),
            drop_blanks(line@, line.len() as int) == drop_blanks(line@, i as int),
        decreases i,
    {
        if !is_blank(line[i - 1]) {
            return i;
        }
        i -= 1;
    }
    i
}

/// The line without the white space at its two ends.
pub fn trim(line: &str) -> (r: String)
    ensures
        r@ == trimmed(line@),
{
    let chars = chars_of(line);
    let from = first_after_blanks(&chars, 0);
    let to = end_before_blanks(&chars);
    if from >= to {
        String::new()
    } else {
        slice_of(line, from, to)
    }
}

/// The words of the line.
pub fn split_words(line: &str) -> (r: Vec<String>)
    ensures
        r.deep_view() == words_from(line@, 0),
{
    let chars = chars_of(line);
    let mut out: Vec<String> = Vec::new();
    let mut at: usize = 0;
    assert(out.deep_view() =~= Seq::<Seq<char>>::empty());
    loop
        invariant
            at <= chars.len(),
            chars@ == line@,
            out.deep_view() + words_from(line@, at as int) == words_from(line@, 0),
        ensures
            out.deep_view() == words_from(line@, 0),
        decreases chars.len() - at,
    {
        let start = first_after_blanks(&chars, at);
        if start >= chars.len() {
            assert(out.deep_view() + Seq::<Seq<char>>::empty() =~= out.deep_view());
            break ;
        }
        proof {
            lemma_skip_blanks(line@, at as int);
            lemma_word_end(line@, start as int);
        }
        let end = first_blank(&chars, start);
        let ghost before = out.deep_view();
        let ghost word = line@.subrange(start as int, end as int);
        out.push(slice_of(line, start, end));
        assert(out.deep_view() =~= before.push(word));
        assert(before.push(word) + words_from(line@, end as int) =~= before + (seq![word] + words_from(
            line@,
            end as int,
        )));
        at = end;
    }
    out
}

fn comment(line: &str) -> (r: bool)
    ensures
        r == is_comment(line@),
{
    let chars = chars_of(line);
    let at = first_after_blanks(&chars, 0);
    at < chars.len() && chars[at] == ';'
}

fn strip_percent(word: &str) -> (r: String)
    ensures
        r@ == without_percent(word@),
{
    let chars = chars_of(word);
    let mut n: usize = chars.len();
    assert(word@.take(n as int) =~= word@);
    while n > 0 && chars[n - 1] == '%'
        invariant
            n <= chars.len(),
            chars@ == word@,
            without_percent(word@) == without_percent(word@.take(n as int)),
        decreases n,
    {
        assert(word@.take(n as int).drop_last() =~= word@.take(n - 1));
        n -= 1;
    }
    assert(word@.take(n as int) =~= word@.subrange(0, n as int));
    slice_of(word, 0, n)
}

/// The entries of a section, as far as the first `upto` lines hold them,
/// and whether the section is open after those lines. An entry is the list
/// of the words of its line.
pub open spec fn section_entries(
    lines: Seq<Seq<char>>,
    open: Seq<char>,
    close: Seq<char>,
    fields: nat,
    upto: int,
) -> (Seq<Seq<Seq<char>>>, bool)
    decreases upto,
{
    if upto <= 0 {
        (Seq::empty(), false)
    } else {
        let before = section_entries(lines, open, close, fields, upto - 1);
        let line = lines[upto - 1];
        if trimmed(line) == open {
            (before.0, true)
        } else if trimmed(line) == close {
            (before.0, false)
        } else if before.1 && !is_comment(line) && words_from(line, 0).len() == fields {
            (before.0.push(words_from(line, 0)), true)
        } else {
            before
        }
    }
}

fn read_section(lines: &Vec<String>, open: &str, close: &str, fields: usize) -> (r: Vec<Vec<String>>)
    ensures
        r.deep_view() == section_entries(
            lines.deep_view(),
            open@,
            close@,
            fields as nat,
            lines.len() as int,
        ).0,
        forall|i: int| 0 <= i < r.len() ==> (#[trigger] r[i]).len() == fields,
{
    let mut data: Vec<Vec<String>> = Vec::new();
    let mut inside_section = false;
    let mut i: usize = 0;
    assert(data.deep_view() =~= Seq::<Seq<Seq<char>>>::empty());
    while i < lines.len()
        invariant
            i <= lines.len(),
            (data.deep_view(), inside_section) == section_entries(
                lines.deep_view(),
                open@,
                close@,
                fields as nat,
                i as int,
            ),
            forall|k: int| 0 <= k < data.len() ==> (#[trigger] data[k]).len() == fields,
        decreases lines.len() - i,
    {
        let line = lines[i].as_str();
        assert(lines.deep_view()[i as int] == line@);
        let bare = trim(line);
        if same_text(bare.as_str(), open) {
            inside_section = true;
        } else if same_text(bare.as_str(), close) {
            inside_section = false;
        } else if inside_section {
            if !comment(line) {
                let parts = split_words(line);
                if parts.len() == fields {
                    let ghost before = data.deep_view();
                    assert(parts.deep_view().len() == parts.len());
                    data.push(parts);
                    assert(data.deep_view() =~= before.push(words_from(line@, 0)));
                }
            }
        }
        i += 1;
    }
    data
}

/// The alt currencies that the lines list.
pub open spec fn listed_alt_symbols(lines: Seq<Seq<char>>) -> Seq<Seq<char>> {
    let entries = section_entries(lines, "[> AltCurrency >]"@, "[< AltCurrency <]"@, 1, lines.len() as int).0;
    Seq::new(entries.len(), |i: int| entries[i][0])
}

/// The base currencies that the lines list, each as its symbol and its
/// percentage without the percent sign.
pub open spec fn listed_bases(lines: Seq<Seq<char>>) -> Seq<(Seq<char>, Seq<char>)> {
    let entries = section_entries(lines, "[> BaseCurrency >]"@, "[< BaseCurrency <]"@, 2, lines.len() as int).0;
    Seq::new(entries.len(), |i: int| (entries[i][0], without_percent(entries[i][1])))
}

/// Reads the alt currencies off the lines of a settings file: every line
/// of one word between `[> AltCurrency >]` and `[< AltCurrency <]` that is
/// no comment.
pub fn parse_alt_currency(lines: &Vec<String>) -> (r: Vec<AltCurrency>)
    ensures
        crate::currency::alt_symbols(r@) == listed_alt_symbols(lines.deep_view()),
{
    let entries = read_section(lines, "[> AltCurrency >]", "[< AltCurrency <]", 1);
    let mut data: Vec<AltCurrency> = Vec::new();
    let mut i: usize = 0;
    while i < entries.len()
        invariant
            i <= entries.len(),
            data.len() == i,
            forall|k: int| 0 <= k < entries.len() ==> (#[trigger] entries[k]).len() == 1,
            forall|k: int| 0 <= k < i ==> (#[trigger] data[k]).symbol@ == entries[k][0]@,
        decreases entries.len() - i,
    {
        data.push(AltCurrency { symbol: entries[i][0].clone() });
        i += 1;
    }
    proof {
        let wanted = listed_alt_symbols(lines.deep_view());
        let got = crate::currency::alt_symbols(data@);
        assert(got.len() == wanted.len());
        assert forall|k: int| 0 <= k < got.len() implies got[k] == wanted[k] by {
            assert(entries.deep_view()[k] == entries[k].deep_view());
            assert(entries[k].deep_view()[0] == entries[k][0]@);
        }
        assert(got =~= wanted);
    }
    data
}

/// The symbols and percentages of a list of base currencies.
pub open spec fn base_entries(base: Seq<BaseCurrency>) -> Seq<(Seq<char>, Seq<char>)> {
    Seq::new(base.len(), |i: int| (base[i].symbol@, base[i].percentage@))
}

/// Reads the base currencies off the lines of a settings file: every line
/// of two words between `[> BaseCurrency >]` and `[< BaseCurrency <]` that
/// is no comment. The first word is the symbol; the second, without the
/// percent signs at its end, is the percentage.
pub fn parse_base_currency(lines: &Vec<String>) -> (r: Vec<BaseCurrency>)
    ensures
        base_entries(r@) == listed_bases(lines.deep_view()),
{
    let entries = read_section(lines, "[> BaseCurrency >]", "[< BaseCurrency <]", 2);
    let mut data: Vec<BaseCurrency> = Vec::new();
    let mut i: usize = 0;
    while i < entries.len()
        invariant
            i <= entries.len(),
            data.len() == i,
            forall|k: int| 0 <= k < entries.len() ==> (#[trigger] entries[k]).len() == 2,
            forall|k: int|
                0 <= k < i ==> (#[trigger] data[k]).symbol@ == entries[k][0]@ && data[k].percentage@
                    == without_percent(entries[k][1]@),
        decreases entries.len() - i,
    {
        data.push(
            BaseCurrency {
                symbol: entries[i][0].clone(),
                percentage: strip_percent(entries[i][1].as_str()),
            },
        );
        i += 1;
    }
    proof {
        let wanted = listed_bases(lines.deep_view());
        let got = base_entries(data@);
        assert(got.len() == wanted.len());
        assert forall|k: int| 0 <= k < got.len() implies got[k] == wanted[k] by {
            assert(entries.deep_view()[k] == entries[k].deep_view());
            assert(entries[k].deep_view()[0] == entries[k][0]@);
            assert(entries[k].deep_view()[1] == entries[k][1]@);
        }
        assert(got =~= wanted);
    }
    data
}

} // verus!
