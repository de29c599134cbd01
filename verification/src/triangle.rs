//! The identity of an assembled triangle and the shape of its legs.
use vstd::prelude::*;

verus! {

/// One leg of a trade sequence: the pair's symbol, then the direction,
/// `"BUY"` or `"SELL"`.
pub type TriangleElement = (String, String);

/// What identifies an assembled triangle: its three pair symbols and the
/// direction of its first leg.
#[derive(Debug, PartialEq, Eq, Hash)]
pub struct TriangleKey {
    pub a: String,
    pub b: String,
    pub c: String,
    pub d: String,
}

/// A key as the contracts see it.
pub struct TriangleKeyView {
    pub a: Seq<char>,
    pub b: Seq<char>,
    pub c: Seq<char>,
    pub d: Seq<char>,
}

impl View for TriangleKey {
    type V = TriangleKeyView;

    open spec fn view(&self) -> TriangleKeyView {
        TriangleKeyView { a: self.a@, b: self.b@, c: self.c@, d: self.d@ }
    }
}

impl Clone for TriangleKey {
    fn clone(&self) -> (r: Self)
        ensures
            r == *self,
    {
        TriangleKey { a: self.a.clone(), b: self.b.clone(), c: self.c.clone(), d: self.d.clone() }
    }
}

impl TriangleKeyView {
    /// Whether `symbol` is one of the key's three pair symbols.
    pub open spec fn names(self, symbol: Seq<char>) -> bool {
        self.a == symbol || self.b == symbol || self.c == symbol
    }
}

impl TriangleKey {
    /// Whether `symbol` is one of the key's three pair symbols.
    pub fn names(&self, symbol: &String) -> (r: bool)
        ensures
            r == self@.names(symbol@),
    {
        self.a == *symbol || self.b == *symbol || self.c == *symbol
    }

    /// Whether the two keys hold the same four strings.
    pub fn same_as(&self, other: &TriangleKey) -> (r: bool)
        ensures
            r == (self@ == other@),
    {
        self.a == other.a && self.b == other.b && self.c == other.c && self.d == other.d
    }
}

} // verus!
