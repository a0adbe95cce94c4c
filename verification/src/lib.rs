//! Colored e-graph support library: union-find structures over e-class ids,
//! pattern variables and substitutions, pattern syntax, and the bookkeeping of
//! the rewrite schedulers.

use vstd::prelude::*;

pub mod bimap_support;
pub mod unionfind;
pub mod keyed_union_find;
pub mod colored_union_find;
pub mod subst;
pub mod pattern;
pub mod multipattern;
pub mod search_matches;
pub mod run;
pub mod index_support;
pub mod util;
pub mod colors;
pub mod machine;
pub mod egraph;
pub mod matching;

verus! {

/// A key to identify e-classes within an e-graph.
#[derive(Clone, Copy, Debug, Default, PartialEq, Eq, Structural, PartialOrd, Ord, Hash)]
pub struct Id(pub u32);

/// A key to identify a color (a layer of assumed equalities) of an e-graph.
#[derive(Clone, Copy, Debug, Default, PartialEq, Eq, Structural, PartialOrd, Ord, Hash)]
pub struct ColorId(pub(crate) usize);

impl ColorId {
    /// The index this color id stands for.
    pub closed spec fn index(self) -> usize {
        self.0
    }
}

impl From<usize> for Id {
    fn from(n: usize) -> (r: Id) {
        Id(n as u32)
    }
}

impl vstd::std_specs::convert::FromSpecImpl<usize> for Id {
    open spec fn obeys_from_spec() -> bool {
        true
    }

    open spec fn from_spec(n: usize) -> Id {
        Id(n as u32)
    }
}

impl From<Id> for usize {
    fn from(id: Id) -> (r: usize) {
        id.0 as usize
    }
}

impl vstd::std_specs::convert::FromSpecImpl<Id> for usize {
    open spec fn obeys_from_spec() -> bool {
        true
    }

    open spec fn from_spec(id: Id) -> usize {
        id.0 as usize
    }
}

impl Into<Id> for u32 {
    fn into(self) -> Id {
        Id(self)
    }
}

impl vstd::std_specs::convert::IntoSpecImpl<Id> for u32 {
    open spec fn obeys_into_spec() -> bool {
        true
    }

    open spec fn into_spec(self) -> Id {
        Id(self)
    }
}

impl Into<Id> for i32 {
    fn into(self) -> Id {
        Id(self as u32)
    }
}

impl vstd::std_specs::convert::IntoSpecImpl<Id> for i32 {
    open spec fn obeys_into_spec() -> bool {
        true
    }

    open spec fn into_spec(self) -> Id {
        Id(self as u32)
    }
}

impl From<usize> for ColorId {
    fn from(n: usize) -> (r: ColorId) {
        ColorId(n)
    }
}

impl vstd::std_specs::convert::FromSpecImpl<usize> for ColorId {
    open spec fn obeys_from_spec() -> bool {
        true
    }

    closed spec fn from_spec(n: usize) -> ColorId {
        ColorId(n)
    }
}

impl From<ColorId> for usize {
    fn from(id: ColorId) -> (r: usize) {
        id.0
    }
}

impl vstd::std_specs::convert::FromSpecImpl<ColorId> for usize {
    open spec fn obeys_from_spec() -> bool {
        true
    }

    closed spec fn from_spec(id: ColorId) -> usize {
        id.0
    }
}

impl Id {
    /// The decimal text of this id.
    pub fn to_string(&self) -> (r: String)
        ensures
            r@ == crate::decimal_text(self.0 as nat),
    {
        crate::u64_to_decimal(self.0 as u64)
    }
}

impl ColorId {
    /// The decimal text of this color id.
    pub fn to_string(&self) -> (r: String)
        ensures
            r@ == crate::decimal_text(self.index() as nat),
    {
        crate::u64_to_decimal(self.0 as u64)
    }
}

/// Texts joined by a separator.
pub open spec fn joined(parts: Seq<Seq<char>>, sep: Seq<char>) -> Seq<char>
    decreases parts.len(),
{
    if parts.len() == 0 {
        Seq::empty()
    } else if parts.len() == 1 {
        parts[0]
    } else {
        joined(parts.drop_last(), sep) + sep + parts.last()
    }
}

/// The decimal digits of a natural number, most significant first.
pub open spec fn decimal_text(n: nat) -> Seq<char>
    decreases n,
{
    if n < 10 {
        seq![digit_char(n)]
    } else {
        decimal_text(n / 10).push(digit_char(n % 10))
    }
}

/// The character of one decimal digit.
pub open spec fn digit_char(d: nat) -> char {
    if d == 0 { '0' }
    else if d == 1 { '1' }
    else if d == 2 { '2' }
    else if d == 3 { '3' }
    else if d == 4 { '4' }
    else if d == 5 { '5' }
    else if d == 6 { '6' }
    else if d == 7 { '7' }
    else if d == 8 { '8' }
    else { '9' }
}

fn digit_of(d: u64) -> (c: char)
    requires
        d < 10,
    ensures
        c == digit_char(d as nat),
{
    if d == 0 { '0' }
    else if d == 1 { '1' }
    else if d == 2 { '2' }
    else if d == 3 { '3' }
    else if d == 4 { '4' }
    else if d == 5 { '5' }
    else if d == 6 { '6' }
    else if d == 7 { '7' }
    else if d == 8 { '8' }
    else { '9' }
}

/// Appends one character to a string (`String::push`).
#[verifier::external_body]
pub(crate) fn string_push(s: &mut String, c: char)
    ensures
        final(s)@ == old(s)@.push(c),
{
    s.push(c);
}

/// Renders a number in decimal.
pub fn u64_to_decimal(n: u64) -> (r: String)
    ensures
        r@ == decimal_text(n as nat),
    decreases n,
{
    if n < 10 {
        let mut s = String::new();
        string_push(&mut s, digit_of(n));
        proof {
            assert(s@ =~= seq![digit_char(n as nat)]);
        }
        s
    } else {
        let mut s = u64_to_decimal(n / 10);
        string_push(&mut s, digit_of(n % 10));
        s
    }
}

} // verus!
