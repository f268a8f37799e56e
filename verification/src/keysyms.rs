//! What the keyboard library has answered about keysyms so far.
//!
//! Which keysym a name or a character stands for is known to the keyboard library alone. The
//! translation of input segments asks for one [`Lookup`] at a time, and the answers are kept in
//! [`Keysyms`] until the translation is done.

use crate::text::same;
use vstd::prelude::*;

verus! {

/// The keysym that stands for none.
pub const NO_SYMBOL: u32 = 0;

/// The keysym of the Return key.
pub const KEY_RETURN: u32 = 0xff0d;

/// The keysym of the Tab key.
pub const KEY_TAB: u32 = 0xff09;

/// A question to the keyboard library. Its answer is a keysym, [`NO_SYMBOL`] where there is none.
#[derive(Debug, PartialEq, Eq)]
pub enum Lookup {
    /// The keysym of this exact name.
    Name(String),
    /// The keysym of this name, upper and lower case taken as equal.
    FoldedName(String),
    /// The keysym of this character.
    Char(char),
}

/// A [`Lookup`] by its contents.
pub enum LookupView {
    Name(Seq<char>),
    FoldedName(Seq<char>),
    Char(char),
}

impl View for Lookup {
    type V = LookupView;

    open spec fn view(&self) -> LookupView {
        match *self {
            Lookup::Name(name) => LookupView::Name(name@),
            Lookup::FoldedName(name) => LookupView::FoldedName(name@),
            Lookup::Char(c) => LookupView::Char(c),
        }
    }
}

impl Lookup {
    /// Whether the two ask the same.
    pub fn is(&self, other: &Lookup) -> (answer: bool)
        ensures
            answer == (self@ == other@),
    {
        match (self, other) {
            (Lookup::Name(a), Lookup::Name(b)) => same(a.as_str(), b.as_str()),
            (Lookup::FoldedName(a), Lookup::FoldedName(b)) => same(a.as_str(), b.as_str()),
            (Lookup::Char(a), Lookup::Char(b)) => *a == *b,
            _ => false,
        }
    }
}

/// The answers given so far. Where a question was answered twice, the later answer counts.
#[derive(Debug)]
pub struct Keysyms {
    pub entries: Vec<(Lookup, u32)>,
}

/// The answers that a list of entries stands for.
pub open spec fn answers(entries: Seq<(Lookup, u32)>) -> Map<LookupView, u32>
    decreases entries.len(),
{
    if entries.len() == 0 {
        Map::empty()
    } else {
        answers(entries.drop_last()).insert(entries.last().0@, entries.last().1)
    }
}

impl View for Keysyms {
    type V = Map<LookupView, u32>;

    open spec fn view(&self) -> Map<LookupView, u32> {
        answers(self.entries@)
    }
}

impl Keysyms {
    /// No answers yet.
    pub fn new() -> (keysyms: Keysyms)
        ensures
            keysyms@ == Map::<LookupView, u32>::empty(),
    {
        Keysyms { entries: Vec::new() }
    }

    /// The answer to `lookup`, where there is one.
    pub fn get(&self, lookup: &Lookup) -> (answer: Option<u32>)
        ensures
            answer == (if self@.contains_key(lookup@) {
                Some(self@[lookup@])
            } else {
                None
            }),
    {
        let mut i: usize = self.entries.len();
        assert(self.entries@.take(i as int) =~= self.entries@);
        while i > 0
            invariant
                i <= self.entries.len(),
                self@.contains_key(lookup@) == answers(
                    self.entries@.take(i as int),
                ).contains_key(lookup@),
                self@.contains_key(lookup@) ==> self@[lookup@] == answers(
                    self.entries@.take(i as int),
                )[lookup@],
            decreases i,
        {
            assert(self.entries@.take(i as int).drop_last() =~= self.entries@.take(i - 1));
            if self.entries[i - 1].0.is(lookup) {
                return Some(self.entries[i - 1].1);
            }
            i = i - 1;
        }
        None
    }

    /// Records the answer to `lookup`.
    pub fn insert(&mut self, lookup: Lookup, keysym: u32)
        ensures
            final(self)@ == old(self)@.insert(lookup@, keysym),
    {
        let ghost earlier = self.entries@;
        self.entries.push((lookup, keysym));
        assert(self.entries@.drop_last() =~= earlier);
    }
}

/// A question shows its kind and what it asks for.
pub proof fn law_lookup_view(lookup: Lookup)
    ensures
        lookup matches Lookup::Name(name) ==> lookup@ == LookupView::Name(name@),
        lookup matches Lookup::FoldedName(name) ==> lookup@ == LookupView::FoldedName(name@),
        lookup matches Lookup::Char(c) ==> lookup@ == LookupView::Char(c),
{
}

} // verus!
