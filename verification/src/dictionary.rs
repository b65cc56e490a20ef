//! The dictionary store: from each code to the words it produces, and the
//! index that leads from a word back to its codes.

use crate::index::{collect, items_at, pairs_of, row_pairs, OrderedIndex, Pair, Row};
use crate::text::{rank, texts, Rank};
use vstd::prelude::*;
use vstd::string::*;

verus! {

/// Why an edit of the dictionary did not take place.
#[derive(Clone, Copy, Debug, PartialEq, Eq)]
pub enum EditError {
    /// The word is already filed under the code.
    AlreadyExists,
    /// No dictionary has been loaded yet.
    NotLoaded,
}

impl EditError {
    /// The message shown to the user.
    pub fn message(&self) -> (text: String)
        ensures
            text@ == match *self {
                EditError::AlreadyExists => "Already exists"@,
                EditError::NotLoaded => "Not loaded"@,
            },
    {
        match self {
            EditError::AlreadyExists => String::from_str("Already exists"),
            EditError::NotLoaded => String::from_str("Not loaded"),
        }
    }
}

/// Each pair with its two parts exchanged.
pub open spec fn turned(ps: Seq<Pair>) -> Seq<Pair> {
    Seq::new(ps.len(), |i: int| (ps[i].1, ps[i].0))
}

/// The dictionary after `w` has been added under `c`: unchanged where the
/// word is filed there already, else with the word at the end of the
/// code's words.
pub open spec fn added(m: Map<Seq<char>, Seq<Seq<char>>>, c: Seq<char>, w: Seq<char>) -> Map<
    Seq<char>,
    Seq<Seq<char>>,
> {
    if items_at(m, c).contains(w) {
        m
    } else {
        m.insert(c, items_at(m, c).push(w))
    }
}

/// Whether `word` is among `items`.
pub fn contains_text(items: &Vec<String>, word: &str) -> (found: bool)
    ensures
        found == texts(items@).contains(word@),
{
    let mut i: usize = 0;
    while i < items.len()
        invariant
            i <= items@.len(),
            forall|j: int| 0 <= j < i ==> texts(items@)[j] != word@,
        decreases items@.len() - i,
    {
        match rank(items[i].as_str(), word) {
            Rank::Same => {
                assert(texts(items@)[i as int] == word@);
                return true;
            },
            _ => {},
        }
        i += 1;
    }
    false
}

/// The words of every code, the codes in ascending order.
pub struct Dictionary {
    pub index: OrderedIndex,
}

/// The codes of every word: for each word the codes under which it is
/// filed, in ascending order of the codes.
pub struct ReverseIndex {
    pub index: OrderedIndex,
}

impl ReverseIndex {
    /// The words ascend strictly.
    pub open spec fn wf(&self) -> bool {
        self.index.wf()
    }

    /// The index as a map from word to codes.
    pub open spec fn view(&self) -> Map<Seq<char>, Seq<Seq<char>>> {
        self.index@
    }

    /// The codes under which `word` is filed; none for an unknown word.
    pub fn candidates(&self, word: &str) -> (codes: Vec<String>)
        requires
            self.wf(),
        ensures
            texts(codes@) == items_at(self@, word@),
    {
        self.index.get(word)
    }
}

impl Dictionary {
    /// The codes ascend strictly.
    pub open spec fn wf(&self) -> bool {
        self.index.wf()
    }

    /// The dictionary as a map from code to words.
    pub open spec fn view(&self) -> Map<Seq<char>, Seq<Seq<char>>> {
        self.index@
    }

    /// The codes in ascending order, each with its words.
    pub open spec fn listing(&self) -> Seq<Row> {
        self.index.listing()
    }

    /// Every (code, word) pair in the order in which the dictionary is
    /// written out: codes ascending, the words of a code in stored order.
    pub open spec fn pairs(&self) -> Seq<Pair> {
        pairs_of(self.index.listing())
    }

    /// The number of words, over all codes.
    pub open spec fn word_count(&self) -> nat {
        self.index.count()
    }

    /// A dictionary without codes.
    pub fn new() -> (d: Dictionary)
        ensures
            d.wf(),
            d@ == Map::<Seq<char>, Seq<Seq<char>>>::empty(),
            d.listing() == Seq::<Row>::empty(),
    {
        Dictionary { index: OrderedIndex::new() }
    }

    /// Tells whether the codes ascend strictly.
    pub fn is_ordered(&self) -> (b: bool)
        ensures
            b == self.wf(),
    {
        self.index.is_ordered()
    }

    /// Files `word` at the end of the words of `code` without asking
    /// whether it is there already.
    pub fn file_word(&mut self, code: &str, word: &str)
        requires
            old(self).wf(),
        ensures
            final(self).wf(),
            final(self)@ == old(self)@.insert(code@, items_at(old(self)@, code@).push(word@)),
            final(self).word_count() == old(self).word_count() + 1,
    {
        self.index.append(code, word);
    }

    /// Files `word` at the end of the words of `code`, unless it is already
    /// among them: then nothing changes and the call fails.
    pub fn add_word(&mut self, code: &str, word: &str) -> (r: Result<(), EditError>)
        requires
            old(self).wf(),
        ensures
            final(self).wf(),
            r is Err <==> items_at(old(self)@, code@).contains(word@),
            r is Err ==> r == Err::<(), EditError>(EditError::AlreadyExists) && *final(self) == *old(
                self,
            ),
            final(self)@ == added(old(self)@, code@, word@),
            r is Ok ==> final(self).word_count() == old(self).word_count() + 1,
    {
        let (at, found) = self.index.locate(code);
        if found {
            proof {
                crate::index::lemma_row_at(self.index.listing(), at as int);
            }
            if contains_text(&self.index.entries[at].items, word) {
                return Err(EditError::AlreadyExists);
            }
        } else {
            assert(!Seq::<Seq<char>>::empty().contains(word@));
        }
        self.index.append(code, word);
        Ok(())
    }

    /// The words of `code` in stored order; none for an unknown code.
    pub fn query_words(&self, code: &str) -> (words: Vec<String>)
        requires
            self.wf(),
        ensures
            texts(words@) == items_at(self@, code@),
    {
        self.index.get(code)
    }

    /// Puts `words` in place of the words of `code`. An unknown code is
    /// left unknown: nothing changes then.
    pub fn update_words(&mut self, code: &str, words: Vec<String>)
        requires
            old(self).wf(),
        ensures
            final(self).wf(),
            old(self)@.contains_key(code@) ==> final(self)@ == old(self)@.insert(
                code@,
                texts(words@),
            ),
            !old(self)@.contains_key(code@) ==> *final(self) == *old(self),
    {
        let _ = self.index.replace(code, words);
    }

    /// Builds the index from words back to codes: the pairs are gone
    /// through with the codes ascending, and each code is put at the end
    /// of the list of its word.
    pub fn reverse_index(&self) -> (r: ReverseIndex)
        requires
            self.wf(),
        ensures
            r.wf(),
            r@ == collect(turned(self.pairs())),
    {
        let ghost l = self.listing();
        let mut index = OrderedIndex::new();
        let mut i: usize = 0;
        assert(l.take(0) =~= Seq::<Row>::empty());
        assert(turned(pairs_of(l.take(0))) =~= Seq::<Pair>::empty());
        while i < self.index.entries.len()
            invariant
                l == self.index.listing(),
                i <= self.index.entries@.len(),
                index.wf(),
                index@ == collect(turned(pairs_of(l.take(i as int)))),
            decreases self.index.entries@.len() - i,
        {
            let entry = &self.index.entries[i];
            let ghost done = pairs_of(l.take(i as int));
            let ghost row = l[i as int];
            let mut j: usize = 0;
            assert(done + row_pairs(row).take(0) =~= done);
            while j < entry.items.len()
                invariant
                    j <= entry.items@.len(),
                    row == entry@,
                    index.wf(),
                    index@ == collect(turned(done + row_pairs(row).take(j as int))),
                decreases entry.items@.len() - j,
            {
                index.append(entry.items[j].as_str(), entry.key.as_str());
                proof {
                    let next = turned(done + row_pairs(row).take(j + 1));
                    assert(next.drop_last() =~= turned(done + row_pairs(row).take(j as int)));
                    assert(next.last() == (entry.items@[j as int]@, entry.key@));
                }
                j += 1;
            }
            proof {
                assert(row_pairs(row).take(j as int) =~= row_pairs(row));
                assert(l.take(i + 1).drop_last() =~= l.take(i as int));
                assert(l.take(i + 1).last() == row);
            }
            i += 1;
        }
        assert(l.take(i as int) =~= l);
        ReverseIndex { index }
    }
}

} // verus!
