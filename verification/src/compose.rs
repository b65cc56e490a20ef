//! Composing the code of a word from the codes of its characters.
//!
//! A word of two characters takes up to two letters of each character's
//! code; a word of three takes one letter of the first two codes and up to
//! two of the third; a longer word takes one letter of the codes of its
//! first three characters and of its last one.

use crate::dictionary::ReverseIndex;
use crate::index::items_at;
use crate::text::texts;
use std::collections::HashMap;
use vstd::prelude::*;
use vstd::string::*;

verus! {

broadcast use vstd::std_specs::hash::group_hash_axioms;

/// Two characters with the same number are the same character.
pub proof fn lemma_char_number(c: char, d: char)
    ensures
        d as u32 == c as u32 <==> d == c,
{
    assert(d as int == c as int ==> d == c);
}

/// The table that gives each character its one code.
pub struct CharTable {
    pub codes: HashMap<u32, String>,
}

impl CharTable {
    /// The table as a map from character to code.
    pub open spec fn view(&self) -> Map<char, Seq<char>> {
        Map::new(
            |c: char| self.codes@.contains_key(c as u32),
            |c: char| self.codes@[c as u32]@,
        )
    }

    /// A table without characters.
    pub fn new() -> (t: CharTable)
        ensures
            t@ == Map::<char, Seq<char>>::empty(),
    {
        let t = CharTable { codes: HashMap::new() };
        assert(t@ =~= Map::<char, Seq<char>>::empty());
        t
    }

    /// Gives `c` the code `code`, in place of the code it had.
    pub fn insert(&mut self, c: char, code: &str)
        ensures
            final(self)@ == old(self)@.insert(c, code@),
    {
        let stored = String::from_str(code);
        self.codes.insert(c as u32, stored);
        proof {
            assert(self.codes@ == old(self).codes@.insert(c as u32, stored));
            assert forall|d: char| #[trigger] self@.contains_key(d) <==> old(self)@.insert(c, code@).contains_key(d) by {
                lemma_char_number(c, d);
            }
            assert forall|d: char| #[trigger] self@.contains_key(d) implies self@[d] == old(self)@.insert(c, code@)[d] by {
                lemma_char_number(c, d);
            }
            assert(self@ =~= old(self)@.insert(c, code@));
        }
    }

    /// The code of `c`, if it has one.
    pub fn lookup(&self, c: char) -> (code: Option<String>)
        ensures
            code is Some <==> self@.contains_key(c),
            code is Some ==> code->0@ == self@[c],
    {
        match self.codes.get(&(c as u32)) {
            Some(code) => Some(code.clone()),
            None => None,
        }
    }
}

/// The first `k` characters of a code, or all of it where it is shorter.
pub open spec fn prefix(code: Seq<char>, k: int) -> Seq<char> {
    if code.len() <= k {
        code
    } else {
        code.take(k)
    }
}

/// The places of the characters that a word of `n` characters is composed
/// from: all of them up to three, else the first three and the last.
pub open spec fn spots(n: int) -> Seq<int> {
    if n <= 3 {
        Seq::new(n as nat, |i: int| i)
    } else {
        seq![0, 1, 2, n - 1]
    }
}

/// The characters of `word` at those places.
pub open spec fn consulted(word: Seq<char>) -> Seq<char> {
    Seq::new(spots(word.len() as int).len(), |i: int| word[spots(word.len() as int)[i]])
}

/// The code composed from the codes of the consulted characters, of
/// which there are two, three or four.
pub open spec fn combine(codes: Seq<Seq<char>>) -> Seq<char> {
    if codes.len() == 2 {
        prefix(codes[0], 2) + prefix(codes[1], 2)
    } else if codes.len() == 3 {
        prefix(codes[0], 1) + prefix(codes[1], 1) + prefix(codes[2], 2)
    } else {
        prefix(codes[0], 1) + prefix(codes[1], 1) + prefix(codes[2], 1) + prefix(codes[3], 1)
    }
}

/// The composed code where every consulted character has a code; nothing
/// where one of them has none.
pub open spec fn composed(found: Seq<Option<Seq<char>>>) -> Option<Seq<char>> {
    if forall|i: int| 0 <= i < found.len() ==> (#[trigger] found[i]) is Some {
        Some(combine(Seq::new(found.len(), |i: int| found[i]->0)))
    } else {
        None
    }
}

/// The code that the table gives a word: none for a word of fewer than two
/// characters, or where a consulted character is not in the table.
pub open spec fn direct_code(table: Map<char, Seq<char>>, word: Seq<char>) -> Option<Seq<char>> {
    if word.len() < 2 {
        None
    } else {
        composed(Seq::new(consulted(word).len(), |i: int| table.get(consulted(word)[i])))
    }
}

/// The place of the longest of the candidates; of several longest ones,
/// the first.
pub open spec fn longest_at(cands: Seq<Seq<char>>) -> int
    decreases cands.len(),
{
    if cands.len() <= 1 {
        0
    } else {
        let before = longest_at(cands.drop_last());
        if cands.last().len() > cands[before].len() {
            cands.len() - 1
        } else {
            before
        }
    }
}

/// The full code of a character under the index: the longest of the codes
/// under which the character is filed as a word of its own, provided it
/// has at least two letters.
pub open spec fn full_code(index: Map<Seq<char>, Seq<Seq<char>>>, c: char) -> Option<Seq<char>> {
    let cands = items_at(index, seq![c]);
    if cands.len() == 0 {
        None
    } else if cands[longest_at(cands)].len() < 2 {
        None
    } else {
        Some(cands[longest_at(cands)])
    }
}

/// The code that the index gives a word: the full code of a single
/// character, the composed code of a longer word, none for the empty word.
pub open spec fn indexed_code(index: Map<Seq<char>, Seq<Seq<char>>>, word: Seq<char>) -> Option<
    Seq<char>,
> {
    if word.len() == 0 {
        None
    } else if word.len() == 1 {
        full_code(index, word[0])
    } else {
        composed(Seq::new(consulted(word).len(), |i: int| full_code(index, consulted(word)[i])))
    }
}

/// The longest candidate is at least as long as every other and longer
/// than every one before it.
pub proof fn lemma_longest_at(cands: Seq<Seq<char>>)
    requires
        cands.len() > 0,
    ensures
        0 <= longest_at(cands) < cands.len(),
        forall|j: int|
            0 <= j < cands.len() ==> (#[trigger] cands[j]).len() <= cands[longest_at(cands)].len(),
        forall|j: int|
            0 <= j < longest_at(cands) ==> (#[trigger] cands[j]).len() < cands[longest_at(
                cands,
            )].len(),
    decreases cands.len(),
{
    if cands.len() > 1 {
        lemma_longest_at(cands.drop_last());
        assert forall|j: int| 0 <= j < cands.len() - 1 implies cands[j] == cands.drop_last()[j] by {}
    }
}

/// Finds the longest candidate, the first of several.
pub fn longest(cands: &Vec<String>) -> (at: usize)
    requires
        cands@.len() > 0,
    ensures
        at == longest_at(texts(cands@)),
        at < cands@.len(),
{
    let mut at: usize = 0;
    let mut best: usize = cands[0].as_str().unicode_len();
    let mut i: usize = 1;
    assert(texts(cands@).take(1).len() == 1);
    while i < cands.len()
        invariant
            1 <= i <= cands@.len(),
            at < i,
            best == cands@[at as int]@.len(),
            at == longest_at(texts(cands@).take(i as int)),
        decreases cands@.len() - i,
    {
        let n = cands[i].as_str().unicode_len();
        proof {
            assert(texts(cands@).take(i + 1).drop_last() =~= texts(cands@).take(i as int));
            assert(texts(cands@).take(i + 1).last() == cands@[i as int]@);
            assert(texts(cands@).take(i + 1)[at as int] == cands@[at as int]@);
        }
        if n > best {
            at = i;
            best = n;
        }
        i += 1;
    }
    assert(texts(cands@).take(i as int) =~= texts(cands@));
    at
}

/// The places of the characters to consult in a word of `n` characters.
pub fn consulted_spots(n: usize) -> (out: Vec<usize>)
    ensures
        out@.len() == spots(n as int).len(),
        forall|i: int| 0 <= i < out@.len() ==> out@[i] as int == spots(n as int)[i],
{
    let mut out: Vec<usize> = Vec::new();
    if n <= 3 {
        let mut i: usize = 0;
        while i < n
            invariant
                i <= n <= 3,
                out@.len() == i,
                forall|j: int| 0 <= j < i ==> out@[j] as int == j,
            decreases n - i,
        {
            out.push(i);
            i += 1;
        }
    } else {
        out.push(0);
        out.push(1);
        out.push(2);
        out.push(n - 1);
    }
    out
}

/// Puts the first `k` characters of `code`, or all of it, at the end of
/// `out`.
pub fn push_prefix(out: &mut String, code: &str, k: usize)
    ensures
        final(out)@ == old(out)@ + prefix(code@, k as int),
{
    let n = code.unicode_len();
    if n <= k {
        out.append(code);
    } else {
        out.append(code.substring_char(0, k));
    }
}

/// Composes a code from the codes of the consulted characters.
pub fn combine_codes(codes: &Vec<String>) -> (code: String)
    requires
        2 <= codes@.len() <= 4,
    ensures
        code@ == combine(texts(codes@)),
{
    let mut code = String::new();
    if codes.len() == 2 {
        push_prefix(&mut code, codes[0].as_str(), 2);
        push_prefix(&mut code, codes[1].as_str(), 2);
    } else if codes.len() == 3 {
        push_prefix(&mut code, codes[0].as_str(), 1);
        push_prefix(&mut code, codes[1].as_str(), 1);
        push_prefix(&mut code, codes[2].as_str(), 2);
    } else {
        push_prefix(&mut code, codes[0].as_str(), 1);
        push_prefix(&mut code, codes[1].as_str(), 1);
        push_prefix(&mut code, codes[2].as_str(), 1);
        push_prefix(&mut code, codes[3].as_str(), 1);
    }
    assert(code@ =~= combine(texts(codes@)));
    code
}

/// Composes the code of `word` from the table's codes of its characters.
/// There is no code for a word of fewer than two characters, nor where one
/// of the consulted characters is missing from the table.
pub fn compose_code(table: &CharTable, word: &str) -> (code: Option<String>)
    ensures
        code is Some <==> direct_code(table@, word@) is Some,
        code is Some ==> code->0@ == direct_code(table@, word@)->0,
{
    let n = word.unicode_len();
    if n < 2 {
        return None;
    }
    let places = consulted_spots(n);
    let ghost found = Seq::new(consulted(word@).len(), |i: int| table@.get(consulted(word@)[i]));
    let mut codes: Vec<String> = Vec::new();
    let mut i: usize = 0;
    while i < places.len()
        invariant
            n == word@.len(),
            n >= 2,
            i <= places@.len(),
            places@.len() == spots(n as int).len(),
            forall|j: int| 0 <= j < places@.len() ==> places@[j] as int == spots(n as int)[j],
            found == Seq::new(consulted(word@).len(), |i: int| table@.get(consulted(word@)[i])),
            codes@.len() == i,
            forall|j: int| 0 <= j < i ==> found[j] == Some(#[trigger] codes@[j]@),
        decreases places@.len() - i,
    {
        let c = word.get_char(places[i]);
        assert(c == consulted(word@)[i as int]);
        match table.lookup(c) {
            None => {
                assert(found[i as int] is None);
                return None;
            },
            Some(code) => {
                codes.push(code);
            },
        }
        i += 1;
    }
    assert(texts(codes@) =~= Seq::new(found.len(), |i: int| found[i]->0));
    Some(combine_codes(&codes))
}

/// The full code of the character at place `at` of `word` under the index;
/// none where the word has no such place.
pub fn resolve_full(index: &ReverseIndex, word: &str, at: usize) -> (code: Option<String>)
    requires
        index.wf(),
    ensures
        code is Some <==> at < word@.len() && full_code(index@, word@[at as int]) is Some,
        code is Some ==> code->0@ == full_code(index@, word@[at as int])->0,
{
    if at >= word.unicode_len() {
        return None;
    }
    let key = word.substring_char(at, at + 1);
    assert(key@ =~= seq![word@[at as int]]);
    let cands = index.candidates(key);
    if cands.len() == 0 {
        return None;
    }
    let best = longest(&cands);
    if cands[best].as_str().unicode_len() < 2 {
        None
    } else {
        Some(cands[best].clone())
    }
}

/// Composes the code of `word` from the full codes that the index gives
/// its characters. A single character gets its full code unchanged. There
/// is no code for the empty word, nor where one of the consulted
/// characters has no full code.
pub fn compose_code_indexed(index: &ReverseIndex, word: &str) -> (code: Option<String>)
    requires
        index.wf(),
    ensures
        code is Some <==> indexed_code(index@, word@) is Some,
        code is Some ==> code->0@ == indexed_code(index@, word@)->0,
{
    let n = word.unicode_len();
    if n == 0 {
        return None;
    }
    if n == 1 {
        return resolve_full(index, word, 0);
    }
    let places = consulted_spots(n);
    let ghost found = Seq::new(
        consulted(word@).len(),
        |i: int| full_code(index@, consulted(word@)[i]),
    );
    let mut codes: Vec<String> = Vec::new();
    let mut i: usize = 0;
    while i < places.len()
        invariant
            index.wf(),
            n == word@.len(),
            n >= 2,
            i <= places@.len(),
            places@.len() == spots(n as int).len(),
            forall|j: int| 0 <= j < places@.len() ==> places@[j] as int == spots(n as int)[j],
            found == Seq::new(
                consulted(word@).len(),
                |i: int| full_code(index@, consulted(word@)[i]),
            ),
            codes@.len() == i,
            forall|j: int| 0 <= j < i ==> found[j] == Some(#[trigger] codes@[j]@),
        decreases places@.len() - i,
    {
        assert(word@[places@[i as int] as int] == consulted(word@)[i as int]);
        match resolve_full(index, word, places[i]) {
            None => {
                assert(found[i as int] is None);
                return None;
            },
            Some(code) => {
                codes.push(code);
            },
        }
        i += 1;
    }
    assert(texts(codes@) =~= Seq::new(found.len(), |i: int| found[i]->0));
    Some(combine_codes(&codes))
}

} // verus!
