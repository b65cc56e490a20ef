//! The session: the dictionary, its header block and the table of
//! character codes that are currently loaded. The caller owns it and hands
//! it to every operation; an operation on a part that was never loaded
//! fails with `NotLoaded`.

use crate::compose::{compose_code, compose_code_indexed, direct_code, indexed_code, CharTable};
use crate::dictionary::{turned, Dictionary, EditError};
use crate::format::{
    body_lines, body_of, entry_pairs, header_of, joined, parse_char_table, parse_dictionary,
    render, serialize_lines, table_of,
};
use crate::index::{collect, items_at};
use crate::text::texts;
use vstd::prelude::*;
use vstd::string::*;

verus! {

/// What is loaded at the moment. The dictionary and its header block are
/// loaded together.
pub struct Session {
    pub dictionary: Option<Dictionary>,
    pub header: Option<Vec<String>>,
    pub char_table: Option<CharTable>,
}

impl Session {
    /// The dictionary, where one is loaded, is in order, and it is loaded
    /// exactly when its header block is.
    pub open spec fn wf(&self) -> bool {
        &&& self.dictionary is Some ==> self.dictionary->0.wf()
        &&& self.dictionary is Some <==> self.header is Some
    }

    /// A session with nothing loaded.
    pub fn new() -> (s: Session)
        ensures
            s.wf(),
            s.dictionary is None,
            s.header is None,
            s.char_table is None,
    {
        Session { dictionary: None, header: None, char_table: None }
    }

    /// Tells whether the session is in order.
    pub fn is_sound(&self) -> (b: bool)
        ensures
            b == self.wf(),
    {
        match (&self.dictionary, &self.header) {
            (Some(dictionary), Some(_)) => dictionary.is_ordered(),
            (None, None) => true,
            _ => false,
        }
    }

    /// Puts the dictionary read from `lines` and its header block in place
    /// of those loaded before.
    pub fn load_dictionary(&mut self, lines: &Vec<String>)
        requires
            old(self).wf(),
        ensures
            final(self).wf(),
            final(self).dictionary is Some,
            final(self).dictionary->0@ == collect(entry_pairs(body_of(texts(lines@)))),
            final(self).dictionary->0.word_count() == entry_pairs(body_of(texts(lines@))).len(),
            final(self).header is Some,
            texts(final(self).header->0@) == header_of(texts(lines@)),
            final(self).char_table == old(self).char_table,
    {
        let loaded = parse_dictionary(lines);
        self.dictionary = Some(loaded.dictionary);
        self.header = Some(loaded.header);
    }

    /// Puts the table read from `lines` in place of the one loaded before.
    pub fn load_char_table(&mut self, lines: &Vec<String>)
        requires
            old(self).wf(),
        ensures
            final(self).wf(),
            final(self).char_table is Some,
            final(self).char_table->0@ == table_of(texts(lines@)),
            final(self).dictionary == old(self).dictionary,
            final(self).header == old(self).header,
    {
        self.char_table = Some(parse_char_table(lines));
    }

    /// Loads the dictionary with its header block and the table, each from
    /// the lines of its file.
    pub fn load(&mut self, dict_lines: &Vec<String>, table_lines: &Vec<String>)
        requires
            old(self).wf(),
        ensures
            final(self).wf(),
            final(self).dictionary is Some,
            final(self).dictionary->0@ == collect(entry_pairs(body_of(texts(dict_lines@)))),
            final(self).header is Some,
            texts(final(self).header->0@) == header_of(texts(dict_lines@)),
            final(self).char_table is Some,
            final(self).char_table->0@ == table_of(texts(table_lines@)),
    {
        self.load_dictionary(dict_lines);
        self.load_char_table(table_lines);
    }

    /// The lines of the dictionary file for what is loaded: the header
    /// block, then the words.
    pub fn save_lines(&self) -> (r: Result<Vec<String>, EditError>)
        requires
            self.wf(),
        ensures
            r is Err <==> self.dictionary is None,
            r is Err ==> r->Err_0 == EditError::NotLoaded,
            r is Ok ==> texts(r->Ok_0@) == texts(self.header->0@) + body_lines(
                self.dictionary->0.pairs(),
            ),
    {
        match (&self.dictionary, &self.header) {
            (Some(dictionary), Some(header)) => Ok(serialize_lines(dictionary, header)),
            _ => Err(EditError::NotLoaded),
        }
    }

    /// The text of the dictionary file for what is loaded.
    pub fn save(&self) -> (r: Result<String, EditError>)
        requires
            self.wf(),
        ensures
            r is Err <==> self.dictionary is None,
            r is Err ==> r->Err_0 == EditError::NotLoaded,
            r is Ok ==> r->Ok_0@ == joined(
                texts(self.header->0@) + body_lines(self.dictionary->0.pairs()),
            ),
    {
        match self.save_lines() {
            Ok(lines) => Ok(render(&lines)),
            Err(e) => Err(e),
        }
    }

    /// The header block as one text, every line ended by a line feed.
    pub fn header_text(&self) -> (r: Result<String, EditError>)
        requires
            self.wf(),
        ensures
            r is Err <==> self.header is None,
            r is Err ==> r->Err_0 == EditError::NotLoaded,
            r is Ok ==> r->Ok_0@ == joined(texts(self.header->0@)),
    {
        match &self.header {
            Some(header) => Ok(render(header)),
            None => Err(EditError::NotLoaded),
        }
    }

    /// Composes the code of `word` from the loaded table.
    pub fn compose_code(&self, word: &str) -> (r: Result<Option<String>, EditError>)
        ensures
            r is Err <==> self.char_table is None,
            r is Err ==> r->Err_0 == EditError::NotLoaded,
            r is Ok ==> (r->Ok_0 is Some <==> direct_code(self.char_table->0@, word@) is Some),
            r is Ok && r->Ok_0 is Some ==> r->Ok_0->0@ == direct_code(
                self.char_table->0@,
                word@,
            )->0,
    {
        match &self.char_table {
            Some(table) => Ok(compose_code(table, word)),
            None => Err(EditError::NotLoaded),
        }
    }

    /// Composes the code of `word` from the loaded dictionary: the index
    /// from words to codes is built from the dictionary as it stands, so
    /// that every edit made so far counts.
    pub fn compose_code_indexed(&self, word: &str) -> (r: Result<Option<String>, EditError>)
        requires
            self.wf(),
        ensures
            r is Err <==> self.dictionary is None,
            r is Err ==> r->Err_0 == EditError::NotLoaded,
            r is Ok ==> (r->Ok_0 is Some <==> indexed_code(
                collect(turned(self.dictionary->0.pairs())),
                word@,
            ) is Some),
            r is Ok && r->Ok_0 is Some ==> r->Ok_0->0@ == indexed_code(
                collect(turned(self.dictionary->0.pairs())),
                word@,
            )->0,
    {
        match &self.dictionary {
            Some(dictionary) => {
                let index = dictionary.reverse_index();
                Ok(compose_code_indexed(&index, word))
            },
            None => Err(EditError::NotLoaded),
        }
    }

    /// Files `word` under `code` in the loaded dictionary, unless it is
    /// filed there already.
    pub fn add_word(&mut self, code: &str, word: &str) -> (r: Result<(), EditError>)
        requires
            old(self).wf(),
        ensures
            final(self).wf(),
            final(self).header == old(self).header,
            final(self).char_table == old(self).char_table,
            old(self).dictionary is None ==> r == Err::<(), EditError>(EditError::NotLoaded)
                && *final(self) == *old(self),
            old(self).dictionary is Some ==> {
                let before = old(self).dictionary->0@;
                &&& final(self).dictionary is Some
                &&& r is Err <==> items_at(before, code@).contains(word@)
                &&& r is Err ==> r == Err::<(), EditError>(EditError::AlreadyExists)
                    && final(self).dictionary == old(self).dictionary
                &&& r is Ok ==> final(self).dictionary->0@ == before.insert(
                    code@,
                    items_at(before, code@).push(word@),
                )
            },
    {
        match self.dictionary.take() {
            Some(mut dictionary) => {
                let r = dictionary.add_word(code, word);
                self.dictionary = Some(dictionary);
                r
            },
            None => Err(EditError::NotLoaded),
        }
    }

    /// The words filed under `code` in the loaded dictionary.
    pub fn query_words(&self, code: &str) -> (r: Result<Vec<String>, EditError>)
        requires
            self.wf(),
        ensures
            r is Err <==> self.dictionary is None,
            r is Err ==> r->Err_0 == EditError::NotLoaded,
            r is Ok ==> texts(r->Ok_0@) == items_at(self.dictionary->0@, code@),
    {
        match &self.dictionary {
            Some(dictionary) => Ok(dictionary.query_words(code)),
            None => Err(EditError::NotLoaded),
        }
    }

    /// Puts `words` in place of the words of `code` in the loaded
    /// dictionary; an unknown code stays unknown.
    pub fn update_words(&mut self, code: &str, words: Vec<String>) -> (r: Result<(), EditError>)
        requires
            old(self).wf(),
        ensures
            final(self).wf(),
            final(self).header == old(self).header,
            final(self).char_table == old(self).char_table,
            r is Err <==> old(self).dictionary is None,
            r is Err ==> r->Err_0 == EditError::NotLoaded && *final(self) == *old(self),
            r is Ok ==> {
                let before = old(self).dictionary->0@;
                &&& final(self).dictionary is Some
                &&& before.contains_key(code@) ==> final(self).dictionary->0@ == before.insert(
                    code@,
                    texts(words@),
                )
                &&& !before.contains_key(code@) ==> final(self).dictionary == old(
                    self,
                ).dictionary
            },
    {
        match self.dictionary.take() {
            Some(mut dictionary) => {
                dictionary.update_words(code, words);
                self.dictionary = Some(dictionary);
                Ok(())
            },
            None => Err(EditError::NotLoaded),
        }
    }
}

} // verus!
