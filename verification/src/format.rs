//! The two text formats: the dictionary file, with its header block and
//! one `word<TAB>code` line per word, and the table file, with one
//! character and its code per line.

use crate::compose::CharTable;
use crate::dictionary::Dictionary;
use crate::index::{collect, pairs_of, row_pairs, Pair, Row};
use crate::text::{fields, fields_of, rank, texts, Rank, Separator};
use vstd::prelude::*;
use vstd::string::*;

verus! {

/// The line that ends the header block: three full stops.
pub open spec fn sentinel() -> Seq<char> {
    seq!['.', '.', '.']
}

/// The number of lines up to and including the first sentinel line from
/// line `k` on; the number of all lines where there is none.
pub open spec fn header_end(lines: Seq<Seq<char>>, k: int) -> int
    decreases lines.len() - k,
{
    if k < 0 || k >= lines.len() {
        lines.len() as int
    } else if lines[k] == sentinel() {
        k + 1
    } else {
        header_end(lines, k + 1)
    }
}

/// The header block: the lines up to and including the first sentinel
/// line, or all lines where there is none.
pub open spec fn header_of(lines: Seq<Seq<char>>) -> Seq<Seq<char>> {
    lines.take(header_end(lines, 0))
}

/// The lines after the header block.
pub open spec fn body_of(lines: Seq<Seq<char>>) -> Seq<Seq<char>> {
    lines.skip(header_end(lines, 0))
}

/// The (code, word) pairs of the lines that hold exactly two fields
/// between tabs, the word first; every other line is passed over.
pub open spec fn entry_pairs(lines: Seq<Seq<char>>) -> Seq<Pair>
    decreases lines.len(),
{
    if lines.len() == 0 {
        Seq::empty()
    } else {
        let head = entry_pairs(lines.drop_last());
        let f = fields_of(lines.last(), Separator::Tab);
        if f.len() == 2 {
            head.push((f[1], f[0]))
        } else {
            head
        }
    }
}

/// The table that the lines give: a line of exactly two fields between
/// white space, the first a single character, gives that character the
/// second field as its code; a later line overrides an earlier one, and
/// every other line is passed over.
pub open spec fn table_of(lines: Seq<Seq<char>>) -> Map<char, Seq<char>>
    decreases lines.len(),
{
    if lines.len() == 0 {
        Map::empty()
    } else {
        let head = table_of(lines.drop_last());
        let f = fields_of(lines.last(), Separator::Blank);
        if f.len() == 2 && f[0].len() == 1 {
            head.insert(f[0][0], f[1])
        } else {
            head
        }
    }
}

/// One line for each pair: the word, a tab, the code.
pub open spec fn body_lines(ps: Seq<Pair>) -> Seq<Seq<char>> {
    Seq::new(ps.len(), |i: int| ps[i].1 + seq!['\t'] + ps[i].0)
}

/// The text of the lines, each followed by a line feed.
pub open spec fn joined(lines: Seq<Seq<char>>) -> Seq<char>
    decreases lines.len(),
{
    if lines.len() == 0 {
        Seq::empty()
    } else {
        joined(lines.drop_last()) + lines.last() + seq!['\n']
    }
}

/// Whether a line is the sentinel line.
pub fn is_sentinel(line: &str) -> (b: bool)
    ensures
        b == (line@ == sentinel()),
{
    if line.unicode_len() != 3 {
        return false;
    }
    let b = line.get_char(0) == '.' && line.get_char(1) == '.' && line.get_char(2) == '.';
    assert(b ==> line@ =~= sentinel());
    b
}

/// A dictionary file taken apart.
pub struct Loaded {
    /// The words of the body, filed under their codes.
    pub dictionary: Dictionary,
    /// The lines of the header block, the sentinel line included.
    pub header: Vec<String>,
}

/// Reads a dictionary from the lines of its file. The header block is kept
/// line by line; of the lines after it, those with exactly two fields are
/// filed in file order, the others are passed over.
pub fn parse_dictionary(lines: &Vec<String>) -> (r: Loaded)
    ensures
        r.dictionary.wf(),
        texts(r.header@) == header_of(texts(lines@)),
        r.dictionary@ == collect(entry_pairs(body_of(texts(lines@)))),
        r.dictionary.word_count() == entry_pairs(body_of(texts(lines@))).len(),
{
    let ghost all = texts(lines@);
    let mut header: Vec<String> = Vec::new();
    let mut i: usize = 0;
    let mut ended = false;
    while i < lines.len() && !ended
        invariant
            all == texts(lines@),
            i <= lines@.len(),
            texts(header@) =~= all.take(i as int),
            !ended ==> header_end(all, 0) == header_end(all, i as int),
            ended ==> header_end(all, 0) == i,
        decreases lines@.len() - i,
    {
        let ghost before = texts(header@);
        header.push(lines[i].clone());
        ended = is_sentinel(lines[i].as_str());
        i += 1;
        assert(texts(header@) =~= before.push(all[i - 1]));
        assert(all.take(i as int) =~= all.take(i - 1).push(all[i - 1]));
    }
    let start = i;
    let mut dictionary = Dictionary::new();
    assert(all.subrange(start as int, start as int) =~= Seq::<Seq<char>>::empty());
    while i < lines.len()
        invariant
            all == texts(lines@),
            start <= i <= lines@.len(),
            dictionary.wf(),
            dictionary@ == collect(entry_pairs(all.subrange(start as int, i as int))),
            dictionary.word_count() == entry_pairs(all.subrange(start as int, i as int)).len(),
        decreases lines@.len() - i,
    {
        let f = fields(lines[i].as_str(), Separator::Tab);
        proof {
            let upto = all.subrange(start as int, i + 1);
            assert(upto.drop_last() =~= all.subrange(start as int, i as int));
            assert(upto.last() == lines@[i as int]@);
            assert(texts(f@).len() == f@.len());
            if f@.len() == 2 {
                assert(texts(f@)[0] == f@[0]@ && texts(f@)[1] == f@[1]@);
                let ps = entry_pairs(upto.drop_last());
                assert(ps.push((f@[1]@, f@[0]@)).drop_last() =~= ps);
            }
        }
        if f.len() == 2 {
            dictionary.file_word(f[1].as_str(), f[0].as_str());
        }
        i += 1;
    }
    assert(all.subrange(start as int, i as int) =~= body_of(all));
    Loaded { dictionary, header }
}

/// Reads the table of character codes from the lines of its file.
pub fn parse_char_table(lines: &Vec<String>) -> (table: CharTable)
    ensures
        table@ == table_of(texts(lines@)),
{
    let ghost all = texts(lines@);
    let mut table = CharTable::new();
    let mut i: usize = 0;
    assert(all.take(0) =~= Seq::<Seq<char>>::empty());
    while i < lines.len()
        invariant
            all == texts(lines@),
            i <= lines@.len(),
            table@ == table_of(all.take(i as int)),
        decreases lines@.len() - i,
    {
        let f = fields(lines[i].as_str(), Separator::Blank);
        proof {
            assert(all.take(i + 1).drop_last() =~= all.take(i as int));
            assert(all.take(i + 1).last() == lines@[i as int]@);
            assert(texts(f@).len() == f@.len());
            if f@.len() == 2 {
                assert(texts(f@)[0] == f@[0]@ && texts(f@)[1] == f@[1]@);
            }
        }
        if f.len() == 2 && f[0].as_str().unicode_len() == 1 {
            table.insert(f[0].as_str().get_char(0), f[1].as_str());
        }
        i += 1;
    }
    assert(all.take(i as int) =~= all);
    table
}

/// The line of one word: the word, a tab, the code.
pub fn entry_line(word: &str, code: &str) -> (line: String)
    ensures
        line@ == word@ + seq!['\t'] + code@,
{
    let mut line = String::from_str(word);
    proof {
        reveal_strlit("\t");
        assert("\t"@ =~= seq!['\t']);
    }
    line.append("\t");
    line.append(code);
    line
}

/// The lines of a dictionary file: the header block as it is, then one
/// line for each word, the codes ascending and the words of a code in
/// stored order.
pub fn serialize_lines(dictionary: &Dictionary, header: &Vec<String>) -> (lines: Vec<String>)
    requires
        dictionary.wf(),
    ensures
        texts(lines@) == texts(header@) + body_lines(dictionary.pairs()),
{
    let ghost l = dictionary.listing();
    let ghost h = texts(header@);
    let mut lines: Vec<String> = Vec::new();
    let mut k: usize = 0;
    while k < header.len()
        invariant
            h == texts(header@),
            k <= header@.len(),
            texts(lines@) =~= h.take(k as int),
        decreases header@.len() - k,
    {
        let ghost before = texts(lines@);
        lines.push(header[k].clone());
        k += 1;
        assert(texts(lines@) =~= before.push(h[k - 1]));
        assert(h.take(k as int) =~= h.take(k - 1).push(h[k - 1]));
    }
    let mut i: usize = 0;
    assert(l.take(0) =~= Seq::<Row>::empty());
    assert(texts(lines@) =~= h + body_lines(pairs_of(l.take(0))));
    while i < dictionary.index.entries.len()
        invariant
            l == dictionary.index.listing(),
            i <= dictionary.index.entries@.len(),
            texts(lines@) == h + body_lines(pairs_of(l.take(i as int))),
        decreases dictionary.index.entries@.len() - i,
    {
        let entry = &dictionary.index.entries[i];
        let ghost done = pairs_of(l.take(i as int));
        let ghost row = l[i as int];
        let mut j: usize = 0;
        assert(done + row_pairs(row).take(0) =~= done);
        while j < entry.items.len()
            invariant
                j <= entry.items@.len(),
                row == entry@,
                texts(lines@) == h + body_lines(done + row_pairs(row).take(j as int)),
            decreases entry.items@.len() - j,
        {
            let ghost before = texts(lines@);
            let line = entry_line(entry.items[j].as_str(), entry.key.as_str());
            lines.push(line);
            proof {
                assert(texts(lines@) =~= before.push(line@));
                assert(h + body_lines(done + row_pairs(row).take(j + 1)) =~= (h + body_lines(
                    done + row_pairs(row).take(j as int),
                )).push(line@));
            }
            j += 1;
        }
        proof {
            assert(row_pairs(row).take(j as int) =~= row_pairs(row));
            assert(l.take(i + 1).drop_last() =~= l.take(i as int));
            assert(l.take(i + 1).last() == row);
        }
        i += 1;
    }
    assert(l.take(i as int) =~= l);
    lines
}

/// The text of a file with the given lines, each ended by a line feed.
pub fn render(lines: &Vec<String>) -> (text: String)
    ensures
        text@ == joined(texts(lines@)),
{
    let ghost all = texts(lines@);
    let mut text = String::new();
    let mut i: usize = 0;
    assert(all.take(0) =~= Seq::<Seq<char>>::empty());
    proof {
        reveal_strlit("\n");
        assert("\n"@ =~= seq!['\n']);
    }
    while i < lines.len()
        invariant
            all == texts(lines@),
            i <= lines@.len(),
            "\n"@ == seq!['\n'],
            text@ == joined(all.take(i as int)),
        decreases lines@.len() - i,
    {
        proof {
            assert(all.take(i + 1).drop_last() =~= all.take(i as int));
            assert(all.take(i + 1).last() == lines@[i as int]@);
        }
        text.append(lines[i].as_str());
        text.append("\n");
        i += 1;
    }
    assert(all.take(i as int) =~= all);
    text
}

} // verus!
