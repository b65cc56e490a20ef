//! What holds of the dictionary and its file format as a whole.

use crate::compose::direct_code;
use crate::dictionary::{added, Dictionary};
use crate::format::{body_lines, body_of, entry_pairs, header_end, header_of, sentinel};
use crate::index::{
    as_map, ascending, collect, items_at, lemma_insert_row, pairs_of, row_pairs, Pair, Row,
};
use crate::text::{fields_of, split_by, Separator};
use vstd::prelude::*;

verus! {

/// How often `w` occurs among `items`.
pub open spec fn occurrences(items: Seq<Seq<char>>, w: Seq<char>) -> nat
    decreases items.len(),
{
    if items.len() == 0 {
        0
    } else {
        occurrences(items.drop_last(), w) + if items.last() == w {
            1nat
        } else {
            0nat
        }
    }
}

/// A word occurs at least once among the items exactly when it is one of
/// them.
pub proof fn lemma_occurrences_contains(items: Seq<Seq<char>>, w: Seq<char>)
    ensures
        occurrences(items, w) > 0 <==> items.contains(w),
    decreases items.len(),
{
    if items.len() > 0 {
        lemma_occurrences_contains(items.drop_last(), w);
        if items.contains(w) {
            let i = choose|i: int| 0 <= i < items.len() && items[i] == w;
            if i < items.len() - 1 {
                assert(items.drop_last()[i] == w);
            }
        }
        if items.drop_last().contains(w) {
            let i = choose|i: int| 0 <= i < items.drop_last().len() && items.drop_last()[i] == w;
            assert(items[i] == w);
        }
        if items.last() == w {
            assert(items[items.len() - 1] == w);
        }
    }
}

/// Where a word is filed under a code at most once, it is filed there
/// exactly once after it has been added, and adding it again changes
/// nothing, however often that is done.
pub proof fn lemma_add_then_query(m: Map<Seq<char>, Seq<Seq<char>>>, c: Seq<char>, w: Seq<char>)
    requires
        occurrences(items_at(m, c), w) <= 1,
    ensures
        occurrences(items_at(added(m, c, w), c), w) == 1,
        items_at(added(m, c, w), c).contains(w),
        added(added(m, c, w), c, w) == added(m, c, w),
{
    let items = items_at(m, c);
    lemma_occurrences_contains(items, w);
    if !items.contains(w) {
        assert(items.push(w).drop_last() =~= items);
        assert(items.push(w).last() == w);
        assert(items.push(w)[items.len() as int] == w);
    }
}

/// The code composed for a word depends on the word and on the table's
/// contents alone.
pub proof fn lemma_compose_depends_on_contents(
    a: Map<char, Seq<char>>,
    b: Map<char, Seq<char>>,
    word: Seq<char>,
)
    requires
        a =~= b,
    ensures
        direct_code(a, word) == direct_code(b, word),
{
}

/// No tab among the characters.
pub open spec fn tab_free(s: Seq<char>) -> bool {
    forall|i: int| 0 <= i < s.len() ==> s[i] != '\t'
}

/// A text without a tab is one field.
pub proof fn lemma_split_plain(s: Seq<char>)
    requires
        tab_free(s),
    ensures
        split_by(s, Separator::Tab) == seq![s],
    decreases s.len(),
{
    if s.len() == 0 {
        assert(s =~= Seq::<char>::empty());
        assert(seq![Seq::<char>::empty()] =~= seq![s]);
    } else {
        lemma_split_plain(s.drop_last());
        assert(s.drop_last().push(s.last()) =~= s);
        assert(seq![s.drop_last()].update(0, s.drop_last().push(s.last())) =~= seq![s]);
    }
}

/// A word, a tab and a code, neither holding a tab, are two fields: the
/// word and the code.
pub proof fn lemma_split_entry(word: Seq<char>, code: Seq<char>)
    requires
        tab_free(word),
        tab_free(code),
    ensures
        split_by(word + seq!['\t'] + code, Separator::Tab) == seq![word, code],
    decreases code.len(),
{
    let s = word + seq!['\t'] + code;
    if code.len() == 0 {
        assert(s.drop_last() =~= word);
        lemma_split_plain(word);
        assert(code =~= Seq::<char>::empty());
        assert(seq![word].push(Seq::empty()) =~= seq![word, code]);
    } else {
        assert(s.drop_last() =~= word + seq!['\t'] + code.drop_last());
        lemma_split_entry(word, code.drop_last());
        assert(s.last() == code.last());
        assert(code.drop_last().push(code.last()) =~= code);
        assert(seq![word, code.drop_last()].update(1, code.drop_last().push(code.last())) =~= seq![
            word,
            code,
        ]);
    }
}

/// Neither part of any pair holds a tab.
pub open spec fn pairs_tab_free(ps: Seq<Pair>) -> bool {
    forall|i: int| 0 <= i < ps.len() ==> tab_free((#[trigger] ps[i]).0) && tab_free(ps[i].1)
}

/// Reading the lines written for pairs without tabs gives the pairs back.
pub proof fn lemma_entry_pairs_of_body(ps: Seq<Pair>)
    requires
        pairs_tab_free(ps),
    ensures
        entry_pairs(body_lines(ps)) == ps,
    decreases ps.len(),
{
    if ps.len() == 0 {
        assert(entry_pairs(body_lines(ps)) =~= ps);
    } else {
        let p = ps.last();
        assert(body_lines(ps).drop_last() =~= body_lines(ps.drop_last()));
        lemma_entry_pairs_of_body(ps.drop_last());
        lemma_split_entry(p.1, p.0);
        assert(body_lines(ps).last() == p.1 + seq!['\t'] + p.0);
        assert(ps.drop_last().push((p.0, p.1)) =~= ps);
    }
}

/// A header block: its last line is the sentinel line, and no line before
/// that is.
pub open spec fn header_block(h: Seq<Seq<char>>) -> bool {
    &&& h.len() > 0
    &&& h.last() == sentinel()
    &&& forall|i: int| 0 <= i < h.len() - 1 ==> h[i] != sentinel()
}

/// The header of a file that starts with a header block ends where the
/// block ends.
pub proof fn lemma_header_end(h: Seq<Seq<char>>, rest: Seq<Seq<char>>, k: int)
    requires
        header_block(h),
        0 <= k < h.len(),
    ensures
        header_end(h + rest, k) == h.len(),
    decreases h.len() - k,
{
    assert((h + rest)[k] == h[k]);
    if k < h.len() - 1 {
        lemma_header_end(h, rest, k + 1);
    }
}

/// A file that starts with a header block has that block as its header
/// and the lines after it as its body.
pub proof fn lemma_header_split(h: Seq<Seq<char>>, rest: Seq<Seq<char>>)
    requires
        header_block(h),
    ensures
        header_of(h + rest) == h,
        body_of(h + rest) == rest,
{
    lemma_header_end(h, rest, 0);
    assert(header_of(h + rest) =~= h);
    assert(body_of(h + rest) =~= rest);
}

/// A file whose first sentinel line is its last line is all header: the
/// header is the whole file and there is no body, hence no word.
pub proof fn lemma_header_only(lines: Seq<Seq<char>>)
    requires
        header_block(lines),
    ensures
        header_of(lines) == lines,
        body_of(lines) == Seq::<Seq<char>>::empty(),
        entry_pairs(body_of(lines)) == Seq::<Pair>::empty(),
        collect(entry_pairs(body_of(lines))) == Map::<Seq<char>, Seq<Seq<char>>>::empty(),
{
    lemma_header_split(lines, Seq::empty());
    assert(lines + Seq::<Seq<char>>::empty() =~= lines);
}

/// A file without a sentinel line is all header and has no body.
pub proof fn lemma_no_sentinel(lines: Seq<Seq<char>>, k: int)
    requires
        forall|i: int| 0 <= i < lines.len() ==> lines[i] != sentinel(),
        0 <= k <= lines.len(),
    ensures
        header_end(lines, k) == lines.len(),
        k == 0 ==> header_of(lines) == lines && body_of(lines) == Seq::<Seq<char>>::empty(),
    decreases lines.len() - k,
{
    if k < lines.len() {
        lemma_no_sentinel(lines, k + 1);
    }
    if k == 0 {
        assert(header_of(lines) =~= lines);
        assert(body_of(lines) =~= Seq::<Seq<char>>::empty());
    }
}

/// The pairs of two runs of lines, one after the other, are the pairs of
/// the first run followed by those of the second.
pub proof fn lemma_entry_pairs_concat(a: Seq<Seq<char>>, b: Seq<Seq<char>>)
    ensures
        entry_pairs(a + b) == entry_pairs(a) + entry_pairs(b),
    decreases b.len(),
{
    if b.len() == 0 {
        assert(a + b =~= a);
        assert(entry_pairs(a) + entry_pairs(b) =~= entry_pairs(a));
    } else {
        assert((a + b).drop_last() =~= a + b.drop_last());
        assert((a + b).last() == b.last());
        lemma_entry_pairs_concat(a, b.drop_last());
        let f = fields_of(b.last(), Separator::Tab);
        if f.len() == 2 {
            assert((entry_pairs(a) + entry_pairs(b.drop_last())).push((f[1], f[0]))
                =~= entry_pairs(a) + entry_pairs(b));
        }
    }
}

/// A line that does not hold exactly two fields between tabs counts for
/// nothing, wherever in the body it stands: the pairs are those of the
/// lines around it.
pub proof fn lemma_malformed_line_dropped(a: Seq<Seq<char>>, line: Seq<char>, b: Seq<Seq<char>>)
    requires
        fields_of(line, Separator::Tab).len() != 2,
    ensures
        entry_pairs(a + seq![line] + b) == entry_pairs(a + b),
{
    lemma_entry_pairs_concat(a + seq![line], b);
    lemma_entry_pairs_concat(a, seq![line]);
    lemma_entry_pairs_concat(a, b);
    assert(seq![line].drop_last() =~= Seq::<Seq<char>>::empty());
    assert(seq![line].last() == line);
    assert(entry_pairs(seq![line].drop_last()) =~= Seq::<Pair>::empty());
    assert(entry_pairs(seq![line]) =~= Seq::<Pair>::empty());
    assert(entry_pairs(a) + Seq::<Pair>::empty() =~= entry_pairs(a));
}

/// Filing the items of one row after the pairs `ps` puts them at the end
/// of the row's key, and changes nothing where the row has no item.
pub proof fn lemma_collect_row(ps: Seq<Pair>, row: Row)
    ensures
        collect(ps + row_pairs(row)) == if row.1.len() == 0 {
            collect(ps)
        } else {
            collect(ps).insert(row.0, items_at(collect(ps), row.0) + row.1)
        },
    decreases row.1.len(),
{
    let m = collect(ps);
    if row.1.len() == 0 {
        assert(ps + row_pairs(row) =~= ps);
    } else {
        let shorter = (row.0, row.1.drop_last());
        let all = ps + row_pairs(row);
        assert(all.drop_last() =~= ps + row_pairs(shorter));
        assert(all.last() == (row.0, row.1.last()));
        lemma_collect_row(ps, shorter);
        if shorter.1.len() == 0 {
            assert(items_at(m, row.0).push(row.1.last()) =~= items_at(m, row.0) + row.1);
        } else {
            assert((items_at(m, row.0) + shorter.1).push(row.1.last()) =~= items_at(m, row.0)
                + row.1);
            assert(collect(all) =~= m.insert(row.0, items_at(m, row.0) + row.1));
        }
    }
}

/// No row is without items.
pub open spec fn rows_filled(l: Seq<Row>) -> bool {
    forall|i: int| 0 <= i < l.len() ==> (#[trigger] l[i]).1.len() > 0
}

/// Filing the pairs of ascending rows one by one gives every key the
/// items of its row. A row without items leaves no trace; where there is
/// no such row, the result is the map of the rows.
pub proof fn lemma_collect_listing(l: Seq<Row>)
    requires
        ascending(l),
    ensures
        forall|q: Seq<char>| items_at(collect(pairs_of(l)), q) == items_at(as_map(l), q),
        rows_filled(l) ==> collect(pairs_of(l)) == as_map(l),
    decreases l.len(),
{
    if l.len() == 0 {
        assert(as_map(l) =~= Map::<Seq<char>, Seq<Seq<char>>>::empty());
    } else {
        let dl = l.drop_last();
        let row = l.last();
        lemma_collect_listing(dl);
        lemma_collect_row(pairs_of(dl), row);
        assert forall|j: int| 0 <= j < dl.len() implies crate::text::precedes(
            #[trigger] dl[j].0,
            row.0,
        ) by {
            assert(dl[j] == l[j]);
        }
        lemma_insert_row(dl, dl.len() as int, row);
        assert(dl.insert(dl.len() as int, row) =~= l);
        let c = collect(pairs_of(dl));
        assert(items_at(c, row.0) == items_at(as_map(dl), row.0));
        assert(Seq::<Seq<char>>::empty() + row.1 =~= row.1);
        assert forall|q: Seq<char>| items_at(collect(pairs_of(l)), q) == items_at(
            as_map(l),
            q,
        ) by {
            assert(items_at(c, q) == items_at(as_map(dl), q));
        }
        if rows_filled(l) {
            assert(rows_filled(dl)) by {
                assert forall|i: int| 0 <= i < dl.len() implies (#[trigger] dl[i]).1.len() > 0 by {
                    assert(dl[i] == l[i]);
                }
            }
            assert(l[l.len() - 1].1.len() > 0);
            assert(collect(pairs_of(l)) =~= as_map(l));
        }
    }
}

/// Writing a dictionary out and reading the lines back gives the same
/// header block and, under every code, the same words in the same order,
/// provided that the header block ends with its only sentinel line and
/// that no word or code holds a tab. A code without words is not written
/// and so is unknown afterwards; where there is none, the dictionary read
/// is the dictionary written.
pub proof fn lemma_round_trip(d: Dictionary, header: Seq<Seq<char>>)
    requires
        d.wf(),
        header_block(header),
        pairs_tab_free(d.pairs()),
    ensures
        header_of(header + body_lines(d.pairs())) == header,
        body_of(header + body_lines(d.pairs())) == body_lines(d.pairs()),
        entry_pairs(body_of(header + body_lines(d.pairs()))) == d.pairs(),
        forall|code: Seq<char>|
            items_at(collect(entry_pairs(body_of(header + body_lines(d.pairs())))), code)
                == items_at(d@, code),
        rows_filled(d.listing()) ==> collect(
            entry_pairs(body_of(header + body_lines(d.pairs()))),
        ) == d@,
{
    lemma_header_split(header, body_lines(d.pairs()));
    lemma_entry_pairs_of_body(d.pairs());
    lemma_collect_listing(d.listing());
}

} // verus!
