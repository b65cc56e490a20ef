//! Text primitives: the order of codes, and the splitting of a line into
//! fields.

use vstd::prelude::*;
use vstd::string::*;

verus! {

/// The views of a sequence of strings, one by one.
pub open spec fn texts(v: Seq<String>) -> Seq<Seq<char>> {
    Seq::new(v.len(), |i: int| v[i]@)
}

/// `a` and `b` hold the same characters at every position below `k`.
pub open spec fn agree_upto(a: Seq<char>, b: Seq<char>, k: int) -> bool {
    &&& 0 <= k <= a.len()
    &&& k <= b.len()
    &&& forall|j: int| 0 <= j < k ==> a[j] == b[j]
}

/// The strict lexicographic order by character: `a` comes before `b` when,
/// after their longest common prefix, `a` ends while `b` goes on or `a`
/// holds the smaller character.
pub open spec fn precedes(a: Seq<char>, b: Seq<char>) -> bool {
    exists|k: int| #[trigger]
        agree_upto(a, b, k) && k < b.len() && (k == a.len() || (a[k] as u32) < (b[k] as u32))
}

/// Nothing comes before itself.
pub proof fn lemma_precedes_irreflexive(a: Seq<char>)
    ensures
        !precedes(a, a),
{
}

/// The order is transitive.
pub proof fn lemma_precedes_transitive(a: Seq<char>, b: Seq<char>, c: Seq<char>)
    requires
        precedes(a, b),
        precedes(b, c),
    ensures
        precedes(a, c),
{
    let k1 = choose|k: int| #[trigger]
        agree_upto(a, b, k) && k < b.len() && (k == a.len() || (a[k] as u32) < (b[k] as u32));
    let k2 = choose|k: int| #[trigger]
        agree_upto(b, c, k) && k < c.len() && (k == b.len() || (b[k] as u32) < (c[k] as u32));
    let k = if k1 <= k2 { k1 } else { k2 };
    assert(agree_upto(a, c, k));
}

/// How one text stands to another in the order of codes.
#[derive(Clone, Copy, Debug, PartialEq, Eq)]
pub enum Rank {
    Before,
    Same,
    After,
}

/// Compares two texts character by character.
pub fn rank(a: &str, b: &str) -> (r: Rank)
    ensures
        r == Rank::Before <==> precedes(a@, b@),
        r == Rank::Same <==> a@ == b@,
        r == Rank::After <==> precedes(b@, a@),
{
    let n = a.unicode_len();
    let m = b.unicode_len();
    let mut i: usize = 0;
    proof {
        lemma_precedes_irreflexive(a@);
        if precedes(a@, b@) && precedes(b@, a@) {
            lemma_precedes_transitive(a@, b@, a@);
        }
    }
    while i < n && i < m
        invariant
            n == a@.len(),
            m == b@.len(),
            agree_upto(a@, b@, i as int),
        decreases n - i,
    {
        let x = a.get_char(i);
        let y = b.get_char(i);
        if x != y {
            assert(agree_upto(b@, a@, i as int));
            if (x as u32) < (y as u32) {
                return Rank::Before;
            } else {
                return Rank::After;
            }
        }
        i += 1;
    }
    assert(agree_upto(b@, a@, i as int));
    if n == m {
        assert(a@ =~= b@);
        Rank::Same
    } else if n < m {
        Rank::Before
    } else {
        Rank::After
    }
}

/// What separates the fields of a line.
#[derive(Clone, Copy, Debug, PartialEq, Eq)]
pub enum Separator {
    /// A single tab character; two tabs in a row enclose an empty field.
    Tab,
    /// Any white space character.
    Blank,
}

/// Whether a character has the Unicode property White_Space.
pub uninterp spec fn unicode_white_space(c: char) -> bool;

/// Calls `char::is_whitespace` of the standard library, which tells whether
/// the character has the Unicode property White_Space. The answer depends on
/// the character alone.
#[verifier::external_body]
fn is_white_space(c: char) -> (b: bool)
    ensures
        b == unicode_white_space(c),
{
    c.is_whitespace()
}

impl Separator {
    /// Whether `c` separates two fields.
    pub open spec fn separates(self, c: char) -> bool {
        match self {
            Separator::Tab => c == '\t',
            Separator::Blank => unicode_white_space(c),
        }
    }

    /// Tests one character.
    pub fn is_separator(&self, c: char) -> (b: bool)
        ensures
            b == self.separates(c),
    {
        match self {
            Separator::Tab => c == '\t',
            Separator::Blank => is_white_space(c),
        }
    }
}

/// The fields of a line: the stretches between separators, empty ones
/// included, so that a line with `k` separators has `k + 1` fields.
pub open spec fn split_by(s: Seq<char>, sep: Separator) -> Seq<Seq<char>>
    decreases s.len(),
{
    if s.len() == 0 {
        seq![Seq::empty()]
    } else {
        let head = split_by(s.drop_last(), sep);
        if sep.separates(s.last()) {
            head.push(Seq::empty())
        } else {
            head.update(head.len() - 1, head.last().push(s.last()))
        }
    }
}

/// The fields that hold at least one character, in order.
pub open spec fn drop_empty(fields: Seq<Seq<char>>) -> Seq<Seq<char>>
    decreases fields.len(),
{
    if fields.len() == 0 {
        Seq::empty()
    } else if fields.last().len() == 0 {
        drop_empty(fields.drop_last())
    } else {
        drop_empty(fields.drop_last()).push(fields.last())
    }
}

/// The fields of a line under a separator. Under `Blank` the empty fields
/// are left out, so that runs of white space count as one separator and
/// white space at either end counts for nothing.
pub open spec fn fields_of(s: Seq<char>, sep: Separator) -> Seq<Seq<char>> {
    match sep {
        Separator::Tab => split_by(s, sep),
        Separator::Blank => drop_empty(split_by(s, sep)),
    }
}

/// Splits a line at every separator.
pub fn split(s: &str, sep: Separator) -> (fields: Vec<String>)
    ensures
        texts(fields@) == split_by(s@, sep),
{
    let n = s.unicode_len();
    let mut fields: Vec<String> = Vec::new();
    let mut start: usize = 0;
    let mut i: usize = 0;
    assert(s@.take(0) =~= Seq::<char>::empty());
    assert(texts(fields@).push(s@.subrange(0, 0)) =~= seq![Seq::<char>::empty()]);
    while i < n
        invariant
            n == s@.len(),
            start <= i <= n,
            split_by(s@.take(i as int), sep) == texts(fields@).push(
                s@.subrange(start as int, i as int),
            ),
        decreases n - i,
    {
        let c = s.get_char(i);
        let ghost before = texts(fields@);
        let ghost field = s@.subrange(start as int, i as int);
        proof {
            assert(s@.take(i + 1).drop_last() =~= s@.take(i as int));
            assert(s@.take(i + 1).last() == c);
        }
        if sep.is_separator(c) {
            fields.push(String::from_str(s.substring_char(start, i)));
            start = i + 1;
            assert(texts(fields@) =~= before.push(field));
            assert(s@.subrange(start as int, i + 1) =~= Seq::<char>::empty());
        } else {
            assert(field.push(c) =~= s@.subrange(start as int, i + 1));
            assert(before.push(field).update(before.len() as int, field.push(c)) =~= before.push(
                field.push(c),
            ));
        }
        i += 1;
    }
    assert(s@.take(n as int) =~= s@);
    let ghost before = texts(fields@);
    fields.push(String::from_str(s.substring_char(start, n)));
    assert(texts(fields@) =~= before.push(s@.subrange(start as int, n as int)));
    fields
}

/// Splits a line into its fields.
pub fn fields(s: &str, sep: Separator) -> (out: Vec<String>)
    ensures
        texts(out@) == fields_of(s@, sep),
{
    let all = split(s, sep);
    match sep {
        Separator::Tab => all,
        Separator::Blank => {
            let mut out: Vec<String> = Vec::new();
            let mut i: usize = 0;
            assert(texts(all@).take(0) =~= Seq::empty());
            assert(texts(out@) =~= Seq::empty());
            while i < all.len()
                invariant
                    i <= all.len(),
                    texts(out@) == drop_empty(texts(all@).take(i as int)),
                decreases all.len() - i,
            {
                let ghost before = texts(out@);
                proof {
                    assert(texts(all@).take(i + 1).drop_last() =~= texts(all@).take(i as int));
                    assert(texts(all@).take(i + 1).last() == all@[i as int]@);
                }
                if all[i].as_str().unicode_len() > 0 {
                    out.push(all[i].clone());
                    assert(texts(out@) =~= before.push(all@[i as int]@));
                }
                i += 1;
            }
            assert(texts(all@).take(all.len() as int) =~= texts(all@));
            out
        },
    }
}

} // verus!
