//! Byte-level scanning primitives shared by the rest of the crate.

use vstd::prelude::*;
use vstd::slice::slice_subrange;

verus! {

pub const QUOTE: u8 = 34;

pub const COMMA: u8 = 44;

pub const HYPHEN: u8 = 45;

pub const SLASH: u8 = 47;

pub const EQUALS: u8 = 61;

pub const OPEN_BRACKET: u8 = 91;

pub const CLOSE_BRACKET: u8 = 93;

pub const UNDERSCORE: u8 = 95;

pub const LOWER_V: u8 = 118;

pub const OPEN_BRACE: u8 = 123;

pub const CLOSE_BRACE: u8 = 125;

/// ASCII whitespace: space, tab, line feed, vertical tab, form feed, carriage return.
pub open spec fn is_space(b: u8) -> bool {
    b == 32 || (9 <= b && b <= 13)
}

/// Bytes that may stand inside an unquoted record label: ASCII letters and
/// digits, `_`, `-` and `/`.
pub open spec fn is_label(b: u8) -> bool {
    (97 <= b && b <= 122) || (65 <= b && b <= 90) || (48 <= b && b <= 57) || b == UNDERSCORE
        || b == HYPHEN || b == SLASH
}

/// Whether `b` may stand inside a label.
pub fn label_byte(b: u8) -> (r: bool)
    ensures
        r == is_label(b),
{
    (97 <= b && b <= 122) || (65 <= b && b <= 90) || (48 <= b && b <= 57) || b == UNDERSCORE
        || b == HYPHEN || b == SLASH
}

/// A set of bytes from which a run of text is drawn.
#[derive(Clone, Copy, Debug)]
pub enum ByteClass {
    /// ASCII whitespace.
    Space,
    /// Everything but `]`.
    ListBody,
    /// Everything but `"`.
    Unquoted,
    /// Everything but whitespace and `"`.
    Field,
    /// The one given byte.
    Only(u8),
}

impl ByteClass {
    /// The class holds the byte `b`.
    pub open spec fn holds(self, b: u8) -> bool {
        match self {
            ByteClass::Space => is_space(b),
            ByteClass::ListBody => b != CLOSE_BRACKET,
            ByteClass::Unquoted => b != QUOTE,
            ByteClass::Field => !is_space(b) && b != QUOTE,
            ByteClass::Only(x) => b == x,
        }
    }

    /// Whether the class holds the byte `b`.
    pub fn has(self, b: u8) -> (r: bool)
        ensures
            r == self.holds(b),
    {
        match self {
            ByteClass::Space => b == 32 || (9 <= b && b <= 13),
            ByteClass::ListBody => b != CLOSE_BRACKET,
            ByteClass::Unquoted => b != QUOTE,
            ByteClass::Field => !(b == 32 || (9 <= b && b <= 13)) && b != QUOTE,
            ByteClass::Only(x) => b == x,
        }
    }
}

/// Where the longest run of `class` bytes that starts at `from` ends.
pub open spec fn run_end(s: Seq<u8>, from: int, class: ByteClass) -> int
    decreases s.len() - from,
{
    if 0 <= from < s.len() && class.holds(s[from]) {
        run_end(s, from + 1, class)
    } else {
        from
    }
}

/// A run's end is the one position `to` such that every byte in `from..to` is
/// of the class and the byte at `to`, if there is one, is not.
pub proof fn lemma_run_end_is(s: Seq<u8>, from: int, class: ByteClass, to: int)
    requires
        0 <= from <= to <= s.len(),
        forall|k: int| from <= k < to ==> class.holds(#[trigger] s[k]),
        to == s.len() || !class.holds(s[to]),
    ensures
        run_end(s, from, class) == to,
    decreases to - from,
{
    if from < to {
        lemma_run_end_is(s, from + 1, class, to);
    }
}

/// The converse: what holds of a run's end.
pub proof fn lemma_run_end_bounds(s: Seq<u8>, from: int, class: ByteClass)
    ensures
        from <= run_end(s, from, class),
        0 <= from <= s.len() ==> run_end(s, from, class) <= s.len(),
        forall|k: int|
            0 <= from <= k < run_end(s, from, class) ==> class.holds(#[trigger] s[k]),
        0 <= from <= s.len() ==> run_end(s, from, class) == s.len() || !class.holds(
            s[run_end(s, from, class)],
        ),
    decreases s.len() - from,
{
    if 0 <= from < s.len() && class.holds(s[from]) {
        lemma_run_end_bounds(s, from + 1, class);
    }
}

/// Skips the run of `class` bytes that starts at `from`.
pub fn skip_run(s: &[u8], from: usize, class: ByteClass) -> (to: usize)
    ensures
        to == run_end(s@, from as int, class),
        from <= to,
        from <= s.len() ==> to <= s.len(),
{
    let mut i: usize = from;
    while i < s.len() && class.has(s[i])
        invariant
            from <= i,
            from <= s.len() ==> i <= s.len(),
            from > s.len() ==> i == from,
            forall|k: int| from <= k < i ==> class.holds(#[trigger] s@[k]),
        decreases s.len() - i,
    {
        i += 1;
    }
    proof {
        if from <= s.len() {
            lemma_run_end_is(s@, from as int, class, i as int);
        }
    }
    i
}

/// `lit` stands in `s` at offset `at`.
pub open spec fn has_at(s: Seq<u8>, at: int, lit: Seq<u8>) -> bool {
    0 <= at && at + lit.len() <= s.len() && s.subrange(at, at + lit.len()) == lit
}

/// Where a text stands, each of its bytes stands.
pub proof fn lemma_byte_of(s: Seq<u8>, at: int, lit: Seq<u8>, k: int)
    requires
        has_at(s, at, lit),
        0 <= k < lit.len(),
    ensures
        s[at + k] == lit[k],
{
    assert(s.subrange(at, at + lit.len())[k] == s[at + k]);
}

/// Where a text of two parts stands, the first part stands, and the second
/// behind it.
pub proof fn lemma_has_at_parts(s: Seq<u8>, at: int, a: Seq<u8>, b: Seq<u8>)
    requires
        has_at(s, at, a + b),
    ensures
        has_at(s, at, a),
        has_at(s, at + a.len(), b),
{
    assert forall|k: int| 0 <= k < a.len() implies s.subrange(at, at + a.len())[k] == a[k] by {
        lemma_byte_of(s, at, a + b, k);
    }
    assert(s.subrange(at, at + a.len()) =~= a);
    assert forall|k: int| 0 <= k < b.len() implies s.subrange(
        at + a.len(),
        at + a.len() + b.len(),
    )[k] == b[k] by {
        lemma_byte_of(s, at, a + b, a.len() + k);
    }
    assert(s.subrange(at + a.len(), at + a.len() + b.len()) =~= b);
}

/// A text that stands inside a window `lo..hi` of `s` stands in every text
/// that holds a copy of the window, as far from the copy's start.
pub proof fn lemma_has_at_moves(
    s: Seq<u8>,
    at: int,
    lit: Seq<u8>,
    t: Seq<u8>,
    by: int,
    lo: int,
    hi: int,
)
    requires
        0 <= lo <= at,
        at + lit.len() <= hi <= s.len(),
        has_at(s, at, lit),
        has_at(t, lo + by, s.subrange(lo, hi)),
    ensures
        has_at(t, at + by, lit),
{
    assert forall|k: int| 0 <= k < lit.len() implies t.subrange(at + by, at + by + lit.len())[k]
        == lit[k] by {
        lemma_byte_of(t, lo + by, s.subrange(lo, hi), at + k - lo);
        lemma_byte_of(s, at, lit, k);
    }
    assert(t.subrange(at + by, at + by + lit.len()) =~= lit);
}

/// A run that ends inside a window `lo..hi` of `s` ends at the same place of
/// every copy of the window.
pub proof fn lemma_run_moves(
    s: Seq<u8>,
    from: int,
    class: ByteClass,
    t: Seq<u8>,
    by: int,
    lo: int,
    hi: int,
)
    requires
        0 <= lo <= from,
        run_end(s, from, class) < hi <= s.len(),
        has_at(t, lo + by, s.subrange(lo, hi)),
    ensures
        run_end(t, from + by, class) == run_end(s, from, class) + by,
{
    lemma_run_end_bounds(s, from, class);
    let to = run_end(s, from, class);
    assert forall|k: int| from + by <= k < to + by implies class.holds(#[trigger] t[k]) by {
        lemma_byte_of(t, lo + by, s.subrange(lo, hi), k - by - lo);
    }
    lemma_byte_of(t, lo + by, s.subrange(lo, hi), to - lo);
    lemma_run_end_is(t, from + by, class, to + by);
}

/// The byte `b` stands in `s` at offset `at`.
pub open spec fn byte_at(s: Seq<u8>, at: int, b: u8) -> bool {
    0 <= at < s.len() && s[at] == b
}

/// Whether `lit` stands in `s` at offset `at`.
pub fn starts_at(s: &[u8], at: usize, lit: &[u8]) -> (r: bool)
    ensures
        r == has_at(s@, at as int, lit@),
{
    if at > s.len() || lit.len() > s.len() - at {
        return false;
    }
    let mut i: usize = 0;
    while i < lit.len()
        invariant
            at + lit.len() <= s.len(),
            i <= lit.len(),
            forall|k: int| 0 <= k < i ==> s@[at + k] == lit@[k],
        decreases lit.len() - i,
    {
        if s[at + i] != lit[i] {
            proof {
                assert(s@.subrange(at as int, at + lit.len())[i as int] == s@[at + i]);
            }
            return false;
        }
        i += 1;
    }
    proof {
        assert(s@.subrange(at as int, at + lit.len()) =~= lit@);
    }
    true
}

/// Whether the byte `b` stands in `s` at offset `at`.
pub fn is_byte_at(s: &[u8], at: usize, b: u8) -> (r: bool)
    ensures
        r == byte_at(s@, at as int, b),
{
    at < s.len() && s[at] == b
}

/// Where `b` stands last in `s`.
pub open spec fn last_index_of(s: Seq<u8>, b: u8) -> Option<int>
    decreases s.len(),
{
    if s.len() == 0 {
        None
    } else if s.last() == b {
        Some(s.len() - 1)
    } else {
        last_index_of(s.drop_last(), b)
    }
}

/// The last occurrence is the one that no other follows; there is none where
/// the byte does not occur.
pub proof fn lemma_last_index_is(s: Seq<u8>, b: u8, at: Option<int>)
    requires
        match at {
            Some(i) => byte_at(s, i, b) && forall|k: int| i < k < s.len() ==> s[k] != b,
            None => forall|k: int| 0 <= k < s.len() ==> s[k] != b,
        },
    ensures
        last_index_of(s, b) == at,
    decreases s.len(),
{
    if s.len() > 0 && s.last() != b {
        lemma_last_index_is(s.drop_last(), b, at);
    }
}

/// Where the last occurrence is, the byte stands.
pub proof fn lemma_last_index_bounds(s: Seq<u8>, b: u8)
    ensures
        match last_index_of(s, b) {
            Some(i) => byte_at(s, i, b),
            None => true,
        },
    decreases s.len(),
{
    if s.len() > 0 && s.last() != b {
        lemma_last_index_bounds(s.drop_last(), b);
    }
}

/// Finds the last occurrence of `b` in `s`.
pub fn rfind_byte(s: &[u8], b: u8) -> (r: Option<usize>)
    ensures
        match r {
            Some(i) => last_index_of(s@, b) == Some(i as int) && i < s.len(),
            None => last_index_of(s@, b).is_none(),
        },
{
    let mut i: usize = s.len();
    while i > 0
        invariant
            i <= s.len(),
            forall|k: int| i <= k < s.len() ==> s@[k] != b,
        decreases i,
    {
        i -= 1;
        if s[i] == b {
            proof {
                lemma_last_index_is(s@, b, Some(i as int));
            }
            return Some(i);
        }
    }
    proof {
        lemma_last_index_is(s@, b, None);
    }
    None
}

/// `s` with the bytes in `start..end` replaced by `with`.
pub open spec fn spliced(s: Seq<u8>, start: int, end: int, with: Seq<u8>) -> Seq<u8> {
    s.subrange(0, start) + with + s.subrange(end, s.len() as int)
}

/// Replacing inside the middle one of three texts replaces in the whole.
pub proof fn lemma_splice_inside(
    pre: Seq<u8>,
    mid: Seq<u8>,
    post: Seq<u8>,
    start: int,
    end: int,
    with: Seq<u8>,
)
    requires
        0 <= start <= end <= mid.len(),
    ensures
        spliced(pre + mid + post, pre.len() + start, pre.len() + end, with) == pre + spliced(
            mid,
            start,
            end,
            with,
        ) + post,
{
    assert(spliced(pre + mid + post, pre.len() + start, pre.len() + end, with) =~= pre + spliced(
        mid,
        start,
        end,
        with,
    ) + post);
}

/// Replaces the bytes of `s` in `start..end` by `with`.
pub fn splice(s: &[u8], start: usize, end: usize, with: &[u8]) -> (r: Vec<u8>)
    requires
        start <= end <= s.len(),
    ensures
        r@ == spliced(s@, start as int, end as int, with@),
{
    let mut out: Vec<u8> = Vec::new();
    append(&mut out, slice_subrange(s, 0, start));
    append(&mut out, with);
    append(&mut out, slice_subrange(s, end, s.len()));
    out
}

/// Appends `tail` to `out`.
pub fn append(out: &mut Vec<u8>, tail: &[u8])
    ensures
        final(out)@ == old(out)@ + tail@,
{
    let ghost before = out@;
    let mut i: usize = 0;
    while i < tail.len()
        invariant
            i <= tail.len(),
            out@ == before + tail@.subrange(0, i as int),
        decreases tail.len() - i,
    {
        out.push(tail[i]);
        i += 1;
        proof {
            assert(out@ =~= before + tail@.subrange(0, i as int));
        }
    }
    proof {
        assert(tail@.subrange(0, tail.len() as int) =~= tail@);
    }
}

} // verus!
