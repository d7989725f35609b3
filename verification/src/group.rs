//! Which group file a package belongs to, as its source URL decides.

use vstd::prelude::*;
use crate::text::{append, SLASH};

verus! {

/// The pieces of `s` between its `/` bytes, in order. A text without `/` is
/// one piece; a `/` at either end bounds an empty piece.
pub open spec fn segments(s: Seq<u8>) -> Seq<Seq<u8>>
    decreases s.len(),
{
    if s.len() == 0 {
        seq![Seq::<u8>::empty()]
    } else {
        let before = segments(s.drop_last());
        if s.last() == SLASH {
            before.push(Seq::<u8>::empty())
        } else {
            before.update(before.len() - 1, before.last().push(s.last()))
        }
    }
}

/// There is always a piece.
pub proof fn lemma_segments_nonempty(s: Seq<u8>)
    ensures
        segments(s).len() >= 1,
    decreases s.len(),
{
    if s.len() > 0 {
        lemma_segments_nonempty(s.drop_last());
    }
}

/// A text without `/` is its own single piece.
pub proof fn lemma_segments_of_plain(s: Seq<u8>)
    requires
        forall|k: int| 0 <= k < s.len() ==> s[k] != SLASH,
    ensures
        segments(s) == seq![s],
    decreases s.len(),
{
    if s.len() == 0 {
        assert(s =~= Seq::<u8>::empty());
    } else {
        lemma_segments_of_plain(s.drop_last());
        assert(s[s.len() - 1] != SLASH);
        assert(segments(s.drop_last()).last() == s.drop_last());
        assert(s.drop_last().push(s.last()) =~= s);
        assert(segments(s)[0] == s);
        assert(segments(s) =~= seq![s]);
    }
}

/// The pieces of two texts joined by a `/` are the pieces of the first, then
/// those of the second.
pub proof fn lemma_segments_of_joined(a: Seq<u8>, b: Seq<u8>)
    ensures
        segments(a + seq![SLASH] + b) == segments(a) + segments(b),
    decreases b.len(),
{
    let joined = a + seq![SLASH] + b;
    if b.len() == 0 {
        assert(joined.drop_last() =~= a);
        assert(segments(joined) =~= segments(a) + segments(b));
    } else {
        let front = b.drop_last();
        assert(joined.drop_last() =~= a + seq![SLASH] + front);
        lemma_segments_of_joined(a, front);
        lemma_segments_nonempty(front);
        assert(segments(joined) =~= segments(a) + segments(b));
    }
}

/// Five texts without `/`, joined by `/`, are the five pieces of the whole.
pub proof fn lemma_segments_of_five(a: Seq<u8>, b: Seq<u8>, c: Seq<u8>, d: Seq<u8>, e: Seq<u8>)
    requires
        forall|k: int| 0 <= k < a.len() ==> a[k] != SLASH,
        forall|k: int| 0 <= k < b.len() ==> b[k] != SLASH,
        forall|k: int| 0 <= k < c.len() ==> c[k] != SLASH,
        forall|k: int| 0 <= k < d.len() ==> d[k] != SLASH,
        forall|k: int| 0 <= k < e.len() ==> e[k] != SLASH,
    ensures
        segments(a + seq![SLASH] + b + seq![SLASH] + c + seq![SLASH] + d + seq![SLASH] + e)
            == seq![a, b, c, d, e],
{
    let ab = a + seq![SLASH] + b;
    let abc = ab + seq![SLASH] + c;
    let abcd = abc + seq![SLASH] + d;
    lemma_segments_of_plain(a);
    lemma_segments_of_plain(b);
    lemma_segments_of_plain(c);
    lemma_segments_of_plain(d);
    lemma_segments_of_plain(e);
    lemma_segments_of_joined(a, b);
    lemma_segments_of_joined(ab, c);
    lemma_segments_of_joined(abc, d);
    lemma_segments_of_joined(abcd, e);
    assert(segments(abcd + seq![SLASH] + e) =~= seq![a, b, c, d, e]);
}

/// Splits `s` at its `/` bytes.
pub fn split_segments(s: &[u8]) -> (r: Vec<Vec<u8>>)
    ensures
        r.len() == segments(s@).len(),
        forall|k: int| 0 <= k < r.len() ==> (#[trigger] r[k])@ == segments(s@)[k],
{
    let mut done: Vec<Vec<u8>> = Vec::new();
    let mut piece: Vec<u8> = Vec::new();
    let mut i: usize = 0;
    proof {
        assert(s@.subrange(0, 0) =~= Seq::<u8>::empty());
    }
    while i < s.len()
        invariant
            i <= s.len(),
            segments(s@.subrange(0, i as int)).len() == done.len() + 1,
            forall|k: int|
                0 <= k < done.len() ==> (#[trigger] done[k])@ == segments(
                    s@.subrange(0, i as int),
                )[k],
            piece@ == segments(s@.subrange(0, i as int)).last(),
        decreases s.len() - i,
    {
        proof {
            assert(s@.subrange(0, i + 1).drop_last() =~= s@.subrange(0, i as int));
        }
        let b: u8 = s[i];
        if b == SLASH {
            done.push(piece);
            piece = Vec::new();
        } else {
            piece.push(b);
        }
        i += 1;
    }
    proof {
        assert(s@.subrange(0, s.len() as int) =~= s@);
    }
    done.push(piece);
    done
}

/// A source URL that is not made of five pieces.
#[derive(Clone, Copy, Debug, PartialEq, Eq)]
pub struct PathDecompositionError {
    /// How many pieces it has.
    pub segments: usize,
}

/// The group of a package: the fourth of the five pieces of its source URL,
/// the owner in `scheme://host/owner/repository`.
pub fn resolve_group(url: &[u8]) -> (r: Result<Vec<u8>, PathDecompositionError>)
    ensures
        match r {
            Ok(group) => segments(url@).len() == 5 && group@ == segments(url@)[3],
            Err(e) => segments(url@).len() != 5 && e.segments == segments(url@).len(),
        },
{
    let pieces = split_segments(url);
    if pieces.len() != 5 {
        return Err(PathDecompositionError { segments: pieces.len() });
    }
    let mut group: Vec<u8> = Vec::new();
    append(&mut group, pieces[3].as_slice());
    Ok(group)
}

/// The bytes of `src/groups/`.
pub open spec fn groups_dir() -> Seq<u8> {
    seq![115u8, 114u8, 99u8, 47u8, 103u8, 114u8, 111u8, 117u8, 112u8, 115u8, 47u8]
}

/// The bytes of `.dhall`.
pub open spec fn group_suffix() -> Seq<u8> {
    seq![46u8, 100u8, 104u8, 97u8, 108u8, 108u8]
}

/// The path of a group's file.
pub open spec fn group_path(group: Seq<u8>) -> Seq<u8> {
    groups_dir() + group + group_suffix()
}

/// The path of the group file that a package with this source URL belongs to.
pub fn group_file_path(url: &[u8]) -> (r: Result<Vec<u8>, PathDecompositionError>)
    ensures
        match r {
            Ok(path) => segments(url@).len() == 5 && path@ == group_path(segments(url@)[3]),
            Err(e) => segments(url@).len() != 5 && e.segments == segments(url@).len(),
        },
{
    match resolve_group(url) {
        Ok(group) => {
            let mut path: Vec<u8> = vec![
                115u8,
                114u8,
                99u8,
                47u8,
                103u8,
                114u8,
                111u8,
                117u8,
                112u8,
                115u8,
                47u8,
            ];
            append(&mut path, group.as_slice());
            let tail: Vec<u8> = vec![46u8, 100u8, 104u8, 97u8, 108u8, 108u8];
            append(&mut path, tail.as_slice());
            proof {
                assert(path@ =~= group_path(group@));
            }
            Ok(path)
        },
        Err(e) => Err(e),
    }
}

} // verus!
