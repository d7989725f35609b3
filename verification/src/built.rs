//! Group files that hold nothing but what the merge has put there: the
//! prefix, `{`, rendered entries with a comma between neighbours, and `}`.
//! In such a file every package has its entry once.

use vstd::prelude::*;
use crate::entry::{
    assign, at_label_start, has_several_entries, is_entry_at, is_sole_entry, keyword,
};
use crate::expr::{plain_list, valid_name, PkgParams};
use crate::laws::{
    lemma_entry_bounds, lemma_rendered_entry_is_found, lemma_replace_is_precise, rendered_layout,
};
use crate::text::{
    has_at, is_label, last_index_of, lemma_byte_of, lemma_run_end_bounds, lemma_run_end_is,
    lemma_splice_inside, spliced, ByteClass, CLOSE_BRACE, COMMA, EQUALS, OPEN_BRACE,
};
use crate::upsert::{fresh_entry_at, fresh_file, upsert_spec, wrapper_prefix, UpsertError};

verus! {

/// The rendered entries of `entries`, with a comma between neighbours.
pub open spec fn body(entries: Seq<PkgParams>) -> Seq<u8>
    decreases entries.len(),
{
    if entries.len() == 0 {
        Seq::<u8>::empty()
    } else if entries.len() == 1 {
        entries.last().expression()
    } else {
        body(entries.drop_last()) + seq![COMMA] + entries.last().expression()
    }
}

/// Where in the body the last entry starts.
pub open spec fn last_offset(entries: Seq<PkgParams>) -> int {
    if entries.len() <= 1 {
        0
    } else {
        body(entries.drop_last()).len() as int + 1
    }
}

/// The group file that holds the entries of `entries`, in their order.
pub open spec fn built_file(entries: Seq<PkgParams>) -> Seq<u8> {
    wrapper_prefix() + seq![OPEN_BRACE] + body(entries) + seq![CLOSE_BRACE]
}

/// Every package has valid parameters and no `=` in its dependency list.
pub open spec fn all_valid(entries: Seq<PkgParams>) -> bool {
    forall|i: int|
        0 <= i < entries.len() ==> (#[trigger] entries[i]).valid() && plain_list(
            entries[i].dependencies@,
        )
}

/// No two packages have one name.
pub open spec fn distinct_names(entries: Seq<PkgParams>) -> bool {
    forall|i: int, j: int|
        0 <= i < j < entries.len() ==> (#[trigger] entries[i]).name@ != (
        #[trigger] entries[j]).name@
}

/// The entry of a package called `name` starts at offset `k` of the body.
pub open spec fn starts_entry(entries: Seq<PkgParams>, k: int, name: Seq<u8>) -> bool
    decreases entries.len(),
{
    if entries.len() == 0 {
        false
    } else {
        (k == last_offset(entries) && name == entries.last().name@) || starts_entry(
            entries.drop_last(),
            k,
            name,
        )
    }
}

/// The head of an entry: a valid name at the start of a label, and ` =`
/// behind it.
pub open spec fn head_at(s: Seq<u8>, at: int, name: Seq<u8>) -> bool {
    &&& valid_name(name)
    &&& at_label_start(s, at)
    &&& has_at(s, at, name)
    &&& has_at(s, at + name.len(), assign())
}

/// Inside a rendered entry ` =` stands once, behind the name: a head whose
/// ` =` lies in the entry is the head of that entry.
#[verifier::rlimit(50)]
pub proof fn lemma_head_inside_rendered(
    s: Seq<u8>,
    start: int,
    p: PkgParams,
    name: Seq<u8>,
    at: int,
)
    requires
        p.valid(),
        plain_list(p.dependencies@),
        has_at(s, start, p.expression()),
        start >= 1,
        !is_label(s[start - 1]),
        head_at(s, at, name),
        start <= at + name.len() < start + p.expression().len(),
    ensures
        at == start,
        name == p.name@,
{
    let n = name.len() as int;
    let big = p.name@.len() as int;
    let j = at + n;
    let l = rendered_layout(p, start);
    lemma_rendered_entry_is_found(s, start, p);
    lemma_entry_bounds(s, start, p.name@);
    lemma_byte_of(s, j, assign(), 0);
    lemma_byte_of(s, j, assign(), 1);
    assert(s[j] == 32u8 && s[j + 1] == EQUALS);
    if j < start + big {
        lemma_byte_of(s, start, p.name@, j - start);
        assert(false);
    } else if j == start + big {
        if at > start {
            lemma_byte_of(s, start, p.name@, at - 1 - start);
            assert(false);
        }
        if at < start {
            lemma_byte_of(s, at, name, start - 1 - at);
            assert(false);
        }
        assert(s.subrange(start, start + big) == name);
        assert(s.subrange(start, start + big) == p.name@);
    } else if j < l.keyword {
        lemma_byte_of(s, start + big, assign(), 1);
        lemma_byte_of(s, l.keyword, keyword(), 0);
        assert(false);
    } else if j < l.keyword + 9 {
        lemma_byte_of(s, l.keyword, keyword(), j - l.keyword);
        assert(false);
    } else if j < l.list_open {
        assert(false);
    } else if j < l.list_close {
        lemma_byte_of(s, l.list_open, p.dependencies@, j + 1 - l.list_open);
        assert(false);
    } else if j < l.url_open {
        assert(false);
    } else if j < l.url_close {
        lemma_run_end_bounds(s, l.url_open + 1, ByteClass::Field);
        assert(false);
    } else if j < l.version_open {
        assert(false);
    } else if j < l.version_close {
        lemma_run_end_bounds(s, l.version_open + 1, ByteClass::Field);
        assert(false);
    } else {
        assert(false);
    }
}

/// What the scanner can see of the prefix: its length, its one blank that
/// `=` follows, and the bytes behind that `=`.
#[verifier::rlimit(100)]
proof fn lemma_prefix_bytes()
    ensures
        wrapper_prefix().len() == 40,
        forall|j: int|
            0 <= j < 39 && wrapper_prefix()[j] == 32u8 && #[trigger] wrapper_prefix()[j + 1]
                == EQUALS ==> j == 13,
        wrapper_prefix()[15] == 32u8,
        wrapper_prefix()[16] == 46u8,
        wrapper_prefix()[39] == 32u8,
{
}

/// The bytes of a built file: the prefix, `{` at 40, the body from 41 with
/// the last entry at its end, and `}`; in front of the last entry stands
/// `{` or a comma.
#[verifier::rlimit(50)]
proof fn lemma_built_file_bytes(entries: Seq<PkgParams>)
    requires
        entries.len() >= 1,
    ensures
        built_file(entries).len() == 42 + body(entries).len(),
        body(entries).len() == last_offset(entries) + entries.last().expression().len(),
        has_at(built_file(entries), 0, wrapper_prefix()),
        built_file(entries)[40] == OPEN_BRACE,
        has_at(built_file(entries), 41, body(entries)),
        has_at(built_file(entries), 41 + last_offset(entries), entries.last().expression()),
        entries.len() > 1 ==> built_file(entries)[40 + last_offset(entries)] == COMMA,
        built_file(entries)[41 + body(entries).len() as int] == CLOSE_BRACE,
        forall|j: int|
            0 <= j < 39 && built_file(entries)[j] == 32u8 && #[trigger] built_file(entries)[j + 1]
                == EQUALS ==> j == 13,
        built_file(entries)[15] == 32u8,
        built_file(entries)[16] == 46u8,
        built_file(entries)[39] == 32u8,
{
    lemma_prefix_bytes();
    let s = built_file(entries);
    let b = body(entries);
    let e = entries.last().expression();
    let off = last_offset(entries);
    assert(s.subrange(0, 40) =~= wrapper_prefix());
    assert(s.subrange(41, 41 + b.len() as int) =~= b);
    assert(b.subrange(off, off + e.len()) =~= e);
    assert(s.subrange(41 + off, 41 + off + e.len()) =~= e);
    assert forall|j: int|
        0 <= j < 39 && s[j] == 32u8 && #[trigger] s[j + 1] == EQUALS implies j == 13 by {
        lemma_byte_of(s, 0, wrapper_prefix(), j);
        lemma_byte_of(s, 0, wrapper_prefix(), j + 1);
    }
    lemma_byte_of(s, 0, wrapper_prefix(), 15);
    lemma_byte_of(s, 0, wrapper_prefix(), 16);
    lemma_byte_of(s, 0, wrapper_prefix(), 39);
}

/// A built file and the one without its last entry agree up to the end of
/// the shorter body.
proof fn lemma_built_file_front(entries: Seq<PkgParams>, k: int)
    requires
        entries.len() >= 2,
        0 <= k < 41 + body(entries.drop_last()).len(),
    ensures
        built_file(entries)[k] == built_file(entries.drop_last())[k],
{
    lemma_prefix_bytes();
}

/// Every head in a built file, but for the `mkPackage =` of the prefix, is
/// the head of one of its entries.
#[verifier::rlimit(50)]
proof fn lemma_heads_of_built_file(entries: Seq<PkgParams>, name: Seq<u8>, at: int)
    requires
        entries.len() >= 1,
        all_valid(entries),
        head_at(built_file(entries), at, name),
        at + name.len() != 13,
    ensures
        starts_entry(entries, at - 41, name),
    decreases entries.len(),
{
    let s = built_file(entries);
    let p = entries.last();
    let off = last_offset(entries);
    let start = 41 + off;
    let n = name.len() as int;
    let j = at + n;
    lemma_built_file_bytes(entries);
    lemma_byte_of(s, j, assign(), 0);
    lemma_byte_of(s, j, assign(), 1);
    assert(s[j] == 32u8 && s[j + 1] == EQUALS);
    assert(p.valid() && plain_list(p.dependencies@)) by {
        assert(entries[entries.len() - 1].valid());
    }
    if j >= start {
        lemma_head_inside_rendered(s, start, p, name, at);
    } else if j == start - 1 {
        assert(false);
    } else if entries.len() == 1 {
        assert(false);
    } else {
        let front = entries.drop_last();
        let t = built_file(front);
        lemma_built_file_bytes(front);
        lemma_built_file_front(entries, j);
        if j + 1 == 41 + body(front).len() {
            assert(false);
        }
        lemma_built_file_front(entries, j + 1);
        assert(at_label_start(t, at)) by {
            if at > 0 {
                lemma_built_file_front(entries, at - 1);
            }
        }
        assert(t.subrange(at, at + n) =~= name) by {
            assert forall|k: int| 0 <= k < n implies t[at + k] == name[k] by {
                lemma_built_file_front(entries, at + k);
                lemma_byte_of(s, at, name, k);
            }
        }
        assert(t.subrange(j, j + 2) =~= assign());
        assert forall|i: int| 0 <= i < front.len() implies (#[trigger] front[i]).valid()
            && plain_list(front[i].dependencies@) by {
            assert(front[i] == entries[i]);
        }
        lemma_heads_of_built_file(front, name, at);
    }
}

/// The ` =` at 13 opens no entry where `./` follows it.
#[verifier::rlimit(50)]
proof fn lemma_no_keyword_behind(s: Seq<u8>, name: Seq<u8>, at: int)
    requires
        at + name.len() == 13,
        s.len() > 16,
        s[15] == 32u8,
        s[16] == 46u8,
    ensures
        !is_entry_at(s, at, name),
{
    lemma_run_end_is(s, 15, ByteClass::Space, 16);
    if is_entry_at(s, at, name) {
        lemma_byte_of(s, 16, keyword(), 0);
    }
}

/// In a built file an entry for a valid name starts only where the entry of
/// a package of that name was put.
#[verifier::rlimit(50)]
pub proof fn lemma_entries_of_built_file(entries: Seq<PkgParams>, name: Seq<u8>, at: int)
    requires
        entries.len() >= 1,
        all_valid(entries),
        valid_name(name),
        is_entry_at(built_file(entries), at, name),
    ensures
        starts_entry(entries, at - 41, name),
{
    let s = built_file(entries);
    lemma_built_file_bytes(entries);
    if at + name.len() == 13 {
        lemma_no_keyword_behind(s, name, at);
    }
    lemma_heads_of_built_file(entries, name, at);
}

/// Where an entry starts, a package of that name is among the entries.
proof fn lemma_started_is_named(entries: Seq<PkgParams>, k: int, name: Seq<u8>)
    requires
        starts_entry(entries, k, name),
    ensures
        exists|i: int| 0 <= i < entries.len() && (#[trigger] entries[i]).name@ == name,
    decreases entries.len(),
{
    if k == last_offset(entries) && name == entries.last().name@ {
        assert(entries[entries.len() - 1].name@ == name);
    } else {
        let front = entries.drop_last();
        lemma_started_is_named(front, k, name);
        let i = choose|i: int| 0 <= i < front.len() && (#[trigger] front[i]).name@ == name;
        assert(entries[i].name@ == name);
    }
}

/// Among packages of distinct names, the entries of one name start at one
/// place.
proof fn lemma_starts_once(entries: Seq<PkgParams>, a: int, b: int, name: Seq<u8>)
    requires
        distinct_names(entries),
        starts_entry(entries, a, name),
        starts_entry(entries, b, name),
    ensures
        a == b,
    decreases entries.len(),
{
    let front = entries.drop_last();
    let last = entries.len() - 1;
    let here_a = a == last_offset(entries) && name == entries.last().name@;
    let here_b = b == last_offset(entries) && name == entries.last().name@;
    assert forall|i: int, j: int| 0 <= i < j < front.len() implies (#[trigger] front[i]).name@ != (
    #[trigger] front[j]).name@ by {
        assert(front[i] == entries[i] && front[j] == entries[j]);
    }
    if !here_a {
        lemma_started_is_named(front, a, name);
        let i = choose|i: int| 0 <= i < front.len() && (#[trigger] front[i]).name@ == name;
        assert(entries[i].name@ == name);
        if name == entries.last().name@ {
            assert(entries[i].name@ == entries[last].name@);
            assert(false);
        }
        lemma_starts_once(front, a, b, name);
    } else if !here_b {
        lemma_started_is_named(front, b, name);
        let i = choose|i: int| 0 <= i < front.len() && (#[trigger] front[i]).name@ == name;
        assert(entries[i].name@ == entries[last].name@);
        assert(false);
    }
}

/// No package-name has two entries: in a built file of packages with
/// distinct names, valid parameters and no `=` in their dependency lists, no
/// valid name has entries at two places.
pub proof fn lemma_built_file_is_unique(entries: Seq<PkgParams>, name: Seq<u8>)
    requires
        entries.len() >= 1,
        all_valid(entries),
        distinct_names(entries),
        valid_name(name),
    ensures
        !has_several_entries(built_file(entries), name),
{
    let s = built_file(entries);
    assert forall|a: int, b: int| is_entry_at(s, a, name) && is_entry_at(s, b, name) implies a
        == b by {
        lemma_entries_of_built_file(entries, name, a);
        lemma_entries_of_built_file(entries, name, b);
        lemma_starts_once(entries, a - 41, b - 41, name);
    }
}

/// Built files are what insertion makes: a new file is the built file of
/// its one package, and inserting a package into a built file gives the
/// built file with that package at the end.
#[verifier::rlimit(50)]
pub proof fn lemma_insertion_builds(entries: Seq<PkgParams>, p: PkgParams)
    ensures
        fresh_file(p.expression()) == built_file(seq![p]),
        upsert_spec(None, p.name@, p.expression(), false) == Ok::<Seq<u8>, UpsertError>(
            built_file(seq![p]),
        ),
        entries.len() >= 1 ==> upsert_spec(
            Some(built_file(entries)),
            p.name@,
            p.expression(),
            false,
        ) == Ok::<Seq<u8>, UpsertError>(built_file(entries.push(p))),
{
    assert(seq![p].last() == p);
    assert(fresh_file(p.expression()) =~= built_file(seq![p]));
    if entries.len() >= 1 {
        let s = built_file(entries);
        lemma_built_file_bytes(entries);
        assert(entries.push(p).drop_last() =~= entries);
        assert(entries.push(p).last() == p);
        let at = s.len() - 1;
        assert(s.last() == CLOSE_BRACE);
        assert(last_index_of(s, CLOSE_BRACE) == Some(at));
        assert(spliced(s, at, at, seq![COMMA] + p.expression()) =~= built_file(
            entries.push(p),
        ));
    }
}

/// The group file after the packages of `entries` have been merged one after
/// another, each as a package that the package set does not know yet, where
/// there was no file at first.
pub open spec fn merged_in_turn(entries: Seq<PkgParams>) -> Option<Seq<u8>>
    decreases entries.len(),
{
    if entries.len() == 0 {
        None
    } else {
        let before = merged_in_turn(entries.drop_last());
        match upsert_spec(before, entries.last().name@, entries.last().expression(), false) {
            Ok(content) => Some(content),
            Err(_) => before,
        }
    }
}

/// Merging new packages one after another builds the built file of all of
/// them, in their order.
pub proof fn lemma_merging_in_turn_builds(entries: Seq<PkgParams>)
    requires
        entries.len() >= 1,
    ensures
        merged_in_turn(entries) == Some(built_file(entries)),
    decreases entries.len(),
{
    let front = entries.drop_last();
    let p = entries.last();
    lemma_insertion_builds(front, p);
    if entries.len() == 1 {
        assert(merged_in_turn(front).is_none());
        assert(entries =~= seq![p]);
    } else {
        lemma_merging_in_turn_builds(front);
        assert(front.push(p) =~= entries);
    }
}

/// A new group file holds one entry and no other: in the file made for a
/// package, an entry for a valid name starts only behind the `{`, and only
/// for that package.
#[verifier::rlimit(50)]
pub proof fn lemma_fresh_file_has_one_entry(p: PkgParams, name: Seq<u8>, at: int)
    requires
        p.valid(),
        plain_list(p.dependencies@),
        valid_name(name),
        is_entry_at(fresh_file(p.expression()), at, name),
    ensures
        at == fresh_entry_at(),
        name == p.name@,
{
    let one = seq![p];
    lemma_prefix_bytes();
    lemma_insertion_builds(one, p);
    assert(one[0] == p);
    lemma_entries_of_built_file(one, name, at);
    assert(one.drop_last().len() == 0);
    assert(!starts_entry(one.drop_last(), at - 41, name));
    assert(last_offset(one) == 0);
    assert(one.last() == p);
}

/// Where in the body the entry of the package at index `i` starts.
pub open spec fn offset_of(entries: Seq<PkgParams>, i: int) -> int {
    last_offset(entries.subrange(0, i + 1))
}

/// The body of a list in which one package has been replaced is the body
/// with that package's entry replaced; the entry stands in the body, behind
/// a comma where it is not the first.
#[verifier::rlimit(50)]
proof fn lemma_body_of_update(entries: Seq<PkgParams>, i: int, p: PkgParams)
    requires
        0 <= i < entries.len(),
    ensures
        0 <= offset_of(entries, i),
        has_at(body(entries), offset_of(entries, i), entries[i].expression()),
        i > 0 ==> offset_of(entries, i) >= 1 && body(entries)[offset_of(entries, i) - 1] == COMMA,
        i == 0 ==> offset_of(entries, i) == 0,
        body(entries.update(i, p)) == spliced(
            body(entries),
            offset_of(entries, i),
            offset_of(entries, i) + entries[i].expression().len(),
            p.expression(),
        ),
    decreases entries.len(),
{
    let last = entries.len() - 1;
    let front = entries.drop_last();
    let b = body(entries);
    let o = offset_of(entries, i);
    let e = entries[i].expression();
    let updated = entries.update(i, p);
    if i == last {
        assert(entries.subrange(0, i + 1) =~= entries);
        assert(updated.drop_last() =~= front);
        assert(b.subrange(o, o + e.len()) =~= e);
        assert(body(updated) =~= spliced(b, o, o + e.len(), p.expression()));
    } else {
        assert(entries.subrange(0, i + 1) =~= front.subrange(0, i + 1));
        assert(front[i] == entries[i]);
        lemma_body_of_update(front, i, p);
        assert(updated.drop_last() =~= front.update(i, p));
        assert(updated.last() == entries.last());
        assert(b.subrange(o, o + e.len()) =~= body(front).subrange(o, o + e.len()));
        assert(body(updated) =~= spliced(b, o, o + e.len(), p.expression()));
    }
}

/// The entry of each package stands in the built file, at the start of a
/// label.
#[verifier::rlimit(50)]
proof fn lemma_entry_stands_in_built_file(entries: Seq<PkgParams>, i: int)
    requires
        0 <= i < entries.len(),
    ensures
        has_at(built_file(entries), 41 + offset_of(entries, i), entries[i].expression()),
        at_label_start(built_file(entries), 41 + offset_of(entries, i)),
{
    let s = built_file(entries);
    let o = offset_of(entries, i);
    let e = entries[i].expression();
    lemma_built_file_bytes(entries);
    lemma_body_of_update(entries, i, entries[i]);
    assert(s.subrange(41 + o, 41 + o + e.len()) =~= e) by {
        assert forall|k: int| 0 <= k < e.len() implies s[41 + o + k] == e[k] by {
            lemma_byte_of(s, 41, body(entries), o + k);
            lemma_byte_of(body(entries), o, e, k);
        }
    }
    if i > 0 {
        lemma_byte_of(s, 41, body(entries), o - 1);
    }
}

/// Replacing a package's entry in the built file gives the built file of the
/// list with that package replaced.
#[verifier::rlimit(50)]
proof fn lemma_built_file_of_update(entries: Seq<PkgParams>, i: int, p: PkgParams)
    requires
        0 <= i < entries.len(),
    ensures
        spliced(
            built_file(entries),
            41 + offset_of(entries, i),
            41 + offset_of(entries, i) + entries[i].expression().len(),
            p.expression(),
        ) == built_file(entries.update(i, p)),
{
    let o = offset_of(entries, i);
    let e = entries[i].expression();
    let opening = wrapper_prefix() + seq![OPEN_BRACE];
    lemma_prefix_bytes();
    lemma_body_of_update(entries, i, p);
    assert(opening.len() == 41);
    lemma_splice_inside(
        opening,
        body(entries),
        seq![CLOSE_BRACE],
        o,
        o + e.len(),
        p.expression(),
    );
}

/// Built files stay built under replacement: in a built file of packages
/// with distinct names, replacing the entry of one package by the entry of
/// new parameters under the same name succeeds, and gives the built file
/// with those parameters in that package's place.
#[verifier::rlimit(50)]
pub proof fn lemma_replacement_builds(entries: Seq<PkgParams>, i: int, p: PkgParams)
    requires
        all_valid(entries),
        distinct_names(entries),
        0 <= i < entries.len(),
        p.name@ == entries[i].name@,
    ensures
        is_sole_entry(built_file(entries), 41 + offset_of(entries, i), p.name@),
        upsert_spec(Some(built_file(entries)), p.name@, p.expression(), true) == Ok::<
            Seq<u8>,
            UpsertError,
        >(built_file(entries.update(i, p))),
{
    let s = built_file(entries);
    let at = 41 + offset_of(entries, i);
    lemma_entry_stands_in_built_file(entries, i);
    lemma_rendered_entry_is_found(s, at, entries[i]);
    lemma_built_file_is_unique(entries, p.name@);
    assert forall|other: int| is_entry_at(s, other, p.name@) implies other == at by {
        if other != at {
            assert(has_several_entries(s, p.name@));
        }
    }
    lemma_replace_is_precise(s, at, p.name@, p.expression());
    lemma_built_file_of_update(entries, i, p);
}

/// A second sync changes nothing in a built file: merging the entry of a
/// package that the file was built with, as a known package, gives the file
/// again.
pub proof fn lemma_built_file_is_stable(entries: Seq<PkgParams>, i: int)
    requires
        all_valid(entries),
        distinct_names(entries),
        0 <= i < entries.len(),
    ensures
        upsert_spec(
            Some(built_file(entries)),
            entries[i].name@,
            entries[i].expression(),
            true,
        ) == Ok::<Seq<u8>, UpsertError>(built_file(entries)),
{
    lemma_replacement_builds(entries, i, entries[i]);
    assert(entries.update(i, entries[i]) =~= entries);
}

} // verus!
