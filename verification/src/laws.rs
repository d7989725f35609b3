//! What holds of rendering, locating and merging taken together.

use vstd::prelude::*;
use crate::entry::{
    assign, at_label_start, has_several_entries, is_entry_at, is_sole_entry, keyword, layout,
    Layout,
};
use crate::expr::{bare_version, expression, git_suffix, PkgParams};
use crate::text::{
    has_at, last_index_of, lemma_byte_of, lemma_has_at_moves, lemma_has_at_parts,
    lemma_last_index_bounds, lemma_run_end_bounds, lemma_run_end_is, lemma_run_moves, spliced,
    ByteClass, CLOSE_BRACE, COMMA, LOWER_V, OPEN_BRACE, QUOTE,
};
use crate::upsert::{fresh_entry_at, upsert_spec, wrapper_prefix, UpsertError};

verus! {

/// Where the parts of the rendered entry of `p` lie when it starts at `at`.
pub open spec fn rendered_layout(p: PkgParams, at: int) -> Layout {
    let keyword = at + p.name@.len() + 3;
    let list_open = keyword + 10;
    let list_close = list_open + p.dependencies@.len() - 1;
    let url_open = list_close + 2;
    let url_close = url_open + p.url@.len() + 5;
    let version_open = url_close + 2;
    let version_close = version_open + bare_version(p.version@).len() + 2;
    Layout {
        start: at,
        keyword,
        list_open,
        list_close,
        url_open,
        url_close,
        version_open,
        version_close,
    }
}

/// Wherever the rendered entry of valid parameters stands at the start of a
/// label, the scanner finds an entry for the package there, with its parts
/// where the rendering put them, and ending where the rendered text ends.
#[verifier::rlimit(50)]
pub proof fn lemma_rendered_entry_is_found(s: Seq<u8>, at: int, p: PkgParams)
    requires
        p.valid(),
        has_at(s, at, p.expression()),
        at_label_start(s, at),
    ensures
        is_entry_at(s, at, p.name@),
        layout(s, at, p.name@) == rendered_layout(p, at),
        layout(s, at, p.name@).end() == at + p.expression().len(),
        has_at(s, rendered_layout(p, at).list_open, p.dependencies@),
        has_at(s, rendered_layout(p, at).url_open + 1, p.url@ + git_suffix()),
        has_at(
            s,
            rendered_layout(p, at).version_open + 1,
            seq![LOWER_V] + bare_version(p.version@),
        ),
{
    let name = p.name@;
    let deps = p.dependencies@;
    let url = p.url@;
    let bare = bare_version(p.version@);
    let n = name.len() as int;
    let d = deps.len() as int;
    let u = url.len() as int;
    let x1 = name + assign();
    let x2 = x1 + seq![32u8];
    let x3 = x2 + keyword();
    let x4 = x3 + seq![10u8];
    let x5 = x4 + deps;
    let x6 = x5 + seq![10u8, QUOTE];
    let x7 = x6 + url;
    let x8 = x7 + git_suffix();
    let x9 = x8 + seq![QUOTE, 10u8, QUOTE, LOWER_V];
    let x10 = x9 + bare;
    assert(p.expression() == x10 + seq![QUOTE]) by {
        reveal(expression);
    }
    lemma_has_at_parts(s, at, x10, seq![QUOTE]);
    lemma_has_at_parts(s, at, x9, bare);
    lemma_has_at_parts(s, at, x8, seq![QUOTE, 10u8, QUOTE, LOWER_V]);
    lemma_has_at_parts(s, at, x7, git_suffix());
    lemma_has_at_parts(s, at, x6, url);
    lemma_has_at_parts(s, at, x5, seq![10u8, QUOTE]);
    lemma_has_at_parts(s, at, x4, deps);
    lemma_has_at_parts(s, at, x3, seq![10u8]);
    lemma_has_at_parts(s, at, x2, keyword());
    lemma_has_at_parts(s, at, x1, seq![32u8]);
    lemma_has_at_parts(s, at, name, assign());
    let l = rendered_layout(p, at);

    // the blank between ` =` and the keyword
    lemma_byte_of(s, at + n + 2, seq![32u8], 0);
    lemma_byte_of(s, l.keyword, keyword(), 0);
    lemma_run_end_is(s, at + n + 2, ByteClass::Space, l.keyword);

    // the line feed between the keyword and the list
    lemma_byte_of(s, l.keyword + 9, seq![10u8], 0);
    lemma_byte_of(s, l.list_open, deps, 0);
    lemma_run_end_is(s, l.keyword + 9, ByteClass::Space, l.list_open);

    // the list's body
    assert forall|k: int| l.list_open + 1 <= k < l.list_close implies ByteClass::ListBody.holds(
        #[trigger] s[k],
    ) by {
        lemma_byte_of(s, l.list_open, deps, k - l.list_open);
    }
    lemma_byte_of(s, l.list_open, deps, d - 1);
    lemma_run_end_is(s, l.list_open + 1, ByteClass::ListBody, l.list_close);

    // the line feed between the list and the URL
    lemma_byte_of(s, l.list_close + 1, seq![10u8, QUOTE], 0);
    lemma_byte_of(s, l.list_close + 1, seq![10u8, QUOTE], 1);
    lemma_run_end_is(s, l.list_close + 1, ByteClass::Unquoted, l.url_open);

    // the URL and its suffix
    assert forall|k: int| l.url_open + 1 <= k < l.url_close implies ByteClass::Field.holds(
        #[trigger] s[k],
    ) by {
        if k < l.url_open + 1 + u {
            lemma_byte_of(s, l.url_open + 1, url, k - (l.url_open + 1));
        } else {
            lemma_byte_of(s, l.url_open + 1 + u, git_suffix(), k - (l.url_open + 1 + u));
        }
    }
    lemma_byte_of(s, l.url_close, seq![QUOTE, 10u8, QUOTE, LOWER_V], 0);
    lemma_run_end_is(s, l.url_open + 1, ByteClass::Field, l.url_close);

    // the line feed between the URL and the version
    lemma_byte_of(s, l.url_close, seq![QUOTE, 10u8, QUOTE, LOWER_V], 1);
    lemma_byte_of(s, l.url_close, seq![QUOTE, 10u8, QUOTE, LOWER_V], 2);
    lemma_run_end_is(s, l.url_close + 1, ByteClass::Space, l.version_open);

    // the version
    lemma_byte_of(s, l.url_close, seq![QUOTE, 10u8, QUOTE, LOWER_V], 3);
    assert forall|k: int| l.version_open + 1 <= k < l.version_close implies ByteClass::Field.holds(
        #[trigger] s[k],
    ) by {
        if k > l.version_open + 1 {
            lemma_byte_of(s, l.version_open + 2, bare, k - (l.version_open + 2));
        }
    }
    lemma_byte_of(s, l.version_close, seq![QUOTE], 0);
    lemma_run_end_is(s, l.version_open + 1, ByteClass::Field, l.version_close);

    assert(s.subrange(l.url_open + 1, l.url_close) =~= url + git_suffix()) by {
        assert forall|k: int| 0 <= k < u + 4 implies s[l.url_open + 1 + k] == (url + git_suffix())[k] by {
            if k < u {
                lemma_byte_of(s, l.url_open + 1, url, k);
            } else {
                lemma_byte_of(s, l.url_open + 1 + u, git_suffix(), k - u);
            }
        }
    }
    assert(s.subrange(l.version_open + 1, l.version_close) =~= seq![LOWER_V] + bare) by {
        assert forall|k: int| 0 <= k < bare.len() + 1 implies s[l.version_open + 1 + k] == (
        seq![LOWER_V] + bare)[k] by {
            if k > 0 {
                lemma_byte_of(s, l.version_open + 2, bare, k - 1);
            }
        }
    }
}

/// Rendering and reading back: in the rendered entry of valid parameters the
/// scanner finds an entry that spans the whole text; it starts with the name,
/// its list is the dependency list, its first quoted field is the URL with
/// `.git`, and its second is `v` with the bare version.
#[verifier::rlimit(50)]
pub proof fn lemma_round_trip(p: PkgParams)
    requires
        p.valid(),
    ensures
        is_entry_at(p.expression(), 0, p.name@),
        layout(p.expression(), 0, p.name@).end() == p.expression().len(),
        p.expression().subrange(0, p.name@.len() as int) == p.name@,
        p.expression().subrange(
            layout(p.expression(), 0, p.name@).list_open,
            layout(p.expression(), 0, p.name@).list_close + 1,
        ) == p.dependencies@,
        p.expression().subrange(
            layout(p.expression(), 0, p.name@).url_open + 1,
            layout(p.expression(), 0, p.name@).url_close,
        ) == p.url@ + git_suffix(),
        p.expression().subrange(
            layout(p.expression(), 0, p.name@).version_open + 1,
            layout(p.expression(), 0, p.name@).version_close,
        ) == seq![LOWER_V] + bare_version(p.version@),
{
    let e = p.expression();
    assert(has_at(e, 0, e)) by {
        assert(e.subrange(0, e.len() as int) =~= e);
    }
    lemma_rendered_entry_is_found(e, 0, p);
    let l = rendered_layout(p, 0);
    assert(layout(e, 0, p.name@) == l);
    assert((p.url@ + git_suffix()).len() == p.url@.len() + 4);
    assert((seq![LOWER_V] + bare_version(p.version@)).len() == bare_version(p.version@).len() + 1);
    assert(l.url_close == l.url_open + 1 + (p.url@ + git_suffix()).len());
    assert(l.version_close == l.version_open + 1 + (seq![LOWER_V] + bare_version(
        p.version@,
    )).len());
}

/// An entry lies inside its text, and its parts follow one another.
#[verifier::rlimit(50)]
pub proof fn lemma_entry_bounds(s: Seq<u8>, at: int, name: Seq<u8>)
    requires
        is_entry_at(s, at, name),
    ensures
        0 <= at < at + name.len() + 2 <= layout(s, at, name).keyword,
        layout(s, at, name).keyword + 9 <= layout(s, at, name).list_open,
        layout(s, at, name).list_open < layout(s, at, name).list_close,
        layout(s, at, name).list_close < layout(s, at, name).url_open,
        layout(s, at, name).url_open < layout(s, at, name).url_close,
        layout(s, at, name).url_close < layout(s, at, name).version_open,
        layout(s, at, name).version_open < layout(s, at, name).version_close,
        layout(s, at, name).end() <= s.len(),
{
    let l = layout(s, at, name);
    lemma_run_end_bounds(s, at + name.len() + 2, ByteClass::Space);
    lemma_run_end_bounds(s, l.keyword + 9, ByteClass::Space);
    lemma_run_end_bounds(s, l.list_open + 1, ByteClass::ListBody);
    lemma_run_end_bounds(s, l.list_close + 1, ByteClass::Unquoted);
    lemma_run_end_bounds(s, l.url_open + 1, ByteClass::Field);
    lemma_run_end_bounds(s, l.url_close + 1, ByteClass::Space);
    lemma_run_end_bounds(s, l.version_open + 1, ByteClass::Field);
}

/// Replacement is precise: where the entry for `name` is the only one, the
/// merge succeeds, and its result is the text before the entry, unchanged,
/// then the new entry, then the text behind the entry, unchanged.
#[verifier::rlimit(50)]
pub proof fn lemma_replace_is_precise(content: Seq<u8>, at: int, name: Seq<u8>, expr: Seq<u8>)
    requires
        is_sole_entry(content, at, name),
    ensures
        ({
            let end = layout(content, at, name).end();
            let out = spliced(content, at, end, expr);
            &&& 0 <= at < end <= content.len()
            &&& upsert_spec(Some(content), name, expr, true) == Ok::<Seq<u8>, UpsertError>(out)
            &&& out.len() == content.len() - (end - at) + expr.len()
            &&& out.subrange(0, at) == content.subrange(0, at)
            &&& out.subrange(at, at + expr.len()) == expr
            &&& out.subrange(at + expr.len(), out.len() as int) == content.subrange(
                end,
                content.len() as int,
            )
        }),
{
    lemma_entry_bounds(content, at, name);
    let end = layout(content, at, name).end();
    let out = spliced(content, at, end, expr);
    let chosen = choose|i: int| is_entry_at(content, i, name);
    assert(chosen == at);
    assert(!has_several_entries(content, name));
    assert(out.subrange(0, at) =~= content.subrange(0, at));
    assert(out.subrange(at, at + expr.len()) =~= expr);
    assert(out.subrange(at + expr.len(), out.len() as int) =~= content.subrange(
        end,
        content.len() as int,
    ));
}

/// A second merge changes nothing: where a merge of the rendered entry of
/// valid parameters has given `first`, with or without a file and whether the
/// package was known or not, and `first` does not hold several entries for
/// the package, merging the same entry into `first` as a known package gives
/// `first` again.
#[verifier::rlimit(50)]
pub proof fn lemma_second_merge_keeps_content(
    existing: Option<Seq<u8>>,
    p: PkgParams,
    present: bool,
    first: Seq<u8>,
)
    requires
        p.valid(),
        upsert_spec(existing, p.name@, p.expression(), present) == Ok::<Seq<u8>, UpsertError>(
            first,
        ),
        !has_several_entries(first, p.name@),
    ensures
        upsert_spec(Some(first), p.name@, p.expression(), true) == Ok::<Seq<u8>, UpsertError>(
            first,
        ),
{
    let name = p.name@;
    let e = p.expression();
    let pos = merged_at(existing, name, present);
    lemma_merged_entry_stands(existing, p, present, first);
    lemma_rendered_entry_is_found(first, pos, p);
    let chosen = choose|i: int| is_entry_at(first, i, name);
    assert(chosen == pos);
    assert(spliced(first, pos, pos + e.len(), e) =~= first);
}

/// Where a merge puts the entry: at the start of the entry that it replaces,
/// behind the comma that it adds before the last `}`, or behind the `{` of a
/// new file.
pub open spec fn merged_at(existing: Option<Seq<u8>>, name: Seq<u8>, present: bool) -> int {
    match existing {
        Some(content) => if present {
            choose|i: int| is_entry_at(content, i, name)
        } else {
            match last_index_of(content, CLOSE_BRACE) {
                Some(i) => i + 1,
                None => 0,
            }
        },
        None => fresh_entry_at(),
    }
}

/// After a merge the entry stands in the text, at the start of a label.
#[verifier::rlimit(50)]
pub proof fn lemma_merged_entry_stands(
    existing: Option<Seq<u8>>,
    p: PkgParams,
    present: bool,
    first: Seq<u8>,
)
    requires
        p.name@.len() > 0,
        upsert_spec(existing, p.name@, p.expression(), present) == Ok::<Seq<u8>, UpsertError>(
            first,
        ),
    ensures
        has_at(first, merged_at(existing, p.name@, present), p.expression()),
        at_label_start(first, merged_at(existing, p.name@, present)),
{
    let name = p.name@;
    let e = p.expression();
    let pos = merged_at(existing, name, present);
    match existing {
        Some(content) => {
            if present {
                assert(is_entry_at(content, pos, name));
                lemma_entry_bounds(content, pos, name);
                assert(first.subrange(pos, pos + e.len()) =~= e);
                if pos > 0 {
                    assert(first[pos - 1] == content[pos - 1]);
                }
            } else {
                lemma_last_index_bounds(content, CLOSE_BRACE);
                assert(first.subrange(pos, pos + e.len()) =~= e);
                assert(first[pos - 1] == COMMA);
            }
        },
        None => {
            assert(wrapper_prefix().len() == 40);
            assert(first.subrange(pos, pos + e.len()) =~= e);
            assert(first[pos - 1] == OPEN_BRACE);
        },
    }
}

/// Whether an entry is found depends on its own bytes and on the byte in
/// front of it alone: where a copy of the entry stands at the start of a
/// label of another text, it is an entry there, part for part.
#[verifier::rlimit(50)]
pub proof fn lemma_entry_moves(s: Seq<u8>, at: int, name: Seq<u8>, t: Seq<u8>, to: int)
    requires
        is_entry_at(s, at, name),
        has_at(t, to, s.subrange(at, layout(s, at, name).end())),
        at_label_start(t, to),
    ensures
        is_entry_at(t, to, name),
        layout(t, to, name) == layout(s, at, name).shifted(to - at),
{
    lemma_entry_bounds(s, at, name);
    let l = layout(s, at, name);
    let end = l.end();
    let by = to - at;
    let window = s.subrange(at, end);
    let n = name.len() as int;
    lemma_has_at_moves(s, at, name, t, by, at, end);
    lemma_has_at_moves(s, at + n, assign(), t, by, at, end);
    lemma_run_moves(s, at + n + 2, ByteClass::Space, t, by, at, end);
    lemma_has_at_moves(s, l.keyword, keyword(), t, by, at, end);
    lemma_run_moves(s, l.keyword + 9, ByteClass::Space, t, by, at, end);
    lemma_byte_of(t, to, window, l.list_open - at);
    lemma_run_moves(s, l.list_open + 1, ByteClass::ListBody, t, by, at, end);
    lemma_byte_of(t, to, window, l.list_close - at);
    lemma_run_moves(s, l.list_close + 1, ByteClass::Unquoted, t, by, at, end);
    lemma_byte_of(t, to, window, l.url_open - at);
    lemma_run_moves(s, l.url_open + 1, ByteClass::Field, t, by, at, end);
    lemma_byte_of(t, to, window, l.url_close - at);
    lemma_run_moves(s, l.url_close + 1, ByteClass::Space, t, by, at, end);
    lemma_byte_of(t, to, window, l.version_open - at);
    lemma_run_moves(s, l.version_open + 1, ByteClass::Field, t, by, at, end);
    lemma_byte_of(t, to, window, l.version_close - at);
}

/// Where an entry that lies outside `start..end` stands after those bytes
/// have been replaced by `with`.
pub open spec fn moved_to(start: int, end: int, with: Seq<u8>, other: int) -> int {
    if other < start {
        other
    } else {
        other - (end - start) + with.len()
    }
}

/// A change of the bytes in `start..end` leaves every entry, of whatever
/// package, that ends before `start` or starts behind `end` an entry, byte
/// for byte and part for part. So a replacement keeps the entries around the
/// one it replaces, and an insertion keeps those before the last `}`.
#[verifier::rlimit(50)]
pub proof fn lemma_other_entries_stay(
    content: Seq<u8>,
    start: int,
    end: int,
    with: Seq<u8>,
    other: int,
    name: Seq<u8>,
)
    requires
        0 <= start <= end <= content.len(),
        is_entry_at(content, other, name),
        layout(content, other, name).end() <= start || end < other,
    ensures
        is_entry_at(spliced(content, start, end, with), moved_to(start, end, with, other), name),
        layout(spliced(content, start, end, with), moved_to(start, end, with, other), name)
            == layout(content, other, name).shifted(moved_to(start, end, with, other) - other),
        has_at(
            spliced(content, start, end, with),
            moved_to(start, end, with, other),
            content.subrange(other, layout(content, other, name).end()),
        ),
{
    lemma_entry_bounds(content, other, name);
    let out = spliced(content, start, end, with);
    let to = moved_to(start, end, with, other);
    let other_end = layout(content, other, name).end();
    assert(out.subrange(to, to + (other_end - other)) =~= content.subrange(other, other_end));
    if other > 0 {
        assert(out[to - 1] == content[other - 1]);
    }
    lemma_entry_moves(content, other, name, out, to);
}

} // verus!
