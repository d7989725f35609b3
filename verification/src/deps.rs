//! The dependency list of a package: upstream's names, freed of the prefix
//! that upstream puts in front of them, rendered as a list of quoted names.

use vstd::prelude::*;
use crate::expr::{plain_list, valid_list};
use crate::text::{
    append, has_at, starts_at, CLOSE_BRACKET, COMMA, EQUALS, OPEN_BRACKET, QUOTE,
};

verus! {

/// The bytes of `purescript-`, which upstream puts in front of package names.
pub open spec fn upstream_prefix() -> Seq<u8> {
    seq![112u8, 117u8, 114u8, 101u8, 115u8, 99u8, 114u8, 105u8, 112u8, 116u8, 45u8]
}

/// A dependency's name as the package set has it: upstream's name without
/// the prefix, where it has one.
pub open spec fn bare_dependency(name: Seq<u8>) -> Seq<u8> {
    if has_at(name, 0, upstream_prefix()) {
        name.subrange(upstream_prefix().len() as int, name.len() as int)
    } else {
        name
    }
}

/// Strips upstream's prefix from a dependency's name.
pub fn strip_dependency_prefix(name: &[u8]) -> (r: Vec<u8>)
    ensures
        r@ == bare_dependency(name@),
{
    let prefix: Vec<u8> = vec![
        112u8,
        117u8,
        114u8,
        101u8,
        115u8,
        99u8,
        114u8,
        105u8,
        112u8,
        116u8,
        45u8,
    ];
    proof {
        assert(prefix@ =~= upstream_prefix());
    }
    let from: usize = if starts_at(name, 0, prefix.as_slice()) {
        11
    } else {
        0
    };
    let mut out: Vec<u8> = Vec::new();
    append(&mut out, vstd::slice::slice_subrange(name, from, name.len()));
    proof {
        assert(name@.subrange(0, name.len() as int) =~= name@);
    }
    out
}

/// One item of a rendered list: a line feed, two blanks, and the name in
/// quotes.
pub open spec fn rendered_item(name: Seq<u8>) -> Seq<u8> {
    seq![10u8, 32u8, 32u8, QUOTE] + name + seq![QUOTE]
}

/// The items of a rendered list, with a comma behind each but the last.
pub open spec fn rendered_items(names: Seq<Seq<u8>>) -> Seq<u8>
    decreases names.len(),
{
    if names.len() == 0 {
        Seq::<u8>::empty()
    } else if names.len() == 1 {
        rendered_item(names.last())
    } else {
        rendered_items(names.drop_last()) + seq![COMMA] + rendered_item(names.last())
    }
}

/// The rendered list of `names`: `[]` where there are none, else `[`, the
/// items, a line feed and `]`.
pub open spec fn rendered_list(names: Seq<Seq<u8>>) -> Seq<u8> {
    if names.len() == 0 {
        seq![OPEN_BRACKET, CLOSE_BRACKET]
    } else {
        seq![OPEN_BRACKET] + rendered_items(names) + seq![10u8, CLOSE_BRACKET]
    }
}

/// The texts of a list of names.
pub open spec fn texts(names: Seq<Vec<u8>>) -> Seq<Seq<u8>> {
    names.map_values(|name: Vec<u8>| name@)
}

/// Renders a dependency list, in the order given.
pub fn render_dependencies(names: &Vec<Vec<u8>>) -> (r: Vec<u8>)
    ensures
        r@ == rendered_list(texts(names@)),
{
    let mut out: Vec<u8> = Vec::new();
    out.push(OPEN_BRACKET);
    if names.len() == 0 {
        out.push(CLOSE_BRACKET);
        proof {
            assert(out@ =~= rendered_list(texts(names@)));
        }
        return out;
    }
    let ghost all = texts(names@);
    let mut i: usize = 0;
    while i < names.len()
        invariant
            i <= names.len(),
            all == texts(names@),
            out@ == seq![OPEN_BRACKET] + rendered_items(all.subrange(0, i as int)),
        decreases names.len() - i,
    {
        let ghost before = out@;
        if i > 0 {
            out.push(COMMA);
        }
        out.push(10u8);
        out.push(32u8);
        out.push(32u8);
        out.push(QUOTE);
        append(&mut out, names[i].as_slice());
        out.push(QUOTE);
        proof {
            let upto = all.subrange(0, i + 1);
            assert(upto.drop_last() =~= all.subrange(0, i as int));
            assert(upto.last() == names[i as int]@);
            assert(out@ =~= seq![OPEN_BRACKET] + rendered_items(upto));
        }
        i += 1;
    }
    out.push(10u8);
    out.push(CLOSE_BRACKET);
    proof {
        assert(all.subrange(0, names.len() as int) =~= all);
        assert(out@ =~= rendered_list(all));
    }
    out
}

/// A text that holds neither `]` nor `=`.
pub open spec fn plain_text(s: Seq<u8>) -> bool {
    forall|k: int| 0 <= k < s.len() ==> #[trigger] s[k] != CLOSE_BRACKET && s[k] != EQUALS
}

/// No name holds `]` or `=`.
pub open spec fn plain_names(names: Seq<Seq<u8>>) -> bool {
    forall|i: int| 0 <= i < names.len() ==> plain_text(#[trigger] names[i])
}

/// The items of plain names hold neither `]` nor `=`.
pub proof fn lemma_rendered_items_are_plain(names: Seq<Seq<u8>>)
    requires
        plain_names(names),
    ensures
        plain_text(rendered_items(names)),
    decreases names.len(),
{
    if names.len() > 0 {
        let name = names.last();
        let item = rendered_item(name);
        assert(plain_text(names[names.len() - 1]));
        assert forall|k: int| 0 <= k < item.len() implies #[trigger] item[k] != CLOSE_BRACKET
            && item[k] != EQUALS by {
            if 4 <= k < 4 + name.len() {
                assert(item[k] == name[k - 4]);
            }
        }
        if names.len() > 1 {
            let front = names.drop_last();
            assert forall|i: int| 0 <= i < front.len() implies plain_text(#[trigger] front[i]) by {
                assert(front[i] == names[i]);
            }
            lemma_rendered_items_are_plain(front);
            let head = rendered_items(front) + seq![COMMA];
            assert forall|k: int| 0 <= k < rendered_items(names).len() implies (
            #[trigger] rendered_items(names)[k]) != CLOSE_BRACKET && rendered_items(names)[k]
                != EQUALS by {
                if k < rendered_items(front).len() {
                    assert(rendered_items(names)[k] == rendered_items(front)[k]);
                } else if k < head.len() {
                    assert(rendered_items(names)[k] == COMMA);
                } else {
                    assert(rendered_items(names)[k] == item[k - head.len()]);
                }
            }
        }
    }
}

/// The rendered list of plain names is a list that an entry can hold and
/// that reads back: `[` first, `]` last and nowhere else, and no `=`.
pub proof fn lemma_rendered_list_is_valid(names: Seq<Seq<u8>>)
    requires
        plain_names(names),
    ensures
        valid_list(rendered_list(names)),
        plain_list(rendered_list(names)),
{
    lemma_rendered_items_are_plain(names);
    let items = rendered_items(names);
    let list = rendered_list(names);
    if names.len() > 0 {
        assert forall|k: int| 0 <= k < list.len() - 1 implies #[trigger] list[k]
            != CLOSE_BRACKET by {
            if 1 <= k < 1 + items.len() {
                assert(list[k] == items[k - 1]);
            }
        }
        assert forall|k: int| 0 <= k < list.len() implies #[trigger] list[k] != EQUALS by {
            if 1 <= k < 1 + items.len() {
                assert(list[k] == items[k - 1]);
            }
        }
    }
}

} // verus!
