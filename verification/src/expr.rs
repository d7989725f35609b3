//! Package parameters and the canonical entry text rendered from them.

use vstd::prelude::*;
use crate::entry::{assign, keyword};
use crate::text::{
    append, is_label, label_byte, run_end, skip_run, ByteClass, CLOSE_BRACKET, EQUALS, LOWER_V,
    OPEN_BRACKET, QUOTE,
};

verus! {

/// What upstream says of one package. `dependencies` is the dependency list
/// as rendered text, brackets included; `url` is the source URL without
/// `.git`; `version` is the version as upstream gives it.
#[derive(Clone, Debug)]
pub struct PkgParams {
    pub name: Vec<u8>,
    pub dependencies: Vec<u8>,
    pub url: Vec<u8>,
    pub version: Vec<u8>,
}

/// The canonical text of a package's entry.
#[derive(Clone, Debug)]
pub struct PkgExpr(pub Vec<u8>);

/// A version without the `v`s that upstream may put in front of it.
pub open spec fn bare_version(version: Seq<u8>) -> Seq<u8> {
    version.subrange(run_end(version, 0, ByteClass::Only(LOWER_V)), version.len() as int)
}

/// Strips every leading `v` from a version.
pub fn normalize_version(version: &[u8]) -> (r: Vec<u8>)
    ensures
        r@ == bare_version(version@),
{
    let from: usize = skip_run(version, 0, ByteClass::Only(LOWER_V));
    let mut out: Vec<u8> = Vec::new();
    let mut i: usize = from;
    while i < version.len()
        invariant
            from <= i <= version.len(),
            out@ == version@.subrange(from as int, i as int),
        decreases version.len() - i,
    {
        out.push(version[i]);
        i += 1;
        proof {
            assert(out@ =~= version@.subrange(from as int, i as int));
        }
    }
    out
}

/// The bytes of `.git`.
pub open spec fn git_suffix() -> Seq<u8> {
    seq![46u8, 103u8, 105u8, 116u8]
}

/// The entry text: the name, ` = mkPackage`, a line feed, the dependency
/// list, a line feed, the URL with `.git` in quotes, a line feed, and in
/// quotes a `v` and the bare version.
#[verifier::opaque]
pub open spec fn expression(
    name: Seq<u8>,
    dependencies: Seq<u8>,
    url: Seq<u8>,
    version: Seq<u8>,
) -> Seq<u8> {
    name + assign() + seq![32u8] + keyword() + seq![10u8] + dependencies + seq![10u8, QUOTE] + url
        + git_suffix() + seq![QUOTE, 10u8, QUOTE, LOWER_V] + bare_version(version) + seq![QUOTE]
}

impl PkgParams {
    /// The entry text of these parameters.
    pub open spec fn expression(&self) -> Seq<u8> {
        expression(self.name@, self.dependencies@, self.url@, self.version@)
    }

    /// The parameters can be rendered into an entry that reads back as
    /// itself.
    pub open spec fn valid(&self) -> bool {
        &&& valid_name(self.name@)
        &&& valid_list(self.dependencies@)
        &&& valid_field(self.url@)
        &&& valid_field(bare_version(self.version@))
    }

    /// Checks the parameters.
    pub fn is_valid(&self) -> (r: bool)
        ensures
            r == self.valid(),
    {
        let version = normalize_version(self.version.as_slice());
        is_valid_name(self.name.as_slice()) && is_valid_list(self.dependencies.as_slice())
            && is_valid_field(self.url.as_slice()) && is_valid_field(version.as_slice())
    }
}

/// A package name: not empty, and made of label bytes only.
pub open spec fn valid_name(name: Seq<u8>) -> bool {
    name.len() > 0 && forall|k: int| 0 <= k < name.len() ==> is_label(#[trigger] name[k])
}

/// A rendered list: `[` first, `]` last, and no other `]`.
pub open spec fn valid_list(list: Seq<u8>) -> bool {
    &&& list.len() >= 2
    &&& list[0] == OPEN_BRACKET
    &&& list.last() == CLOSE_BRACKET
    &&& forall|k: int| 0 <= k < list.len() - 1 ==> #[trigger] list[k] != CLOSE_BRACKET
}

/// A rendered list that holds no `=`, as a list of quoted names does not.
pub open spec fn plain_list(list: Seq<u8>) -> bool {
    forall|k: int| 0 <= k < list.len() ==> #[trigger] list[k] != EQUALS
}

/// What may stand between quotes: no whitespace and no `"`.
pub open spec fn valid_field(field: Seq<u8>) -> bool {
    forall|k: int| 0 <= k < field.len() ==> ByteClass::Field.holds(#[trigger] field[k])
}

/// Checks a package name.
pub fn is_valid_name(name: &[u8]) -> (r: bool)
    ensures
        r == valid_name(name@),
{
    if name.len() == 0 {
        return false;
    }
    let mut i: usize = 0;
    while i < name.len()
        invariant
            i <= name.len(),
            forall|k: int| 0 <= k < i ==> is_label(#[trigger] name@[k]),
        decreases name.len() - i,
    {
        if !label_byte(name[i]) {
            return false;
        }
        i += 1;
    }
    true
}

/// Checks a rendered list.
pub fn is_valid_list(list: &[u8]) -> (r: bool)
    ensures
        r == valid_list(list@),
{
    if list.len() < 2 || list[0] != OPEN_BRACKET {
        return false;
    }
    let close: usize = skip_run(list, 0, ByteClass::ListBody);
    proof {
        crate::text::lemma_run_end_bounds(list@, 0, ByteClass::ListBody);
    }
    close == list.len() - 1
}

/// Checks what is to stand between quotes.
pub fn is_valid_field(field: &[u8]) -> (r: bool)
    ensures
        r == valid_field(field@),
{
    let end: usize = skip_run(field, 0, ByteClass::Field);
    proof {
        crate::text::lemma_run_end_bounds(field@, 0, ByteClass::Field);
    }
    end == field.len()
}

/// Renders the entry of a package.
pub fn prepare_pkg_expr(pkg_params: &PkgParams) -> (r: PkgExpr)
    ensures
        r.0@ == pkg_params.expression(),
{
    let version = normalize_version(pkg_params.version.as_slice());
    let mut out: Vec<u8> = Vec::new();
    append(&mut out, pkg_params.name.as_slice());
    out.push(32u8);
    out.push(61u8);
    out.push(32u8);
    append(&mut out, crate::entry::keyword_bytes().as_slice());
    out.push(10u8);
    append(&mut out, pkg_params.dependencies.as_slice());
    out.push(10u8);
    out.push(QUOTE);
    append(&mut out, pkg_params.url.as_slice());
    out.push(46u8);
    out.push(103u8);
    out.push(105u8);
    out.push(116u8);
    out.push(QUOTE);
    out.push(10u8);
    out.push(QUOTE);
    out.push(LOWER_V);
    append(&mut out, version.as_slice());
    out.push(QUOTE);
    proof {
        reveal(expression);
        assert(out@ =~= pkg_params.expression());
    }
    PkgExpr(out)
}

} // verus!
