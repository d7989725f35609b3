//! The structural scanner: recognises one package entry of a group file and
//! yields the offsets of its parts.
//!
//! An entry for the package `name` is, in order: the name as a whole label,
//! ` =`, optional whitespace, `mkPackage`, optional whitespace, a list from
//! `[` to the nearest `]`, anything up to the next `"`, a quoted field free of
//! whitespace, optional whitespace, and a second such field.

use vstd::prelude::*;
use vstd::slice::slice_subrange;
use crate::text::{
    append, byte_at, has_at, is_byte_at, is_label, label_byte, run_end, skip_run, starts_at,
    ByteClass, CLOSE_BRACKET, OPEN_BRACKET, QUOTE,
};

verus! {

/// The bytes of ` =`, which follow an entry's name.
pub open spec fn assign() -> Seq<u8> {
    seq![32u8, 61u8]
}

/// The bytes of `mkPackage`.
pub open spec fn keyword() -> Seq<u8> {
    seq![109u8, 107u8, 80u8, 97u8, 99u8, 107u8, 97u8, 103u8, 101u8]
}

/// ` =` as bytes.
pub fn assign_bytes() -> (r: Vec<u8>)
    ensures
        r@ == assign(),
{
    let r = vec![32u8, 61u8];
    proof {
        assert(r@ =~= assign());
    }
    r
}

/// `mkPackage` as bytes.
pub fn keyword_bytes() -> (r: Vec<u8>)
    ensures
        r@ == keyword(),
{
    let r = vec![109u8, 107u8, 80u8, 97u8, 99u8, 107u8, 97u8, 103u8, 101u8];
    proof {
        assert(r@ =~= keyword());
    }
    r
}

/// Offsets of the parts of an entry, as mathematical integers.
pub struct Layout {
    /// First byte of the name.
    pub start: int,
    /// First byte of `mkPackage`.
    pub keyword: int,
    /// The `[` that opens the dependency list.
    pub list_open: int,
    /// The `]` that closes it.
    pub list_close: int,
    /// The `"` that opens the source URL.
    pub url_open: int,
    /// The `"` that closes it.
    pub url_close: int,
    /// The `"` that opens the version.
    pub version_open: int,
    /// The `"` that closes it; the entry's last byte.
    pub version_close: int,
}

impl Layout {
    /// One past the entry's last byte.
    pub open spec fn end(self) -> int {
        self.version_close + 1
    }

    /// The same layout, `by` bytes further on.
    pub open spec fn shifted(self, by: int) -> Layout {
        Layout {
            start: self.start + by,
            keyword: self.keyword + by,
            list_open: self.list_open + by,
            list_close: self.list_close + by,
            url_open: self.url_open + by,
            url_close: self.url_close + by,
            version_open: self.version_open + by,
            version_close: self.version_close + by,
        }
    }
}

/// Where the parts of an entry for `name` lie if one starts at `at`. Every
/// offset is fixed by the text: each part ends at the first byte that cannot
/// belong to it.
pub open spec fn layout(s: Seq<u8>, at: int, name: Seq<u8>) -> Layout {
    let keyword = run_end(s, at + name.len() + 2, ByteClass::Space);
    let list_open = run_end(s, keyword + 9, ByteClass::Space);
    let list_close = run_end(s, list_open + 1, ByteClass::ListBody);
    let url_open = run_end(s, list_close + 1, ByteClass::Unquoted);
    let url_close = run_end(s, url_open + 1, ByteClass::Field);
    let version_open = run_end(s, url_close + 1, ByteClass::Space);
    let version_close = run_end(s, version_open + 1, ByteClass::Field);
    Layout {
        start: at,
        keyword,
        list_open,
        list_close,
        url_open,
        url_close,
        version_open,
        version_close,
    }
}

/// `at` is the start of `s` or follows a byte that cannot be part of a label,
/// so that a name found at `at` is not the tail of a longer one.
pub open spec fn at_label_start(s: Seq<u8>, at: int) -> bool {
    at == 0 || (0 < at <= s.len() && !is_label(s[at - 1]))
}

/// An entry for the package `name` starts at offset `at` of `s`.
pub open spec fn is_entry_at(s: Seq<u8>, at: int, name: Seq<u8>) -> bool {
    let l = layout(s, at, name);
    &&& name.len() > 0
    &&& at_label_start(s, at)
    &&& has_at(s, at, name)
    &&& has_at(s, at + name.len(), assign())
    &&& has_at(s, l.keyword, keyword())
    &&& byte_at(s, l.list_open, OPEN_BRACKET)
    &&& byte_at(s, l.list_close, CLOSE_BRACKET)
    &&& byte_at(s, l.url_open, QUOTE)
    &&& byte_at(s, l.url_close, QUOTE)
    &&& byte_at(s, l.version_open, QUOTE)
    &&& byte_at(s, l.version_close, QUOTE)
}

/// Offsets of the parts of an entry that was found in a text.
#[derive(Clone, Copy, Debug)]
pub struct EntrySpan {
    pub start: usize,
    pub keyword: usize,
    pub list_open: usize,
    pub list_close: usize,
    pub url_open: usize,
    pub url_close: usize,
    pub version_open: usize,
    pub version_close: usize,
}

impl View for EntrySpan {
    type V = Layout;

    open spec fn view(&self) -> Layout {
        Layout {
            start: self.start as int,
            keyword: self.keyword as int,
            list_open: self.list_open as int,
            list_close: self.list_close as int,
            url_open: self.url_open as int,
            url_close: self.url_close as int,
            version_open: self.version_open as int,
            version_close: self.version_close as int,
        }
    }
}

impl EntrySpan {
    /// One past the entry's last byte.
    pub fn end(&self) -> (r: usize)
        requires
            self.version_close < usize::MAX,
        ensures
            r == self@.end(),
    {
        self.version_close + 1
    }
}

/// Reads the entry for `name` that starts at `at`, if one does.
#[verifier::rlimit(50)]
pub fn parse_entry(s: &[u8], at: usize, name: &[u8]) -> (r: Option<EntrySpan>)
    ensures
        r.is_some() == is_entry_at(s@, at as int, name@),
        r.is_some() ==> r.unwrap()@ == layout(s@, at as int, name@),
        r.is_some() ==> at < r.unwrap()@.end() <= s.len(),
        r.is_some() ==> r.unwrap().list_open < r.unwrap().list_close < r.unwrap().url_open
            < r.unwrap().url_close < r.unwrap().version_open < r.unwrap().version_close,
{
    if name.len() == 0 || at > s.len() {
        return None;
    }
    if at > 0 && label_byte(s[at - 1]) {
        return None;
    }
    if !starts_at(s, at, name) {
        return None;
    }
    let assign = assign_bytes();
    if !starts_at(s, at + name.len(), assign.as_slice()) {
        return None;
    }
    let keyword: usize = skip_run(s, at + name.len() + 2, ByteClass::Space);
    let word = keyword_bytes();
    if !starts_at(s, keyword, word.as_slice()) {
        return None;
    }
    let list_open: usize = skip_run(s, keyword + 9, ByteClass::Space);
    if !is_byte_at(s, list_open, OPEN_BRACKET) {
        return None;
    }
    let list_close: usize = skip_run(s, list_open + 1, ByteClass::ListBody);
    if !is_byte_at(s, list_close, CLOSE_BRACKET) {
        return None;
    }
    let url_open: usize = skip_run(s, list_close + 1, ByteClass::Unquoted);
    if !is_byte_at(s, url_open, QUOTE) {
        return None;
    }
    let url_close: usize = skip_run(s, url_open + 1, ByteClass::Field);
    if !is_byte_at(s, url_close, QUOTE) {
        return None;
    }
    let version_open: usize = skip_run(s, url_close + 1, ByteClass::Space);
    if !is_byte_at(s, version_open, QUOTE) {
        return None;
    }
    let version_close: usize = skip_run(s, version_open + 1, ByteClass::Field);
    if !is_byte_at(s, version_close, QUOTE) {
        return None;
    }
    Some(
        EntrySpan {
            start: at,
            keyword,
            list_open,
            list_close,
            url_open,
            url_close,
            version_open,
            version_close,
        },
    )
}

/// What an entry holds besides its name.
#[derive(Clone, Debug, PartialEq, Eq)]
pub struct EntryFields {
    /// The dependency list, brackets included.
    pub dependencies: Vec<u8>,
    /// What stands between the first pair of quotes.
    pub url: Vec<u8>,
    /// What stands between the second pair of quotes.
    pub version: Vec<u8>,
}

/// Reads the fields of the entry for `name` that starts at `at`, if one does.
#[verifier::rlimit(50)]
pub fn read_entry(s: &[u8], at: usize, name: &[u8]) -> (r: Option<EntryFields>)
    ensures
        r.is_some() == is_entry_at(s@, at as int, name@),
        r.is_some() ==> ({
            let l = layout(s@, at as int, name@);
            let fields = r.unwrap();
            &&& fields.dependencies@ == s@.subrange(l.list_open, l.list_close + 1)
            &&& fields.url@ == s@.subrange(l.url_open + 1, l.url_close)
            &&& fields.version@ == s@.subrange(l.version_open + 1, l.version_close)
        }),
{
    match parse_entry(s, at, name) {
        Some(span) => {
            let mut dependencies: Vec<u8> = Vec::new();
            append(&mut dependencies, slice_subrange(s, span.list_open, span.list_close + 1));
            let mut url: Vec<u8> = Vec::new();
            append(&mut url, slice_subrange(s, span.url_open + 1, span.url_close));
            let mut version: Vec<u8> = Vec::new();
            append(&mut version, slice_subrange(s, span.version_open + 1, span.version_close));
            Some(EntryFields { dependencies, url, version })
        },
        None => None,
    }
}

/// Why no single entry could be located.
#[derive(Clone, Copy, Debug, PartialEq, Eq)]
pub enum MatchError {
    /// No entry for the package stands in the text.
    Missing,
    /// More than one does.
    Ambiguous,
}

/// The entry for `name` that starts at `at` is the only one in `s`.
pub open spec fn is_sole_entry(s: Seq<u8>, at: int, name: Seq<u8>) -> bool {
    &&& is_entry_at(s, at, name)
    &&& forall|other: int| is_entry_at(s, other, name) ==> other == at
}

/// No entry for `name` stands in `s`.
pub open spec fn has_no_entry(s: Seq<u8>, name: Seq<u8>) -> bool {
    forall|at: int| !is_entry_at(s, at, name)
}

/// Entries for `name` start at two places of `s` at least.
pub open spec fn has_several_entries(s: Seq<u8>, name: Seq<u8>) -> bool {
    exists|a: int, b: int| a != b && is_entry_at(s, a, name) && is_entry_at(s, b, name)
}

/// Finds the one entry for `name` in `s`. Entries are counted by where they
/// start, so two that overlap are two.
#[verifier::rlimit(50)]
pub fn locate_entry(s: &[u8], name: &[u8]) -> (r: Result<EntrySpan, MatchError>)
    ensures
        match r {
            Ok(span) => is_sole_entry(s@, span.start as int, name@) && span@ == layout(
                s@,
                span.start as int,
                name@,
            ) && span.start < span@.end() <= s.len(),
            Err(MatchError::Missing) => has_no_entry(s@, name@),
            Err(MatchError::Ambiguous) => has_several_entries(s@, name@),
        },
{
    let mut found: Option<EntrySpan> = None;
    let mut at: usize = 0;
    while at < s.len()
        invariant
            at <= s.len(),
            match found {
                Some(span) => span.start < at && is_entry_at(s@, span.start as int, name@)
                    && span@ == layout(s@, span.start as int, name@) && span.start < span@.end()
                    <= s.len()
                    && forall|other: int|
                    other < at && is_entry_at(s@, other, name@) ==> other == span.start,
                None => forall|other: int| other < at ==> !is_entry_at(s@, other, name@),
            },
        decreases s.len() - at,
    {
        match parse_entry(s, at, name) {
            Some(span) => {
                if found.is_some() {
                    return Err(MatchError::Ambiguous);
                }
                found = Some(span);
            },
            None => {},
        }
        at += 1;
    }
    match found {
        Some(span) => Ok(span),
        None => Err(MatchError::Missing),
    }
}

} // verus!
