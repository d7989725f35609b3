//! The merge of one entry into a group file's text: a new entry is inserted,
//! a known one replaced where it stands, and every other byte is kept.

use vstd::prelude::*;
use crate::entry::{
    has_no_entry, has_several_entries, is_entry_at, layout, locate_entry, MatchError,
};
use crate::text::{
    append, last_index_of, rfind_byte, splice, spliced, CLOSE_BRACE, COMMA, OPEN_BRACE,
};

verus! {

/// Why a group file's text could not be merged.
#[derive(Clone, Copy, Debug, PartialEq, Eq)]
pub enum UpsertError {
    /// The package is known, but its entry could not be singled out.
    Match(MatchError),
    /// A new entry was to be added, but the text has no `}` to add it before.
    MissingDelimiter,
}

/// The bytes of `let mkPackage = ./../mkPackage.dhall in `, which open every
/// group file.
pub open spec fn wrapper_prefix() -> Seq<u8> {
    seq![
        108u8, 101u8, 116u8, 32u8, 109u8, 107u8, 80u8, 97u8, 99u8, 107u8, 97u8, 103u8, 101u8, 32u8,
        61u8, 32u8, 46u8, 47u8, 46u8, 46u8, 47u8, 109u8, 107u8, 80u8, 97u8, 99u8, 107u8, 97u8,
        103u8, 101u8, 46u8, 100u8, 104u8, 97u8, 108u8, 108u8, 32u8, 105u8, 110u8, 32u8,
    ]
}

/// A group file that holds the one entry `expr`.
pub open spec fn fresh_file(expr: Seq<u8>) -> Seq<u8> {
    wrapper_prefix() + seq![OPEN_BRACE] + expr + seq![CLOSE_BRACE]
}

/// Where the entry of a new group file starts: behind the prefix and the `{`.
pub open spec fn fresh_entry_at() -> int {
    wrapper_prefix().len() as int + 1
}

/// What inserting `expr` makes of a group file, or of none.
pub open spec fn insert_spec(existing: Option<Seq<u8>>, expr: Seq<u8>) -> Result<
    Seq<u8>,
    UpsertError,
> {
    match existing {
        None => Ok(fresh_file(expr)),
        Some(content) => match last_index_of(content, CLOSE_BRACE) {
            Some(at) => Ok(spliced(content, at, at, seq![COMMA] + expr)),
            None => Err(UpsertError::MissingDelimiter),
        },
    }
}

/// What replacing the entry for `name` by `expr` makes of a group file.
pub open spec fn replace_spec(existing: Option<Seq<u8>>, name: Seq<u8>, expr: Seq<u8>) -> Result<
    Seq<u8>,
    UpsertError,
> {
    match existing {
        None => Err(UpsertError::Match(MatchError::Missing)),
        Some(content) => if has_no_entry(content, name) {
            Err(UpsertError::Match(MatchError::Missing))
        } else if has_several_entries(content, name) {
            Err(UpsertError::Match(MatchError::Ambiguous))
        } else {
            let at = choose|at: int| is_entry_at(content, at, name);
            Ok(spliced(content, at, layout(content, at, name).end(), expr))
        },
    }
}

/// What the merge makes of a group file: a replacement where the package is
/// known to the package set, an insertion where it is not.
pub open spec fn upsert_spec(
    existing: Option<Seq<u8>>,
    name: Seq<u8>,
    expr: Seq<u8>,
    present: bool,
) -> Result<Seq<u8>, UpsertError> {
    if present {
        replace_spec(existing, name, expr)
    } else {
        insert_spec(existing, expr)
    }
}

/// The text of an optional file.
pub open spec fn text_of(existing: Option<&[u8]>) -> Option<Seq<u8>> {
    match existing {
        Some(content) => Some(content@),
        None => None,
    }
}

/// The text of a merge's result.
pub open spec fn outcome_of(r: Result<Vec<u8>, UpsertError>) -> Result<Seq<u8>, UpsertError> {
    match r {
        Ok(content) => Ok(content@),
        Err(e) => Err(e),
    }
}

/// Adds the entry `expr`: to a new file, wrapped in the prefix and braces; to
/// an existing one, after a comma, before its last `}`.
pub fn insert_entry(existing: Option<&[u8]>, expr: &[u8]) -> (r: Result<Vec<u8>, UpsertError>)
    ensures
        outcome_of(r) == insert_spec(text_of(existing), expr@),
{
    match existing {
        None => {
            let mut out: Vec<u8> = vec![
                108u8, 101u8, 116u8, 32u8, 109u8, 107u8, 80u8, 97u8, 99u8, 107u8, 97u8, 103u8,
                101u8, 32u8, 61u8, 32u8, 46u8, 47u8, 46u8, 46u8, 47u8, 109u8, 107u8, 80u8, 97u8,
                99u8, 107u8, 97u8, 103u8, 101u8, 46u8, 100u8, 104u8, 97u8, 108u8, 108u8, 32u8,
                105u8, 110u8, 32u8,
            ];
            out.push(OPEN_BRACE);
            append(&mut out, expr);
            out.push(CLOSE_BRACE);
            proof {
                assert(out@ =~= fresh_file(expr@));
            }
            Ok(out)
        },
        Some(content) => match rfind_byte(content, CLOSE_BRACE) {
            Some(at) => {
                let mut item: Vec<u8> = Vec::new();
                item.push(COMMA);
                append(&mut item, expr);
                proof {
                    assert(item@ =~= seq![COMMA] + expr@);
                }
                Ok(splice(content, at, at, item.as_slice()))
            },
            None => Err(UpsertError::MissingDelimiter),
        },
    }
}

/// Replaces the one entry for `name` by `expr`.
pub fn replace_entry(existing: Option<&[u8]>, name: &[u8], expr: &[u8]) -> (r: Result<
    Vec<u8>,
    UpsertError,
>)
    ensures
        outcome_of(r) == replace_spec(text_of(existing), name@, expr@),
{
    match existing {
        None => Err(UpsertError::Match(MatchError::Missing)),
        Some(content) => match locate_entry(content, name) {
            Ok(span) => {
                proof {
                    let at = choose|at: int| is_entry_at(content@, at, name@);
                    assert(at == span.start);
                }
                Ok(splice(content, span.start, span.end(), expr))
            },
            Err(e) => {
                proof {
                    if e == MatchError::Ambiguous {
                        let (a, b) = choose|a: int, b: int|
                            a != b && is_entry_at(content@, a, name@) && is_entry_at(
                                content@,
                                b,
                                name@,
                            );
                        assert(is_entry_at(content@, a, name@));
                    }
                }
                Err(UpsertError::Match(e))
            },
        },
    }
}

/// Merges the entry `expr` of the package `name` into a group file's text,
/// `existing`, or into none where the file does not exist yet. `present`
/// says whether the package set already knows the package.
pub fn upsert(existing: Option<&[u8]>, name: &[u8], expr: &[u8], present: bool) -> (r: Result<
    Vec<u8>,
    UpsertError,
>)
    ensures
        outcome_of(r) == upsert_spec(text_of(existing), name@, expr@, present),
{
    if present {
        replace_entry(existing, name, expr)
    } else {
        insert_entry(existing, expr)
    }
}

} // verus!
