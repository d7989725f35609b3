use spac_update::entry::{locate_entry, MatchError};
use spac_update::expr::{prepare_pkg_expr, PkgParams};
use spac_update::upsert::{insert_entry, replace_entry, upsert, UpsertError};

const PREFIX: &[u8] = b"let mkPackage = ./../mkPackage.dhall in ";

fn prelude(version: &str) -> PkgParams {
    PkgParams {
        name: b"prelude".to_vec(),
        dependencies: b"[]".to_vec(),
        url: b"https://example.com/purescript/purescript-prelude".to_vec(),
        version: version.as_bytes().to_vec(),
    }
}

fn join(parts: &[&[u8]]) -> Vec<u8> {
    let mut out = Vec::new();
    for part in parts {
        out.extend_from_slice(part);
    }
    out
}

const EFFECT: &[u8] =
    b"effect = mkPackage\n[ \"prelude\" ]\n\"https://example.com/purescript/purescript-effect.git\"\n\"v2.0.0\"";

const PRELUDE_5: &[u8] =
    b"prelude = mkPackage\n[]\n\"https://example.com/purescript/purescript-prelude.git\"\n\"v5.0.0\"";

const PRELUDE_6: &[u8] =
    b"prelude = mkPackage\n[]\n\"https://example.com/purescript/purescript-prelude.git\"\n\"v6.0.1\"";

#[test]
fn new_file_holds_the_wrapper_and_one_entry() {
    let expr = prepare_pkg_expr(&prelude("v6.0.1"));
    let out = upsert(None, b"prelude", &expr.0, false).unwrap();
    assert_eq!(out, join(&[PREFIX, b"{", PRELUDE_6, b"}"]));
}

#[test]
fn new_file_has_nothing_before_or_after_the_record() {
    let out = insert_entry(None, b"x").unwrap();
    assert_eq!(out, b"let mkPackage = ./../mkPackage.dhall in {x}".to_vec());
}

#[test]
fn known_package_without_a_file_is_a_match_error() {
    let expr = prepare_pkg_expr(&prelude("6.0.1"));
    let out = upsert(None, b"prelude", &expr.0, true);
    assert_eq!(out, Err(UpsertError::Match(MatchError::Missing)));
}

#[test]
fn known_package_missing_from_the_file_is_a_match_error() {
    let file = join(&[PREFIX, b"{", EFFECT, b"}"]);
    let out = upsert(Some(&file), b"prelude", PRELUDE_6, true);
    assert_eq!(out, Err(UpsertError::Match(MatchError::Missing)));
}

#[test]
fn two_entries_for_one_package_are_ambiguous() {
    let file = join(&[PREFIX, b"{", PRELUDE_5, b",", EFFECT, b",", PRELUDE_5, b"}"]);
    let out = upsert(Some(&file), b"prelude", PRELUDE_6, true);
    assert_eq!(out, Err(UpsertError::Match(MatchError::Ambiguous)));
}

#[test]
fn replacing_changes_the_version_and_leaves_the_other_entry() {
    let file = join(&[PREFIX, b"{ ", EFFECT, b"\n, ", PRELUDE_5, b"\n}\n"]);
    let expr = prepare_pkg_expr(&prelude("v6.0.1"));
    let out = upsert(Some(&file), b"prelude", &expr.0, true).unwrap();
    assert_eq!(out, join(&[PREFIX, b"{ ", EFFECT, b"\n, ", PRELUDE_6, b"\n}\n"]));
}

#[test]
fn replacing_keeps_every_byte_outside_the_entry() {
    let before = join(&[PREFIX, b"{ ", EFFECT, b"\n, "]);
    let after = b"\n, console = mkPackage [] \"u\" \"v1\"\n}\n";
    let file = join(&[&before, PRELUDE_5, after]);
    let out = replace_entry(Some(&file), b"prelude", b"NEW").unwrap();
    assert_eq!(&out[..before.len()], &before[..]);
    assert_eq!(&out[before.len()..before.len() + 3], b"NEW");
    assert_eq!(&out[before.len() + 3..], &after[..]);
}

#[test]
fn replacing_the_first_entry_of_a_file() {
    let file = join(&[PREFIX, b"{", PRELUDE_5, b"}"]);
    let out = upsert(Some(&file), b"prelude", PRELUDE_6, true).unwrap();
    assert_eq!(out, join(&[PREFIX, b"{", PRELUDE_6, b"}"]));
}

#[test]
fn a_name_does_not_match_inside_a_longer_one() {
    let foobar = b"foobar = mkPackage [] \"u\" \"v1\"";
    let barfoo = b"bar-foo = mkPackage [] \"u\" \"v1\"";
    let file = join(&[PREFIX, b"{", foobar, b",", barfoo, b"}"]);
    assert_eq!(
        upsert(Some(&file), b"foo", b"X", true),
        Err(UpsertError::Match(MatchError::Missing))
    );
    assert_eq!(
        upsert(Some(&file), b"bar", b"X", true),
        Err(UpsertError::Match(MatchError::Missing))
    );
    assert_eq!(
        upsert(Some(&file), b"foobar", b"X", true).unwrap(),
        join(&[PREFIX, b"{X,", barfoo, b"}"])
    );
}

#[test]
fn an_empty_name_matches_nothing() {
    let file = join(&[PREFIX, b"{", PRELUDE_5, b"}"]);
    assert_eq!(
        upsert(Some(&file), b"", b"X", true),
        Err(UpsertError::Match(MatchError::Missing))
    );
}

#[test]
fn inserting_goes_before_the_last_brace() {
    let file = join(&[PREFIX, b"{", EFFECT, b"}\n"]);
    let out = upsert(Some(&file), b"prelude", PRELUDE_6, false).unwrap();
    assert_eq!(out, join(&[PREFIX, b"{", EFFECT, b",", PRELUDE_6, b"}\n"]));
}

#[test]
fn inserting_picks_the_last_of_several_braces() {
    let out = insert_entry(Some(b"{a}{b} "), b"c").unwrap();
    assert_eq!(out, b"{a}{b,c} ".to_vec());
}

#[test]
fn inserting_without_a_brace_fails() {
    assert_eq!(insert_entry(Some(b"no record here"), b"c"), Err(UpsertError::MissingDelimiter));
    assert_eq!(insert_entry(Some(b""), b"c"), Err(UpsertError::MissingDelimiter));
}

#[test]
fn a_second_sync_changes_nothing() {
    let expr = prepare_pkg_expr(&prelude("v6.0.1"));
    let first = upsert(None, b"prelude", &expr.0, false).unwrap();
    let second = upsert(Some(&first), b"prelude", &expr.0, true).unwrap();
    assert_eq!(second, first);

    let file = join(&[PREFIX, b"{", EFFECT, b",", PRELUDE_5, b"}"]);
    let first = upsert(Some(&file), b"prelude", &expr.0, true).unwrap();
    let second = upsert(Some(&first), b"prelude", &expr.0, true).unwrap();
    assert_eq!(second, first);

    let file = join(&[PREFIX, b"{", EFFECT, b"}"]);
    let first = upsert(Some(&file), b"prelude", &expr.0, false).unwrap();
    let second = upsert(Some(&first), b"prelude", &expr.0, true).unwrap();
    assert_eq!(second, first);
}

#[test]
fn a_second_sync_may_find_the_entry_twice() {
    let params = PkgParams {
        name: b"foo".to_vec(),
        dependencies: b"[]".to_vec(),
        url: b"u".to_vec(),
        version: b"1".to_vec(),
    };
    let expr = prepare_pkg_expr(&params);
    let file = b"foo = mkPackage [] foo = mkPackage [\"x\"] \"a\" \"b\"";
    let first = upsert(Some(file), b"foo", &expr.0, true).unwrap();
    assert_eq!(first, b"foo = mkPackage [] foo = mkPackage\n[]\n\"u.git\"\n\"v1\"".to_vec());
    assert_eq!(
        upsert(Some(&first), b"foo", &expr.0, true),
        Err(UpsertError::Match(MatchError::Ambiguous))
    );
}

#[test]
fn a_new_file_holds_its_entry_once() {
    let expr = prepare_pkg_expr(&prelude("v6.0.1"));
    let file = upsert(None, b"prelude", &expr.0, false).unwrap();
    let span = locate_entry(&file, b"prelude").unwrap();
    assert_eq!(span.start, PREFIX.len() + 1);
    assert_eq!(span.end(), file.len() - 1);
    assert_eq!(locate_entry(&file, b"mkPackage").map(|s| s.start), Err(MatchError::Missing));
    assert_eq!(locate_entry(&file, b"let").map(|s| s.start), Err(MatchError::Missing));
    assert_eq!(locate_entry(&file, b"relude").map(|s| s.start), Err(MatchError::Missing));
}

#[test]
fn entries_around_a_replacement_are_still_found() {
    let file = join(&[PREFIX, b"{ ", EFFECT, b"\n, ", PRELUDE_5, b"\n, ", b"console = mkPackage [] \"u\" \"v1\"", b"\n}\n"]);
    let effect = locate_entry(&file, b"effect").unwrap();
    let console = locate_entry(&file, b"console").unwrap();
    let out = upsert(Some(&file), b"prelude", PRELUDE_6, true).unwrap();
    let grown = PRELUDE_6.len() - PRELUDE_5.len();
    assert_eq!(locate_entry(&out, b"effect").unwrap().start, effect.start);
    assert_eq!(locate_entry(&out, b"console").unwrap().start, console.start + grown);
    assert_eq!(
        &out[console.start + grown..console.end() + grown],
        &file[console.start..console.end()]
    );
}

#[test]
fn files_built_by_the_merge_hold_each_package_once() {
    let names: [&[u8]; 4] = [b"prelude", b"effect", b"console", b"foo-bar"];
    let mut file: Option<Vec<u8>> = None;
    for name in names {
        let params = PkgParams {
            name: name.to_vec(),
            dependencies: b"[\n  \"prelude\"\n]".to_vec(),
            url: join(&[b"https://github.com/purescript/purescript-", name]),
            version: b"v1.0.0".to_vec(),
        };
        assert!(params.is_valid());
        let expr = prepare_pkg_expr(&params).0;
        file = Some(upsert(file.as_deref(), name, &expr, false).unwrap());
    }
    let file = file.unwrap();
    for name in names {
        assert!(locate_entry(&file, name).is_ok());
    }
    // a new version of one package, twice
    let params = PkgParams {
        name: b"effect".to_vec(),
        dependencies: b"[]".to_vec(),
        url: b"https://github.com/purescript/purescript-effect".to_vec(),
        version: b"v2.0.0".to_vec(),
    };
    let expr = prepare_pkg_expr(&params).0;
    let once = upsert(Some(&file), b"effect", &expr, true).unwrap();
    let twice = upsert(Some(&once), b"effect", &expr, true).unwrap();
    assert_ne!(once, file);
    assert_eq!(twice, once);
    for name in names {
        assert!(locate_entry(&once, name).is_ok());
    }
}
