use spac_update::deps::{render_dependencies, strip_dependency_prefix};
use spac_update::entry::{
    assign_bytes, keyword_bytes, locate_entry, parse_entry, read_entry, MatchError,
};
use spac_update::expr::{
    is_valid_field, is_valid_list, is_valid_name, normalize_version, prepare_pkg_expr, PkgParams,
};
use spac_update::text::{
    append, is_byte_at, label_byte, rfind_byte, skip_run, splice, starts_at, ByteClass,
};

#[test]
fn literals_spell_the_template() {
    assert_eq!(keyword_bytes(), b"mkPackage".to_vec());
    assert_eq!(assign_bytes(), b" =".to_vec());
}

#[test]
fn expression_has_the_canonical_layout() {
    let params = PkgParams {
        name: b"effect".to_vec(),
        dependencies: b"[\n  \"prelude\"\n]".to_vec(),
        url: b"https://github.com/purescript/purescript-effect".to_vec(),
        version: b"2.0.0".to_vec(),
    };
    let expr = prepare_pkg_expr(&params);
    assert_eq!(
        expr.0,
        b"effect = mkPackage\n[\n  \"prelude\"\n]\n\"https://github.com/purescript/purescript-effect.git\"\n\"v2.0.0\""
            .to_vec()
    );
}

#[test]
fn expression_adds_exactly_one_v() {
    for version in ["6.0.1", "v6.0.1", "vv6.0.1"] {
        let params = PkgParams {
            name: b"a".to_vec(),
            dependencies: b"[]".to_vec(),
            url: b"u".to_vec(),
            version: version.as_bytes().to_vec(),
        };
        assert_eq!(prepare_pkg_expr(&params).0, b"a = mkPackage\n[]\n\"u.git\"\n\"v6.0.1\"".to_vec());
    }
}

#[test]
fn normalize_version_strips_leading_v_only() {
    assert_eq!(normalize_version(b"v6.0.1"), b"6.0.1".to_vec());
    assert_eq!(normalize_version(b"6.0.1"), b"6.0.1".to_vec());
    assert_eq!(normalize_version(b"vv1"), b"1".to_vec());
    assert_eq!(normalize_version(b"1.0-dev"), b"1.0-dev".to_vec());
    assert_eq!(normalize_version(b"v"), b"".to_vec());
    assert_eq!(normalize_version(b""), b"".to_vec());
}

#[test]
fn built_expression_reads_back() {
    let params = PkgParams {
        name: b"prelude".to_vec(),
        dependencies: b"[ \"a\", \"b\" ]".to_vec(),
        url: b"https://example.com/purescript/purescript-prelude".to_vec(),
        version: b"v6.0.1".to_vec(),
    };
    assert!(params.is_valid());
    let expr = prepare_pkg_expr(&params).0;
    let span = parse_entry(&expr, 0, b"prelude").unwrap();
    assert_eq!(span.start, 0);
    assert_eq!(span.end(), expr.len());
    assert_eq!(&expr[span.start..span.start + 7], b"prelude");
    assert_eq!(&expr[span.keyword..span.keyword + 9], b"mkPackage");
    assert_eq!(&expr[span.list_open..span.list_close + 1], b"[ \"a\", \"b\" ]");
    assert_eq!(
        &expr[span.url_open + 1..span.url_close],
        b"https://example.com/purescript/purescript-prelude.git"
    );
    assert_eq!(&expr[span.version_open + 1..span.version_close], b"v6.0.1");
}

#[test]
fn parse_entry_rejects_what_is_not_an_entry() {
    let text = b"{foo = mkPackage [] \"u\" \"v1\"}";
    assert!(parse_entry(text, 1, b"foo").is_some());
    assert!(parse_entry(text, 0, b"foo").is_none());
    assert!(parse_entry(text, 2, b"oo").is_none());
    assert!(parse_entry(text, 1, b"fo").is_none());
    assert!(parse_entry(text, 1, b"").is_none());
    assert!(parse_entry(text, 100, b"foo").is_none());
    assert!(parse_entry(b"foo = mkPackage [] \"u v\" \"v1\"", 0, b"foo").is_none());
    assert!(parse_entry(b"foo = mkPackage [] \"u\" x \"v1\"", 0, b"foo").is_none());
    assert!(parse_entry(b"foo = mkPackage [] \"u\" \"v1", 0, b"foo").is_none());
    assert!(parse_entry(b"foo = mkPackage [ \"u\" \"v1\"", 0, b"foo").is_none());
    assert!(parse_entry(b"foo = mkpackage [] \"u\" \"v1\"", 0, b"foo").is_none());
    assert!(parse_entry(b"foo= mkPackage [] \"u\" \"v1\"", 0, b"foo").is_none());
    assert!(parse_entry(b"foo =mkPackage[]\"u\"\"v1\"", 0, b"foo").is_some());
}

#[test]
fn locate_entry_counts_starts() {
    let one = b"{a = mkPackage [] \"u\" \"v1\", b = mkPackage [] \"u\" \"v1\"}";
    assert_eq!(locate_entry(one, b"b").map(|s| s.start), Ok(28));
    assert_eq!(locate_entry(one, b"c").map(|s| s.start), Err(MatchError::Missing));
    let nested = b"a = mkPackage [ a = mkPackage [] \"u\" \"v1\"";
    assert_eq!(locate_entry(nested, b"a").map(|s| s.start), Err(MatchError::Ambiguous));
}

#[test]
fn validity_of_the_parts() {
    assert!(is_valid_name(b"foo-bar_1"));
    assert!(!is_valid_name(b""));
    assert!(!is_valid_name(b"foo bar"));
    assert!(is_valid_list(b"[]"));
    assert!(is_valid_list(b"[ \"a\" ]"));
    assert!(!is_valid_list(b"[ ] ]"));
    assert!(!is_valid_list(b"["));
    assert!(!is_valid_list(b"x]"));
    assert!(!is_valid_list(b"[]x"));
    assert!(is_valid_field(b"https://x.y/z"));
    assert!(is_valid_field(b""));
    assert!(!is_valid_field(b"a b"));
    assert!(!is_valid_field(b"a\"b"));
    let bad = PkgParams {
        name: b"a".to_vec(),
        dependencies: b"[]".to_vec(),
        url: b"u".to_vec(),
        version: b"v1 beta".to_vec(),
    };
    assert!(!bad.is_valid());
}

#[test]
fn scanning_primitives() {
    assert_eq!(skip_run(b"  \t\nx ", 0, ByteClass::Space), 4);
    assert_eq!(skip_run(b"abc", 3, ByteClass::Space), 3);
    assert_eq!(skip_run(b"ab]c", 0, ByteClass::ListBody), 2);
    assert_eq!(skip_run(b"ab\"c", 0, ByteClass::Unquoted), 2);
    assert_eq!(skip_run(b"ab c", 0, ByteClass::Field), 2);
    assert_eq!(skip_run(b"vvx", 0, ByteClass::Only(b'v')), 2);
    assert!(ByteClass::Space.has(b'\r'));
    assert!(!ByteClass::Space.has(b'a'));
    assert!(starts_at(b"hello", 1, b"ell"));
    assert!(!starts_at(b"hello", 3, b"low"));
    assert!(starts_at(b"hello", 5, b""));
    assert!(!starts_at(b"hello", 6, b""));
    assert!(is_byte_at(b"ab", 1, b'b'));
    assert!(!is_byte_at(b"ab", 2, b'b'));
    assert_eq!(rfind_byte(b"a}b}c", b'}'), Some(3));
    assert_eq!(rfind_byte(b"abc", b'}'), None);
    assert_eq!(splice(b"hello", 1, 3, b"EY"), b"hEYlo".to_vec());
    assert_eq!(splice(b"hello", 5, 5, b"!"), b"hello!".to_vec());
    let mut v = b"ab".to_vec();
    append(&mut v, b"cd");
    assert_eq!(v, b"abcd".to_vec());
    assert!(label_byte(b'-') && label_byte(b'/') && label_byte(b'_') && label_byte(b'Z'));
    assert!(!label_byte(b' ') && !label_byte(b'{') && !label_byte(b','));
}

#[test]
fn read_entry_recovers_the_fields() {
    let params = PkgParams {
        name: b"prelude".to_vec(),
        dependencies: b"[]".to_vec(),
        url: b"https://example.com/purescript/purescript-prelude".to_vec(),
        version: b"v6.0.1".to_vec(),
    };
    let expr = prepare_pkg_expr(&params).0;
    let fields = read_entry(&expr, 0, b"prelude").unwrap();
    assert_eq!(fields.dependencies, b"[]".to_vec());
    assert_eq!(fields.url, b"https://example.com/purescript/purescript-prelude.git".to_vec());
    assert_eq!(fields.version, b"v6.0.1".to_vec());
    assert_eq!(read_entry(&expr, 0, b"prelud"), None);
    assert_eq!(read_entry(&expr, 1, b"relude"), None);
}

#[test]
fn upstream_prefix_is_stripped_where_it_stands() {
    assert_eq!(strip_dependency_prefix(b"purescript-prelude"), b"prelude".to_vec());
    assert_eq!(strip_dependency_prefix(b"purescript-"), b"".to_vec());
    assert_eq!(strip_dependency_prefix(b"prelude"), b"prelude".to_vec());
    assert_eq!(strip_dependency_prefix(b"purescript"), b"purescript".to_vec());
    assert_eq!(strip_dependency_prefix(b"a-purescript-b"), b"a-purescript-b".to_vec());
}

#[test]
fn dependency_list_is_rendered_in_order() {
    assert_eq!(render_dependencies(&vec![]), b"[]".to_vec());
    assert_eq!(render_dependencies(&vec![b"prelude".to_vec()]), b"[\n  \"prelude\"\n]".to_vec());
    assert_eq!(
        render_dependencies(&vec![b"prelude".to_vec(), b"effect".to_vec(), b"arrays".to_vec()]),
        b"[\n  \"prelude\",\n  \"effect\",\n  \"arrays\"\n]".to_vec()
    );
}

#[test]
fn rendered_dependency_list_reads_back() {
    let names = vec![strip_dependency_prefix(b"purescript-prelude"), b"effect".to_vec()];
    let params = PkgParams {
        name: b"console".to_vec(),
        dependencies: render_dependencies(&names),
        url: b"https://github.com/purescript/purescript-console".to_vec(),
        version: b"4.1.0".to_vec(),
    };
    assert!(params.is_valid());
    let expr = prepare_pkg_expr(&params).0;
    let fields = read_entry(&expr, 0, b"console").unwrap();
    assert_eq!(fields.dependencies, b"[\n  \"prelude\",\n  \"effect\"\n]".to_vec());
    assert_eq!(fields.version, b"v4.1.0".to_vec());
}
