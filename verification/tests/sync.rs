use spac_update::entry::MatchError;
use spac_update::expr::PkgParams;
use spac_update::group::{group_file_path, resolve_group, split_segments, PathDecompositionError};
use spac_update::sync::{apply_queue, from_bower, SyncReport};
use spac_update::upsert::UpsertError;

fn prelude() -> PkgParams {
    PkgParams {
        name: b"prelude".to_vec(),
        dependencies: b"[]".to_vec(),
        url: b"https://example.com/purescript/purescript-prelude".to_vec(),
        version: b"v6.0.1".to_vec(),
    }
}

#[test]
fn group_is_the_owner_segment() {
    assert_eq!(
        resolve_group(b"https://example.com/purescript/purescript-prelude"),
        Ok(b"purescript".to_vec())
    );
    assert_eq!(resolve_group(b"a/b/c/d/e"), Ok(b"d".to_vec()));
    assert_eq!(resolve_group(b"////"), Ok(b"".to_vec()));
}

#[test]
fn other_segment_counts_are_refused() {
    assert_eq!(
        resolve_group(b"https://example.com/purescript"),
        Err(PathDecompositionError { segments: 4 })
    );
    assert_eq!(
        resolve_group(b"https://example.com/purescript/purescript-prelude/"),
        Err(PathDecompositionError { segments: 6 })
    );
    assert_eq!(resolve_group(b""), Err(PathDecompositionError { segments: 1 }));
}

#[test]
fn segments_are_split_at_every_slash() {
    let expected: Vec<Vec<u8>> =
        vec![b"https:".to_vec(), b"".to_vec(), b"h".to_vec(), b"o".to_vec(), b"".to_vec()];
    assert_eq!(split_segments(b"https://h/o/"), expected);
    assert_eq!(split_segments(b"abc"), vec![b"abc".to_vec()]);
}

#[test]
fn group_file_lies_under_the_groups_directory() {
    assert_eq!(
        group_file_path(b"https://example.com/purescript/purescript-prelude"),
        Ok(b"src/groups/purescript.dhall".to_vec())
    );
    assert_eq!(group_file_path(b"nowhere"), Err(PathDecompositionError { segments: 1 }));
}

#[test]
fn sync_of_a_new_package_into_a_new_file() {
    match from_bower(&prelude(), None, false) {
        SyncReport::Inserted { path, content } => {
            assert_eq!(path, b"src/groups/purescript.dhall".to_vec());
            assert_eq!(
                content,
                b"let mkPackage = ./../mkPackage.dhall in {prelude = mkPackage\n[]\n\"https://example.com/purescript/purescript-prelude.git\"\n\"v6.0.1\"}"
                    .to_vec()
            );
        }
        other => panic!("unexpected report {:?}", other),
    }
}

#[test]
fn sync_of_a_known_package_updates_its_entry() {
    let file = b"let mkPackage = ./../mkPackage.dhall in { effect = mkPackage [] \"https://example.com/purescript/purescript-effect.git\" \"v2.0.0\", prelude = mkPackage [] \"https://example.com/purescript/purescript-prelude.git\" \"v5.0.0\" }";
    match from_bower(&prelude(), Some(file), true) {
        SyncReport::Updated { path, content } => {
            assert_eq!(path, b"src/groups/purescript.dhall".to_vec());
            assert_eq!(
                content,
                b"let mkPackage = ./../mkPackage.dhall in { effect = mkPackage [] \"https://example.com/purescript/purescript-effect.git\" \"v2.0.0\", prelude = mkPackage\n[]\n\"https://example.com/purescript/purescript-prelude.git\"\n\"v6.0.1\" }"
                    .to_vec()
            );
        }
        other => panic!("unexpected report {:?}", other),
    }
}

#[test]
fn sync_skips_a_package_without_a_group() {
    let mut params = prelude();
    params.url = b"https://example.com/prelude".to_vec();
    assert!(matches!(
        from_bower(&params, None, false),
        SyncReport::Skipped(PathDecompositionError { segments: 4 })
    ));
    assert!(matches!(
        from_bower(&params, Some(b"{}"), true),
        SyncReport::Skipped(PathDecompositionError { segments: 4 })
    ));
}

#[test]
fn sync_fails_where_the_entry_cannot_be_singled_out() {
    assert!(matches!(
        from_bower(&prelude(), Some(b"let mkPackage = ./../mkPackage.dhall in {}"), true),
        SyncReport::Failed(UpsertError::Match(MatchError::Missing))
    ));
    assert!(matches!(
        from_bower(&prelude(), None, true),
        SyncReport::Failed(UpsertError::Match(MatchError::Missing))
    ));
    assert!(matches!(
        from_bower(&prelude(), Some(b"garbage"), false),
        SyncReport::Failed(UpsertError::MissingDelimiter)
    ));
}

#[test]
fn only_primed_packages_are_applied_in_order() {
    assert_eq!(apply_queue(&[true, false, true, true, false]), vec![0, 2, 3]);
    assert_eq!(apply_queue(&[false, false]), Vec::<usize>::new());
    assert_eq!(apply_queue(&[]), Vec::<usize>::new());
}
