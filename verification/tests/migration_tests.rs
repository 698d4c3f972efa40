use layer_manager::migration::{next_step, starts_with_skip, MigrationStep};

fn list(texts: &[&str]) -> Vec<Vec<u8>> {
    texts.iter().map(|t| t.as_bytes().to_vec()).collect()
}

#[test]
fn skip_marker_is_a_prefix() {
    assert!(starts_with_skip(b"-- SKIP"));
    assert!(starts_with_skip(b"-- SKIP this one\nALTER ROLE x"));
    assert!(!starts_with_skip(b"-- SKI"));
    assert!(!starts_with_skip(b""));
    assert!(!starts_with_skip(b" -- SKIP"));
    assert!(!starts_with_skip(b"-- skip"));
    assert!(!starts_with_skip(b"ALTER ROLE x -- SKIP"));
}

#[test]
fn steps_follow_the_list() {
    let migrations = list(&["CREATE ROLE a", "-- SKIP obsolete", "GRANT b TO a"]);
    assert_eq!(next_step(&migrations, 0), MigrationStep::Run { index: 0, id: 1 });
    assert_eq!(next_step(&migrations, 1), MigrationStep::Skip { id: 2 });
    assert_eq!(next_step(&migrations, 2), MigrationStep::Run { index: 2, id: 3 });
    assert_eq!(next_step(&migrations, 3), MigrationStep::Finished);
    assert_eq!(next_step(&migrations, usize::MAX), MigrationStep::Finished);
    assert_eq!(next_step(&list(&[]), 0), MigrationStep::Finished);
}
