use vaultcore::{user_root, FileName, FileVault, VaultStatus};

fn upload(vault: &mut FileVault, name: &[u8], content: &[u8]) {
    let status = vault.post_file_from_form(&FileName::new(name), content.to_vec());
    assert_eq!(status, VaultStatus::Success);
}

fn listing(vault: &FileVault) -> Vec<Vec<u8>> {
    let mut paths = vault.get_files();
    paths.sort();
    paths
}

#[test]
fn traversal_paths_are_rejected_before_any_change() {
    let mut vault = FileVault::new(b"alice".to_vec());
    upload(&mut vault, b"a.txt", b"data");

    assert_eq!(vault.get_file(b"../secret"), None);
    assert_eq!(vault.get_file(b"/etc/passwd"), None);
    assert_eq!(vault.delete_file(b"../a.txt").status, VaultStatus::Forbidden);
    assert_eq!(vault.delete_file(b"a/../b").status, VaultStatus::Forbidden);
    assert_eq!(vault.rename_file(b"../a.txt", b"b.txt"), VaultStatus::Forbidden);
    assert_eq!(vault.rename_file(b"a.txt", b".."), VaultStatus::Forbidden);
    assert_eq!(
        vault.move_file(b"a.txt", b"../escape.txt").status,
        VaultStatus::Forbidden
    );
    assert_eq!(
        vault.move_file(b"/abs/path", b"b.txt").status,
        VaultStatus::Forbidden
    );
    assert_eq!(vault.get_file(b"a.txt"), Some(b"data".to_vec()));
    assert_eq!(listing(&vault), vec![b"a.txt".to_vec()]);
}

#[test]
fn write_then_list_and_read_round_trip() {
    let mut vault = FileVault::new(b"alice".to_vec());
    upload(&mut vault, b"notes.txt", b"hello bytes");
    let paths = vault.get_files();
    assert_eq!(
        paths.iter().filter(|p| p.as_slice() == b"notes.txt").count(),
        1
    );
    assert_eq!(vault.get_file(b"notes.txt"), Some(b"hello bytes".to_vec()));
    // overwriting keeps a single listing entry and the newest bytes
    upload(&mut vault, b"notes.txt", b"newer");
    let paths = vault.get_files();
    assert_eq!(
        paths.iter().filter(|p| p.as_slice() == b"notes.txt").count(),
        1
    );
    assert_eq!(vault.get_file(b"notes.txt"), Some(b"newer".to_vec()));
}

#[test]
fn uploaded_names_are_sanitized() {
    let mut vault = FileVault::new(b"alice".to_vec());
    assert_eq!(sanitized(b"my file(1);rm.txt"), b"my_file_1__rm.txt".to_vec());
    upload(&mut vault, b"my file(1);rm.txt", b"x");
    assert_eq!(vault.get_file(b"my_file_1__rm.txt"), Some(b"x".to_vec()));
    // a name that collapses to a dot segment cannot be stored
    assert_eq!(
        vault.post_file_from_form(&FileName::new(b".."), b"x".to_vec()),
        VaultStatus::BadRequest
    );
    assert_eq!(
        vault.post_file_from_form(&FileName::new(b""), b"x".to_vec()),
        VaultStatus::BadRequest
    );
    // a slash cannot smuggle a nested path into an upload
    upload(&mut vault, b"../evil", b"y");
    assert_eq!(vault.get_file(b".._evil"), Some(b"y".to_vec()));
}

fn sanitized(raw: &[u8]) -> Vec<u8> {
    FileName::new(raw).name
}

#[test]
fn delete_moves_to_trash_then_removes_for_good() {
    let mut vault = FileVault::new(b"alice".to_vec());
    upload(&mut vault, b"a.txt", b"bytes");

    let first = vault.delete_file(b"a.txt");
    assert_eq!(first.status, VaultStatus::Success);
    assert_eq!(first.trashed_to, Some(b"trash/a.txt".to_vec()));
    assert_eq!(vault.get_file(b"a.txt"), None);
    assert_eq!(vault.get_file(b"trash/a.txt"), Some(b"bytes".to_vec()));

    let second = vault.delete_file(b"trash/a.txt");
    assert_eq!(second.status, VaultStatus::Success);
    assert_eq!(second.trashed_to, None);
    assert_eq!(vault.get_file(b"trash/a.txt"), None);

    // a third delete of the same path finds nothing, and is not an error
    let third = vault.delete_file(b"trash/a.txt");
    assert_eq!(third.status, VaultStatus::NoContent);
    let fourth = vault.delete_file(b"a.txt");
    assert_eq!(fourth.status, VaultStatus::NoContent);
}

#[test]
fn trash_name_collision_overwrites_the_older_entry() {
    let mut vault = FileVault::new(b"alice".to_vec());
    upload(&mut vault, b"a.txt", b"old");
    assert_eq!(vault.delete_file(b"a.txt").status, VaultStatus::Success);
    upload(&mut vault, b"a.txt", b"new");
    assert_eq!(vault.delete_file(b"a.txt").status, VaultStatus::Success);
    assert_eq!(vault.get_file(b"trash/a.txt"), Some(b"new".to_vec()));
}

#[test]
fn file_named_like_the_trash_directory_blocks_soft_deletes() {
    let mut vault = FileVault::new(b"alice".to_vec());
    upload(&mut vault, b"trash", b"not a directory");
    upload(&mut vault, b"a.txt", b"bytes");
    let outcome = vault.delete_file(b"a.txt");
    assert_eq!(outcome.status, VaultStatus::NoContent);
    assert_eq!(vault.get_file(b"a.txt"), Some(b"bytes".to_vec()));
}

#[test]
fn rename_conflict_leaves_both_files_unchanged() {
    let mut vault = FileVault::new(b"alice".to_vec());
    upload(&mut vault, b"a.txt", b"aaa");
    upload(&mut vault, b"b.txt", b"bbb");
    assert_eq!(vault.rename_file(b"a.txt", b"b.txt"), VaultStatus::Conflict);
    assert_eq!(vault.get_file(b"a.txt"), Some(b"aaa".to_vec()));
    assert_eq!(vault.get_file(b"b.txt"), Some(b"bbb".to_vec()));
    // renaming to its own name is a conflict too: the destination exists
    assert_eq!(vault.rename_file(b"a.txt", b"a.txt"), VaultStatus::Conflict);
}

#[test]
fn rename_is_a_sibling_operation() {
    let mut vault = FileVault::new(b"alice".to_vec());
    upload(&mut vault, b"draft.txt", b"v1");
    assert_eq!(vault.rename_file(b"draft.txt", b"final.txt"), VaultStatus::Success);
    assert_eq!(vault.get_file(b"draft.txt"), None);
    assert_eq!(vault.get_file(b"final.txt"), Some(b"v1".to_vec()));
    assert_eq!(vault.rename_file(b"missing.txt", b"x"), VaultStatus::NoContent);
}

#[test]
fn move_creates_destination_directories_and_prunes_source() {
    let mut vault = FileVault::new(b"alice".to_vec());
    upload(&mut vault, b"file.txt", b"deep");
    let moved = vault.move_file(b"file.txt", b"dir/sub/file.txt");
    assert_eq!(moved.status, VaultStatus::Success);
    assert_eq!(
        moved.made_dirs,
        vec![b"dir".to_vec(), b"dir/sub".to_vec()]
    );
    assert_eq!(vault.get_file(b"dir/sub/file.txt"), Some(b"deep".to_vec()));

    // deleting the only file under dir/sub prunes dir/sub and dir
    let deleted = vault.delete_file(b"dir/sub/file.txt");
    assert_eq!(deleted.status, VaultStatus::Success);
    assert_eq!(deleted.trashed_to, Some(b"trash/file.txt".to_vec()));
    assert_eq!(
        deleted.pruned,
        vec![b"dir/sub".to_vec(), b"dir".to_vec()]
    );
    assert_eq!(listing(&vault), vec![b"trash/file.txt".to_vec()]);
}

#[test]
fn move_does_not_prune_a_directory_that_still_has_files() {
    let mut vault = FileVault::new(b"alice".to_vec());
    upload(&mut vault, b"one.txt", b"1");
    upload(&mut vault, b"two.txt", b"2");
    assert_eq!(vault.move_file(b"one.txt", b"d/one.txt").status, VaultStatus::Success);
    assert_eq!(vault.move_file(b"two.txt", b"d/two.txt").status, VaultStatus::Success);
    let moved = vault.move_file(b"d/one.txt", b"elsewhere.txt");
    assert_eq!(moved.status, VaultStatus::Success);
    assert_eq!(moved.pruned, Vec::<Vec<u8>>::new());
    assert_eq!(vault.get_file(b"d/two.txt"), Some(b"2".to_vec()));
}

#[test]
fn move_overwrites_an_existing_destination_file() {
    let mut vault = FileVault::new(b"alice".to_vec());
    upload(&mut vault, b"a.txt", b"aaa");
    upload(&mut vault, b"b.txt", b"bbb");
    assert_eq!(vault.move_file(b"a.txt", b"b.txt").status, VaultStatus::Success);
    assert_eq!(vault.get_file(b"a.txt"), None);
    assert_eq!(vault.get_file(b"b.txt"), Some(b"aaa".to_vec()));
}

#[test]
fn move_fails_when_a_file_blocks_a_destination_directory() {
    let mut vault = FileVault::new(b"alice".to_vec());
    upload(&mut vault, b"blocker", b"x");
    upload(&mut vault, b"a.txt", b"y");
    let outcome = vault.move_file(b"a.txt", b"blocker/a.txt");
    assert_eq!(outcome.status, VaultStatus::ExpectationFailed);
    assert_eq!(vault.get_file(b"a.txt"), Some(b"y".to_vec()));
    assert_eq!(vault.get_file(b"blocker"), Some(b"x".to_vec()));
}

#[test]
fn missing_source_reports_no_content() {
    let mut vault = FileVault::new(b"alice".to_vec());
    assert_eq!(vault.move_file(b"ghost.txt", b"d/x.txt").status, VaultStatus::NoContent);
    assert_eq!(vault.delete_file(b"ghost.txt").status, VaultStatus::NoContent);
    assert_eq!(vault.get_file(b"ghost.txt"), None);
}

#[test]
fn alice_uploads_renames_and_trashes_her_report() {
    assert_eq!(user_root(b"/store", b"alice"), b"/store/alice".to_vec());

    let mut vault = FileVault::new(b"alice".to_vec());
    upload(&mut vault, b"report.pdf", b"%PDF-1.4");
    assert_eq!(listing(&vault), vec![b"report.pdf".to_vec()]);

    assert_eq!(vault.rename_file(b"report.pdf", b"final.pdf"), VaultStatus::Success);
    assert_eq!(listing(&vault), vec![b"final.pdf".to_vec()]);

    let deleted = vault.delete_file(b"final.pdf");
    assert_eq!(deleted.status, VaultStatus::Success);
    assert_eq!(deleted.trashed_to, Some(b"trash/final.pdf".to_vec()));
    // the walk covers the whole tree, so the trashed file still shows up
    assert_eq!(listing(&vault), vec![b"trash/final.pdf".to_vec()]);
    assert_eq!(vault.get_file(b"trash/final.pdf"), Some(b"%PDF-1.4".to_vec()));
}

#[test]
fn vaults_of_different_users_are_independent() {
    let mut alice = FileVault::new(b"alice".to_vec());
    let mut bob = FileVault::new(b"bob".to_vec());
    upload(&mut alice, b"a.txt", b"alice data");
    upload(&mut bob, b"b.txt", b"bob data");
    assert_eq!(alice.get_file(b"b.txt"), None);
    assert_eq!(bob.get_file(b"a.txt"), None);
    assert_eq!(alice.delete_file(b"a.txt").status, VaultStatus::Success);
    assert_eq!(bob.get_file(b"b.txt"), Some(b"bob data".to_vec()));
}
