use gust::branch::Branch;
use gust::branching::BranchOutcome;
use gust::checkout::{CheckoutMode, WorkAction};
use gust::commit::{Commit, CommitMetadata, CommitStore};
use gust::content_store::ContentStore;
use gust::error::GustError;
use gust::head::Head;
use gust::ignore::IgnoredFile;
use gust::paths::{AbsolutePath, RootPath, RootRelativePath};
use gust::root::Root;
use gust::staging_area::{ChangeType, StagingArea};
use gust::tracked_file::Metadata;
use gust::worktree::WorkingTree;

fn root_path() -> RootPath {
    RootPath::from_string("/repo".to_string())
}

fn rel(p: &str) -> RootRelativePath {
    RootRelativePath::from_string(p.to_string())
}

fn fresh_root() -> Root {
    Root::new(
        root_path(),
        Head::new_default(),
        StagingArea::new(),
        Vec::new(),
        CommitStore::new(),
        ContentStore::new(),
    )
}

fn add_all(root: &mut Root, working: &WorkingTree) {
    let paths = vec![AbsolutePath::from_absolute_path("/repo")];
    root.add(&paths, working).expect("add failed");
}

#[test]
fn test_content_store_round_trip() {
    let mut store = ContentStore::new();
    let content: Vec<u8> = b"hello world".to_vec();
    let digest = store.put(&content);
    // the digest is the real SHA-256 of the bytes, not anything else
    assert_eq!(
        digest,
        "b94d27b9934d3e08a52e52d7da7dabfac484efe37a5380ee9088f7ace2efcde9"
    );
    let read = store.get(digest.as_str()).expect("blob must be stored");
    assert_eq!(read, &content);
    // storing the same bytes again changes nothing
    let count_before = store.count();
    let digest2 = store.put(&content);
    assert_eq!(digest, digest2);
    assert_eq!(store.count(), count_before);
}

#[test]
fn test_content_store_get_missing() {
    let store = ContentStore::new();
    let err = store.get("no-such-digest").unwrap_err();
    assert_eq!(
        err.message(),
        "Project parsing error: Blob not found: no-such-digest"
    );
}

#[test]
fn test_commit_id_content_addressing() {
    let mut blobs = ContentStore::new();
    let make = |blobs: &mut ContentStore, message: &str, content: &[u8]| -> Commit {
        let mut tree = gust::pathmap::PathMap::new();
        let tf = gust::tracked_file::TrackedFile::new(
            &content.to_vec(),
            Metadata::new(content.len() as u64, 7, 9),
            blobs,
        );
        tree.insert(rel("a.txt"), tf);
        Commit::new(tree, CommitMetadata::new(message.to_string()))
    };
    let c1 = make(&mut blobs, "first", b"x");
    let c2 = make(&mut blobs, "first", b"x");
    let c3 = make(&mut blobs, "second", b"x");
    let c4 = make(&mut blobs, "first", b"y");
    assert_eq!(c1.compute_id(), c2.compute_id());
    assert_ne!(c1.encode(), c3.encode());
    assert_ne!(c1.encode(), c4.encode());
    assert_ne!(c1.compute_id(), c3.compute_id());
    assert_ne!(c1.compute_id(), c4.compute_id());
}

#[test]
fn test_add_and_status() {
    let mut root = fresh_root();
    let mut working = WorkingTree::new();
    working.insert(rel("test.txt"), Metadata::new(11, 1, 1), b"hello world".to_vec());
    add_all(&mut root, &working);
    let report = root.status(&working).expect("status failed");
    assert!(report.contains("+ test.txt"), "status should show added file: {}", report);
}

#[test]
fn test_commit_workflow() {
    let mut root = fresh_root();
    let mut working = WorkingTree::new();
    working.insert(rel("file1.txt"), Metadata::new(8, 1, 1), b"content1".to_vec());
    add_all(&mut root, &working);
    root.commit("Initial commit".to_string(), &working).expect("commit failed");
    let log = root.info();
    assert!(log.contains("Initial commit"), "log should show commit message: {}", log);
}

#[test]
fn test_status_clean_after_commit() {
    let mut root = fresh_root();
    let mut working = WorkingTree::new();
    working.insert(rel("a.txt"), Metadata::new(1, 5, 5), b"x".to_vec());
    working.insert(rel("b.txt"), Metadata::new(1, 6, 6), b"y".to_vec());
    add_all(&mut root, &working);
    root.commit("first".to_string(), &working).expect("commit failed");
    let report = root.status(&working).expect("status failed");
    assert_eq!(
        report,
        "Changes to be committed:\n  No changes\n\nUnstaged changes:\n  No changes\n"
    );
}

#[test]
fn test_remove_file_detection() {
    let mut root = fresh_root();
    let mut working = WorkingTree::new();
    working.insert(rel("file1.txt"), Metadata::new(7, 1, 1), b"content".to_vec());
    add_all(&mut root, &working);
    root.commit("Add file".to_string(), &working).expect("commit failed");
    // the file vanishes from disk
    let empty_working = WorkingTree::new();
    let report = root.status(&empty_working).expect("status failed");
    assert!(report.contains("- file1.txt"), "status should show file as removed: {}", report);
}

#[test]
fn test_unstage_with_rm() {
    let mut root = fresh_root();
    let mut working = WorkingTree::new();
    working.insert(rel("a.txt"), Metadata::new(1, 1, 1), b"x".to_vec());
    add_all(&mut root, &working);
    assert!(root.get_staging_area().contains(&rel("a.txt")));
    let paths = vec![(AbsolutePath::from_absolute_path("/repo/a.txt"), false)];
    root.remove(&paths, &working).expect("rm failed");
    assert!(!root.get_staging_area().contains(&rel("a.txt")));
    // unstaging an unrelated path is a no-op, not an error
    let paths2 = vec![(AbsolutePath::from_absolute_path("/repo/other.txt"), false)];
    root.remove(&paths2, &working).expect("rm of unstaged path failed");
}

#[test]
fn test_branch_creation() {
    let mut root = fresh_root();
    let mut working = WorkingTree::new();
    working.insert(rel("file.txt"), Metadata::new(7, 1, 1), b"content".to_vec());
    add_all(&mut root, &working);
    root.commit("Initial".to_string(), &working).expect("commit failed");
    let branch = root.create_branch("feature");
    assert_eq!(branch.name, "feature");
    assert_eq!(branch.log_len(), 1);
    let tip = root.get_head().get_tree().expect("main should have a commit");
    assert_eq!(branch.log_at(0).commit_id, tip.commit_id);
}

#[test]
fn test_branch_listing() {
    let root = fresh_root();
    let names = vec![
        "feature".to_string(),
        "main".to_string(),
        "DETACHED_HEAD".to_string(),
    ];
    match root.branch(&None, &names) {
        BranchOutcome::Listing(s) => {
            assert_eq!(s, "feature\n* main\n");
        }
        BranchOutcome::Created(_) => panic!("listing expected"),
    }
}

/// The full scenario: commit "x", branch off, overwrite with "y" and commit,
/// then check the branch out again; its tree must say "x".
#[test]
fn test_branch_checkout_round_trip() {
    let mut root = fresh_root();
    let mut working = WorkingTree::new();
    working.insert(rel("a.txt"), Metadata::new(1, 10, 10), b"x".to_vec());
    add_all(&mut root, &working);
    root.commit("first".to_string(), &working).expect("commit failed");
    let feature = root.create_branch("feat");

    let mut working2 = WorkingTree::new();
    working2.insert(rel("a.txt"), Metadata::new(1, 20, 20), b"y".to_vec());
    add_all(&mut root, &working2);
    root.commit("second".to_string(), &working2).expect("commit failed");

    let effect = root
        .checkout(&None, "feat", Some(feature), &working2)
        .expect("checkout failed");
    let mut wrote_original = false;
    for action in effect.actions.iter() {
        match action {
            WorkAction::Delete(p) => panic!("no file should be deleted: {}", p.display()),
            WorkAction::WriteFile(p, content) => {
                if p.display() == "a.txt" {
                    assert_eq!(content, &b"x".to_vec(), "file content should be from feature branch");
                    wrote_original = true;
                }
            }
        }
    }
    assert!(wrote_original, "checkout must restore a.txt");
    match root.get_head() {
        Head::Attached(b) => assert_eq!(b.name, "feat"),
        Head::Detached(_) => panic!("head should be attached to feat"),
    }
}

#[test]
fn test_checkout_with_uncommitted_changes_fails() {
    let mut root = fresh_root();
    let mut working = WorkingTree::new();
    working.insert(rel("file.txt"), Metadata::new(7, 1, 1), b"content".to_vec());
    add_all(&mut root, &working);
    root.commit("Initial".to_string(), &working).expect("commit failed");
    let feature = root.create_branch("feature");
    // modify the file on disk
    let mut working2 = WorkingTree::new();
    working2.insert(rel("file.txt"), Metadata::new(8, 2, 2), b"modified".to_vec());
    let err = root
        .checkout(&None, "feature", Some(feature), &working2)
        .unwrap_err();
    let msg = err.message();
    assert!(msg.contains("uncommitted changes"), "error should mention uncommitted changes: {}", msg);
}

#[test]
fn test_checkout_commit_by_hash() {
    let mut root = fresh_root();
    let mut working = WorkingTree::new();
    working.insert(rel("file.txt"), Metadata::new(2, 1, 1), b"v1".to_vec());
    add_all(&mut root, &working);
    root.commit("First".to_string(), &working).expect("commit failed");
    let first_id = root.get_head().get_tree().unwrap().commit_id.clone();

    let mut working2 = WorkingTree::new();
    working2.insert(rel("file.txt"), Metadata::new(2, 2, 2), b"v2".to_vec());
    add_all(&mut root, &working2);
    root.commit("Second".to_string(), &working2).expect("commit failed");

    let prefix = &first_id[..8];
    let effect = root
        .checkout(&Some(CheckoutMode::Commit), prefix, None, &working2)
        .expect("checkout commit failed");
    let mut restored = false;
    for action in effect.actions.iter() {
        if let WorkAction::WriteFile(p, content) = action {
            if p.display() == "file.txt" {
                assert_eq!(content, &b"v1".to_vec(), "file should have v1 content after checkout");
                restored = true;
            }
        }
    }
    assert!(restored);
    match root.get_head() {
        Head::Detached(d) => {
            assert_eq!(d.passed_hash, prefix);
            assert_eq!(d.log_len(), 1);
            assert_eq!(d.log_at(0).commit_id, first_id);
        }
        Head::Attached(_) => panic!("head should be detached"),
    }
}

#[test]
fn test_partial_hash_resolution() {
    let mut root = fresh_root();
    // zero matches
    match root.get_full_commit_hash("abc") {
        Err(gust::checkout::CommitCheckoutError::CommitNotFound) => {}
        _ => panic!("empty store must report CommitNotFound"),
    }
    let mut working = WorkingTree::new();
    working.insert(rel("a.txt"), Metadata::new(1, 1, 1), b"1".to_vec());
    add_all(&mut root, &working);
    root.commit("one".to_string(), &working).expect("commit failed");
    let id1 = root.get_head().get_tree().unwrap().commit_id.clone();
    // exactly one match
    let resolved = root.get_full_commit_hash(&id1[..10]).expect("unique prefix must resolve");
    assert_eq!(resolved, id1);
    // two or more matches: the empty prefix matches every stored commit
    let mut working2 = WorkingTree::new();
    working2.insert(rel("a.txt"), Metadata::new(1, 2, 2), b"2".to_vec());
    add_all(&mut root, &working2);
    root.commit("two".to_string(), &working2).expect("commit failed");
    let id2 = root.get_head().get_tree().unwrap().commit_id.clone();
    match root.get_full_commit_hash("") {
        Err(gust::checkout::CommitCheckoutError::MultipleCommitsFound(ids)) => {
            assert_eq!(ids.len(), 2);
            assert!(ids.contains(&id1) && ids.contains(&id2), "the error must list all matches");
        }
        _ => panic!("an ambiguous prefix must report every candidate"),
    }
}

#[test]
fn test_checkout_naming_collision_error() {
    let mut root = fresh_root();
    let mut working = WorkingTree::new();
    working.insert(rel("file.txt"), Metadata::new(7, 1, 1), b"content".to_vec());
    add_all(&mut root, &working);
    root.commit("Initial".to_string(), &working).expect("commit failed");
    let id = root.get_head().get_tree().unwrap().commit_id.clone();
    let ambiguous_name = id[..6].to_string();
    // a branch whose name is also a valid commit prefix
    let branch = Branch::new_empty(&ambiguous_name);
    let err = root
        .checkout(&None, &ambiguous_name, Some(branch), &working)
        .unwrap_err();
    let msg = err.message();
    assert!(msg.contains("same name"), "error message should mention naming collision: {}", msg);
    assert!(msg.contains("Specify if you want to checkout"), "{}", msg);
}

/// Staging-area reload pruning: an Added entry whose file vanished is
/// dropped silently, a Removed entry is kept although its file is absent.
#[test]
fn test_staging_reload_pruning() {
    let mut stored = gust::pathmap::PathMap::new();
    stored.insert(rel("file1.txt"), ChangeType::Added);
    stored.insert(rel("gone.txt"), ChangeType::Modified);
    stored.insert(rel("deleted.txt"), ChangeType::Removed);
    let mut working = WorkingTree::new();
    working.insert(rel("file1.txt"), Metadata::new(1, 1, 1), b"a".to_vec());
    let staging = StagingArea::from_stored(&stored, &working);
    assert!(staging.contains(&rel("file1.txt")), "existing file stays staged");
    assert!(!staging.contains(&rel("gone.txt")), "vanished Modified entry is dropped");
    assert!(staging.contains(&rel("deleted.txt")), "Removed entry is kept");
    assert_eq!(staging.get(&rel("file1.txt")), Some(&ChangeType::Added));
}

/// A staged addition survives deleting the file only until reload; status
/// keeps showing it as staged as long as the staging area is not reloaded.
#[test]
fn test_staged_add_then_delete_before_commit() {
    let mut root = fresh_root();
    let mut working = WorkingTree::new();
    working.insert(rel("file1.txt"), Metadata::new(1, 1, 1), b"a".to_vec());
    add_all(&mut root, &working);
    // the file vanishes from disk before the commit
    let empty_working = WorkingTree::new();
    let report = root.status(&empty_working).expect("status failed");
    assert!(report.contains("+ file1.txt"), "the staged entry still shows: {}", report);
    // committing now fails: the staged file is gone
    let err = root.commit("m".to_string(), &empty_working).unwrap_err();
    assert!(err.message().contains("File not found"), "{}", err.message());
}

#[test]
fn test_empty_commit_message() {
    let mut root = fresh_root();
    let mut working = WorkingTree::new();
    working.insert(rel("file.txt"), Metadata::new(7, 1, 1), b"content".to_vec());
    add_all(&mut root, &working);
    root.commit("".to_string(), &working).expect("commit with empty message should work");
    let log = root.info();
    assert!(log.contains(": "), "{}", log);
}

#[test]
fn test_log_shows_commit_history() {
    let mut root = fresh_root();
    let mut working = WorkingTree::new();
    for (i, (name, msg)) in [
        ("file1.txt", "First commit"),
        ("file2.txt", "Second commit"),
        ("file3.txt", "Third commit"),
    ]
    .iter()
    .enumerate()
    {
        working.insert(rel(name), Metadata::new(1, i as u64 + 1, 1), b"c".to_vec());
        add_all(&mut root, &working);
        root.commit(msg.to_string(), &working).expect("commit failed");
    }
    let log = root.info();
    assert!(log.contains("First commit"));
    assert!(log.contains("Second commit"));
    assert!(log.contains("Third commit"));
    let second = log.find("Second commit").unwrap();
    let third = log.find("Third commit").unwrap();
    assert!(third < second, "newest commit is listed first: {}", log);
    assert!(log.starts_with("Commit history of main branch:\n"), "{}", log);
}

#[test]
fn test_ignore_rules() {
    let root_dir = root_path();
    let text = "# a comment\n/build\n*.tmp\n\ntarget\n";
    let rules: Vec<IgnoredFile> = gust::ignore::read_ignored(&root_dir, Some(text));
    assert_eq!(rules.len(), 3);
    // suffix rule matches at a component boundary
    let hit = gust::ignore::is_path_ignored(&rules, &AbsolutePath::from_absolute_path("/repo/src/target"))
        .expect("no error expected");
    assert!(hit);
    let miss = gust::ignore::is_path_ignored(&rules, &AbsolutePath::from_absolute_path("/repo/src/main.rs"))
        .expect("no error expected");
    assert!(!miss);
    // the fixed rule matches exactly
    let fixed = gust::ignore::is_path_ignored(&rules, &AbsolutePath::from_absolute_path("/repo/build"))
        .expect("no error expected");
    assert!(fixed);
    // a path inside a fixed ignored directory is an error, not a silent skip
    let err = gust::ignore::is_path_ignored(&rules, &AbsolutePath::from_absolute_path("/repo/build/out.o"))
        .unwrap_err();
    assert!(err.message().contains("inside a directory that is ignored"), "{}", err.message());
}

#[test]
fn test_error_messages() {
    assert_eq!(
        GustError::Io("boom".to_string()).message(),
        "I/O error: boom"
    );
    assert_eq!(
        GustError::ProjectParsing("bad".to_string()).message(),
        "Project parsing error: bad"
    );
    assert_eq!(GustError::User("no".to_string()).message(), "Error: no");
}

#[test]
fn test_decimal_rendering() {
    assert_eq!(gust::encode::u64_to_dec(0), "0");
    assert_eq!(gust::encode::u64_to_dec(7), "7");
    assert_eq!(gust::encode::u64_to_dec(1234), "1234");
    assert_eq!(gust::encode::u64_to_dec(u64::MAX), "18446744073709551615");
}

#[test]
fn test_commit_encoding_shape() {
    let tree = gust::pathmap::PathMap::new();
    let c = Commit::new(tree, CommitMetadata::new("hi".to_string()));
    assert_eq!(c.encode(), "2:hi0:");
}

/// Commits made while detached append to the detached log; a branch created
/// from that state keeps the whole detached history.
#[test]
fn test_detached_commit_and_branch_from_it() {
    let mut root = fresh_root();
    let mut working = WorkingTree::new();
    working.insert(rel("a.txt"), Metadata::new(1, 1, 1), b"1".to_vec());
    add_all(&mut root, &working);
    root.commit("base".to_string(), &working).expect("commit failed");
    let base_id = root.get_head().get_tree().unwrap().commit_id.clone();

    // detach onto the base commit
    root.checkout(&Some(CheckoutMode::Commit), &base_id[..10], None, &working)
        .expect("detach failed");
    assert!(root.get_head().is_detached());

    // a commit made while detached grows the detached log, not any branch
    let mut working2 = WorkingTree::new();
    working2.insert(rel("a.txt"), Metadata::new(1, 2, 2), b"2".to_vec());
    add_all(&mut root, &working2);
    root.commit("detached work".to_string(), &working2).expect("commit failed");
    match root.get_head() {
        Head::Detached(d) => assert_eq!(d.log_len(), 2),
        Head::Attached(_) => panic!("head must stay detached"),
    }

    // branching from the detached state copies the full log
    let rescued = root.create_branch("rescue");
    assert_eq!(rescued.log_len(), 2);
    assert_eq!(rescued.log_at(0).commit_id, base_id);

    // the detached listing announces where the head sits
    let names = vec!["main".to_string(), "rescue".to_string()];
    match root.branch(&None, &names) {
        BranchOutcome::Listing(s) => {
            assert!(s.starts_with("* HEAD attached at "), "{}", s);
            assert!(s.contains("main\n") && s.contains("rescue\n"), "{}", s);
        }
        BranchOutcome::Created(_) => panic!("listing expected"),
    }

    // reattaching reports the stale detached record for cleanup
    let effect = root
        .checkout(&Some(CheckoutMode::Branch), "rescue", Some(rescued), &working2)
        .expect("checkout failed");
    let cleanup = effect.cleanup.expect("the stale detached record must be deleted");
    assert_eq!(cleanup.as_path(), "/repo/.gust/branches/DETACHED_HEAD.json");
    assert!(!root.get_head().is_detached());
}

/// A file that only had its timestamps touched is not a change: the digest
/// decides when the fingerprint differs.
#[test]
fn test_touched_but_identical_file_is_unchanged() {
    let mut root = fresh_root();
    let mut working = WorkingTree::new();
    working.insert(rel("a.txt"), Metadata::new(1, 1, 1), b"x".to_vec());
    add_all(&mut root, &working);
    root.commit("base".to_string(), &working).expect("commit failed");
    // same bytes, new timestamps
    let mut touched = WorkingTree::new();
    touched.insert(rel("a.txt"), Metadata::new(1, 99, 99), b"x".to_vec());
    let report = root.status(&touched).expect("status failed");
    assert_eq!(
        report,
        "Changes to be committed:\n  No changes\n\nUnstaged changes:\n  No changes\n"
    );
}

/// Ignored files never show up as pending changes.
#[test]
fn test_ignored_file_not_reported() {
    let rules = gust::ignore::read_ignored(&root_path(), Some("scratch.log\n"));
    let mut root = Root::new(
        root_path(),
        Head::new_default(),
        StagingArea::new(),
        rules,
        CommitStore::new(),
        ContentStore::new(),
    );
    let mut working = WorkingTree::new();
    working.insert(rel("scratch.log"), Metadata::new(1, 1, 1), b"z".to_vec());
    working.insert(rel("kept.txt"), Metadata::new(1, 1, 1), b"k".to_vec());
    add_all(&mut root, &working);
    assert!(!root.get_staging_area().contains(&rel("scratch.log")));
    assert!(root.get_staging_area().contains(&rel("kept.txt")));
}

#[test]
fn test_checkout_missing_branch_fails() {
    let mut root = fresh_root();
    let working = WorkingTree::new();
    let err = root
        .checkout(&Some(CheckoutMode::Branch), "nope", None, &working)
        .unwrap_err();
    assert_eq!(err.message(), "I/O error: Branch not found: nope");
    // without a mode, an unknown name is reported as a missing commit
    let err2 = root.checkout(&None, "nope", None, &working).unwrap_err();
    assert_eq!(err2.message(), "Error: Commit not found");
}
