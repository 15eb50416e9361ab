use libbit::checkout::{CheckoutOpts, Migration};
use libbit::commit::CommitOpts;
use libbit::error::{BitError, BitResult};
use libbit::hash::Oid;
use libbit::index::{BitIndexEntry, MergeStage};
use libbit::obj::{BitObjKind, FileMode, Tree, TreeEntry};
use libbit::repo::{BitRef, BitRepo, WorktreeFile};

fn touch(repo: &mut BitRepo, path: &str, content: &str) {
    repo.touch(path.as_bytes(), content.as_bytes());
}

fn modify(repo: &mut BitRepo, path: &str) {
    let mut data = repo.cat(path.as_bytes()).unwrap_or_default();
    data.extend_from_slice(b"\nmodified on ");
    match repo.read_head() {
        BitRef::Symbolic(name) => data.extend_from_slice(name),
        BitRef::Direct(oid) => data.extend_from_slice(oid.to_hex().as_bytes()),
    }
    repo.touch(path.as_bytes(), &data);
}

fn rm(repo: &mut BitRepo, path: &str) {
    repo.rm(path.as_bytes());
}

fn rmdir(repo: &mut BitRepo, path: &str) {
    repo.rmdir_all(path.as_bytes());
}

fn path_exists(repo: &BitRepo, path: &str) -> bool {
    repo.path_exists(path.as_bytes())
}

fn cat(repo: &BitRepo, path: &str) -> String {
    String::from_utf8(repo.cat(path.as_bytes()).expect("file exists")).unwrap()
}

fn commit_all(repo: &mut BitRepo) -> BitResult<Oid> {
    repo.add_all();
    Ok(repo.commit(CommitOpts { message: b"commit".to_vec(), allow_empty: false })?.oid)
}

/// Writes the tree holding the given files (path and contents) and returns its id.
fn tree(repo: &mut BitRepo, files: &[(&str, &str)]) -> Oid {
    let mut files: Vec<(&str, &str)> = files.to_vec();
    files.sort_by(|a, b| a.0.as_bytes().cmp(b.0.as_bytes()));
    let mut entries = Vec::new();
    for (path, content) in files {
        let oid = repo.write_blob(content.as_bytes().to_vec());
        let te = TreeEntry { mode: FileMode::REG, path: path.as_bytes().to_vec(), oid };
        entries.push(BitIndexEntry::from_tree_entry(&te));
    }
    repo.write_tree_of(&entries)
}

/// Writes a commit (without parents) of the tree holding the given files.
fn commit(repo: &mut BitRepo, files: &[(&str, &str)]) -> Oid {
    let t = tree(repo, files);
    repo.commit_tree(t, vec![], b"commit".to_vec())
}

fn rev(oid: Oid) -> String {
    oid.to_hex()
}

fn checkout(repo: &mut BitRepo, rev: &str) -> BitResult<()> {
    repo.checkout_revision(rev.as_bytes(), CheckoutOpts::default())
}

fn force_checkout(repo: &mut BitRepo, rev: &str) -> BitResult<()> {
    repo.checkout_revision(rev.as_bytes(), CheckoutOpts::forced())
}

fn reset_hard(repo: &mut BitRepo, rev: &str) {
    let oid = repo.fully_resolve_rev(rev.as_bytes()).unwrap();
    let tree = repo.read_commit(&oid).unwrap().tree;
    repo.force_checkout_tree(&tree).unwrap();
    repo.update_current_ref(oid);
}

fn branch(repo: &mut BitRepo, name: &str) {
    repo.create_branch(name.as_bytes(), &BitRef::head()).unwrap();
}

fn conflicts_len(err: BitError) -> BitResult<usize> {
    Ok(err.try_into_checkout_conflict()?.len())
}

fn minimal_repo() -> BitRepo {
    let mut repo = BitRepo::new();
    touch(&mut repo, "foo", "default foo contents");
    commit_all(&mut repo).unwrap();
    repo
}

fn sample_repo_with(link: bool) -> BitRepo {
    let mut repo = BitRepo::new();
    touch(&mut repo, "foo", "default foo contents");
    touch(&mut repo, "bar", "default bar contents");
    commit_all(&mut repo).unwrap();
    touch(&mut repo, "dir/bar.l", "");
    touch(&mut repo, "dir/bar/qux", "default qux contents");
    touch(&mut repo, "dir/baz", "default baz contents");
    if link {
        repo.write_file(b"dir/link".to_vec(), WorktreeFile { mode: FileMode::LINK, data: b"../bar".to_vec() });
    }
    commit_all(&mut repo).unwrap();
    repo
}

fn sample_repo() -> BitRepo {
    sample_repo_with(true)
}

fn sample_repo_no_sym() -> BitRepo {
    sample_repo_with(false)
}

#[test]
fn test_simple_checkout_rm_rf() -> BitResult<()> {
    let mut repo = sample_repo();
    checkout(&mut repo, "HEAD^")?;
    assert!(repo.read_head().is_direct());
    let paths = repo.worktree_paths();
    assert_eq!(paths.len(), 2);
    assert_eq!(paths[0], b"bar".to_vec());
    assert_eq!(repo.worktree_file(b"bar").unwrap().mode, FileMode::REG);
    assert_eq!(paths[1], b"foo".to_vec());
    assert_eq!(repo.worktree_file(b"foo").unwrap().mode, FileMode::REG);
    Ok(())
}

#[test]
fn test_checkout_remote_branch_leads_to_detached_head() -> BitResult<()> {
    let mut repo = sample_repo();
    repo.create_branch(b"refs/remotes/origin/master", &BitRef::head())?;
    checkout(&mut repo, "origin/master")?;
    assert!(repo.is_head_detached());
    Ok(())
}

#[test]
fn test_safe_checkout_keeps_untracked() -> BitResult<()> {
    let mut repo = sample_repo();
    touch(&mut repo, "untracked", "");
    touch(&mut repo, "new-dir/bar", "");
    checkout(&mut repo, "master")?;
    assert!(path_exists(&repo, "untracked"));
    assert!(path_exists(&repo, "new-dir/bar"));
    Ok(())
}

#[test]
fn test_force_checkout_removes_untracked() -> BitResult<()> {
    let mut repo = sample_repo();
    touch(&mut repo, "untracked", "");
    touch(&mut repo, "new-dir/bar", "");
    force_checkout(&mut repo, "master")?;
    assert!(!path_exists(&repo, "untracked"));
    assert!(!path_exists(&repo, "new-dir"));
    assert!(!path_exists(&repo, "new-dir/bar"));
    Ok(())
}

#[test]
fn test_checkout_add_blob() -> BitResult<()> {
    let mut repo = minimal_repo();
    let target = commit(&mut repo, &[("foo", "default foo contents"), ("newfile", "")]);
    checkout(&mut repo, &rev(target))?;
    assert!(path_exists(&repo, "newfile"));

    reset_hard(&mut repo, "master");
    assert!(!path_exists(&repo, "newfile"));

    checkout(&mut repo, &rev(target))?;
    assert!(path_exists(&repo, "newfile"));
    Ok(())
}

#[test]
fn test_safe_checkout_of_independently_added_blob() -> BitResult<()> {
    let mut repo = minimal_repo();
    rm(&mut repo, "foo");
    commit_all(&mut repo)?;
    assert!(!path_exists(&repo, "foo"));

    touch(&mut repo, "foo", "default foo contents");
    let conflicts = checkout(&mut repo, "HEAD^").unwrap_err().try_into_checkout_conflict()?;
    assert_eq!(conflicts.worktree.len(), 1);
    Ok(())
}

#[test]
fn test_force_checkout_of_independently_added_blob() -> BitResult<()> {
    let mut repo = minimal_repo();
    rm(&mut repo, "foo");
    commit_all(&mut repo)?;

    touch(&mut repo, "foo", "default foo contents");
    force_checkout(&mut repo, "HEAD^")?;
    assert_eq!(cat(&repo, "foo"), "default foo contents");
    Ok(())
}

#[test]
fn test_safe_checkout_of_added_blob_with_content_conflict() -> BitResult<()> {
    let mut repo = minimal_repo();
    rm(&mut repo, "foo");
    commit_all(&mut repo)?;

    touch(&mut repo, "foo", "conflicting foo contents");
    let conflicts = checkout(&mut repo, "HEAD^").unwrap_err().try_into_checkout_conflict()?;
    assert_eq!(conflicts.worktree.len(), 1);
    Ok(())
}

#[test]
fn test_forced_checkout_of_added_blob_with_content_conflict() -> BitResult<()> {
    let mut repo = minimal_repo();
    rm(&mut repo, "foo");
    commit_all(&mut repo)?;

    touch(&mut repo, "foo", "new foo contents");
    force_checkout(&mut repo, "HEAD^")?;
    assert_eq!(cat(&repo, "foo"), "default foo contents");
    Ok(())
}

#[test]
fn test_checkout_add_tree() -> BitResult<()> {
    let mut repo = minimal_repo();
    let target = commit(
        &mut repo,
        &[("foo", "default foo contents"), ("newdir/bar/a", "a"), ("newdir/b", "b")],
    );
    checkout(&mut repo, &rev(target))?;
    assert_eq!(cat(&repo, "foo"), "default foo contents");
    assert!(path_exists(&repo, "newdir"));
    assert!(path_exists(&repo, "newdir/bar"));
    assert_eq!(cat(&repo, "newdir/bar/a"), "a");
    assert_eq!(cat(&repo, "newdir/b"), "b");
    Ok(())
}

#[test]
fn test_safe_checkout_add_tree_with_blob_conflict() -> BitResult<()> {
    let mut repo = minimal_repo();
    let target = commit(
        &mut repo,
        &[
            ("foo", "default foo contents"),
            ("new/bar", ""),
            ("new/nested/c", ""),
            ("new/nested/d", ""),
            ("new/nested/e", ""),
        ],
    );
    touch(&mut repo, "new", "");
    let conflicts = conflicts_len(checkout(&mut repo, &rev(target)).unwrap_err())?;
    assert_eq!(conflicts, 1);
    Ok(())
}

#[test]
fn test_forced_checkout_add_tree_with_blob_conflict() -> BitResult<()> {
    let mut repo = minimal_repo();
    let target = commit(
        &mut repo,
        &[
            ("foo", "default foo contents"),
            ("new/bar/nested/c", ""),
            ("new/bar/nested/d", ""),
            ("new/bar/nested/e", ""),
            ("new/bar/z", ""),
        ],
    );
    touch(&mut repo, "new", "");
    force_checkout(&mut repo, &rev(target))?;
    assert!(path_exists(&repo, "new/bar/z"));
    assert!(path_exists(&repo, "new/bar/nested/d"));
    Ok(())
}

#[test]
fn test_safe_checkout_independently_added_tree() -> BitResult<()> {
    let mut repo = minimal_repo();
    let target = commit(&mut repo, &[("dir/bar", ""), ("dir/baz", ""), ("dir/nested/foo", "")]);
    touch(&mut repo, "dir/bar", "");
    touch(&mut repo, "dir/baz", "");
    touch(&mut repo, "dir/nested/notfoo", "");
    checkout(&mut repo, &rev(target)).unwrap_err().try_into_checkout_conflict()?;
    Ok(())
}

#[test]
fn test_force_checkout_independently_added_tree() -> BitResult<()> {
    let mut repo = minimal_repo();
    let target = commit(&mut repo, &[("dir/bar", ""), ("dir/baz", ""), ("dir/nested/foo", "")]);
    touch(&mut repo, "dir/bar", "");
    touch(&mut repo, "dir/baz", "");
    touch(&mut repo, "dir/nested/notfoo", "");
    force_checkout(&mut repo, &rev(target))?;
    assert!(path_exists(&repo, "dir/nested/foo"));
    assert!(!path_exists(&repo, "dir/nested/notfoo"));
    Ok(())
}

#[test]
fn test_safe_checkout_independently_deleted_blob() -> BitResult<()> {
    let mut repo = minimal_repo();
    rm(&mut repo, "foo");
    let target = commit(&mut repo, &[]);
    checkout(&mut repo, &rev(target))?;
    assert!(!path_exists(&repo, "foo"));
    Ok(())
}

#[test]
fn test_force_checkout_independently_deleted_blob() -> BitResult<()> {
    let mut repo = minimal_repo();
    rm(&mut repo, "foo");
    let target = commit(&mut repo, &[]);
    force_checkout(&mut repo, &rev(target))?;
    assert!(!path_exists(&repo, "foo"));
    Ok(())
}

#[test]
fn test_checkout_delete_blob() -> BitResult<()> {
    let mut repo = minimal_repo();
    let target = commit(&mut repo, &[]);
    checkout(&mut repo, &rev(target))?;
    assert!(!path_exists(&repo, "foo"));

    checkout(&mut repo, "master")?;
    assert!(path_exists(&repo, "foo"));
    let target = commit(&mut repo, &[]);
    force_checkout(&mut repo, &rev(target))?;
    assert!(!path_exists(&repo, "foo"));
    Ok(())
}

#[test]
fn test_safe_checkout_delete_of_modified_blob() -> BitResult<()> {
    let mut repo = minimal_repo();
    modify(&mut repo, "foo");
    let target = commit(&mut repo, &[]);
    let conflicts = conflicts_len(checkout(&mut repo, &rev(target)).unwrap_err())?;
    assert_eq!(conflicts, 1);
    Ok(())
}

#[test]
fn test_force_checkout_delete_of_modified_blob() -> BitResult<()> {
    let mut repo = minimal_repo();
    modify(&mut repo, "foo");
    let target = commit(&mut repo, &[]);
    force_checkout(&mut repo, &rev(target))?;
    assert!(!path_exists(&repo, "foo"));
    Ok(())
}

#[test]
fn test_safe_checkout_independently_deleted_blob_and_untracked_tree() -> BitResult<()> {
    let mut repo = minimal_repo();
    rm(&mut repo, "foo");
    touch(&mut repo, "foo/bar", "");
    let target = commit(&mut repo, &[]);
    checkout(&mut repo, &rev(target))?;
    assert!(path_exists(&repo, "foo/bar"));
    Ok(())
}

#[test]
fn test_force_checkout_independently_deleted_blob_and_untracked_tree() -> BitResult<()> {
    let mut repo = minimal_repo();
    rm(&mut repo, "foo");
    touch(&mut repo, "foo/bar", "");
    let target = commit(&mut repo, &[]);
    force_checkout(&mut repo, &rev(target))?;
    assert!(!path_exists(&repo, "foo"));
    assert!(!path_exists(&repo, "foo/bar"));
    Ok(())
}

#[test]
fn test_safe_checkout_locally_deleted_blob() -> BitResult<()> {
    let mut repo = minimal_repo();
    rm(&mut repo, "foo");
    checkout(&mut repo, "master")?;
    assert!(!path_exists(&repo, "foo"));
    Ok(())
}

#[test]
fn test_force_checkout_locally_deleted_blob() -> BitResult<()> {
    let mut repo = minimal_repo();
    rm(&mut repo, "foo");
    force_checkout(&mut repo, "master")?;
    assert_eq!(cat(&repo, "foo"), "default foo contents");
    Ok(())
}

#[test]
fn test_safe_checkout_update_to_deleted_blob() -> BitResult<()> {
    let mut repo = minimal_repo();
    let target = commit(&mut repo, &[("foo", "updated content")]);
    rm(&mut repo, "foo");
    let conflicts = conflicts_len(checkout(&mut repo, &rev(target)).unwrap_err())?;
    assert_eq!(conflicts, 1);
    Ok(())
}

#[test]
fn test_force_checkout_update_to_deleted_blob() -> BitResult<()> {
    let mut repo = minimal_repo();
    let target = commit(&mut repo, &[("foo", "target content")]);
    rm(&mut repo, "foo");
    force_checkout(&mut repo, &rev(target))?;
    assert_eq!(cat(&repo, "foo"), "target content");
    Ok(())
}

#[test]
fn test_checkout_unmodified_blob() -> BitResult<()> {
    let mut repo = minimal_repo();
    checkout(&mut repo, "master")?;
    assert_eq!(cat(&repo, "foo"), "default foo contents");
    force_checkout(&mut repo, "master")?;
    assert_eq!(cat(&repo, "foo"), "default foo contents");
    Ok(())
}

#[test]
fn test_safe_checkout_locally_modified_blob() -> BitResult<()> {
    let mut repo = minimal_repo();
    touch(&mut repo, "foo", "new foo contents");
    checkout(&mut repo, "master")?;
    assert_eq!(cat(&repo, "foo"), "new foo contents");
    Ok(())
}

#[test]
fn test_force_checkout_locally_modified_blob() -> BitResult<()> {
    let mut repo = minimal_repo();
    touch(&mut repo, "foo", "new foo contents");
    force_checkout(&mut repo, "master")?;
    assert_eq!(cat(&repo, "foo"), "default foo contents");
    Ok(())
}

#[test]
fn test_checkout_update_unmodified_blob() -> BitResult<()> {
    let mut repo = minimal_repo();
    let target = commit(&mut repo, &[("foo", "target content")]);
    checkout(&mut repo, &rev(target))?;
    assert_eq!(cat(&repo, "foo"), "target content");
    Ok(())
}

#[test]
fn test_safe_checkout_independently_modified_blob() -> BitResult<()> {
    let mut repo = minimal_repo();
    let target = commit(&mut repo, &[("foo", "new content")]);
    touch(&mut repo, "foo", "new content");
    checkout(&mut repo, &rev(target)).unwrap_err().try_into_checkout_conflict()?;
    Ok(())
}

#[test]
fn test_force_checkout_independently_modified_blob() -> BitResult<()> {
    let mut repo = minimal_repo();
    let target = commit(&mut repo, &[("foo", "new content")]);
    touch(&mut repo, "foo", "new content");
    force_checkout(&mut repo, &rev(target))?;
    assert_eq!(cat(&repo, "foo"), "new content");
    Ok(())
}

#[test]
fn test_safe_checkout_update_to_modified_blob() -> BitResult<()> {
    let mut repo = minimal_repo();
    let target = commit(&mut repo, &[("foo", "new content")]);
    touch(&mut repo, "foo", "differing new content");
    checkout(&mut repo, &rev(target)).unwrap_err().try_into_checkout_conflict()?;
    Ok(())
}

#[test]
fn test_forced_checkout_update_to_modified_blob() -> BitResult<()> {
    let mut repo = minimal_repo();
    let target = commit(&mut repo, &[("foo", "new content")]);
    touch(&mut repo, "foo", "differing new content");
    force_checkout(&mut repo, &rev(target))?;
    assert_eq!(cat(&repo, "foo"), "new content");
    Ok(())
}

#[test]
fn test_safe_checkout_local_blob_to_tree() -> BitResult<()> {
    let mut repo = minimal_repo();
    rm(&mut repo, "foo");
    touch(&mut repo, "foo/bar", "");
    checkout(&mut repo, "master")?;
    assert!(path_exists(&repo, "foo/bar"));
    Ok(())
}

#[test]
fn test_force_checkout_local_blob_to_tree() -> BitResult<()> {
    let mut repo = minimal_repo();
    rm(&mut repo, "foo");
    touch(&mut repo, "foo/bar", "");
    force_checkout(&mut repo, "master")?;
    assert_eq!(cat(&repo, "foo"), "default foo contents");
    Ok(())
}

#[test]
fn test_safe_checkout_updated_blob_with_untracked_tree() -> BitResult<()> {
    let mut repo = minimal_repo();
    let target = commit(&mut repo, &[("foo", "updated foo contents")]);
    rm(&mut repo, "foo");
    touch(&mut repo, "foo/bar", "");
    checkout(&mut repo, &rev(target)).unwrap_err().try_into_checkout_conflict()?;
    Ok(())
}

#[test]
fn test_force_checkout_updated_blob_with_untracked_tree() -> BitResult<()> {
    let mut repo = minimal_repo();
    let target = commit(&mut repo, &[("foo", "updated foo contents")]);
    rm(&mut repo, "foo");
    touch(&mut repo, "foo/bar", "");
    force_checkout(&mut repo, &rev(target))?;
    assert_eq!(cat(&repo, "foo"), "updated foo contents");
    Ok(())
}

#[test]
fn test_checkout_add_tree_with_locally_deleted_blob() -> BitResult<()> {
    let mut repo = minimal_repo();
    rm(&mut repo, "foo");
    let target = commit(&mut repo, &[("foo/bar", "bar contents")]);
    checkout(&mut repo, &rev(target))?;
    assert_eq!(cat(&repo, "foo/bar"), "bar contents");
    Ok(())
}

#[test]
fn test_checkout_blob_to_tree() -> BitResult<()> {
    let mut repo = minimal_repo();
    let target = commit(&mut repo, &[("foo/bar", "bar contents")]);
    checkout(&mut repo, &rev(target))?;
    assert_eq!(cat(&repo, "foo/bar"), "bar contents");
    Ok(())
}

#[test]
fn test_safe_checkout_blob_to_tree_with_locally_modified_blob() -> BitResult<()> {
    let mut repo = minimal_repo();
    modify(&mut repo, "foo");
    let target = commit(&mut repo, &[("foo/bar", "bar contents")]);
    checkout(&mut repo, &rev(target)).unwrap_err().try_into_checkout_conflict()?;
    Ok(())
}

#[test]
fn test_forced_checkout_blob_to_tree_with_locally_modified_blob() -> BitResult<()> {
    let mut repo = minimal_repo();
    modify(&mut repo, "foo");
    let target = commit(&mut repo, &[("foo/bar", "bar contents")]);
    force_checkout(&mut repo, &rev(target))?;
    assert_eq!(cat(&repo, "foo/bar"), "bar contents");
    Ok(())
}

#[test]
fn test_safe_checkout_add_tree_with_deleted_blob() -> BitResult<()> {
    let mut repo = minimal_repo();
    let target = commit(&mut repo, &[("foo/bar", "bar contents")]);
    rm(&mut repo, "foo");
    touch(&mut repo, "foo/bar", "bar contents");
    checkout(&mut repo, &rev(target)).unwrap_err().try_into_checkout_conflict()?;
    Ok(())
}

#[test]
fn test_force_checkout_add_tree_with_deleted_blob() -> BitResult<()> {
    let mut repo = minimal_repo();
    let target = commit(&mut repo, &[("foo/bar", "bar contents")]);
    rm(&mut repo, "foo");
    touch(&mut repo, "foo/bar", "bar contents");
    force_checkout(&mut repo, &rev(target))?;
    assert_eq!(cat(&repo, "foo/bar"), "bar contents");
    Ok(())
}

#[test]
fn test_checkout_independently_deleted_tree() -> BitResult<()> {
    let mut repo = sample_repo_no_sym();
    let target = commit(&mut repo, &[("foo", ""), ("bar", "")]);
    rmdir(&mut repo, "dir");
    checkout(&mut repo, &rev(target))?;
    assert!(!path_exists(&repo, "dir"));
    Ok(())
}

#[test]
fn test_safe_checkout_independently_deleted_tree_with_untracked_blob() -> BitResult<()> {
    let mut repo = sample_repo_no_sym();
    let target = commit(&mut repo, &[("foo", ""), ("bar", "")]);
    rmdir(&mut repo, "dir");
    touch(&mut repo, "dir", "");
    checkout(&mut repo, &rev(target)).unwrap_err().try_into_checkout_conflict()?;
    Ok(())
}

#[test]
fn test_force_checkout_independently_deleted_tree_with_untracked_blob() -> BitResult<()> {
    let mut repo = sample_repo_no_sym();
    let target = commit(&mut repo, &[("foo", ""), ("bar", "")]);
    rmdir(&mut repo, "dir");
    touch(&mut repo, "dir", "");
    force_checkout(&mut repo, &rev(target))?;
    assert!(!path_exists(&repo, "dir/baz"));
    assert!(!path_exists(&repo, "dir/bar/qux"));
    Ok(())
}

#[test]
fn test_checkout_deleted_tree() -> BitResult<()> {
    let mut repo = sample_repo_no_sym();
    branch(&mut repo, "checkpoint");
    let target = commit(&mut repo, &[("foo", ""), ("bar", "")]);
    checkout(&mut repo, &rev(target))?;
    assert!(!path_exists(&repo, "dir"));
    Ok(())
}

#[test]
fn test_checkout_deleted_tree_and_added_blob() -> BitResult<()> {
    let mut repo = sample_repo_no_sym();
    branch(&mut repo, "checkpoint");
    let target = commit(&mut repo, &[("foo", ""), ("bar", ""), ("dir", "changed to a file")]);
    rmdir(&mut repo, "dir");
    checkout(&mut repo, &rev(target))?;

    reset_hard(&mut repo, "checkpoint");
    assert!(path_exists(&repo, "dir/bar"));
    rmdir(&mut repo, "dir");
    checkout(&mut repo, &rev(target))?;
    assert_eq!(cat(&repo, "dir"), "changed to a file");
    Ok(())
}

#[test]
fn test_safe_checkout_independently_typechanged_tree() -> BitResult<()> {
    let mut repo = sample_repo_no_sym();
    let target = commit(&mut repo, &[("foo", ""), ("bar", ""), ("dir", "changed to a file")]);
    rmdir(&mut repo, "dir");
    touch(&mut repo, "dir", "changed to a file");
    checkout(&mut repo, &rev(target)).unwrap_err().try_into_checkout_conflict()?;
    Ok(())
}

#[test]
fn test_force_checkout_independently_typechanged_tree() -> BitResult<()> {
    let mut repo = sample_repo_no_sym();
    let target = commit(&mut repo, &[("foo", ""), ("bar", ""), ("dir", "changed to a file")]);
    rmdir(&mut repo, "dir");
    touch(&mut repo, "dir", "changed to a file");
    force_checkout(&mut repo, &rev(target))?;
    assert_eq!(cat(&repo, "dir"), "changed to a file");
    Ok(())
}

#[test]
fn test_safe_checkout_typechange_tree_to_blob_with_conflicting() -> BitResult<()> {
    let mut repo = sample_repo_no_sym();
    let target = commit(&mut repo, &[("foo", ""), ("bar", ""), ("dir", "changed to a file")]);
    rmdir(&mut repo, "dir");
    touch(&mut repo, "dir", "changed to a different file");
    checkout(&mut repo, &rev(target)).unwrap_err().try_into_checkout_conflict()?;
    Ok(())
}

#[test]
fn test_force_checkout_typechange_tree_to_blob_with_conflicting() -> BitResult<()> {
    let mut repo = sample_repo_no_sym();
    let target =
        commit(&mut repo, &[("foo", ""), ("bar", ""), ("dir", "changed to a file original")]);
    rmdir(&mut repo, "dir");
    touch(&mut repo, "dir", "changed to a different file");
    force_checkout(&mut repo, &rev(target))?;
    assert_eq!(cat(&repo, "dir"), "changed to a file original");
    Ok(())
}

#[test]
fn test_safe_checkout_locally_deleted_tree() -> BitResult<()> {
    let mut repo = sample_repo();
    rmdir(&mut repo, "dir");
    checkout(&mut repo, "master")?;
    assert!(!path_exists(&repo, "dir"));
    Ok(())
}

#[test]
fn test_force_checkout_locally_deleted_tree() -> BitResult<()> {
    let mut repo = sample_repo();
    rmdir(&mut repo, "dir");
    force_checkout(&mut repo, "master")?;
    assert!(path_exists(&repo, "dir"));
    Ok(())
}

#[test]
fn test_safe_checkout_local_tree_to_blob() -> BitResult<()> {
    let mut repo = sample_repo();
    rmdir(&mut repo, "dir");
    touch(&mut repo, "dir", "hi");
    checkout(&mut repo, "master")?;
    assert_eq!(cat(&repo, "dir"), "hi");
    Ok(())
}

#[test]
fn test_forced_checkout_local_tree_to_blob() -> BitResult<()> {
    let mut repo = sample_repo();
    rmdir(&mut repo, "dir");
    touch(&mut repo, "dir", "hi");
    force_checkout(&mut repo, "master")?;
    assert!(path_exists(&repo, "dir/baz"));
    assert!(path_exists(&repo, "dir/bar.l"));
    Ok(())
}

#[test]
fn test_safe_checkout_locally_modified_tree() -> BitResult<()> {
    let mut repo = sample_repo();
    touch(&mut repo, "dir/bar.l", "modified");
    checkout(&mut repo, "master")?;
    assert_eq!(cat(&repo, "dir/bar.l"), "modified");
    Ok(())
}

#[test]
fn test_forced_checkout_locally_modified_tree() -> BitResult<()> {
    let mut repo = sample_repo();
    touch(&mut repo, "dir/bar.l", "modified");
    force_checkout(&mut repo, "master")?;
    assert_eq!(cat(&repo, "dir/bar.l"), "");
    Ok(())
}

#[test]
fn test_safe_checkout_update_locally_deleted_tree() -> BitResult<()> {
    let mut repo = sample_repo_no_sym();
    rmdir(&mut repo, "dir");
    let target = commit(&mut repo, &[("foo", ""), ("bar", ""), ("dir/bar", "modified")]);
    checkout(&mut repo, &rev(target))?;
    assert_eq!(cat(&repo, "dir/bar"), "modified");
    Ok(())
}

#[test]
fn test_force_checkout_update_locally_deleted_tree() -> BitResult<()> {
    let mut repo = sample_repo_no_sym();
    rmdir(&mut repo, "dir");
    let target = commit(&mut repo, &[("foo", ""), ("bar", ""), ("dir/bar", "modified")]);
    force_checkout(&mut repo, &rev(target))?;
    assert_eq!(cat(&repo, "dir/bar"), "modified");
    Ok(())
}

#[test]
fn test_safe_checkout_updated_tree_with_local_tree_to_blob_conflict() -> BitResult<()> {
    let mut repo = sample_repo_no_sym();
    rmdir(&mut repo, "dir");
    touch(&mut repo, "dir", "");
    let target = commit(&mut repo, &[("foo", ""), ("bar", ""), ("dir/bar", "modified")]);
    checkout(&mut repo, &rev(target)).unwrap_err().try_into_checkout_conflict()?;
    Ok(())
}

#[test]
fn test_force_checkout_updated_tree_with_local_tree_to_blob_conflict() -> BitResult<()> {
    let mut repo = sample_repo_no_sym();
    rmdir(&mut repo, "dir");
    touch(&mut repo, "dir", "");
    let target = commit(&mut repo, &[("foo", ""), ("bar", ""), ("dir/bar", "modified")]);
    force_checkout(&mut repo, &rev(target))?;
    let target_tree = repo.read_commit(&target)?.tree;
    assert!(repo.diff_tree_worktree(&target_tree)?.is_empty());
    Ok(())
}

#[test]
fn test_checkout_stages_written_files() -> BitResult<()> {
    let mut repo = minimal_repo();
    let target = commit(&mut repo, &[("foo", "target content")]);
    checkout(&mut repo, &rev(target))?;
    let entry = repo.index().find_entry(b"foo", MergeStage::Normal).expect("staged");
    let tree = repo.read_commit(&target)?.tree;
    let flat = repo.flatten_tree(&tree)?;
    assert_eq!(entry.oid, flat.get(b"foo").unwrap().oid);
    Ok(())
}

#[test]
fn test_checkout_conflict_changes_nothing() -> BitResult<()> {
    let mut repo = minimal_repo();
    let target = commit(&mut repo, &[("foo", "new content"), ("other", "x")]);
    touch(&mut repo, "foo", "local change");
    let err = checkout(&mut repo, &rev(target)).unwrap_err();
    assert!(!err.is_fatal());
    assert_eq!(cat(&repo, "foo"), "local change");
    assert!(!path_exists(&repo, "other"));
    assert_eq!(repo.read_head(), &BitRef::Symbolic(b"refs/heads/master".to_vec()));
    Ok(())
}

#[test]
fn test_checkout_empty_tree_object() -> BitResult<()> {
    let mut repo = minimal_repo();
    let empty = repo.write_obj(BitObjKind::Tree(Tree { entries: vec![] }));
    repo.force_checkout_tree(&empty)?;
    assert!(!path_exists(&repo, "foo"));
    Ok(())
}


/// A migration by paths, for comparing with expected values.
#[derive(Debug, PartialEq)]
struct TestMigration {
    rmrfs: Vec<String>,
    rms: Vec<String>,
    mkdirs: Vec<String>,
    creates: Vec<String>,
}

fn test_migration(m: Migration) -> TestMigration {
    assert!(m.mkdirs.iter().all(|e| e.mode == FileMode::TREE));
    assert!(m.rmrfs.iter().all(|e| e.mode == FileMode::TREE));
    assert!(m.creates.iter().all(|e| e.mode != FileMode::TREE));
    let name = |p: &Vec<u8>| String::from_utf8(p.clone()).unwrap();
    TestMigration {
        rmrfs: m.rmrfs.iter().map(|e| name(&e.path)).collect(),
        rms: m.rms.iter().map(name).collect(),
        mkdirs: m.mkdirs.iter().map(|e| name(&e.path)).collect(),
        creates: m.creates.iter().map(|e| name(&e.path)).collect(),
    }
}

fn strings(v: &[&str]) -> Vec<String> {
    v.iter().map(|s| s.to_string()).collect()
}

#[test]
fn test_simple_migration_gen() -> BitResult<()> {
    let mut repo = BitRepo::new();
    let a = tree(&mut repo, &[("foo", "foo"), ("bar/baz", "baz"), ("qux/quxx", "quxx")]);
    let b = tree(&mut repo, &[("bar/baz/c/d", "d"), ("boo", "boo")]);
    let baseline = repo.flatten_tree(&a)?;
    let target = repo.flatten_tree(&b)?;
    let expected = TestMigration {
        rmrfs: strings(&["qux"]),
        rms: strings(&["bar/baz", "foo"]),
        mkdirs: strings(&["bar/baz", "bar/baz/c"]),
        creates: strings(&["bar/baz/c/d", "boo"]),
    };
    let migration = Migration::generate(&repo, &baseline, &target, CheckoutOpts::default()).unwrap();
    assert_eq!(test_migration(migration), expected);
    Ok(())
}

fn sample_repo_of_empty_files() -> (BitRepo, Oid) {
    let mut repo = BitRepo::new();
    touch(&mut repo, "foo", "");
    touch(&mut repo, "bar", "");
    let first = commit_all(&mut repo).unwrap();
    touch(&mut repo, "dir/bar.l", "");
    touch(&mut repo, "dir/bar/qux", "");
    touch(&mut repo, "dir/baz", "");
    commit_all(&mut repo).unwrap();
    (repo, first)
}

#[test]
fn test_checkout_moves_head_to_branch_not_commit() -> BitResult<()> {
    let (mut repo, first) = sample_repo_of_empty_files();
    // HEAD should resolve to a branch
    checkout(&mut repo, "HEAD")?;
    assert!(repo.read_head().is_symbolic());

    // however, HEAD^ resolves to a commit and so should move head to be direct (detached head)
    checkout(&mut repo, "HEAD^")?;
    assert!(repo.is_head_detached());
    assert_eq!(repo.read_head(), &BitRef::Direct(first));

    checkout(&mut repo, "master")?;
    let head = repo.read_head();
    assert!(head.is_symbolic());
    // the symbolic reference should be expanded
    assert_eq!(head, &BitRef::Symbolic(b"refs/heads/master".to_vec()));
    Ok(())
}

#[test]
fn safe_checkout_conflict_changes_nothing() -> BitResult<()> {
    let mut repo = minimal_repo();
    let first = repo.fully_resolve_head()?;
    rm(&mut repo, "foo");
    commit_all(&mut repo)?;
    touch(&mut repo, "foo", "conflicting foo contents");
    let head = repo.read_head().copy();
    let err = checkout(&mut repo, &rev(first)).unwrap_err();
    assert_eq!(conflicts_len(err)?, 1);
    assert_eq!(cat(&repo, "foo"), "conflicting foo contents");
    assert_eq!(repo.read_head(), &head);
    Ok(())
}
