use libbit::checkout::CheckoutOpts;
use libbit::iter::TreeIter;
use libbit::commit::CommitOpts;
use libbit::error::{BitError, BitResult};
use libbit::diff::{has_changes_inner, is_racy_entry, Changed};
use libbit::hash::Oid;
use libbit::index::Timespec;
use libbit::index::{BitIndexEntry, MergeStage};
use libbit::obj::{BitObjKind, FileMode, Tree, TreeEntry};
use libbit::repo::{BitRef, BitRepo, WorktreeFile};

fn touch(repo: &mut BitRepo, path: &str, content: &str) {
    repo.touch(path.as_bytes(), content.as_bytes());
}

fn modify(repo: &mut BitRepo, path: &str) {
    let mut data = repo.cat(path.as_bytes()).unwrap_or_default();
    data.extend_from_slice(b"\nmodified on ");
    match repo.read_head() {
        BitRef::Symbolic(name) => data.extend_from_slice(name),
        BitRef::Direct(oid) => data.extend_from_slice(oid.to_hex().as_bytes()),
    }
    repo.touch(path.as_bytes(), &data);
}

fn rm(repo: &mut BitRepo, path: &str) {
    repo.rm(path.as_bytes());
}

fn rmdir(repo: &mut BitRepo, path: &str) {
    repo.rmdir_all(path.as_bytes());
}

fn path_exists(repo: &BitRepo, path: &str) -> bool {
    repo.path_exists(path.as_bytes())
}

fn cat(repo: &BitRepo, path: &str) -> String {
    String::from_utf8(repo.cat(path.as_bytes()).expect("file exists")).unwrap()
}

fn commit_all(repo: &mut BitRepo) -> BitResult<Oid> {
    repo.add_all();
    Ok(repo.commit(CommitOpts { message: b"commit".to_vec(), allow_empty: false })?.oid)
}

/// Writes the tree holding the given files (path and contents) and returns its id.
fn tree(repo: &mut BitRepo, files: &[(&str, &str)]) -> Oid {
    let mut files: Vec<(&str, &str)> = files.to_vec();
    files.sort_by(|a, b| a.0.as_bytes().cmp(b.0.as_bytes()));
    let mut entries = Vec::new();
    for (path, content) in files {
        let oid = repo.write_blob(content.as_bytes().to_vec());
        let te = TreeEntry { mode: FileMode::REG, path: path.as_bytes().to_vec(), oid };
        entries.push(BitIndexEntry::from_tree_entry(&te));
    }
    repo.write_tree_of(&entries)
}

/// Writes a commit (without parents) of the tree holding the given files.
fn commit(repo: &mut BitRepo, files: &[(&str, &str)]) -> Oid {
    let t = tree(repo, files);
    repo.commit_tree(t, vec![], b"commit".to_vec())
}

fn rev(oid: Oid) -> String {
    oid.to_hex()
}

fn checkout(repo: &mut BitRepo, rev: &str) -> BitResult<()> {
    repo.checkout_revision(rev.as_bytes(), CheckoutOpts::default())
}

fn force_checkout(repo: &mut BitRepo, rev: &str) -> BitResult<()> {
    repo.checkout_revision(rev.as_bytes(), CheckoutOpts::forced())
}

fn reset_hard(repo: &mut BitRepo, rev: &str) {
    let oid = repo.fully_resolve_rev(rev.as_bytes()).unwrap();
    let tree = repo.read_commit(&oid).unwrap().tree;
    repo.force_checkout_tree(&tree).unwrap();
    repo.update_current_ref(oid);
}

fn branch(repo: &mut BitRepo, name: &str) {
    repo.create_branch(name.as_bytes(), &BitRef::head()).unwrap();
}

fn conflicts_len(err: BitError) -> BitResult<usize> {
    Ok(err.try_into_checkout_conflict()?.len())
}

fn minimal_repo() -> BitRepo {
    let mut repo = BitRepo::new();
    touch(&mut repo, "foo", "default foo contents");
    commit_all(&mut repo).unwrap();
    repo
}

fn sample_repo_with(link: bool) -> BitRepo {
    let mut repo = BitRepo::new();
    touch(&mut repo, "foo", "default foo contents");
    touch(&mut repo, "bar", "default bar contents");
    commit_all(&mut repo).unwrap();
    touch(&mut repo, "dir/bar.l", "");
    touch(&mut repo, "dir/bar/qux", "default qux contents");
    touch(&mut repo, "dir/baz", "default baz contents");
    if link {
        repo.write_file(b"dir/link".to_vec(), WorktreeFile { mode: FileMode::LINK, data: b"../bar".to_vec() });
    }
    commit_all(&mut repo).unwrap();
    repo
}

fn sample_repo() -> BitRepo {
    sample_repo_with(true)
}

fn sample_repo_no_sym() -> BitRepo {
    sample_repo_with(false)
}


fn s(v: &[u8]) -> &str {
    std::str::from_utf8(v).unwrap()
}

#[test]
fn test_diff_two_same_trees() -> BitResult<()> {
    let repo = sample_repo();
    let oid = repo.head_tree()?;
    let diff = repo.diff_tree_to_tree(&oid, &oid)?;
    assert!(diff.is_empty());
    Ok(())
}

#[test]
fn test_diff_head_prime_to_head() -> BitResult<()> {
    let repo = sample_repo();
    let head_prime = repo.fully_resolve_rev(b"HEAD^")?;
    let oid = match repo.read_obj(&head_prime)? {
        BitObjKind::Commit(c) => c.tree,
        _ => panic!("expected a commit"),
    };
    let diff = repo.diff_tree_to_tree(&oid, &repo.head_tree()?)?;
    assert!(diff.modified.is_empty());
    assert!(diff.deleted.is_empty());
    assert_eq!(diff.new.len(), 4);

    assert_eq!(s(&diff.new[0].path), "dir/bar.l");
    assert_eq!(diff.new[0].mode, FileMode::REG);
    assert_eq!(s(&diff.new[1].path), "dir/bar/qux");
    assert_eq!(diff.new[1].mode, FileMode::REG);
    assert_eq!(s(&diff.new[2].path), "dir/baz");
    assert_eq!(diff.new[2].mode, FileMode::REG);
    assert_eq!(s(&diff.new[3].path), "dir/link");
    assert_eq!(diff.new[3].mode, FileMode::LINK);
    Ok(())
}

#[test]
fn test_diff_tree_to_tree_deleted() -> BitResult<()> {
    let mut repo = BitRepo::new();
    let a = tree(&mut repo, &[("bar", ""), ("foo/a", ""), ("foo/b", ""), ("qux", "")]);
    let b = tree(&mut repo, &[("bar", ""), ("qux", "")]);
    let diff = repo.diff_tree_to_tree(&a, &b)?;
    assert!(diff.new.is_empty());
    assert!(diff.modified.is_empty());
    assert_eq!(diff.deleted.len(), 2);
    Ok(())
}

#[test]
fn test_diff_no_head_with_index() -> BitResult<()> {
    let mut repo = BitRepo::new();
    touch(&mut repo, "foo", "");
    repo.add_all();
    let diff = repo.diff_ref_index(&BitRef::head())?;
    assert!(diff.deleted.is_empty());
    assert!(diff.modified.is_empty());
    assert_eq!(diff.new.len(), 1);
    Ok(())
}

#[test]
fn test_tree_diff_replace_dir_with_file() -> BitResult<()> {
    let mut repo = BitRepo::new();
    let a = tree(&mut repo, &[("foo/a", ""), ("foo/b", "")]);
    let b = tree(&mut repo, &[("foo", "")]);
    let diff = repo.diff_tree_to_tree(&a, &b)?;
    assert!(diff.modified.is_empty());

    assert_eq!(diff.new.len(), 1);
    assert_eq!(s(&diff.new[0].path), "foo");

    assert_eq!(diff.deleted.len(), 2);
    assert_eq!(s(&diff.deleted[0].path), "foo/a");
    assert_eq!(s(&diff.deleted[1].path), "foo/b");
    Ok(())
}

#[test]
fn test_tree_diff_replace_file_with_dir() -> BitResult<()> {
    let mut repo = BitRepo::new();
    let a = tree(&mut repo, &[("x", ""), ("a", ""), ("foo", "")]);
    let b = tree(&mut repo, &[("a", ""), ("x", ""), ("foo/a", ""), ("foo/b", "")]);
    let diff = repo.diff_tree_to_tree(&a, &b)?;
    assert!(diff.modified.is_empty());

    assert_eq!(diff.deleted.len(), 1);
    assert_eq!(s(&diff.deleted[0].path), "foo");

    assert_eq!(diff.new.len(), 2);
    assert_eq!(s(&diff.new[0].path), "foo/a");
    assert_eq!(s(&diff.new[1].path), "foo/b");
    Ok(())
}

#[test]
fn test_diff_modified_file() -> BitResult<()> {
    let mut repo = BitRepo::new();
    let a = tree(&mut repo, &[("a", "1"), ("b", "same")]);
    let b = tree(&mut repo, &[("a", "2"), ("b", "same")]);
    let diff = repo.diff_tree_to_tree(&a, &b)?;
    assert_eq!(diff.len(), 1);
    assert_eq!(s(&diff.modified[0].0.path), "a");
    assert_eq!(s(&diff.modified[0].1.path), "a");
    assert!(diff.modified[0].0.oid != diff.modified[0].1.oid);
    Ok(())
}

#[test]
fn test_status_of_clean_and_dirty_repo() -> BitResult<()> {
    let mut repo = sample_repo();
    assert!(repo.status()?.is_empty());
    touch(&mut repo, "foo", "changed");
    touch(&mut repo, "untracked", "");
    let status = repo.status()?;
    assert!(!status.is_empty());
    assert_eq!(status.unstaged.modified.len(), 1);
    assert_eq!(status.untracked, vec![b"untracked".to_vec()]);
    assert!(status.staged.is_empty());
    repo.add_all();
    let status = repo.status()?;
    assert_eq!(status.staged.modified.len(), 1);
    assert_eq!(status.staged.new.len(), 1);
    assert!(status.unstaged.is_empty());
    Ok(())
}

fn stat_entry(byte: u8, mtime: u32, size: u32, inode: u32, mode: FileMode) -> BitIndexEntry {
    let te = TreeEntry { mode, path: b"f".to_vec(), oid: Oid::new([byte; 20]) };
    let mut e = BitIndexEntry::from_tree_entry(&te);
    e.mtime = Timespec { sec: mtime, nano: 0 };
    e.filesize = size;
    e.inode = inode;
    e
}

#[test]
fn has_changes_inner_decides_from_stat_data() {
    let idx = stat_entry(1, 10, 5, 7, FileMode::REG);
    // equal ids: unchanged
    assert_eq!(has_changes_inner(None, false, &idx, &stat_entry(1, 99, 9, 9, FileMode::EXEC)), Changed::No);
    // two different known ids: changed
    assert_eq!(has_changes_inner(None, false, &idx, &stat_entry(2, 10, 5, 7, FileMode::REG)), Changed::Yes);
    // unknown id of the worktree entry, same mtime, index written after it: unchanged
    let later_index = Some(Timespec { sec: 20, nano: 0 });
    assert_eq!(has_changes_inner(later_index, false, &idx, &stat_entry(0, 10, 5, 7, FileMode::REG)), Changed::No);
    // racy: the index was written in the same second; sizes equal so uncertain
    let racy_index = Some(Timespec { sec: 10, nano: 0 });
    assert!(is_racy_entry(racy_index, &idx));
    assert!(!is_racy_entry(later_index, &idx));
    assert!(is_racy_entry(None, &idx));
    assert_eq!(has_changes_inner(racy_index, false, &idx, &stat_entry(0, 10, 5, 7, FileMode::REG)), Changed::Maybe);
    // a different size or inode: changed
    assert_eq!(has_changes_inner(None, false, &idx, &stat_entry(0, 11, 6, 7, FileMode::REG)), Changed::Yes);
    assert_eq!(has_changes_inner(None, false, &idx, &stat_entry(0, 11, 5, 8, FileMode::REG)), Changed::Yes);
    // a different mode counts only where file modes are tracked
    assert_eq!(has_changes_inner(None, true, &idx, &stat_entry(0, 11, 5, 7, FileMode::EXEC)), Changed::Yes);
    assert_eq!(has_changes_inner(None, false, &idx, &stat_entry(0, 11, 5, 7, FileMode::EXEC)), Changed::Maybe);
}

#[test]
fn diff_tree_to_itself_is_empty() -> BitResult<()> {
    let mut repo = sample_repo();
    let head = repo.head_tree()?;
    let diff = repo.diff_tree_to_tree(&head, &head)?;
    assert!(diff.is_empty());
    let t = tree(&mut repo, &[("a", "1"), ("b/c", "2")]);
    let forward = repo.diff_tree_to_tree(&head, &t)?;
    let backward = repo.diff_tree_to_tree(&t, &head)?;
    assert_eq!(forward.new.len(), backward.deleted.len());
    assert_eq!(forward.deleted.len(), backward.new.len());
    assert_eq!(forward.modified.len(), backward.modified.len());
    Ok(())
}

#[test]
fn diff_rev_index_of_head_is_staged_changes() -> BitResult<()> {
    let mut repo = sample_repo();
    touch(&mut repo, "newfile", "new");
    repo.bit_add(&vec![b"newfile".to_vec()])?;
    let diff = repo.diff_rev_index(b"HEAD")?;
    assert_eq!(diff.new.len(), 1);
    assert_eq!(diff.new[0].path, b"newfile".to_vec());
    let head = repo.fully_resolve_head()?;
    let same = repo.diff_treeish_index(&head)?;
    assert_eq!(same.new.len(), 1);
    Ok(())
}

#[test]
fn bit_create_branch_points_at_revision() -> BitResult<()> {
    let mut repo = sample_repo();
    let head = repo.fully_resolve_head()?;
    let b = repo.bit_create_branch(b"topic", b"HEAD")?;
    assert_eq!(b, BitRef::Symbolic(b"refs/heads/topic".to_vec()));
    assert!(repo.fully_resolve_ref(&b)?.same(&head));
    assert_eq!(repo.bit_create_branch(b"", b"HEAD"), Err(BitError::InvalidBranchName(Vec::new())));
    Ok(())
}

#[test]
fn bit_add_of_nothing_fails() {
    let mut repo = sample_repo();
    assert_eq!(repo.bit_add(&vec![b"no-such-file".to_vec()]), Err(BitError::NoFilesMatched(b"no-such-file".to_vec())));
}

#[test]
fn bit_add_of_deleted_file_fails_and_changes_nothing() -> BitResult<()> {
    let mut repo = sample_repo();
    rm(&mut repo, "foo");
    assert_eq!(repo.bit_add(&vec![b"foo".to_vec()]), Err(BitError::NoFilesMatched(b"foo".to_vec())));
    assert!(repo.index().find_entry(b"foo", MergeStage::Normal).is_some());
    Ok(())
}

#[test]
fn bit_add_of_a_directory_stages_the_files_under_it() -> BitResult<()> {
    let mut repo = sample_repo();
    touch(&mut repo, "dir/baz", "changed baz");
    touch(&mut repo, "dir/new", "new");
    touch(&mut repo, "foo", "changed foo");
    repo.bit_add(&vec![b"dir".to_vec()])?;
    let e = repo.index().find_entry(b"dir/baz", MergeStage::Normal).expect("staged");
    let blob = BitObjKind::Blob(libbit::obj::Blob { bytes: b"changed baz".to_vec() });
    assert!(e.oid.same(&blob.hash()));
    assert!(repo.index().find_entry(b"dir/new", MergeStage::Normal).is_some());
    let foo = repo.index().find_entry(b"foo", MergeStage::Normal).expect("still staged");
    let changed = BitObjKind::Blob(libbit::obj::Blob { bytes: b"changed foo".to_vec() });
    assert!(!foo.oid.same(&changed.hash()));
    Ok(())
}

#[test]
fn bit_add_of_match_all_on_an_empty_worktree_is_no_error() -> BitResult<()> {
    let mut repo = BitRepo::new();
    repo.bit_add(&vec![b".".to_vec()])?;
    assert_eq!(repo.bit_add(&vec![b"x".to_vec()]), Err(BitError::NoFilesMatched(b"x".to_vec())));
    Ok(())
}

#[test]
fn bit_create_branch_rejects_invalid_names() {
    let mut repo = sample_repo();
    for name in ["a..b", "a b", ".hidden", "a/", "x.lock", "a/b.lock/c", "@", "a@{b", "a~1", "a:b", "a//b"] {
        assert_eq!(repo.bit_create_branch(name.as_bytes(), b"HEAD"), Err(BitError::InvalidBranchName(name.as_bytes().to_vec())), "{}", name);
    }
    assert!(repo.bit_create_branch(b"feature/x", b"HEAD").is_ok());
}

#[test]
fn bit_add_stages_contents_and_mode() -> BitResult<()> {
    let mut repo = sample_repo();
    touch(&mut repo, "foo", "changed");
    repo.bit_add(&vec![b"foo".to_vec()])?;
    let e = repo.index().find_entry(b"foo", MergeStage::Normal).expect("staged");
    let blob = BitObjKind::Blob(libbit::obj::Blob { bytes: b"changed".to_vec() });
    assert!(e.oid.same(&blob.hash()));
    assert_eq!(e.mode, FileMode::REG);
    Ok(())
}

#[test]
fn diff_treeish_index_of_blob_fails() {
    let mut repo = sample_repo();
    let blob = repo.write_blob(b"x".to_vec());
    assert!(repo.diff_treeish_index(&blob).is_err());
}

#[test]
fn staging_a_file_under_a_staged_file_unstages_it() -> BitResult<()> {
    let mut repo = BitRepo::new();
    touch(&mut repo, "a", "file");
    repo.bit_add(&vec![b"a".to_vec()])?;
    rm(&mut repo, "a");
    touch(&mut repo, "a/b", "nested");
    repo.bit_add(&vec![b"a/b".to_vec()])?;
    assert!(repo.index().find_entry(b"a", MergeStage::Normal).is_none());
    assert!(repo.index().find_entry(b"a/b", MergeStage::Normal).is_some());
    // and back: a file where a directory was staged
    rm(&mut repo, "a/b");
    touch(&mut repo, "a", "file again");
    repo.bit_add(&vec![b"a".to_vec()])?;
    assert!(repo.index().find_entry(b"a/b", MergeStage::Normal).is_none());
    assert!(repo.index().find_entry(b"a", MergeStage::Normal).is_some());
    Ok(())
}

#[test]
fn bit_create_branch_from_parent_of_head_points_at_the_parent() -> BitResult<()> {
    let mut repo = sample_repo();
    let head = repo.fully_resolve_head()?;
    let parent = repo.parent_of(head, 1)?;
    assert!(!parent.same(&head));
    let b = repo.bit_create_branch(b"older", b"HEAD^")?;
    assert_eq!(b, BitRef::Symbolic(b"refs/heads/older".to_vec()));
    assert!(repo.fully_resolve_ref(&b)?.same(&parent));
    let c = repo.bit_create_branch(b"same", b"HEAD")?;
    assert!(repo.fully_resolve_ref(&c)?.same(&head));
    Ok(())
}

#[test]
fn write_tree_lists_the_top_level_files_in_the_root_tree() -> BitResult<()> {
    let mut repo = BitRepo::new();
    touch(&mut repo, "a", "first");
    touch(&mut repo, "b", "second");
    touch(&mut repo, "dir/c", "third");
    repo.bit_add_all()?;
    let root = repo.write_tree()?;
    let tree = repo.read_tree(&root)?;
    let names: Vec<&[u8]> = tree.entries.iter().map(|e| e.path.as_slice()).collect();
    assert_eq!(names, vec![b"a".as_slice(), b"b".as_slice(), b"dir".as_slice()]);
    let a = BitObjKind::Blob(libbit::obj::Blob { bytes: b"first".to_vec() });
    assert!(tree.entries[0].oid.same(&a.hash()));
    assert_eq!(tree.entries[0].mode, FileMode::REG);
    assert_eq!(tree.entries[2].mode, FileMode::TREE);
    let sub = repo.read_tree(&tree.entries[2].oid)?;
    assert_eq!(sub.entries.len(), 1);
    assert_eq!(sub.entries[0].path, b"c".to_vec());
    Ok(())
}

#[test]
fn diff_index_worktree_lists_untracked_files_as_new() -> BitResult<()> {
    let mut repo = sample_repo();
    touch(&mut repo, "untracked", "new file");
    let diff = repo.diff_index_worktree();
    assert_eq!(diff.new.len(), 1);
    assert_eq!(diff.new[0].path, b"untracked".to_vec());
    assert!(diff.deleted.is_empty());
    Ok(())
}

#[test]
fn add_all_leaves_nothing_unstaged() -> BitResult<()> {
    let mut repo = BitRepo::new();
    touch(&mut repo, "foo", "foo");
    repo.bit_add_all()?;
    assert!(repo.diff_index_worktree().is_empty());
    let s = repo.diff_ref_index(&BitRef::head())?;
    assert_eq!(s.new.len(), 1);
    assert!(s.deleted.is_empty() && s.modified.is_empty());
    Ok(())
}

#[test]
fn unique_path_takes_the_first_free_name() -> BitResult<()> {
    let mut repo = BitRepo::new();
    touch(&mut repo, "foo", "a");
    touch(&mut repo, "foo_0/bar", "b");
    assert_eq!(libbit::fs::UniquePath::new(&repo, b"foo")?, b"foo_1".to_vec());
    assert_eq!(libbit::fs::UniquePath::new(&repo, b"bar")?, b"bar".to_vec());
    Ok(())
}
