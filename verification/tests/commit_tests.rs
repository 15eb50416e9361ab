use libbit::checkout::CheckoutOpts;
use libbit::iter::TreeIter;
use libbit::commit::CommitOpts;
use libbit::error::{BitError, BitResult};
use libbit::hash::Oid;
use libbit::index::{BitIndexEntry, MergeStage};
use libbit::obj::{BitObjKind, FileMode, Tree, TreeEntry};
use libbit::repo::{BitRef, BitRepo, WorktreeFile};

fn touch(repo: &mut BitRepo, path: &str, content: &str) {
    repo.touch(path.as_bytes(), content.as_bytes());
}

fn modify(repo: &mut BitRepo, path: &str) {
    let mut data = repo.cat(path.as_bytes()).unwrap_or_default();
    data.extend_from_slice(b"\nmodified on ");
    match repo.read_head() {
        BitRef::Symbolic(name) => data.extend_from_slice(name),
        BitRef::Direct(oid) => data.extend_from_slice(oid.to_hex().as_bytes()),
    }
    repo.touch(path.as_bytes(), &data);
}

fn rm(repo: &mut BitRepo, path: &str) {
    repo.rm(path.as_bytes());
}

fn rmdir(repo: &mut BitRepo, path: &str) {
    repo.rmdir_all(path.as_bytes());
}

fn path_exists(repo: &BitRepo, path: &str) -> bool {
    repo.path_exists(path.as_bytes())
}

fn cat(repo: &BitRepo, path: &str) -> String {
    String::from_utf8(repo.cat(path.as_bytes()).expect("file exists")).unwrap()
}

fn commit_all(repo: &mut BitRepo) -> BitResult<Oid> {
    repo.add_all();
    Ok(repo.commit(CommitOpts { message: b"commit".to_vec(), allow_empty: false })?.oid)
}

/// Writes the tree holding the given files (path and contents) and returns its id.
fn tree(repo: &mut BitRepo, files: &[(&str, &str)]) -> Oid {
    let mut files: Vec<(&str, &str)> = files.to_vec();
    files.sort_by(|a, b| a.0.as_bytes().cmp(b.0.as_bytes()));
    let mut entries = Vec::new();
    for (path, content) in files {
        let oid = repo.write_blob(content.as_bytes().to_vec());
        let te = TreeEntry { mode: FileMode::REG, path: path.as_bytes().to_vec(), oid };
        entries.push(BitIndexEntry::from_tree_entry(&te));
    }
    repo.write_tree_of(&entries)
}

/// Writes a commit (without parents) of the tree holding the given files.
fn commit(repo: &mut BitRepo, files: &[(&str, &str)]) -> Oid {
    let t = tree(repo, files);
    repo.commit_tree(t, vec![], b"commit".to_vec())
}

fn rev(oid: Oid) -> String {
    oid.to_hex()
}

fn checkout(repo: &mut BitRepo, rev: &str) -> BitResult<()> {
    repo.checkout_revision(rev.as_bytes(), CheckoutOpts::default())
}

fn force_checkout(repo: &mut BitRepo, rev: &str) -> BitResult<()> {
    repo.checkout_revision(rev.as_bytes(), CheckoutOpts::forced())
}

fn reset_hard(repo: &mut BitRepo, rev: &str) {
    let oid = repo.fully_resolve_rev(rev.as_bytes()).unwrap();
    let tree = repo.read_commit(&oid).unwrap().tree;
    repo.force_checkout_tree(&tree).unwrap();
    repo.update_current_ref(oid);
}

fn branch(repo: &mut BitRepo, name: &str) {
    repo.create_branch(name.as_bytes(), &BitRef::head()).unwrap();
}

fn conflicts_len(err: BitError) -> BitResult<usize> {
    Ok(err.try_into_checkout_conflict()?.len())
}

fn minimal_repo() -> BitRepo {
    let mut repo = BitRepo::new();
    touch(&mut repo, "foo", "default foo contents");
    commit_all(&mut repo).unwrap();
    repo
}

fn sample_repo_with(link: bool) -> BitRepo {
    let mut repo = BitRepo::new();
    touch(&mut repo, "foo", "default foo contents");
    touch(&mut repo, "bar", "default bar contents");
    commit_all(&mut repo).unwrap();
    touch(&mut repo, "dir/bar.l", "");
    touch(&mut repo, "dir/bar/qux", "default qux contents");
    touch(&mut repo, "dir/baz", "default baz contents");
    if link {
        repo.write_file(b"dir/link".to_vec(), WorktreeFile { mode: FileMode::LINK, data: b"../bar".to_vec() });
    }
    commit_all(&mut repo).unwrap();
    repo
}

fn sample_repo() -> BitRepo {
    sample_repo_with(true)
}

fn sample_repo_no_sym() -> BitRepo {
    sample_repo_with(false)
}


#[test]
fn tests_test_non_initial_empty_commit() -> BitResult<()> {
    let mut repo = sample_repo();
    let status = commit_all(&mut repo).unwrap_err().try_into_status_error()?;
    assert!(status.is_empty());
    assert!(!status.is_initial());
    Ok(())
}

#[test]
fn tests_test_initial_empty_commit() -> BitResult<()> {
    let mut repo = BitRepo::new();
    let status = commit_all(&mut repo).unwrap_err().try_into_status_error()?;
    assert!(status.is_empty());
    assert!(status.is_initial());
    Ok(())
}

#[test]
fn mod_test_non_initial_empty_commit() {
    let mut repo = sample_repo();
    let err = commit_all(&mut repo).unwrap_err();
    assert_eq!(err.to_string(), BitError::empty_commit_clean_worktree());
}

#[test]
fn mod_test_initial_empty_commit() {
    let mut repo = BitRepo::new();
    let err = commit_all(&mut repo).unwrap_err();
    assert_eq!(err.to_string(), BitError::empty_commit_empty_worktree());
}

#[test]
fn test_commit_moves_branch_and_records_parent() -> BitResult<()> {
    let mut repo = minimal_repo();
    let first = repo.fully_resolve_head()?;
    touch(&mut repo, "bar", "bar");
    let second = commit_all(&mut repo)?;
    assert_eq!(repo.fully_resolve_rev(b"master")?, second);
    let c = repo.read_commit(&second)?;
    assert_eq!(c.parents, vec![first]);
    assert_eq!(repo.fully_resolve_rev(b"HEAD^")?, first);
    assert_eq!(repo.fully_resolve_rev(b"HEAD~1")?, first);
    assert_eq!(repo.fully_resolve_rev(b"HEAD^0")?, second);
    assert!(repo.fully_resolve_rev(b"HEAD~2").is_err());
    Ok(())
}

#[test]
fn test_write_tree_refuses_conflicts() -> BitResult<()> {
    let mut repo = minimal_repo();
    let oid = repo.write_blob(b"x".to_vec());
    let te = TreeEntry { mode: FileMode::REG, path: b"foo".to_vec(), oid };
    repo.index_add_conflicted(BitIndexEntry::from_tree_entry(&te), MergeStage::Ours);
    assert_eq!(repo.write_tree(), Err(BitError::UnmergedIndex));
    Ok(())
}

#[test]
fn test_write_tree_then_flatten_gives_index() -> BitResult<()> {
    let mut repo = BitRepo::new();
    touch(&mut repo, "a", "1");
    touch(&mut repo, "d/b", "2");
    touch(&mut repo, "d/e/c", "3");
    repo.add_all();
    let t = repo.write_tree()?;
    let flat = repo.flatten_tree(&t)?;
    let index = repo.index_flat();
    for path in [&b"a"[..], b"d/b", b"d/e/c"] {
        assert_eq!(flat.get(path).unwrap().oid, index.get(path).unwrap().oid);
    }
    assert_eq!(flat.get(b"d").unwrap().mode, FileMode::TREE);
    assert_eq!(flat.get(b"d/e").unwrap().mode, FileMode::TREE);
    assert_eq!(flat.len(), 5);
    Ok(())
}

#[test]
fn test_branch_names() -> BitResult<()> {
    let mut repo = minimal_repo();
    let head = repo.fully_resolve_head()?;
    assert_eq!(repo.create_branch(b"", &BitRef::head()), Err(BitError::InvalidBranchName(Vec::new())));
    repo.create_branch(b"feature", &BitRef::head())?;
    assert_eq!(repo.fully_resolve_rev(b"refs/heads/feature")?, head);
    assert_eq!(repo.fully_resolve_rev(b"feature")?, head);
    assert!(repo.fully_resolve_rev(b"nonexistent").is_err());
    assert_eq!(repo.resolve_rev(b"feature")?, BitRef::Symbolic(b"refs/heads/feature".to_vec()));
    assert_eq!(repo.resolve_rev(head.to_hex().as_bytes())?, BitRef::Direct(head));
    Ok(())
}

#[test]
fn error_messages_name_what_went_wrong() {
    assert_eq!(BitError::InvalidBranchName(b"a..b".to_vec()).to_string(), "invalid branch name `a..b`");
    assert_eq!(
        BitError::NoFilesMatched(b"foo".to_vec()).to_string(),
        "no files added: pathspec `foo` did not match any files"
    );
    assert_eq!(BitError::UnmergedIndex.to_string(), "cannot write-tree an an index that is not fully merged");
    let oid = repo_blob_id();
    assert_eq!(
        BitError::ObjectNotFound(oid).to_string(),
        format!("bit object with hash `{}` not found", oid.to_hex())
    );
}

fn repo_blob_id() -> Oid {
    let mut repo = BitRepo::new();
    repo.write_blob(b"some blob".to_vec())
}

#[test]
fn empty_initial_commit_carries_an_empty_status() {
    let mut repo = BitRepo::new();
    let err = match repo.commit(CommitOpts { message: b"msg".to_vec(), allow_empty: false }) {
        Ok(_) => panic!("an empty commit went through"),
        Err(e) => e,
    };
    let s = err.try_into_status_error().unwrap();
    assert!(s.is_empty());
    assert!(s.initial);
}

#[test]
fn ls_files_shows_paths_and_staged_modes() {
    let mut repo = BitRepo::new();
    repo.touch(b"b", b"bee");
    repo.touch(b"a", b"ay");
    repo.bit_add_all().unwrap();
    let plain = repo.ls_files(&libbit::cmd::BitLsFilesOpts { stage: false });
    assert_eq!(plain, vec![b"a\n".to_vec(), b"b\n".to_vec()]);
    let staged = repo.ls_files(&libbit::cmd::BitLsFilesOpts { stage: true });
    let a = BitObjKind::Blob(libbit::obj::Blob { bytes: b"ay".to_vec() }).hash();
    assert_eq!(staged[0], format!("100644 {} 0\ta\n", a.to_hex()).into_bytes());
}

#[test]
fn cat_file_shows_type_and_size() {
    let mut repo = BitRepo::new();
    let blob = repo.write_blob(b"hello".to_vec());
    let rev = blob.to_hex().into_bytes();
    let show = |op| libbit::cmd::BitCatFileOpts { rev: rev.clone(), op };
    assert_eq!(repo.cat_file(&show(libbit::cmd::BitCatFileOperation::ShowType)).unwrap(), b"blob\n".to_vec());
    assert_eq!(repo.cat_file(&show(libbit::cmd::BitCatFileOperation::ShowSize)).unwrap(), b"5\n".to_vec());
    assert_eq!(repo.cat_file(&show(libbit::cmd::BitCatFileOperation::PrettyPrint)).unwrap(), b"hello\n".to_vec());
    assert_eq!(repo.cat_file(&show(libbit::cmd::BitCatFileOperation::Exit)).unwrap(), Vec::<u8>::new());
    let missing = libbit::cmd::BitCatFileOpts { rev: b"0123456789012345678901234567890123456789".to_vec(), op: libbit::cmd::BitCatFileOperation::Exit };
    assert!(repo.cat_file(&missing).is_err());
}
