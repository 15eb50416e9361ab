use libbit::checkout::CheckoutOpts;
use libbit::iter::TreeIter;
use libbit::commit::CommitOpts;
use libbit::error::{BitError, BitResult};
use libbit::hash::Oid;
use libbit::index::{BitIndexEntry, MergeStage};
use libbit::obj::{BitObjKind, FileMode, Tree, TreeEntry};
use libbit::repo::{BitRef, BitRepo, WorktreeFile};

fn touch(repo: &mut BitRepo, path: &str, content: &str) {
    repo.touch(path.as_bytes(), content.as_bytes());
}

fn modify(repo: &mut BitRepo, path: &str) {
    let mut data = repo.cat(path.as_bytes()).unwrap_or_default();
    data.extend_from_slice(b"\nmodified on ");
    match repo.read_head() {
        BitRef::Symbolic(name) => data.extend_from_slice(name),
        BitRef::Direct(oid) => data.extend_from_slice(oid.to_hex().as_bytes()),
    }
    repo.touch(path.as_bytes(), &data);
}

fn rm(repo: &mut BitRepo, path: &str) {
    repo.rm(path.as_bytes());
}

fn rmdir(repo: &mut BitRepo, path: &str) {
    repo.rmdir_all(path.as_bytes());
}

fn path_exists(repo: &BitRepo, path: &str) -> bool {
    repo.path_exists(path.as_bytes())
}

fn cat(repo: &BitRepo, path: &str) -> String {
    String::from_utf8(repo.cat(path.as_bytes()).expect("file exists")).unwrap()
}

fn commit_all(repo: &mut BitRepo) -> BitResult<Oid> {
    repo.add_all();
    Ok(repo.commit(CommitOpts { message: b"commit".to_vec(), allow_empty: false })?.oid)
}

/// Writes the tree holding the given files (path and contents) and returns its id.
fn tree(repo: &mut BitRepo, files: &[(&str, &str)]) -> Oid {
    let mut files: Vec<(&str, &str)> = files.to_vec();
    files.sort_by(|a, b| a.0.as_bytes().cmp(b.0.as_bytes()));
    let mut entries = Vec::new();
    for (path, content) in files {
        let oid = repo.write_blob(content.as_bytes().to_vec());
        let te = TreeEntry { mode: FileMode::REG, path: path.as_bytes().to_vec(), oid };
        entries.push(BitIndexEntry::from_tree_entry(&te));
    }
    repo.write_tree_of(&entries)
}

/// Writes a commit (without parents) of the tree holding the given files.
fn commit(repo: &mut BitRepo, files: &[(&str, &str)]) -> Oid {
    let t = tree(repo, files);
    repo.commit_tree(t, vec![], b"commit".to_vec())
}

fn rev(oid: Oid) -> String {
    oid.to_hex()
}

fn checkout(repo: &mut BitRepo, rev: &str) -> BitResult<()> {
    repo.checkout_revision(rev.as_bytes(), CheckoutOpts::default())
}

fn force_checkout(repo: &mut BitRepo, rev: &str) -> BitResult<()> {
    repo.checkout_revision(rev.as_bytes(), CheckoutOpts::forced())
}

fn reset_hard(repo: &mut BitRepo, rev: &str) {
    let oid = repo.fully_resolve_rev(rev.as_bytes()).unwrap();
    let tree = repo.read_commit(&oid).unwrap().tree;
    repo.force_checkout_tree(&tree).unwrap();
    repo.update_current_ref(oid);
}

fn branch(repo: &mut BitRepo, name: &str) {
    repo.create_branch(name.as_bytes(), &BitRef::head()).unwrap();
}

fn conflicts_len(err: BitError) -> BitResult<usize> {
    Ok(err.try_into_checkout_conflict()?.len())
}

fn minimal_repo() -> BitRepo {
    let mut repo = BitRepo::new();
    touch(&mut repo, "foo", "default foo contents");
    commit_all(&mut repo).unwrap();
    repo
}

fn sample_repo_with(link: bool) -> BitRepo {
    let mut repo = BitRepo::new();
    touch(&mut repo, "foo", "default foo contents");
    touch(&mut repo, "bar", "default bar contents");
    commit_all(&mut repo).unwrap();
    touch(&mut repo, "dir/bar.l", "");
    touch(&mut repo, "dir/bar/qux", "default qux contents");
    touch(&mut repo, "dir/baz", "default baz contents");
    if link {
        repo.write_file(b"dir/link".to_vec(), WorktreeFile { mode: FileMode::LINK, data: b"../bar".to_vec() });
    }
    commit_all(&mut repo).unwrap();
    repo
}

fn sample_repo() -> BitRepo {
    sample_repo_with(true)
}

fn sample_repo_no_sym() -> BitRepo {
    sample_repo_with(false)
}


fn path_of(e: &Option<TreeEntry>) -> Option<String> {
    e.as_ref().map(|e| String::from_utf8(e.path.clone()).unwrap())
}

fn check_next(entry: Option<TreeEntry>, path: &str, mode: FileMode) {
    let entry = entry.expect("an entry");
    assert_eq!(String::from_utf8(entry.path).unwrap(), path);
    assert_eq!(entry.mode, mode);
}

fn next_entries(walk: &mut libbit::iter::WalkIterators) -> [Option<String>; 3] {
    let v = walk.next().unwrap();
    [path_of(&v[0]), path_of(&v[1]), path_of(&v[2])]
}

fn some(s: &str) -> Option<String> {
    Some(s.to_string())
}

#[test]
fn test_head_iterator() -> BitResult<()> {
    let repo = sample_repo();
    let entries = repo.head_iter()?;
    assert_eq!(entries.len(), 6);
    let keys: Vec<Vec<u8>> = entries.iter().map(|e| e.path.clone()).collect();
    let mut sorted = keys.clone();
    sorted.sort();
    assert_eq!(keys, sorted);

    let mut iter = entries.into_iter();
    check_next(iter.next(), "bar", FileMode::REG);
    check_next(iter.next(), "dir/bar.l", FileMode::REG);
    check_next(iter.next(), "dir/bar/qux", FileMode::REG);
    check_next(iter.next(), "dir/baz", FileMode::REG);
    check_next(iter.next(), "dir/link", FileMode::LINK);
    check_next(iter.next(), "foo", FileMode::REG);
    assert_eq!(iter.next(), None);
    Ok(())
}

#[test]
fn test_walk_three_iterators() -> BitResult<()> {
    let mut repo = BitRepo::new();
    let tree_a = tree(&mut repo, &[("a/b", "")]);
    let tree_b = tree(&mut repo, &[("a/c", ""), ("b/d", "")]);
    let tree_c = tree(&mut repo, &[("b/c", "")]);

    let mut iter = repo.walk_iterators(vec![repo.tree_iter(tree_a)?, repo.tree_iter(tree_b)?, repo.tree_iter(tree_c)?]);

    assert_eq!(next_entries(&mut iter), [some(""), some(""), some("")]);
    assert_eq!(next_entries(&mut iter), [some("a"), some("a"), None]);
    assert_eq!(next_entries(&mut iter), [some("a/b"), None, None]);
    assert_eq!(next_entries(&mut iter), [None, some("a/c"), None]);
    assert_eq!(next_entries(&mut iter), [None, some("b"), some("b")]);
    assert_eq!(next_entries(&mut iter), [None, None, some("b/c")]);
    assert_eq!(next_entries(&mut iter), [None, some("b/d"), None]);
    assert!(iter.next().is_none());
    Ok(())
}

#[test]
fn test_walk_three_iterators_steps_over_same_tree() -> BitResult<()> {
    let mut repo = BitRepo::new();
    let tree_a = tree(&mut repo, &[("a", ""), ("x/b/c", ""), ("x/d", ""), ("z", "")]);
    let tree_b = tree(&mut repo, &[("b", ""), ("x/b/c", ""), ("x/d", ""), ("z", "")]);
    let tree_c = tree(&mut repo, &[("a", ""), ("x/b/c", ""), ("x/d", ""), ("y", ""), ("z", "")]);

    let mut iter = repo.walk_iterators(vec![repo.tree_iter(tree_a)?, repo.tree_iter(tree_b)?, repo.tree_iter(tree_c)?]);

    assert_eq!(next_entries(&mut iter), [some(""), some(""), some("")]);
    assert_eq!(next_entries(&mut iter), [some("a"), None, some("a")]);
    assert_eq!(next_entries(&mut iter), [None, some("b"), None]);
    assert_eq!(next_entries(&mut iter), [some("x"), some("x"), some("x")]);
    assert_eq!(next_entries(&mut iter), [None, None, some("y")]);
    assert_eq!(next_entries(&mut iter), [some("z"), some("z"), some("z")]);
    assert!(iter.next().is_none());
    Ok(())
}

#[test]
fn test_empty_tree_iter_yields_root_only() -> BitResult<()> {
    let repo = BitRepo::new();
    let mut iter = repo.tree_iter(Oid::unknown())?;
    let root = iter.next().unwrap();
    assert_eq!(root.oid, Oid::unknown());
    assert_eq!(root.mode, FileMode::TREE);
    assert_eq!(root.path, Vec::<u8>::new());
    assert!(iter.next().is_none());
    Ok(())
}

#[test]
fn test_tree_iterator_step_over() -> BitResult<()> {
    let repo = sample_repo();
    let mut iter = repo.head_tree_iter()?;
    check_next(iter.next(), "", FileMode::TREE);
    check_next(iter.next(), "bar", FileMode::REG);
    check_next(iter.over(), "dir", FileMode::TREE);
    check_next(iter.over(), "foo", FileMode::REG);
    assert_eq!(iter.next(), None);
    Ok(())
}

#[test]
fn test_tree_iterator_peekable() -> BitResult<()> {
    let repo = sample_repo();
    let mut iter = repo.head_tree_iter()?;
    check_next(iter.peek(), "", FileMode::TREE);
    check_next(iter.next(), "", FileMode::TREE);
    check_next(iter.peek(), "bar", FileMode::REG);
    check_next(iter.next(), "bar", FileMode::REG);
    check_next(iter.over(), "dir", FileMode::TREE);
    check_next(iter.next(), "foo", FileMode::REG);
    assert_eq!(iter.next(), None);
    assert_eq!(iter.peek(), None);
    Ok(())
}

#[test]
fn test_tree_iterator_peekable_step_over_peeked() -> BitResult<()> {
    let repo = sample_repo();
    let mut iter = repo.head_tree_iter()?;
    check_next(iter.next(), "", FileMode::TREE);
    check_next(iter.peek(), "bar", FileMode::REG);
    check_next(iter.over(), "bar", FileMode::REG);
    check_next(iter.over(), "dir", FileMode::TREE);
    check_next(iter.over(), "foo", FileMode::REG);
    assert_eq!(iter.next(), None);
    Ok(())
}

#[test]
fn test_tree_tree_iterator_step_over_multiple_nested() -> BitResult<()> {
    let mut repo = BitRepo::new();
    let oid = tree(
        &mut repo,
        &[
            ("outer/a/x", ""),
            ("outer/a/y", ""),
            ("outer/a/z", ""),
            ("outer/b/c/k", ""),
            ("outer/b/c/m", ""),
            ("outer/b/c/n", ""),
            ("outer/b/d", ""),
            ("outer/c/w", ""),
            ("outer/c/y", ""),
        ],
    );
    let mut iter = repo.tree_iter(oid)?;
    check_next(iter.next(), "", FileMode::TREE);
    check_next(iter.next(), "outer", FileMode::TREE);
    check_next(iter.over(), "outer/a", FileMode::TREE);
    check_next(iter.next(), "outer/b", FileMode::TREE);
    check_next(iter.over(), "outer/b/c", FileMode::TREE);
    check_next(iter.over(), "outer/b/d", FileMode::REG);
    check_next(iter.over(), "outer/c", FileMode::TREE);
    Ok(())
}

#[test]
fn test_tree_tree_iterator_step_over_multiple() -> BitResult<()> {
    let mut repo = BitRepo::new();
    let dir2 = repo.write_obj(BitObjKind::Tree(Tree { entries: vec![] }));
    let inner = tree(&mut repo, &[("dir0/test.txt", ""), ("dir1/dir2.txt", ""), ("dir1/nested/coolfile.txt", ""), ("dir3/file", "")]);
    let mut entries = match repo.read_obj(&inner)? {
        BitObjKind::Tree(t) => t.entries.clone(),
        _ => panic!("expected a tree"),
    };
    entries.insert(2, TreeEntry { mode: FileMode::TREE, path: b"dir2".to_vec(), oid: dir2 });
    let oid = repo.write_obj(BitObjKind::Tree(Tree { entries }));
    let mut iter: TreeIter = repo.tree_iter(oid)?;
    check_next(iter.next(), "", FileMode::TREE);
    check_next(iter.over(), "dir0", FileMode::TREE);
    check_next(iter.over(), "dir1", FileMode::TREE);
    check_next(iter.over(), "dir2", FileMode::TREE);
    check_next(iter.over(), "dir3", FileMode::TREE);
    Ok(())
}

#[test]
fn test_build_tree_from_tree_iter() -> BitResult<()> {
    let mut repo = sample_repo();
    let mut iter = repo.head_tree_iter()?;
    let mut entries = Vec::new();
    while let Some(e) = iter.next() {
        if !e.mode.is_tree() {
            entries.push(BitIndexEntry::from_tree_entry(&e));
        }
    }
    let tree = repo.write_tree_of(&entries);
    assert!(tree.same(&repo.head_tree()?));
    Ok(())
}
