use libbit::checkout::CheckoutOpts;
use libbit::graph::dag::DagBuilder;
use libbit::index::{Conflict, ConflictType};
use libbit::merge::{MergeOpts, MergeResults};
use libbit::commit::CommitOpts;
use libbit::error::{BitError, BitResult};
use libbit::hash::Oid;
use libbit::index::{BitIndexEntry, MergeStage};
use libbit::obj::{BitObjKind, FileMode, Tree, TreeEntry};
use libbit::repo::{BitRef, BitRepo, WorktreeFile};

fn touch(repo: &mut BitRepo, path: &str, content: &str) {
    repo.touch(path.as_bytes(), content.as_bytes());
}

fn modify(repo: &mut BitRepo, path: &str) {
    let mut data = repo.cat(path.as_bytes()).unwrap_or_default();
    data.extend_from_slice(b"\nmodified on ");
    match repo.read_head() {
        BitRef::Symbolic(name) => data.extend_from_slice(name),
        BitRef::Direct(oid) => data.extend_from_slice(oid.to_hex().as_bytes()),
    }
    repo.touch(path.as_bytes(), &data);
}

fn rm(repo: &mut BitRepo, path: &str) {
    repo.rm(path.as_bytes());
}

fn rmdir(repo: &mut BitRepo, path: &str) {
    repo.rmdir_all(path.as_bytes());
}

fn path_exists(repo: &BitRepo, path: &str) -> bool {
    repo.path_exists(path.as_bytes())
}

fn cat(repo: &BitRepo, path: &str) -> String {
    String::from_utf8(repo.cat(path.as_bytes()).expect("file exists")).unwrap()
}

fn commit_all(repo: &mut BitRepo) -> BitResult<Oid> {
    repo.add_all();
    Ok(repo.commit(CommitOpts { message: b"commit".to_vec(), allow_empty: false })?.oid)
}

/// Writes the tree holding the given files (path and contents) and returns its id.
fn tree(repo: &mut BitRepo, files: &[(&str, &str)]) -> Oid {
    let mut files: Vec<(&str, &str)> = files.to_vec();
    files.sort_by(|a, b| a.0.as_bytes().cmp(b.0.as_bytes()));
    let mut entries = Vec::new();
    for (path, content) in files {
        let oid = repo.write_blob(content.as_bytes().to_vec());
        let te = TreeEntry { mode: FileMode::REG, path: path.as_bytes().to_vec(), oid };
        entries.push(BitIndexEntry::from_tree_entry(&te));
    }
    repo.write_tree_of(&entries)
}

/// Writes a commit (without parents) of the tree holding the given files.
fn commit(repo: &mut BitRepo, files: &[(&str, &str)]) -> Oid {
    let t = tree(repo, files);
    repo.commit_tree(t, vec![], b"commit".to_vec())
}

fn rev(oid: Oid) -> String {
    oid.to_hex()
}

fn checkout(repo: &mut BitRepo, rev: &str) -> BitResult<()> {
    repo.checkout_revision(rev.as_bytes(), CheckoutOpts::default())
}

fn force_checkout(repo: &mut BitRepo, rev: &str) -> BitResult<()> {
    repo.checkout_revision(rev.as_bytes(), CheckoutOpts::forced())
}

fn reset_hard(repo: &mut BitRepo, rev: &str) {
    let oid = repo.fully_resolve_rev(rev.as_bytes()).unwrap();
    let tree = repo.read_commit(&oid).unwrap().tree;
    repo.force_checkout_tree(&tree).unwrap();
    repo.update_current_ref(oid);
}

fn branch(repo: &mut BitRepo, name: &str) {
    repo.create_branch(name.as_bytes(), &BitRef::head()).unwrap();
}

fn conflicts_len(err: BitError) -> BitResult<usize> {
    Ok(err.try_into_checkout_conflict()?.len())
}

fn minimal_repo() -> BitRepo {
    let mut repo = BitRepo::new();
    touch(&mut repo, "foo", "default foo contents");
    commit_all(&mut repo).unwrap();
    repo
}

fn sample_repo_with(link: bool) -> BitRepo {
    let mut repo = BitRepo::new();
    touch(&mut repo, "foo", "default foo contents");
    touch(&mut repo, "bar", "default bar contents");
    commit_all(&mut repo).unwrap();
    touch(&mut repo, "dir/bar.l", "");
    touch(&mut repo, "dir/bar/qux", "default qux contents");
    touch(&mut repo, "dir/baz", "default baz contents");
    if link {
        repo.write_file(b"dir/link".to_vec(), WorktreeFile { mode: FileMode::LINK, data: b"../bar".to_vec() });
    }
    commit_all(&mut repo).unwrap();
    repo
}

fn sample_repo() -> BitRepo {
    sample_repo_with(true)
}

fn sample_repo_no_sym() -> BitRepo {
    sample_repo_with(false)
}


fn commit_allow_empty(repo: &mut BitRepo) -> BitResult<Oid> {
    Ok(repo.commit(CommitOpts { message: b"commit".to_vec(), allow_empty: true })?.oid)
}

fn checkout_new_branch(repo: &mut BitRepo, name: &str) -> BitResult<()> {
    repo.create_branch(name.as_bytes(), &BitRef::head())?;
    let mut full = b"refs/heads/".to_vec();
    full.extend_from_slice(name.as_bytes());
    repo.checkout(BitRef::Symbolic(full), CheckoutOpts::default())
}

fn branch_at(repo: &mut BitRepo, name: &str, rev: &str) {
    let r = repo.resolve_rev(rev.as_bytes()).unwrap();
    repo.create_branch(name.as_bytes(), &r).unwrap();
}

fn merge(repo: &mut BitRepo, rev: &str) -> BitResult<MergeResults> {
    repo.merge_rev(rev.as_bytes(), MergeOpts::default())
}

fn p(s: &str) -> Vec<u8> {
    s.as_bytes().to_vec()
}

fn minimal_repo_with_dir() -> BitRepo {
    let mut repo = BitRepo::new();
    touch(&mut repo, "foo", "default foo contents");
    touch(&mut repo, "dir/bar", "default bar contents");
    commit_all(&mut repo).unwrap();
    repo
}

fn tree_of_commit(repo: &BitRepo, c: Oid) -> Oid {
    repo.read_commit(&c).unwrap().tree
}

/// Sets up `base` (the current HEAD), `theirs` and `ours` (checked out) from `base`.
fn setup_three_way_merge(repo: &mut BitRepo, ours: Oid, theirs: Oid) -> BitResult<()> {
    commit_allow_empty(repo)?;
    branch(repo, "base");

    checkout_new_branch(repo, "theirs")?;
    let t = tree_of_commit(repo, theirs);
    repo.checkout_tree(&t)?;
    commit_allow_empty(repo)?;

    checkout(repo, "base")?;
    checkout_new_branch(repo, "ours")?;
    let o = tree_of_commit(repo, ours);
    repo.checkout_tree(&o)?;
    commit_allow_empty(repo)?;
    Ok(())
}

fn three_way_merge(repo: &mut BitRepo, ours: Oid, theirs: Oid) -> BitResult<MergeResults> {
    setup_three_way_merge(repo, ours, theirs)?;
    merge(repo, "theirs")
}

fn three_way_merge_with_base(repo: &mut BitRepo, base: Oid, ours: Oid, theirs: Oid) -> BitResult<MergeResults> {
    reset_hard(repo, &rev(base));
    three_way_merge(repo, ours, theirs)
}

/// Writes a commit for every node of `dag`, parents first; the tree of a node is the one
/// given, or that of the index.
fn apply_dag(repo: &mut BitRepo, dag: &DagBuilder, trees: &[Option<Oid>]) -> BitResult<Vec<Oid>> {
    let order = dag.reverse_topological();
    let mut commits: Vec<Option<Oid>> = vec![None; dag.len()];
    for node in order {
        let parents: Vec<Oid> = dag.node_data(node).adjacent().iter().map(|p| commits[*p].unwrap()).collect();
        let tree = match trees.get(node).copied().flatten() {
            Some(t) => t,
            None => repo.write_tree()?,
        };
        let c = repo.commit_tree(tree, parents, b"generated commit".to_vec());
        commits[node] = Some(c);
    }
    Ok(commits.into_iter().map(|c| c.unwrap()).collect())
}


#[test]
fn test_best_common_ancestors() -> BitResult<()> {
    let mut repo = BitRepo::new();
    let mut dag = DagBuilder::new();
    let n = dag.mk_nodes(10);
    let (a, b, c, d, e, f, g, h, i, j) = (n[0], n[1], n[2], n[3], n[4], n[5], n[6], n[7], n[8], n[9]);
    dag.add_parents(&vec![(j, i), (i, e), (i, c), (c, b), (b, a), (e, d), (f, e), (h, g), (g, d), (d, b)]);
    let commits = apply_dag(&mut repo, &dag, &[])?;
    let merge_base = repo.merge_base(commits[h], commits[j])?.unwrap();
    assert_eq!(merge_base, commits[d]);
    Ok(())
}

#[test]
fn test_criss_cross_merge_base() -> BitResult<()> {
    let mut repo = BitRepo::new();
    let mut dag = DagBuilder::new();
    let n = dag.mk_nodes(4);
    let (a, b, c, d) = (n[0], n[1], n[2], n[3]);
    dag.add_parents(&vec![(c, a), (c, b), (d, a), (d, b)]);
    let commits = apply_dag(&mut repo, &dag, &[])?;
    let merge_bases = repo.merge_bases(commits[c], commits[d])?;
    assert_eq!(merge_bases.len(), 2);
    assert_eq!(merge_bases[0], commits[a]);
    assert_eq!(merge_bases[1], commits[b]);
    Ok(())
}

#[test]
fn test_trivial_criss_cross_merge() -> BitResult<()> {
    let mut repo = BitRepo::new();
    let t = tree(&mut repo, &[("foo", "foo contents")]);
    let mut dag = DagBuilder::new();
    let n = dag.mk_nodes(4);
    let (a, b, c, d) = (n[0], n[1], n[2], n[3]);
    dag.add_parents(&vec![(c, a), (c, b), (d, a), (d, b)]);
    let commits = apply_dag(&mut repo, &dag, &[Some(t), Some(t), Some(t), Some(t)])?;
    reset_hard(&mut repo, &rev(commits[c]));
    assert_eq!(cat(&repo, "foo"), "foo contents");
    branch_at(&mut repo, "d", &rev(commits[d]));
    merge(&mut repo, "d")?;
    assert!(repo.status()?.is_empty());
    Ok(())
}

#[test]
fn test_simple_merge() -> BitResult<()> {
    let mut repo = sample_repo();
    branch(&mut repo, "a");
    branch(&mut repo, "b");

    checkout(&mut repo, "a")?;
    let t = tree(&mut repo, &[("sameaddition", "foo"), ("conflicted", "hello from a")]);
    repo.checkout_tree(&t)?;
    commit_all(&mut repo)?;

    checkout(&mut repo, "b")?;
    let t = tree(&mut repo, &[("sameaddition", "foo"), ("conflicted", "hello from b")]);
    repo.checkout_tree(&t)?;
    commit_all(&mut repo)?;

    assert_eq!(repo.read_head(), &BitRef::Symbolic(p("refs/heads/b")));

    let conflicts = merge(&mut repo, "a")?.into_conflicts();
    assert_eq!(conflicts.len(), 1);
    let conflict = &conflicts[0];
    assert_eq!(conflict, &Conflict { path: p("conflicted"), conflict_type: ConflictType::BothAdded });
    Ok(())
}

#[test]
fn test_merge_conflict_types() -> BitResult<()> {
    let mut repo = sample_repo();
    branch(&mut repo, "alternative");

    modify(&mut repo, "bar");
    modify(&mut repo, "dir/baz");
    rm(&mut repo, "foo");
    commit_all(&mut repo)?;

    checkout(&mut repo, "alternative")?;
    modify(&mut repo, "foo");
    modify(&mut repo, "dir/baz");
    rm(&mut repo, "bar");
    commit_all(&mut repo)?;

    let conflicts = merge(&mut repo, "master")?.into_conflicts();
    assert_eq!(
        conflicts,
        vec![
            Conflict { path: p("bar"), conflict_type: ConflictType::DeleteModify },
            Conflict { path: p("dir/baz"), conflict_type: ConflictType::BothModified },
            Conflict { path: p("foo"), conflict_type: ConflictType::ModifyDelete }
        ]
    );
    Ok(())
}

#[test]
fn test_null_merge() -> BitResult<()> {
    let mut repo = sample_repo();
    checkout_new_branch(&mut repo, "b")?;
    modify(&mut repo, "foo");
    commit_all(&mut repo)?;
    let merge_results = merge(&mut repo, "master")?;
    assert_eq!(merge_results, MergeResults::Null);
    Ok(())
}

#[test]
fn test_fast_forward_merge() -> BitResult<()> {
    let mut repo = sample_repo();
    checkout_new_branch(&mut repo, "b")?;
    modify(&mut repo, "foo");
    commit_all(&mut repo)?;
    checkout(&mut repo, "master")?;
    let merge_results = merge(&mut repo, "b")?;
    assert!(matches!(merge_results, MergeResults::FastForward { .. }));

    assert_eq!(repo.read_head(), &BitRef::Symbolic(p("refs/heads/master")));
    assert_eq!(repo.fully_resolve_rev(b"master")?, repo.fully_resolve_rev(b"b")?);
    Ok(())
}

#[test]
fn test_merge_base_to_ours_only_with_dir() -> BitResult<()> {
    let mut repo = BitRepo::new();
    let ours = commit(&mut repo, &[("dir/foo", "foo")]);
    let theirs = commit(&mut repo, &[]);
    three_way_merge(&mut repo, ours, theirs)?;
    assert_eq!(cat(&repo, "dir/foo"), "foo");
    Ok(())
}

#[test]
fn test_merge_base_to_theirs_only_with_dir() -> BitResult<()> {
    let mut repo = BitRepo::new();
    let ours = commit(&mut repo, &[]);
    let theirs = commit(&mut repo, &[("dir/foo", "foo")]);
    three_way_merge(&mut repo, ours, theirs)?;
    assert_eq!(cat(&repo, "dir/foo"), "foo");
    Ok(())
}

#[test]
fn test_merge_our_head_only() -> BitResult<()> {
    let mut repo = minimal_repo();
    let base = commit(&mut repo, &[]);
    let ours = commit(&mut repo, &[("foo", "hello")]);
    let theirs = commit(&mut repo, &[]);
    three_way_merge_with_base(&mut repo, base, ours, theirs)?;
    assert_eq!(cat(&repo, "foo"), "hello");
    Ok(())
}

#[test]
fn test_merge_base_only() -> BitResult<()> {
    let mut repo = minimal_repo();
    let ours = commit(&mut repo, &[]);
    let theirs = commit(&mut repo, &[]);
    three_way_merge(&mut repo, ours, theirs)?;
    assert!(!path_exists(&repo, "foo"));
    Ok(())
}

#[test]
fn test_merge_theirs_only() -> BitResult<()> {
    let mut repo = minimal_repo();
    let base = commit(&mut repo, &[]);
    let ours = commit(&mut repo, &[]);
    let theirs = commit(&mut repo, &[("foo", "theirs")]);
    three_way_merge_with_base(&mut repo, base, ours, theirs)?;
    assert_eq!(cat(&repo, "foo"), "theirs");
    Ok(())
}

#[test]
fn test_merge_deleted_in_ours_and_unchanged_in_theirs() -> BitResult<()> {
    let mut repo = minimal_repo();
    let ours = commit(&mut repo, &[]);
    let theirs = commit(&mut repo, &[("foo", "default foo contents")]);
    three_way_merge(&mut repo, ours, theirs)?;
    assert!(!path_exists(&repo, "foo"));
    Ok(())
}

#[test]
fn test_merge_unchanged_in_ours_and_deleted_in_theirs() -> BitResult<()> {
    let mut repo = minimal_repo();
    let ours = commit(&mut repo, &[("foo", "default foo contents")]);
    let theirs = commit(&mut repo, &[]);
    three_way_merge(&mut repo, ours, theirs)?;
    assert!(!path_exists(&repo, "foo"));
    Ok(())
}

#[test]
fn test_merge_deleted_in_ours_and_modified_in_theirs() -> BitResult<()> {
    let mut repo = minimal_repo();
    let ours = commit(&mut repo, &[]);
    let theirs = commit(&mut repo, &[("foo", "modified")]);
    let conflicts = three_way_merge(&mut repo, ours, theirs)?.into_conflicts();
    assert_eq!(conflicts[0], Conflict::new_with_type(p("foo"), ConflictType::DeleteModify));
    Ok(())
}

#[test]
fn test_merge_modified_in_ours_and_deleted_in_theirs() -> BitResult<()> {
    let mut repo = minimal_repo();
    let ours = commit(&mut repo, &[("foo", "modified")]);
    let theirs = commit(&mut repo, &[]);
    let conflicts = three_way_merge(&mut repo, ours, theirs)?.into_conflicts();
    assert_eq!(conflicts[0], Conflict::new_with_type(p("foo"), ConflictType::ModifyDelete));
    Ok(())
}

#[test]
fn test_merge_with_unclean_worktree() -> BitResult<()> {
    let mut repo = minimal_repo();
    let ours = commit(&mut repo, &[("foo", "default foo contents")]);
    let theirs = commit(&mut repo, &[]);
    setup_three_way_merge(&mut repo, ours, theirs)?;
    touch(&mut repo, "foo", "modified");
    Ok(())
}

#[test]
fn test_merge_tree_into_unmodified_file() -> BitResult<()> {
    let mut repo = minimal_repo();
    let ours = commit(&mut repo, &[("foo", "default foo contents")]);
    let theirs = commit(&mut repo, &[("foo/bar", "bar contents")]);
    three_way_merge(&mut repo, ours, theirs)?;
    assert_eq!(cat(&repo, "foo/bar"), "bar contents");
    Ok(())
}

#[test]
fn test_merge_tree_into_modified_file() -> BitResult<()> {
    let mut repo = minimal_repo();
    let ours = commit(&mut repo, &[("foo", "modified foo contents")]);
    let theirs = commit(&mut repo, &[("foo/bar", "bar contents")]);
    let conflicts = three_way_merge(&mut repo, ours, theirs)?.into_conflicts();
    let mut conflicts = conflicts.into_iter();
    assert_eq!(conflicts.next().unwrap(), Conflict::new_with_type(p("foo"), ConflictType::ModifyDelete));
    assert_eq!(cat(&repo, "foo~HEAD"), "modified foo contents");
    assert_eq!(cat(&repo, "foo/bar"), "bar contents");
    Ok(())
}

#[test]
fn test_merge_modified_blob_into_unmodified_blob() -> BitResult<()> {
    let mut repo = minimal_repo();
    let ours = commit(&mut repo, &[("foo", "default foo contents")]);
    let theirs = commit(&mut repo, &[("foo", "modified foo contents")]);
    three_way_merge(&mut repo, ours, theirs)?;
    assert_eq!(cat(&repo, "foo"), "modified foo contents");
    Ok(())
}

#[test]
fn test_merge_unmodified_blob_into_modified_blob() -> BitResult<()> {
    let mut repo = minimal_repo();
    let ours = commit(&mut repo, &[("foo", "modified foo contents")]);
    let theirs = commit(&mut repo, &[("foo", "default foo contents")]);
    three_way_merge(&mut repo, ours, theirs)?;
    assert_eq!(cat(&repo, "foo"), "modified foo contents");
    Ok(())
}

#[test]
fn test_merge_unmodified_blob_into_blob_into_tree() -> BitResult<()> {
    let mut repo = minimal_repo();
    let ours = commit(&mut repo, &[("foo/bar", "bar contents")]);
    let theirs = commit(&mut repo, &[("foo", "default foo contents")]);
    three_way_merge(&mut repo, ours, theirs)?;
    assert_eq!(cat(&repo, "foo/bar"), "bar contents");
    Ok(())
}

#[test]
fn test_merge_blob_into_tree_into_unmodified_blob() -> BitResult<()> {
    let mut repo = minimal_repo();
    let ours = commit(&mut repo, &[("foo", "default foo contents")]);
    let theirs = commit(&mut repo, &[("foo/bar", "bar contents")]);
    three_way_merge(&mut repo, ours, theirs)?;
    assert_eq!(cat(&repo, "foo/bar"), "bar contents");
    Ok(())
}

#[test]
fn test_merge_modified_file_into_tree() -> BitResult<()> {
    let mut repo = minimal_repo();
    let ours = commit(&mut repo, &[("foo/bar", "bar contents")]);
    let theirs = commit(&mut repo, &[("foo", "modified foo contents")]);
    touch(&mut repo, "foo~theirs", "");
    touch(&mut repo, "foo~theirs_0", "");
    touch(&mut repo, "foo~theirs_2", "");
    let conflicts = three_way_merge(&mut repo, ours, theirs)?.into_conflicts();
    let mut conflicts = conflicts.into_iter();
    assert_eq!(conflicts.next().unwrap(), Conflict::new_with_type(p("foo"), ConflictType::DeleteModify));
    assert_eq!(cat(&repo, "foo~theirs_1"), "modified foo contents");
    assert_eq!(cat(&repo, "foo/bar"), "bar contents");
    Ok(())
}

#[test]
fn test_merge_deleted_tree_into_modified_tree() -> BitResult<()> {
    let mut repo = minimal_repo_with_dir();
    let ours = commit(&mut repo, &[("dir/bar", "modified bar contents")]);
    let theirs = commit(&mut repo, &[]);
    let conflicts = three_way_merge(&mut repo, ours, theirs)?.into_conflicts();
    let mut conflicts = conflicts.into_iter();
    assert_eq!(conflicts.next().unwrap(), Conflict::new_with_type(p("dir/bar"), ConflictType::ModifyDelete));
    assert_eq!(cat(&repo, "dir/bar"), "modified bar contents");
    Ok(())
}

#[test]
fn test_merge_modified_tree_into_deleted_tree() -> BitResult<()> {
    let mut repo = minimal_repo_with_dir();
    let ours = commit(&mut repo, &[]);
    let theirs = commit(&mut repo, &[("dir/bar", "modified bar contents")]);
    let conflicts = three_way_merge(&mut repo, ours, theirs)?.into_conflicts();
    let mut conflicts = conflicts.into_iter();
    assert_eq!(conflicts.next().unwrap(), Conflict::new_with_type(p("dir/bar"), ConflictType::DeleteModify));
    assert_eq!(cat(&repo, "dir/bar"), "modified bar contents");
    Ok(())
}

#[test]
fn test_merge_blob_to_tree_into_deleted_blob() -> BitResult<()> {
    let mut repo = minimal_repo();
    let ours = commit(&mut repo, &[]);
    let theirs = commit(&mut repo, &[("foo/bar", "bar contents")]);
    three_way_merge(&mut repo, ours, theirs)?;
    assert_eq!(cat(&repo, "foo/bar"), "bar contents");
    Ok(())
}

#[test]
fn test_merge_deleted_blob_into_blob_to_tree() -> BitResult<()> {
    let mut repo = minimal_repo();
    let ours = commit(&mut repo, &[("foo/bar", "bar contents")]);
    let theirs = commit(&mut repo, &[]);
    three_way_merge(&mut repo, ours, theirs)?;
    assert_eq!(cat(&repo, "foo/bar"), "bar contents");
    Ok(())
}

#[test]
fn test_merge_tree_to_blob_into_modified_tree() -> BitResult<()> {
    let mut repo = minimal_repo_with_dir();
    let ours = commit(&mut repo, &[("dir/bar", "modified bar contents")]);
    let theirs = commit(&mut repo, &[("dir", "dir is now a file")]);
    let conflicts = three_way_merge(&mut repo, ours, theirs)?.into_conflicts();
    let mut conflicts = conflicts.into_iter();
    assert_eq!(conflicts.next().unwrap(), Conflict::new_with_type(p("dir"), ConflictType::AddedByThem));
    assert_eq!(conflicts.next().unwrap(), Conflict::new_with_type(p("dir/bar"), ConflictType::ModifyDelete));
    assert_eq!(cat(&repo, "dir~theirs"), "dir is now a file");
    assert_eq!(cat(&repo, "dir/bar"), "modified bar contents");
    Ok(())
}

#[test]
fn test_merge_modified_tree_into_tree_to_blob() -> BitResult<()> {
    let mut repo = minimal_repo_with_dir();
    let ours = commit(&mut repo, &[("dir", "dir is now a file")]);
    let theirs = commit(&mut repo, &[("dir/bar", "modified bar contents")]);
    let conflicts = three_way_merge(&mut repo, ours, theirs)?.into_conflicts();
    let mut conflicts = conflicts.into_iter();
    assert_eq!(conflicts.next().unwrap(), Conflict::new_with_type(p("dir"), ConflictType::AddedByUs));
    assert_eq!(conflicts.next().unwrap(), Conflict::new_with_type(p("dir/bar"), ConflictType::DeleteModify));
    assert_eq!(cat(&repo, "dir~HEAD"), "dir is now a file");
    assert_eq!(cat(&repo, "dir/bar"), "modified bar contents");
    Ok(())
}

#[test]
fn test_merge_unmodified_tree_into_deleted_tree() -> BitResult<()> {
    let mut repo = minimal_repo_with_dir();
    let ours = commit(&mut repo, &[]);
    let theirs = commit(&mut repo, &[("dir/bar", "default bar contents")]);
    three_way_merge(&mut repo, ours, theirs)?;
    assert!(!path_exists(&repo, "dir"));
    Ok(())
}

#[test]
fn test_merge_unmodified_tree_into_nested_deleted_tree() -> BitResult<()> {
    let mut repo = minimal_repo_with_dir();
    let base = commit(&mut repo, &[("dir/nested/bar", "default bar contents"), ("dir/bar", "")]);
    let ours = commit(&mut repo, &[]);
    let theirs = base;
    three_way_merge_with_base(&mut repo, base, ours, theirs)?;
    assert!(!path_exists(&repo, "dir"));
    Ok(())
}

#[test]
fn test_merge_deleted_tree_into_unmodified_tree() -> BitResult<()> {
    let mut repo = minimal_repo_with_dir();
    let ours = commit(&mut repo, &[("dir/bar", "default bar contents")]);
    let theirs = commit(&mut repo, &[]);
    three_way_merge(&mut repo, ours, theirs)?;
    assert!(!path_exists(&repo, "dir"));
    Ok(())
}

#[test]
fn test_merge_nested_deleted_tree_into_unmodified_tree() -> BitResult<()> {
    let mut repo = minimal_repo_with_dir();
    let base = commit(&mut repo, &[("dir/nested/bar", "default bar contents"), ("dir/bar", "")]);
    let ours = base;
    let theirs = commit(&mut repo, &[]);
    three_way_merge_with_base(&mut repo, base, ours, theirs)?;
    assert!(!path_exists(&repo, "dir"));
    Ok(())
}

#[test]
fn test_merge_created_tree_into_created_blob() -> BitResult<()> {
    let mut repo = BitRepo::new();
    let ours = commit(&mut repo, &[("foo", "some foo contents")]);
    let theirs = commit(&mut repo, &[("foo/bar", "some bar contents")]);
    touch(&mut repo, "foo~HEAD", "original foo~HEAD");
    touch(&mut repo, "foo~HEAD_0", "original foo~HEAD_0");
    touch(&mut repo, "foo~HEAD_1", "");
    touch(&mut repo, "foo~HEAD_2", "");
    let conflicts = three_way_merge(&mut repo, ours, theirs)?.into_conflicts();
    let mut conflicts = conflicts.into_iter();
    assert_eq!(conflicts.next().unwrap(), Conflict::new_with_type(p("foo"), ConflictType::AddedByUs));
    assert_eq!(cat(&repo, "foo~HEAD_3"), "some foo contents");
    assert_eq!(cat(&repo, "foo/bar"), "some bar contents");
    Ok(())
}

#[test]
fn test_merge_created_blob_into_created_tree() -> BitResult<()> {
    let mut repo = BitRepo::new();
    let ours = commit(&mut repo, &[("foo/bar", "some bar contents")]);
    let theirs = commit(&mut repo, &[("foo", "some foo contents")]);
    let conflicts = three_way_merge(&mut repo, ours, theirs)?.into_conflicts();
    let mut conflicts = conflicts.into_iter();
    assert_eq!(conflicts.next().unwrap(), Conflict::new_with_type(p("foo"), ConflictType::AddedByThem));
    assert_eq!(cat(&repo, "foo~theirs"), "some foo contents");
    assert_eq!(cat(&repo, "foo/bar"), "some bar contents");
    Ok(())
}

#[test]
fn test_merge_tree_to_blob_into_unmodified_tree() -> BitResult<()> {
    let mut repo = minimal_repo_with_dir();
    let ours = commit(&mut repo, &[("dir/bar", "default bar contents")]);
    let theirs = commit(&mut repo, &[("dir", "typechange blob->tree")]);
    three_way_merge(&mut repo, ours, theirs)?;
    assert_eq!(cat(&repo, "dir"), "typechange blob->tree");
    Ok(())
}

#[test]
fn test_merge_unmodified_tree_into_tree_to_blob() -> BitResult<()> {
    let mut repo = minimal_repo_with_dir();
    let ours = commit(&mut repo, &[("dir", "typechange blob->tree")]);
    let theirs = commit(&mut repo, &[("dir/bar", "default bar contents")]);
    three_way_merge(&mut repo, ours, theirs)?;
    assert_eq!(cat(&repo, "dir"), "typechange blob->tree");
    Ok(())
}

#[test]
fn test_merge_tree_to_blob_into_deleted_tree() -> BitResult<()> {
    let mut repo = minimal_repo_with_dir();
    let ours = commit(&mut repo, &[]);
    let theirs = commit(&mut repo, &[("dir", "dir contents")]);
    three_way_merge(&mut repo, ours, theirs)?;
    assert_eq!(cat(&repo, "dir"), "dir contents");
    Ok(())
}

#[test]
fn test_merge_deleted_tree_into_tree_to_blob() -> BitResult<()> {
    let mut repo = minimal_repo_with_dir();
    let ours = commit(&mut repo, &[("dir", "dir contents")]);
    let theirs = commit(&mut repo, &[]);
    three_way_merge(&mut repo, ours, theirs)?;
    assert_eq!(cat(&repo, "dir"), "dir contents");
    Ok(())
}

#[test]
fn test_merge_blob_to_tree_into_blob_to_tree_no_conflict() -> BitResult<()> {
    let mut repo = minimal_repo();
    let ours = commit(&mut repo, &[("foo/bar", "bar")]);
    let theirs = commit(&mut repo, &[("foo/baz", "baz")]);
    three_way_merge(&mut repo, ours, theirs)?;
    assert_eq!(cat(&repo, "foo/bar"), "bar");
    assert_eq!(cat(&repo, "foo/baz"), "baz");
    Ok(())
}

#[test]
fn test_merge_blob_to_tree_into_blob_to_tree_with_conflict() -> BitResult<()> {
    let mut repo = minimal_repo();
    let ours = commit(&mut repo, &[("foo/bar", "bar")]);
    let theirs = commit(&mut repo, &[("foo/bar/baz", "baz")]);
    let conflicts = three_way_merge(&mut repo, ours, theirs)?.into_conflicts();
    let mut conflicts = conflicts.into_iter();
    assert_eq!(conflicts.next().unwrap(), Conflict::new_with_type(p("foo/bar"), ConflictType::AddedByUs));
    assert_eq!(cat(&repo, "foo/bar~HEAD"), "bar");
    assert_eq!(cat(&repo, "foo/bar/baz"), "baz");
    Ok(())
}

#[test]
fn test_merge_tree_to_blob_into_tree_to_blob_with_conflict() -> BitResult<()> {
    let mut repo = minimal_repo_with_dir();
    let ours = commit(&mut repo, &[("dir", "dir")]);
    let theirs = commit(&mut repo, &[("dir", "conflict")]);
    let conflicts = three_way_merge(&mut repo, ours, theirs)?.into_conflicts();
    assert_eq!(conflicts[0], Conflict::new_with_type(p("dir"), ConflictType::BothAdded));
    Ok(())
}

#[test]
fn test_merge_both_created_tree() -> BitResult<()> {
    let mut repo = minimal_repo();
    let ours = commit(&mut repo, &[("dir/foo", "foo")]);
    let theirs = commit(&mut repo, &[("dir/foo", "foo"), ("dir/bar", "bar")]);
    three_way_merge(&mut repo, ours, theirs)?;
    assert_eq!(cat(&repo, "dir/foo"), "foo");
    assert_eq!(cat(&repo, "dir/bar"), "bar");
    Ok(())
}

#[test]
fn test_conflicts_with_untracked() -> BitResult<()> {
    let mut repo = minimal_repo();
    let ours = commit(&mut repo, &[("dir/foo", "foo")]);
    let theirs = commit(&mut repo, &[("conflict", "")]);
    setup_three_way_merge(&mut repo, ours, theirs)?;
    touch(&mut repo, "conflict", "maybe we could special case where the contents are the same and not conflict?");
    let conflicts = merge(&mut repo, "theirs").unwrap_err().try_into_merge_conflict()?;
    let mut uncommitted = conflicts.uncommitted.into_iter();
    assert_eq!(uncommitted.next().unwrap(), p("conflict"));
    assert_eq!(cat(&repo, "dir/foo"), "foo");
    Ok(())
}

#[test]
fn test_conflicts_with_staged_changes() -> BitResult<()> {
    let mut repo = minimal_repo();
    let ours = commit(&mut repo, &[("dir/foo", "foo")]);
    let theirs = commit(&mut repo, &[]);
    setup_three_way_merge(&mut repo, ours, theirs)?;
    // stage new contents for `dir/foo` without touching the file
    let staged = repo.write_blob(b"updated in index".to_vec());
    let te = TreeEntry { mode: FileMode::REG, path: p("dir/foo"), oid: staged };
    repo.index_add_entry(BitIndexEntry::from_tree_entry(&te));

    let conflicts = merge(&mut repo, "theirs").unwrap_err().try_into_merge_conflict()?;
    let mut uncommitted = conflicts.uncommitted.into_iter();
    assert_eq!(uncommitted.next().unwrap(), p("dir/foo"));
    assert_eq!(cat(&repo, "dir/foo"), "foo", "the file on disk should retain its original");
    Ok(())
}

#[test]
fn test_merge_commit_has_both_parents() -> BitResult<()> {
    let mut repo = minimal_repo();
    let ours = commit(&mut repo, &[("foo", "default foo contents"), ("a", "a")]);
    let theirs = commit(&mut repo, &[("foo", "default foo contents"), ("b", "b")]);
    let results = three_way_merge(&mut repo, ours, theirs)?;
    let summary = match results {
        MergeResults::Merge(s) => s,
        other => panic!("expected a merge commit, got {:?}", other),
    };
    let merge_commit = summary.commit.unwrap();
    let head = repo.fully_resolve_head()?;
    assert_eq!(head, merge_commit);
    let c = repo.read_commit(&merge_commit)?;
    assert_eq!(c.parents.len(), 2);
    assert_eq!(c.parents[1], repo.fully_resolve_rev(b"theirs")?);
    assert_eq!(cat(&repo, "a"), "a");
    assert_eq!(cat(&repo, "b"), "b");
    Ok(())
}

#[test]
fn test_merge_contents_of_file_changed_on_both_sides() -> BitResult<()> {
    let mut repo = BitRepo::new();
    touch(&mut repo, "foo", "a\nb\nc\n");
    commit_all(&mut repo)?;
    let ours = commit(&mut repo, &[("foo", "A\nb\nc\n")]);
    let theirs = commit(&mut repo, &[("foo", "a\nb\nC\n")]);
    three_way_merge(&mut repo, ours, theirs)?;
    assert_eq!(cat(&repo, "foo"), "A\nb\nC\n");
    Ok(())
}

#[test]
fn merging_an_ancestor_changes_nothing() -> BitResult<()> {
    let mut repo = minimal_repo();
    let first = repo.fully_resolve_head()?;
    modify(&mut repo, "foo");
    let second = commit_all(&mut repo)?;
    let r = merge(&mut repo, &rev(first))?;
    assert!(matches!(r, MergeResults::Null));
    assert!(repo.fully_resolve_head()?.same(&second));
    Ok(())
}

#[test]
fn merging_an_unknown_branch_fails_and_changes_nothing() -> BitResult<()> {
    let mut repo = minimal_repo();
    let head = repo.fully_resolve_head()?;
    assert!(merge(&mut repo, "no-such-branch").is_err());
    assert!(repo.fully_resolve_head()?.same(&head));
    Ok(())
}

#[test]
fn merge_bases_of_a_commit_and_its_ancestor_is_the_ancestor() -> BitResult<()> {
    let mut repo = BitRepo::new();
    let mut dag = DagBuilder::new();
    let n = dag.mk_nodes(3);
    let (a, b, c) = (n[0], n[1], n[2]);
    dag.add_parents(&vec![(c, b), (b, a)]);
    let commits = apply_dag(&mut repo, &dag, &[])?;
    assert_eq!(repo.merge_bases(commits[c], commits[a])?, vec![commits[a]]);
    assert_eq!(repo.merge_bases(commits[a], commits[c])?, vec![commits[a]]);
    assert_eq!(repo.merge_base(commits[c], commits[c])?, Some(commits[c]));
    Ok(())
}

#[test]
fn merge_bases_of_unrelated_commits_is_empty() -> BitResult<()> {
    let mut repo = BitRepo::new();
    let mut dag = DagBuilder::new();
    let n = dag.mk_nodes(2);
    let commits = apply_dag(&mut repo, &dag, &[])?;
    assert!(repo.merge_bases(commits[n[0]], commits[n[1]])?.is_empty());
    assert_eq!(repo.merge_base(commits[n[0]], commits[n[1]])?, None);
    Ok(())
}

#[test]
fn merge_bases_of_a_blob_fails() {
    let mut repo = BitRepo::new();
    let blob = repo.write_blob(b"x".to_vec());
    assert!(repo.merge_bases(blob, blob).is_err());
}

#[test]
fn merging_a_branch_into_itself_is_null() -> BitResult<()> {
    let mut repo = sample_repo();
    let results = repo.merge_rev(b"master", MergeOpts::default_opts())?;
    assert_eq!(results, MergeResults::Null);
    Ok(())
}
