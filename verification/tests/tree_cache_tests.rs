use libbit::commit::CommitOpts;
use libbit::error::BitResult;
use libbit::hash::Oid;
use libbit::index::tree_cache::BitTreeCache;
use libbit::repo::BitRepo;

fn touch(repo: &mut BitRepo, path: &str, content: &str) {
    repo.touch(path.as_bytes(), content.as_bytes());
}

fn commit_all(repo: &mut BitRepo) -> BitResult<Oid> {
    repo.add_all();
    Ok(repo.commit(CommitOpts { message: b"commit".to_vec(), allow_empty: false })?.oid)
}

fn sample_repo_no_sym() -> BitRepo {
    let mut repo = BitRepo::new();
    touch(&mut repo, "foo", "");
    touch(&mut repo, "bar", "");
    commit_all(&mut repo).unwrap();
    touch(&mut repo, "dir/bar.l", "");
    touch(&mut repo, "dir/bar/qux", "");
    touch(&mut repo, "dir/baz", "");
    commit_all(&mut repo).unwrap();
    repo
}

fn oid(hex: &str) -> Oid {
    Oid::from_hex(hex.as_bytes()).unwrap()
}

fn node(path: &str, entry_count: i64, children: Vec<BitTreeCache>, hex: &str) -> BitTreeCache {
    BitTreeCache { path: path.as_bytes().to_vec(), tree_oid: oid(hex), entry_count, children }
}

fn cache_tree_dir_bar() -> BitTreeCache {
    node("bar", 1, vec![], "29ba47b07d262ad717095f2d94ec771194c4c083")
}

fn cache_tree() -> BitTreeCache {
    node(
        "",
        5,
        vec![node("dir", 3, vec![cache_tree_dir_bar()], "9ffa74fdebe76f339dfc5d40a63ddf9d0cba4b06")],
        "f3560f770ad0986e851d302b1d400588d5792f67",
    )
}

#[test]
fn test_read_tree_cache_from_tree() -> BitResult<()> {
    let repo = sample_repo_no_sym();
    let head_tree = repo.head_tree()?;
    let tree_cache = BitTreeCache::read_tree(&repo, &head_tree)?;
    assert_eq!(tree_cache, cache_tree());
    Ok(())
}

#[test]
fn test_tree_cache_find_child() {
    let cache_tree = cache_tree();
    let child = cache_tree.find_child(b"dir/bar").unwrap();
    assert_eq!(child, &cache_tree_dir_bar());
}

#[test]
fn test_tree_cache_invalidate_path() {
    let mut cache_tree = cache_tree();
    cache_tree.invalidate_path(b"dir");

    let mut expected_tree = self::cache_tree();
    expected_tree.entry_count = -1;
    expected_tree.children[0].entry_count = -1;

    assert_eq!(cache_tree, expected_tree);
}

#[test]
fn test_tree_cache_find_valid_child() {
    let cache = node(
        "",
        -1,
        vec![
            node("zs", 1, vec![], "2d7f016d4251e5ad28c1a88bf34e849f33fc772c"),
            node("dir", 1, vec![], "920512d27e4df0c79ca4a929bc5d4254b3d05c4c"),
            node(
                "dir2",
                2,
                vec![node("nested", 1, vec![], "922a85d55bd55028593c9816724c874c5629b557")],
                "fa9b4c62cce3b8a2d60482d717026beb46b1245c",
            ),
        ],
        "0000000000000000000000000000000000000000",
    );
    assert!(cache.find_valid_child(b"zs").is_some());
}

#[test]
fn tree_cache_invalidating_a_path_keeps_other_children_valid() {
    let mut cache = node(
        "",
        4,
        vec![
            node("a", 1, vec![], "2d7f016d4251e5ad28c1a88bf34e849f33fc772c"),
            node("b", 1, vec![], "920512d27e4df0c79ca4a929bc5d4254b3d05c4c"),
        ],
        "fa9b4c62cce3b8a2d60482d717026beb46b1245c",
    );
    cache.invalidate_path(b"a/file");
    assert!(!cache.is_valid());
    assert!(cache.find_valid_child(b"a").is_none());
    assert!(cache.find_valid_child(b"b").is_some());
}
