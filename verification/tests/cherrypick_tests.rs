use libbit::checkout::CheckoutOpts;
use libbit::commit::CommitOpts;
use libbit::error::{BitError, BitResult};
use libbit::hash::Oid;
use libbit::obj::BitObjKind;
use libbit::repo::{BitRef, BitRepo};

fn touch(repo: &mut BitRepo, path: &str, content: &str) {
    repo.touch(path.as_bytes(), content.as_bytes());
}

fn cat(repo: &BitRepo, path: &str) -> String {
    String::from_utf8(repo.cat(path.as_bytes()).expect("file exists")).unwrap()
}

fn commit_all(repo: &mut BitRepo, message: &str) -> BitResult<Oid> {
    repo.add_all();
    Ok(repo.commit(CommitOpts { message: message.as_bytes().to_vec(), allow_empty: false })?.oid)
}

fn branch(repo: &mut BitRepo, name: &str) {
    repo.create_branch(name.as_bytes(), &BitRef::head()).unwrap();
}

fn checkout(repo: &mut BitRepo, name: &str) {
    repo.checkout_revision(name.as_bytes(), CheckoutOpts::default()).unwrap();
}

#[test]
fn cherrypick_applies_the_change_of_a_commit() -> BitResult<()> {
    let mut repo = BitRepo::new();
    touch(&mut repo, "foo", "foo");
    touch(&mut repo, "bar", "bar");
    commit_all(&mut repo, "base")?;
    branch(&mut repo, "side");
    checkout(&mut repo, "side");
    touch(&mut repo, "bar", "bar changed on side");
    let picked = commit_all(&mut repo, "change bar")?;
    checkout(&mut repo, "master");
    touch(&mut repo, "foo", "foo changed on master");
    let master = commit_all(&mut repo, "change foo")?;

    repo.cherrypick_commit(picked)?;
    assert_eq!(cat(&repo, "foo"), "foo changed on master");
    assert_eq!(cat(&repo, "bar"), "bar changed on side");
    let head = repo.fully_resolve_head()?;
    assert!(!head.same(&master));
    match repo.read_obj(&head)? {
        BitObjKind::Commit(c) => {
            assert_eq!(c.parents.len(), 1);
            assert!(c.parents[0].same(&master));
            assert_eq!(c.message, b"change bar".to_vec());
        }
        _ => panic!("HEAD is not a commit"),
    }
    Ok(())
}

#[test]
fn cherrypick_conflict_stays_in_index() -> BitResult<()> {
    let mut repo = BitRepo::new();
    touch(&mut repo, "foo", "foo");
    commit_all(&mut repo, "base")?;
    branch(&mut repo, "side");
    checkout(&mut repo, "side");
    touch(&mut repo, "foo", "side");
    let picked = commit_all(&mut repo, "side change")?;
    checkout(&mut repo, "master");
    touch(&mut repo, "foo", "master");
    let master = commit_all(&mut repo, "master change")?;

    repo.cherrypick(BitRef::Direct(picked))?;
    assert!(repo.index().has_conflicts());
    assert!(repo.fully_resolve_head()?.same(&master));
    Ok(())
}

#[test]
fn cherrypick_refuses_merge_commits() -> BitResult<()> {
    let mut repo = BitRepo::new();
    touch(&mut repo, "foo", "foo");
    let a = commit_all(&mut repo, "a")?;
    let tree = repo.read_commit(&a)?.tree;
    let merge = repo.commit_tree(tree, vec![a, a], b"merge".to_vec());
    assert_eq!(repo.cherrypick_commit(merge), Err(BitError::CherrypickMergeCommit));
    Ok(())
}

#[test]
fn cherrypick_many_picks_in_order() -> BitResult<()> {
    let mut repo = BitRepo::new();
    touch(&mut repo, "foo", "foo");
    commit_all(&mut repo, "base")?;
    branch(&mut repo, "side");
    checkout(&mut repo, "side");
    touch(&mut repo, "a", "a");
    let first = commit_all(&mut repo, "add a")?;
    touch(&mut repo, "b", "b");
    let second = commit_all(&mut repo, "add b")?;
    checkout(&mut repo, "master");

    repo.cherrypick_many(vec![BitRef::Direct(first), BitRef::Direct(second)])?;
    assert_eq!(cat(&repo, "a"), "a");
    assert_eq!(cat(&repo, "b"), "b");
    assert_eq!(cat(&repo, "foo"), "foo");
    Ok(())
}

#[test]
fn cherrypick_many_stops_on_a_reference_that_names_nothing() -> BitResult<()> {
    let mut repo = BitRepo::new();
    touch(&mut repo, "foo", "foo");
    let head = commit_all(&mut repo, "base")?;
    let r = repo.cherrypick_many(vec![BitRef::Symbolic(b"refs/heads/nowhere".to_vec())]);
    assert!(r.is_err());
    assert!(repo.fully_resolve_head()?.same(&head));
    Ok(())
}
