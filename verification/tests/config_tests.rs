use libbit::config::{BitConfig, BitConfigValue, Merge, RawConfig};
use libbit::error::BitError;
use libbit::xdiff::ConflictStyle;

const CONFIG: &str = r#"
[core]
	repositoryformatversion = 0
	filemode = true
	bare = false
	logallrefupdates = true
[remote "origin"]
	url = git@github.com:andyyu2004/bit
	fetch = +refs/heads/*:refs/remotes/origin/*
[branch "master"]
	remote = origin
	merge = refs/heads/master
    "#;

fn raw(text: &str) -> RawConfig {
    RawConfig::new(text.as_bytes().to_vec()).unwrap()
}

#[test]
fn config_reads_core_values() {
    let config = raw(CONFIG);
    assert_eq!(config.get::<i64>("core", "repositoryformatversion"), Ok(Some(0)));
    assert_eq!(config.get::<bool>("core", "filemode"), Ok(Some(true)));
    assert_eq!(config.get::<bool>("core", "bare"), Ok(Some(false)));
    assert_eq!(config.get::<String>("core", "pager"), Ok(None));
    assert_eq!(config.get::<String>("user", "name"), Ok(None));
    assert_eq!(config.get_raw("branch", "remote"), None);
}

#[test]
fn config_from_gitconfig_and_defaults() {
    let config = BitConfig::from_gitconfig(&raw(CONFIG)).unwrap();
    assert!(config.filemode());
    assert_eq!(config.bare(), Some(false));
    assert_eq!(config.repositoryformatversion(), Some(0));
    assert_eq!(config.pager(), "less");
    assert_eq!(config.conflict_style(), ConflictStyle::Merge);
    assert_eq!(config.name(), None);
}

#[test]
fn config_init_prefers_earlier_files() {
    let local = raw("[core]\n\tfilemode = true\n[user]\n\tname = local\n");
    let global = raw("[core]\n\tfilemode = false\n\tpager = more\n[user]\n\tname = global\n\temail = g@x\n[merge]\n\tconflictStyle = diff3\n");
    let config = BitConfig::init(vec![local, global]).unwrap();
    assert!(config.filemode());
    assert_eq!(config.pager(), "more");
    assert_eq!(config.name(), Some("local".to_owned()));
    assert_eq!(config.email(), Some("g@x".to_owned()));
    assert_eq!(config.conflict_style(), ConflictStyle::Diff3);
}

#[test]
fn config_init_stops_at_invalid_value() {
    let local = raw("[core]\n\tfilemode = maybe\n");
    assert_eq!(BitConfig::init(vec![local]).err(), Some(BitError::InvalidConfigValue));
    let bad_style = raw("[merge]\n\tconflictStyle = zdiff3\n");
    assert_eq!(BitConfig::from_gitconfig(&bad_style).err(), Some(BitError::InvalidConfigValue));
}

#[test]
fn config_init_of_no_files_is_default() {
    let config = BitConfig::init(vec![]).unwrap();
    assert!(!config.filemode());
    assert_eq!(config.pager(), "less");
    assert_eq!(config.bare(), None);
}

#[test]
fn config_boolean_values() {
    assert_eq!(<bool as BitConfigValue>::parse("true"), Ok(true));
    assert_eq!(<bool as BitConfigValue>::parse("Yes"), Ok(true));
    assert_eq!(<bool as BitConfigValue>::parse("ON"), Ok(true));
    assert_eq!(<bool as BitConfigValue>::parse("one"), Ok(true));
    assert_eq!(<bool as BitConfigValue>::parse(""), Ok(true));
    assert_eq!(<bool as BitConfigValue>::parse("off"), Ok(false));
    assert_eq!(<bool as BitConfigValue>::parse("Zero"), Ok(false));
    assert_eq!(<bool as BitConfigValue>::parse("\"\""), Ok(false));
    assert_eq!(<bool as BitConfigValue>::parse("2"), Err(BitError::InvalidConfigValue));
}

#[test]
fn config_integer_values() {
    assert_eq!(<i64 as BitConfigValue>::parse("10"), Ok(10));
    assert_eq!(<i64 as BitConfigValue>::parse("+7"), Ok(7));
    assert_eq!(<i64 as BitConfigValue>::parse("-3"), Ok(-3));
    assert_eq!(<i64 as BitConfigValue>::parse("10k"), Ok(10 * 1024));
    assert_eq!(<i64 as BitConfigValue>::parse("-3m"), Ok(-3 * 1024 * 1024));
    assert_eq!(<i64 as BitConfigValue>::parse("2g"), Ok(2 * 1024 * 1024 * 1024));
    assert_eq!(<i64 as BitConfigValue>::parse("k"), Err(BitError::InvalidConfigValue));
    assert_eq!(<i64 as BitConfigValue>::parse("10x"), Err(BitError::InvalidConfigValue));
    assert_eq!(<i64 as BitConfigValue>::parse("1é"), Err(BitError::InvalidConfigValue));
}

#[test]
fn config_conflict_style_values() {
    assert_eq!(<ConflictStyle as BitConfigValue>::parse("merge"), Ok(ConflictStyle::Merge));
    assert_eq!(<ConflictStyle as BitConfigValue>::parse("diff3"), Ok(ConflictStyle::Diff3));
    assert_eq!(<ConflictStyle as BitConfigValue>::parse("Merge"), Err(BitError::InvalidConfigValue));
    assert_eq!(<String as BitConfigValue>::parse("less -R"), Ok("less -R".to_owned()));
}

#[test]
fn config_option_merge_is_left_biased() {
    let mut a: Option<u8> = None;
    a.merge(Some(1));
    assert_eq!(a, Some(1));
    a.merge(Some(2));
    assert_eq!(a, Some(1));
    a.merge(None);
    assert_eq!(a, Some(1));
}

#[test]
fn config_unparsable_text_is_refused() {
    assert_eq!(RawConfig::new(b"[core\n".to_vec()).err(), Some(BitError::InvalidConfig));
}
