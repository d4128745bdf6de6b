use pupi::{ConfigSource, Member, Root, StrMap, Subtree};

fn member() -> Member {
    Member {
        deps: StrMap::new(),
        version: "1.0.0".to_string(),
        description: String::new(),
        private: false,
        parent: None,
        cargo: None,
        npm: None,
        subtree: None,
        submodule: None,
        updater: None,
    }
}

#[test]
fn probe_prefers_json_then_yaml_then_yml() {
    assert_eq!(pupi::probe_config("pupi", true, true, true), ConfigSource::Json);
    assert_eq!(pupi::probe_config("pupi", false, true, true), ConfigSource::Yaml);
    assert_eq!(pupi::probe_config("pupi", false, false, true), ConfigSource::Yml);
    assert_eq!(
        pupi::probe_config("pupi", false, false, false),
        ConfigSource::Missing
    );
}

#[test]
fn strmap_insert_get_and_overwrite() {
    let mut m: StrMap<u64> = StrMap::new();
    assert_eq!(m.len(), 0);
    m.insert("a".to_string(), 1);
    m.insert("b".to_string(), 2);
    assert_eq!(m.len(), 2);
    assert_eq!(m.get("a"), Some(&1));
    assert_eq!(m.get("b"), Some(&2));
    assert_eq!(m.get("c"), None);
    m.insert("a".to_string(), 7);
    assert_eq!(m.len(), 2, "overwriting keeps the key count");
    assert_eq!(m.get("a"), Some(&7));
    assert!(m.contains_key("a"));
    assert!(!m.contains_key("zz"));
}

#[test]
fn invert_maps_names_back_to_paths_with_later_entries_winning() {
    let mut names: StrMap<String> = StrMap::new();
    names.insert("pkg/a".to_string(), "@x/a".to_string());
    names.insert("pkg/b".to_string(), "@x/b".to_string());
    names.insert("pkg/c".to_string(), "@x/a".to_string());
    let rev = pupi::invert(&names);
    assert_eq!(rev.get("@x/b").unwrap().as_str(), "pkg/b");
    assert_eq!(rev.get("@x/a").unwrap().as_str(), "pkg/c");
    assert!(rev.get("@x/zzz").is_none());
}

#[test]
fn subroot_candidates_join_member_and_subdirectory() {
    let mut x = member();
    let mut paths: StrMap<String> = StrMap::new();
    paths.insert("vendor".to_string(), "main".to_string());
    paths.insert("mirror".to_string(), "dev".to_string());
    x.subtree = Some(Subtree { paths });
    let mut members: StrMap<Member> = StrMap::new();
    members.insert("x".to_string(), x);
    members.insert("plain".to_string(), member());
    let root = Root { core: None, members };
    let cands = pupi::subroot_candidates(&root);
    assert_eq!(cands, vec!["x/vendor", "x/mirror"]);
    assert!(pupi::is_subroot_name(&root, "x/vendor"));
    assert!(!pupi::is_subroot_name(&root, "plain/vendor"));
}
