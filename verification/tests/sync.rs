use pupi::{Cargo, Member, Root, StrMap, NPM};

fn member() -> Member {
    Member {
        deps: StrMap::new(),
        version: "1.0.0".to_string(),
        description: String::new(),
        private: false,
        parent: None,
        cargo: None,
        npm: None,
        subtree: None,
        submodule: None,
        updater: None,
    }
}

fn root_with_bindings() -> Root {
    let mut npm_a = member();
    npm_a.npm = Some(NPM {});
    let mut both = member();
    both.npm = Some(NPM {});
    both.cargo = Some(Cargo {});
    let mut cargo_c = member();
    cargo_c.cargo = Some(Cargo {});
    let plain = member();
    let mut members: StrMap<Member> = StrMap::new();
    members.insert("pkg/zeta".to_string(), npm_a);
    members.insert("pkg/alpha".to_string(), both);
    members.insert("crates/core".to_string(), cargo_c);
    members.insert("docs".to_string(), plain);
    Root { core: None, members }
}

#[test]
fn npm_list_is_union_sorted_and_deduplicated() {
    let root = root_with_bindings();
    let existing = vec!["pkg/alpha".to_string(), "./legacy".to_string()];
    let out = pupi::npm_workspace_members(&root, &existing);
    assert_eq!(out, vec!["legacy", "pkg/alpha", "pkg/zeta"]);
}

#[test]
fn cargo_list_is_union_sorted_and_deduplicated() {
    let root = root_with_bindings();
    let existing = vec!["vendored".to_string()];
    let out = pupi::cargo_workspace_members(&root, &existing);
    assert_eq!(out, vec!["crates/core", "pkg/alpha", "vendored"]);
}

#[test]
fn leading_dot_slash_is_stripped_repeatedly() {
    let root = root_with_bindings();
    let existing = vec!["././twice".to_string(), "./once".to_string()];
    let out = pupi::npm_workspace_members(&root, &existing);
    assert!(out.contains(&"twice".to_string()));
    assert!(out.contains(&"once".to_string()));
    assert!(!out.iter().any(|p| p.starts_with("./")));
}

#[test]
fn sync_twice_is_byte_stable() {
    let root = root_with_bindings();
    let existing = vec![
        "./pkg/zeta".to_string(),
        "extra".to_string(),
        "extra".to_string(),
    ];
    let once = pupi::npm_workspace_members(&root, &existing);
    let twice = pupi::npm_workspace_members(&root, &once);
    assert_eq!(once, twice);
    let cargo_once = pupi::cargo_workspace_members(&root, &existing);
    let cargo_twice = pupi::cargo_workspace_members(&root, &cargo_once);
    assert_eq!(cargo_once, cargo_twice);
}

#[test]
fn empty_existing_list_gives_only_bound_members() {
    let root = root_with_bindings();
    let out = pupi::npm_workspace_members(&root, &Vec::new());
    assert_eq!(out, vec!["pkg/alpha", "pkg/zeta"]);
}
