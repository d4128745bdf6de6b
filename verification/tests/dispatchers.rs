use pupi::{
    Cargo, CargoManifest, CargoStep, Member, NpmManifest, NpmStep, Root, StrMap, Submodule,
    Subtree, NPM,
};

fn member() -> Member {
    Member {
        deps: StrMap::new(),
        version: "1.0.0".to_string(),
        description: "a package".to_string(),
        private: false,
        parent: None,
        cargo: None,
        npm: None,
        subtree: None,
        submodule: None,
        updater: None,
    }
}

fn cargo_manifest() -> CargoManifest {
    CargoManifest {
        has_package: true,
        version: "0.0.1".to_string(),
        description: "old".to_string(),
        publish: false,
    }
}

fn npm_manifest() -> NpmManifest {
    NpmManifest {
        version: "0.0.1".to_string(),
        description: "old".to_string(),
        dependencies: StrMap::new(),
        has_zshy: false,
        has_source: false,
    }
}

#[test]
fn cargo_update_overwrites_package_fields() {
    let mut m = member();
    m.version = "3.1.4".to_string();
    m.description = "fresh".to_string();
    m.private = true;
    let (man, steps) = Cargo {}.process(&m, "update", cargo_manifest());
    assert_eq!(man.version, "3.1.4");
    assert_eq!(man.description, "fresh");
    assert!(!man.publish, "publishable flag is the inverse of private");
    assert_eq!(steps, vec![CargoStep::WriteManifest]);
}

#[test]
fn cargo_build_checks_then_writes() {
    let (_, steps) = Cargo {}.process(&member(), "build", cargo_manifest());
    assert_eq!(steps, vec![CargoStep::Check, CargoStep::WriteManifest]);
}

#[test]
fn cargo_publish_checks_publishes_then_writes() {
    let (_, steps) = Cargo {}.process(&member(), "publish", cargo_manifest());
    assert_eq!(
        steps,
        vec![CargoStep::Check, CargoStep::Publish, CargoStep::WriteManifest]
    );
}

#[test]
fn cargo_private_member_is_never_published() {
    let mut m = member();
    m.private = true;
    let (man, steps) = Cargo {}.process(&m, "publish", cargo_manifest());
    assert!(!steps.contains(&CargoStep::Publish));
    assert!(!man.publish);
}

#[test]
fn cargo_non_mutating_verb_leaves_manifest_alone() {
    let (man, steps) = Cargo {}.process(&member(), "status", cargo_manifest());
    assert_eq!(man.version, "0.0.1");
    assert_eq!(steps, vec![CargoStep::WriteManifest]);
}

fn version_scenario() -> (Member, Root, StrMap<String>, NpmManifest) {
    // Member a declares version 2.0.0 under registry name @x/a; member b
    // depends on "@x/a": "^1.0.0".
    let mut a = member();
    a.version = "2.0.0".to_string();
    a.npm = Some(NPM {});
    let mut b = member();
    b.npm = Some(NPM {});
    let mut b2 = member();
    b2.npm = Some(NPM {});
    let mut members: StrMap<Member> = StrMap::new();
    members.insert("a".to_string(), a);
    members.insert("b".to_string(), b2);
    let root = Root { core: None, members };
    let mut names: StrMap<String> = StrMap::new();
    names.insert("a".to_string(), "@x/a".to_string());
    names.insert("b".to_string(), "@x/b".to_string());
    let depmap = pupi::DepMap::new(&root, names);
    let mut man = npm_manifest();
    man.dependencies
        .insert("@x/a".to_string(), "^1.0.0".to_string());
    man.dependencies
        .insert("left-pad".to_string(), "^9.9.9".to_string());
    (b, root, depmap.rnpm, man)
}

#[test]
fn npm_update_pins_local_dependency_to_caret_of_declared_version() {
    let (b, root, rnpm, man) = version_scenario();
    let (out, _) = NPM {}.process(&b, "update", man, &root, &rnpm);
    assert_eq!(out.dependencies.get("@x/a").unwrap().as_str(), "^2.0.0");
    // an entry that names no local member keeps its range
    assert_eq!(out.dependencies.get("left-pad").unwrap().as_str(), "^9.9.9");
}

#[test]
fn npm_update_overwrites_version_and_description() {
    let (b, root, rnpm, man) = version_scenario();
    let (out, _) = NPM {}.process(&b, "autogen", man, &root, &rnpm);
    assert_eq!(out.version, "1.0.0");
    assert_eq!(out.description, "a package");
}

#[test]
fn npm_non_mutating_verb_leaves_manifest_alone() {
    let (b, root, rnpm, man) = version_scenario();
    let (out, steps) = NPM {}.process(&b, "status", man, &root, &rnpm);
    assert_eq!(out.version, "0.0.1");
    assert_eq!(out.dependencies.get("@x/a").unwrap().as_str(), "^1.0.0");
    assert_eq!(steps, vec![NpmStep::WriteManifest]);
}

#[test]
fn npm_zshy_build_writes_runs_bundler_reloads_then_writes() {
    let (b, root, rnpm, mut man) = version_scenario();
    man.has_zshy = true;
    let (_, steps) = NPM {}.process(&b, "build", man, &root, &rnpm);
    assert_eq!(
        steps,
        vec![
            NpmStep::WriteManifest,
            NpmStep::RunZshy,
            NpmStep::ReloadManifest,
            NpmStep::WriteManifest,
        ]
    );
}

#[test]
fn npm_source_build_runs_application_bundler() {
    let (b, root, rnpm, mut man) = version_scenario();
    man.has_source = true;
    let (_, steps) = NPM {}.process(&b, "build", man, &root, &rnpm);
    assert_eq!(steps, vec![NpmStep::RunParcel, NpmStep::WriteManifest]);
}

#[test]
fn npm_zshy_marker_wins_over_source_marker() {
    let (b, root, rnpm, mut man) = version_scenario();
    man.has_zshy = true;
    man.has_source = true;
    let (_, steps) = NPM {}.process(&b, "build", man, &root, &rnpm);
    assert!(!steps.contains(&NpmStep::RunParcel));
}

#[test]
fn npm_private_member_is_never_published() {
    let (mut b, root, rnpm, man) = version_scenario();
    b.private = true;
    let (_, steps) = NPM {}.process(&b, "publish", man, &root, &rnpm);
    assert!(!steps.contains(&NpmStep::Publish));
}

#[test]
fn npm_publish_publishes_non_private_member() {
    let (b, root, rnpm, man) = version_scenario();
    let (_, steps) = NPM {}.process(&b, "publish", man, &root, &rnpm);
    assert_eq!(
        steps,
        vec![NpmStep::Publish, NpmStep::WriteManifest]
    );
}

#[test]
fn subtree_schedules_every_subdirectory() {
    let mut paths: StrMap<String> = StrMap::new();
    paths.insert("one".to_string(), "ref-one".to_string());
    paths.insert("two".to_string(), "ref-two".to_string());
    let items = Subtree { paths }.process();
    assert_eq!(items.len(), 2);
    assert_eq!(items[0].subdir, "one");
    assert_eq!(items[0].upstream, "ref-one");
    assert_eq!(items[1].subdir, "two");
    assert_eq!(items[1].upstream, "ref-two");
}

#[test]
fn submodule_schedules_every_subdirectory() {
    let mut paths: StrMap<String> = StrMap::new();
    paths.insert("lib".to_string(), "ref-lib".to_string());
    let items = Submodule { paths }.process();
    assert_eq!(items.len(), 1);
    assert_eq!(items[0].subdir, "lib");
}

#[test]
fn submodule_steps_register_only_when_absent() {
    assert_eq!(
        pupi::submodule_steps(false),
        vec![pupi::GitStep::SubmoduleAdd, pupi::GitStep::SubmoduleUpdate]
    );
    assert_eq!(
        pupi::submodule_steps(true),
        vec![pupi::GitStep::SubmoduleUpdate]
    );
}

#[test]
fn first_error_keeps_the_first_failure_and_only_that() {
    let outcomes: Vec<Result<(), String>> = vec![
        Ok(()),
        Err("first".to_string()),
        Ok(()),
        Err("second".to_string()),
    ];
    assert_eq!(pupi::first_error(outcomes), Err("first".to_string()));
    let fine: Vec<Result<(), String>> = vec![Ok(()), Ok(())];
    assert_eq!(pupi::first_error(fine), Ok(()));
    let none: Vec<Result<(), String>> = vec![];
    assert_eq!(pupi::first_error(none), Ok(()));
}

#[test]
fn hook_runs_only_on_hook_verbs() {
    let mut m = member();
    m.updater = Some(vec!["gen.sh".to_string(), "--fast".to_string()]);
    let cmd = vec!["build".to_string(), "/ws".to_string(), "extra".to_string()];
    let hook = pupi::hook_for(&m, "/ws", "pkg", &cmd).unwrap();
    assert_eq!(hook.workdir, "/ws/pkg");
    assert_eq!(hook.script, "/ws/pkg/gen.sh");
    assert_eq!(
        hook.args,
        vec!["/ws", "pkg", "--fast", "build", "/ws", "extra"]
    );
    let cmd2 = vec!["update".to_string()];
    assert!(pupi::hook_for(&m, "/ws", "pkg", &cmd2).is_none());
    let bare = member();
    assert!(pupi::hook_for(&bare, "/ws", "pkg", &cmd).is_none());
}

#[test]
fn verb_classes() {
    for v in ["autogen", "build", "publish", "update"] {
        assert!(pupi::is_mutating_verb(v));
    }
    assert!(!pupi::is_mutating_verb("status"));
    assert!(pupi::is_hook_verb("autogen"));
    assert!(!pupi::is_hook_verb("update"));
    assert!(pupi::is_build_verb("publish"));
    assert!(!pupi::is_build_verb("autogen"));
    assert!(pupi::is_publish_verb("publish"));
    assert!(!pupi::is_publish_verb("build"));
}

#[test]
fn cargo_without_package_table_keeps_fields() {
    let mut man = cargo_manifest();
    man.has_package = false;
    let (out, steps) = Cargo {}.process(&member(), "update", man);
    assert!(!out.has_package);
    assert_eq!(out.version, "0.0.1");
    assert_eq!(out.description, "old");
    assert_eq!(steps, vec![CargoStep::WriteManifest]);
}
