use pupi::{Dep, Env, Event, Member, PlanError, Root, StrMap, Subtree, SubrepoID};

fn member() -> Member {
    Member {
        deps: StrMap::new(),
        version: "1.0.0".to_string(),
        description: String::new(),
        private: false,
        parent: None,
        cargo: None,
        npm: None,
        subtree: None,
        submodule: None,
        updater: None,
    }
}

fn direct() -> Dep {
    Dep { subrepo: None }
}

fn root_of(members: Vec<(&str, Member)>) -> Root {
    let mut m: StrMap<Member> = StrMap::new();
    for (k, v) in members {
        m.insert(k.to_string(), v);
    }
    Root { core: None, members: m }
}

fn env_of(roots: Vec<(&str, Root)>) -> Env {
    let mut m: StrMap<Root> = StrMap::new();
    for (k, v) in roots {
        m.insert(k.to_string(), v);
    }
    Env { roots: m }
}

fn dispatch_index(events: &[Event], ctx: &str, member: &str) -> Option<usize> {
    events.iter().position(
        |e| matches!(e, Event::Dispatch { ctx: c, member: m } if c == ctx && m == member),
    )
}

fn run(env: &Env, root: &str, verb: &str) -> Result<Vec<Event>, PlanError> {
    pupi::plan_run(&env, &root.to_string(), &vec![verb.to_string()])
}

#[test]
fn dispatches_each_member_once_in_a_diamond() {
    // a depends on b and c; both depend on d: d reachable over two edges.
    let mut a = member();
    a.deps.insert("b".to_string(), direct());
    a.deps.insert("c".to_string(), direct());
    let mut b = member();
    b.deps.insert("d".to_string(), direct());
    let mut c = member();
    c.deps.insert("d".to_string(), direct());
    let env = env_of(vec![(
        "R",
        root_of(vec![("a", a), ("b", b), ("c", c), ("d", member())]),
    )]);
    let events = run(&env, "R", "build").unwrap();
    for m in ["a", "b", "c", "d"] {
        let n = events
            .iter()
            .filter(|e| matches!(e, Event::Dispatch { ctx, member } if ctx == "R" && member == m))
            .count();
        assert_eq!(n, 1);
    }
}

#[test]
fn dependency_dispatch_precedes_dependent() {
    // a chain a -> b -> c: c first, then b, then a.
    let mut a = member();
    a.deps.insert("b".to_string(), direct());
    let mut b = member();
    b.deps.insert("c".to_string(), direct());
    let env = env_of(vec![("R", root_of(vec![("a", a), ("b", b), ("c", member())]))]);
    let events = run(&env, "R", "build").unwrap();
    let ia = dispatch_index(&events, "R", "a").unwrap();
    let ib = dispatch_index(&events, "R", "b").unwrap();
    let ic = dispatch_index(&events, "R", "c").unwrap();
    assert!(ic < ib);
    assert!(ib < ia);
}

#[test]
fn dependency_cycle_still_dispatches_each_member_once() {
    let mut a = member();
    a.deps.insert("b".to_string(), direct());
    let mut b = member();
    b.deps.insert("a".to_string(), direct());
    let env = env_of(vec![("R", root_of(vec![("a", a), ("b", b)]))]);
    let events = run(&env, "R", "build").unwrap();
    assert!(dispatch_index(&events, "R", "a").is_some());
    assert!(dispatch_index(&events, "R", "b").is_some());
    let n = events
        .iter()
        .filter(|e| matches!(e, Event::Dispatch { .. }))
        .count();
    assert_eq!(n, 2);
}

#[test]
fn unknown_dependency_reference_fails() {
    let mut a = member();
    a.deps.insert("ghost".to_string(), direct());
    let env = env_of(vec![("R", root_of(vec![("a", a)]))]);
    match run(&env, "R", "build") {
        Err(PlanError::UnknownMember { ctx, name }) => {
            assert_eq!(ctx, "R");
            assert_eq!(name, "ghost");
        }
        other => panic!("expected an unknown-member error, got {:?}", other),
    }
}

fn chain_env(with_nested: bool) -> Env {
    // Member a depends, under edge key y, on a chain: resolve x locally,
    // then member y inside the mirror loaded from R/x/vendor.
    let mut a = member();
    a.deps.insert(
        "y".to_string(),
        Dep {
            subrepo: Some(SubrepoID {
                pkg_name: "x".to_string(),
                pkg: Box::new(direct()),
                subrepo: "vendor".to_string(),
                nest: Box::new(direct()),
            }),
        },
    );
    let mut x = member();
    let mut paths: StrMap<String> = StrMap::new();
    paths.insert("vendor".to_string(), "upstream-ref".to_string());
    x.subtree = Some(Subtree { paths });
    let main = root_of(vec![("a", a), ("x", x), ("y", member())]);
    if with_nested {
        let nested = root_of(vec![("y", member())]);
        env_of(vec![("R", main), ("R/x/vendor", nested)])
    } else {
        env_of(vec![("R", main)])
    }
}

#[test]
fn subrepo_chain_resolves_into_nested_root() {
    let env = chain_env(true);
    // "status" is not a mutating verb: the chain crosses into the mirror.
    let events = run(&env, "R", "status").unwrap();
    let ix = dispatch_index(&events, "R", "x").unwrap();
    let iy_nested = dispatch_index(&events, "R/x/vendor", "y").unwrap();
    assert!(ix < iy_nested, "x is visited locally before y in the mirror");
}

#[test]
fn subrepo_chain_requires_nested_root_when_not_mutating() {
    let env = chain_env(false);
    match run(&env, "R", "status") {
        Err(PlanError::RootUnloaded { path }) => assert_eq!(path, "R/x/vendor"),
        other => panic!("expected a root-unloaded stop, got {:?}", other),
    }
}

#[test]
fn subrepo_chain_short_circuits_on_mutating_command() {
    // The nested root is not loaded, yet a mutating run succeeds: the
    // member is visited in the current context and no mirror is consulted.
    let env = chain_env(false);
    let events = run(&env, "R", "update").unwrap();
    assert!(dispatch_index(&events, "R", "y").is_some());
    assert!(dispatch_index(&events, "R/x/vendor", "y").is_none());
}

#[test]
fn subtree_and_submodule_subdirectories_are_all_scheduled() {
    let mut a = member();
    let mut paths: StrMap<String> = StrMap::new();
    paths.insert("one".to_string(), "ref-one".to_string());
    paths.insert("two".to_string(), "ref-two".to_string());
    a.subtree = Some(Subtree { paths });
    let mut sub: StrMap<String> = StrMap::new();
    sub.insert("lib".to_string(), "ref-lib".to_string());
    a.submodule = Some(pupi::Submodule { paths: sub });
    let env = env_of(vec![("R", root_of(vec![("a", a)]))]);
    let events = run(&env, "R", "build").unwrap();
    let pulls: Vec<&Event> = events
        .iter()
        .filter(|e| matches!(e, Event::SubtreePull { .. }))
        .collect();
    assert_eq!(pulls.len(), 2);
    let ensures: Vec<&Event> = events
        .iter()
        .filter(|e| matches!(e, Event::SubmoduleEnsure { .. }))
        .collect();
    assert_eq!(ensures.len(), 1);
    match ensures[0] {
        Event::SubmoduleEnsure { ctx, member, subdir, upstream } => {
            assert_eq!(ctx, "R");
            assert_eq!(member, "a");
            assert_eq!(subdir, "lib");
            assert_eq!(upstream, "ref-lib");
        }
        _ => unreachable!(),
    }
    // The member's sync events come before its own dispatch.
    let first_pull = events
        .iter()
        .position(|e| matches!(e, Event::SubtreePull { .. }))
        .unwrap();
    let ia = dispatch_index(&events, "R", "a").unwrap();
    assert!(first_pull < ia);
}

#[test]
fn subrepo_chain_resolves_through_two_mirrors() {
    // The edge's chain hops through two nested repositories: x's vendor
    // mirror, then m2's inner mirror inside it.
    let mut a = member();
    a.deps.insert(
        "z".to_string(),
        Dep {
            subrepo: Some(SubrepoID {
                pkg_name: "x".to_string(),
                pkg: Box::new(direct()),
                subrepo: "vendor".to_string(),
                nest: Box::new(Dep {
                    subrepo: Some(SubrepoID {
                        pkg_name: "m2".to_string(),
                        pkg: Box::new(direct()),
                        subrepo: "inner".to_string(),
                        nest: Box::new(direct()),
                    }),
                }),
            }),
        },
    );
    let mut x = member();
    let mut paths: StrMap<String> = StrMap::new();
    paths.insert("vendor".to_string(), "main".to_string());
    x.subtree = Some(Subtree { paths });
    let main = root_of(vec![("a", a), ("x", x), ("z", member())]);
    let mut m2 = member();
    let mut inner_paths: StrMap<String> = StrMap::new();
    inner_paths.insert("inner".to_string(), "main".to_string());
    m2.subtree = Some(Subtree { paths: inner_paths });
    let middle = root_of(vec![("m2", m2)]);
    let innermost = root_of(vec![("z", member())]);
    let env = env_of(vec![
        ("R", main),
        ("R/x/vendor", middle),
        ("R/x/vendor/m2/inner", innermost),
    ]);
    let events = run(&env, "R", "status").unwrap();
    let ix = dispatch_index(&events, "R", "x").unwrap();
    let im = dispatch_index(&events, "R/x/vendor", "m2").unwrap();
    let iz = dispatch_index(&events, "R/x/vendor/m2/inner", "z").unwrap();
    assert!(ix < im);
    assert!(im < iz);
}

#[test]
fn sync_events_are_scheduled_whatever_the_verb() {
    let mut a = member();
    let mut paths: StrMap<String> = StrMap::new();
    paths.insert("dir".to_string(), "main".to_string());
    a.subtree = Some(Subtree { paths });
    let env = env_of(vec![("R", root_of(vec![("a", a)]))]);
    let events = run(&env, "R", "status").unwrap();
    assert!(events
        .iter()
        .any(|e| matches!(e, Event::SubtreePull { subdir, .. } if subdir == "dir")));
}
