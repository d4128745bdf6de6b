//! Per-member dispatch: given a member, the command line and the in-memory
//! image of the member's native manifest, compute exactly which manifest
//! fields change and which external actions run, in which order.  The shell
//! around the library reads the manifest beforehand, applies the returned
//! image and runs the returned steps afterwards.

use vstd::prelude::*;
use crate::model::{Member, NPM, Root, Submodule, Subtree};
use crate::strmap::StrMap;
use crate::strutil::{caret_range, spec_caret, spec_join, str_eq, join_path};

verus! {

// ---------------------------------------------------------------------------
// Command verbs
// ---------------------------------------------------------------------------

/// Verbs that write version and metadata back into native manifests.
pub open spec fn is_mutating_spec(v: Seq<char>) -> bool {
    v == "autogen"@ || v == "build"@ || v == "publish"@ || v == "update"@
}

/// Verbs on which a member's lifecycle hook runs.
pub open spec fn is_hook_spec(v: Seq<char>) -> bool {
    v == "autogen"@ || v == "build"@ || v == "publish"@
}

/// Verbs on which the native type/lint check and the bundlers run.
pub open spec fn is_build_spec(v: Seq<char>) -> bool {
    v == "build"@ || v == "publish"@
}

/// The publish verb.
pub open spec fn is_publish_spec(v: Seq<char>) -> bool {
    v == "publish"@
}

/// Whether a verb is one of the mutating lifecycle commands.
pub fn is_mutating_verb(v: &str) -> (r: bool)
    ensures
        r == is_mutating_spec(v@),
{
    str_eq(v, "autogen") || str_eq(v, "build") || str_eq(v, "publish") || str_eq(v, "update")
}

/// Whether a verb runs lifecycle hooks.
pub fn is_hook_verb(v: &str) -> (r: bool)
    ensures
        r == is_hook_spec(v@),
{
    str_eq(v, "autogen") || str_eq(v, "build") || str_eq(v, "publish")
}

/// Whether a verb runs build checks and bundlers.
pub fn is_build_verb(v: &str) -> (r: bool)
    ensures
        r == is_build_spec(v@),
{
    str_eq(v, "build") || str_eq(v, "publish")
}

/// Whether a verb is the publish command.
pub fn is_publish_verb(v: &str) -> (r: bool)
    ensures
        r == is_publish_spec(v@),
{
    str_eq(v, "publish")
}

// ---------------------------------------------------------------------------
// First-error aggregation
// ---------------------------------------------------------------------------

/// The first failure among the outcomes of a fan-out, if any.
pub open spec fn first_err_spec<E>(s: Seq<Result<(), E>>) -> Result<(), E>
    decreases s.len(),
{
    if s.len() == 0 {
        Result::Ok(())
    } else if s[0] is Err {
        s[0]
    } else {
        first_err_spec(s.drop_first())
    }
}

/// A fan-out point keeps at most one error: the first, in order; later
/// outcomes are discarded.  Taking every outcome as an argument states that
/// every sibling ran to completion before aggregation.
pub fn first_error<E>(results: Vec<Result<(), E>>) -> (r: Result<(), E>)
    ensures
        r == first_err_spec(results@),
{
    let ghost orig = results@;
    let mut rem: Vec<Result<(), E>> = results;
    let mut r: Result<(), E> = Result::Ok(());
    proof {
        assert(orig.take(orig.len() as int) =~= orig);
        assert(orig.skip(orig.len() as int) =~= Seq::<Result<(), E>>::empty());
    }
    loop
        invariant
            orig == results@,
            rem@.len() <= orig.len(),
            rem@ == orig.take(rem@.len() as int),
            r == first_err_spec(orig.skip(rem@.len() as int)),
        decreases rem@.len(),
    {
        let ghost n = rem@.len() as int;
        match rem.pop() {
            Option::None => {
                proof {
                    assert(orig.skip(0) =~= orig);
                }
                return r;
            },
            Option::Some(e) => {
                proof {
                    assert(orig.take(n)[n - 1] == orig[n - 1]);
                    assert(orig.skip(n - 1)[0] == orig[n - 1]);
                    assert(orig.skip(n - 1).drop_first() =~= orig.skip(n));
                    assert(rem@ =~= orig.take(n - 1));
                }
                if e.is_err() {
                    r = e;
                } else {
                    proof {
                        assert(first_err_spec(orig.skip(n - 1)) == first_err_spec(orig.skip(n)));
                    }
                }
            },
        }
    }
}

/// A fan-out's aggregate fails exactly when some sibling failed.
pub proof fn lemma_first_error_iff<E>(s: Seq<Result<(), E>>)
    ensures
        first_err_spec(s) is Err <==> exists|i: int| 0 <= i < s.len() && s[i] is Err,
    decreases s.len(),
{
    if s.len() > 0 {
        lemma_first_error_iff(s.drop_first());
        if !(s[0] is Err) {
            if first_err_spec(s) is Err {
                let i = choose|i: int|
                    0 <= i < s.drop_first().len() && s.drop_first()[i] is Err;
                assert(s[i + 1] is Err);
            } else if exists|i: int| 0 <= i < s.len() && s[i] is Err {
                let i = choose|i: int| 0 <= i < s.len() && s[i] is Err;
                assert(s.drop_first()[i - 1] is Err);
            }
        }
    }
}

// ---------------------------------------------------------------------------
// Vendored subtrees and linked submodules
// ---------------------------------------------------------------------------

/// One subdirectory to synchronize against its upstream reference.
#[derive(Debug)]
pub struct SyncItem {
    /// The local subdirectory, relative to the member's path.
    pub subdir: String,
    /// The upstream reference to pull.
    pub upstream: String,
}

impl Subtree {
    /// One merge-pull per declared subdirectory — every declared entry,
    /// unconditionally, so a failing sibling never removes another from the
    /// schedule.
    pub fn process(&self) -> (r: Vec<SyncItem>)
        ensures
            r@.len() == self.paths.kvs().len(),
            forall|i: int|
                0 <= i < r@.len() ==> #[trigger] r@[i].subdir@ == self.paths.kvs()[i].0@
                    && r@[i].upstream@ == self.paths.kvs()[i].1@,
    {
        sync_items(&self.paths)
    }
}

impl Submodule {
    /// One add-if-absent-then-update per declared subdirectory — every
    /// declared entry, unconditionally.
    pub fn process(&self) -> (r: Vec<SyncItem>)
        ensures
            r@.len() == self.paths.kvs().len(),
            forall|i: int|
                0 <= i < r@.len() ==> #[trigger] r@[i].subdir@ == self.paths.kvs()[i].0@
                    && r@[i].upstream@ == self.paths.kvs()[i].1@,
    {
        sync_items(&self.paths)
    }
}

fn sync_items(paths: &StrMap<String>) -> (r: Vec<SyncItem>)
    ensures
        r@.len() == paths.kvs().len(),
        forall|i: int|
            0 <= i < r@.len() ==> #[trigger] r@[i].subdir@ == paths.kvs()[i].0@
                && r@[i].upstream@ == paths.kvs()[i].1@,
{
    let mut r: Vec<SyncItem> = Vec::new();
    let n = paths.len();
    let mut i: usize = 0;
    while i < n
        invariant
            n == paths.kvs().len(),
            i <= n,
            r@.len() == i,
            forall|j: int|
                0 <= j < i ==> #[trigger] r@[j].subdir@ == paths.kvs()[j].0@
                    && r@[j].upstream@ == paths.kvs()[j].1@,
        decreases n - i,
    {
        let e = paths.entry_at(i);
        r.push(SyncItem { subdir: e.0.clone(), upstream: e.1.clone() });
        i = i + 1;
    }
    r
}

/// The git actions for one linked-submodule subdirectory.
#[derive(Debug, PartialEq, Eq)]
pub enum GitStep {
    /// Register the submodule against its upstream reference.
    SubmoduleAdd,
    /// Recursive, remote-tracking update.
    SubmoduleUpdate,
}

/// The actions for one submodule subdirectory: register it first when the
/// target path is absent or empty, then always update.
pub fn submodule_steps(present_nonempty: bool) -> (r: Vec<GitStep>)
    ensures
        present_nonempty ==> r@ =~= seq![GitStep::SubmoduleUpdate],
        !present_nonempty ==> r@ =~= seq![GitStep::SubmoduleAdd, GitStep::SubmoduleUpdate],
{
    let mut r: Vec<GitStep> = Vec::new();
    if !present_nonempty {
        r.push(GitStep::SubmoduleAdd);
    }
    r.push(GitStep::SubmoduleUpdate);
    r
}

// ---------------------------------------------------------------------------
// Lifecycle hook
// ---------------------------------------------------------------------------

/// An external hook invocation: a script, its arguments and its working
/// directory.
#[derive(Debug)]
pub struct HookCommand {
    /// Absolute path of the hook script.
    pub script: String,
    /// Arguments: root path, member path, the hook's declared extra
    /// arguments, then the full original command line.
    pub args: Vec<String>,
    /// The member's resolved path.
    pub workdir: String,
}

/// The hook to run for a member, if any: only when the member declares one
/// and the verb is one of the hook verbs.
pub fn hook_for(member: &Member, root_path: &str, xpath: &str, cmd: &Vec<String>) -> (r: Option<
    HookCommand,
>)
    requires
        cmd@.len() >= 1,
        member.updater matches Some(u) ==> u@.len() >= 1,
    ensures
        r is Some <==> member.updater is Some && is_hook_spec(cmd@[0]@),
        r matches Some(h) ==> {
            let u = member.updater->Some_0;
            &&& h.workdir@ == spec_join(root_path@, xpath@)
            &&& h.script@ == spec_join(spec_join(root_path@, xpath@), u@[0]@)
            &&& h.args.deep_view() =~= seq![root_path@, xpath@] + u.deep_view().drop_first()
                + cmd.deep_view()
        },
{
    match &member.updater {
        Option::None => None,
        Option::Some(u) => {
            if !is_hook_verb(cmd[0].as_str()) {
                return None;
            }
            let path = join_path(root_path, xpath);
            let script = join_path(path.as_str(), u[0].as_str());
            let mut args: Vec<String> = Vec::new();
            args.push(root_path.to_owned());
            args.push(xpath.to_owned());
            proof {
                assert(args.deep_view() =~= seq![root_path@, xpath@] + u.deep_view().subrange(
                    1,
                    1,
                ));
            }
            let mut i: usize = 1;
            while i < u.len()
                invariant
                    1 <= i <= u@.len(),
                    args.deep_view() =~= seq![root_path@, xpath@] + u.deep_view().subrange(
                        1,
                        i as int,
                    ),
                decreases u@.len() - i,
            {
                let ghost pre = args.deep_view();
                args.push(u[i].clone());
                proof {
                    assert(args.deep_view() =~= pre.push(u@[i as int]@));
                    assert(u.deep_view().subrange(1, i + 1) =~= u.deep_view().subrange(1, i as int)
                        + seq![u@[i as int]@]);
                    assert(args.deep_view() =~= seq![root_path@, xpath@] + u.deep_view().subrange(
                        1,
                        i + 1,
                    ));
                }
                i = i + 1;
            }
            proof {
                assert(u.deep_view().drop_first() =~= u.deep_view().subrange(
                    1,
                    u.deep_view().len() as int,
                ));
                assert(cmd.deep_view().take(0) =~= Seq::<Seq<char>>::empty());
                assert(args.deep_view() =~= seq![root_path@, xpath@] + u.deep_view().drop_first()
                    + cmd.deep_view().take(0));
            }
            let mut j: usize = 0;
            while j < cmd.len()
                invariant
                    j <= cmd@.len(),
                    args.deep_view() =~= seq![root_path@, xpath@] + u.deep_view().drop_first()
                        + cmd.deep_view().take(j as int),
                    u.deep_view().drop_first() =~= u.deep_view().subrange(
                        1,
                        u.deep_view().len() as int,
                    ),
                decreases cmd@.len() - j,
            {
                let ghost pre = args.deep_view();
                args.push(cmd[j].clone());
                proof {
                    assert(args.deep_view() =~= pre.push(cmd@[j as int]@));
                    assert(cmd.deep_view().take(j + 1) =~= cmd.deep_view().take(j as int)
                        + seq![cmd@[j as int]@]);
                    assert(args.deep_view() =~= seq![root_path@, xpath@]
                        + u.deep_view().drop_first() + cmd.deep_view().take(j + 1));
                }
                j = j + 1;
            }
            proof {
                assert(cmd.deep_view().take(cmd.deep_view().len() as int) =~= cmd.deep_view());
            }
            Some(HookCommand { script, args, workdir: path })
        },
    }
}

// ---------------------------------------------------------------------------
// Native-package dispatcher
// ---------------------------------------------------------------------------

/// The fields of a member's native manifest that the dispatcher reads or
/// writes; the shell keeps everything else in the file untouched.
#[derive(Debug)]
pub struct CargoManifest {
    /// Whether the manifest has a package table at all.
    pub has_package: bool,
    pub version: String,
    pub description: String,
    /// The publishable flag, the inverse of the member's private flag.
    pub publish: bool,
}

/// External actions of the native-package dispatcher, in order.
#[derive(Debug, PartialEq, Eq, Clone, Copy)]
pub enum CargoStep {
    /// The type/lint check.
    Check,
    /// The publish action.
    Publish,
    /// Write the manifest back, normalizing formatting.
    WriteManifest,
}

/// The manifest image after a native-package dispatch: on mutating commands
/// the package fields are overwritten from the member; otherwise untouched.
pub open spec fn cargo_manifest_after(m: Member, verb: Seq<char>, man: CargoManifest)
    -> CargoManifest {
    if is_mutating_spec(verb) && man.has_package {
        CargoManifest {
            has_package: man.has_package,
            version: m.version,
            description: m.description,
            publish: !m.private,
        }
    } else {
        man
    }
}

/// The external actions of a native-package dispatch: a check on build and
/// publish, the publish action only when publishing a non-private member,
/// and always the final write-back.
pub open spec fn cargo_steps_spec(m: Member, verb: Seq<char>) -> Seq<CargoStep> {
    (if is_build_spec(verb) {
        seq![CargoStep::Check]
    } else {
        Seq::empty()
    }) + (if is_publish_spec(verb) && !m.private {
        seq![CargoStep::Publish]
    } else {
        Seq::empty()
    }) + seq![CargoStep::WriteManifest]
}

impl crate::model::Cargo {
    /// One native-package dispatch: the new manifest image and the external
    /// actions to run, in order.
    pub fn process(&self, member: &Member, verb: &str, manifest: CargoManifest) -> (r: (
        CargoManifest,
        Vec<CargoStep>,
    ))
        ensures
            r.0 == cargo_manifest_after(*member, verb@, manifest),
            r.1@ == cargo_steps_spec(*member, verb@),
    {
        let man = if is_mutating_verb(verb) && manifest.has_package {
            CargoManifest {
                has_package: manifest.has_package,
                version: member.version.clone(),
                description: member.description.clone(),
                publish: !member.private,
            }
        } else {
            manifest
        };
        let mut steps: Vec<CargoStep> = Vec::new();
        if is_build_verb(verb) {
            steps.push(CargoStep::Check);
        }
        if is_publish_verb(verb) && !member.private {
            steps.push(CargoStep::Publish);
        }
        steps.push(CargoStep::WriteManifest);
        proof {
            assert(steps@ =~= cargo_steps_spec(*member, verb@));
        }
        (man, steps)
    }
}

// ---------------------------------------------------------------------------
// JS-package dispatcher
// ---------------------------------------------------------------------------

/// The fields of a member's JS metadata file that the dispatcher reads or
/// writes; the shell keeps everything else in the file untouched.
#[derive(Debug)]
pub struct NpmManifest {
    pub version: String,
    pub description: String,
    /// The dependency table: package name to version range.
    pub dependencies: StrMap<String>,
    /// The library-packaging marker.
    pub has_zshy: bool,
    /// The source entry-point marker.
    pub has_source: bool,
}

/// External actions of the JS-package dispatcher, in order.
#[derive(Debug, PartialEq, Eq, Clone, Copy)]
pub enum NpmStep {
    /// Write the current manifest image out.
    WriteManifest,
    /// Run the library bundler; it may rewrite the metadata file.
    RunZshy,
    /// Re-read the metadata file into the current image.
    ReloadManifest,
    /// Run the application bundler from the workspace root.
    RunParcel,
    /// The publish action, with public access scope.
    Publish,
}

/// The range written for one dependency entry: when the entry's key is a
/// known JS-registry name of a local member, the caret range of that
/// member's declared version; otherwise the old range.
pub open spec fn npm_dep_value(
    root: Root,
    rnpm: StrMap<String>,
    k: Seq<char>,
    old: Seq<char>,
) -> Seq<char> {
    if rnpm@.contains_key(k) && root.members@.contains_key(rnpm@[k]@) {
        spec_caret(root.members@[rnpm@[k]@].version@)
    } else {
        old
    }
}

/// The external actions of a JS-package dispatch: on build and publish the
/// bundler selected by the manifest's markers, the publish action only when
/// publishing a non-private member, and always the final write-back.
pub open spec fn npm_steps_spec(m: Member, verb: Seq<char>, man: NpmManifest) -> Seq<NpmStep> {
    (if is_build_spec(verb) {
        if man.has_zshy {
            seq![NpmStep::WriteManifest, NpmStep::RunZshy, NpmStep::ReloadManifest]
        } else if man.has_source {
            seq![NpmStep::RunParcel]
        } else {
            Seq::empty()
        }
    } else {
        Seq::empty()
    }) + (if is_publish_spec(verb) && !m.private {
        seq![NpmStep::Publish]
    } else {
        Seq::empty()
    }) + seq![NpmStep::WriteManifest]
}

impl NPM {
    /// One JS-package dispatch: the new manifest image — on mutating
    /// commands the version and description are overwritten and every
    /// dependency entry naming a local member is re-pinned to that member's
    /// caret range — and the external actions to run, in order.
    pub fn process(
        &self,
        member: &Member,
        verb: &str,
        manifest: NpmManifest,
        root: &Root,
        rnpm: &StrMap<String>,
    ) -> (r: (NpmManifest, Vec<NpmStep>))
        requires
            manifest.dependencies.wf(),
            rnpm.wf(),
            root.members.wf(),
        ensures
            r.1@ == npm_steps_spec(*member, verb@, manifest),
            !is_mutating_spec(verb@) ==> r.0 == manifest,
            is_mutating_spec(verb@) ==> {
                &&& r.0.version == member.version
                &&& r.0.description == member.description
                &&& r.0.has_zshy == manifest.has_zshy
                &&& r.0.has_source == manifest.has_source
                &&& r.0.dependencies.wf()
                &&& r.0.dependencies.kvs().len() == manifest.dependencies.kvs().len()
                &&& forall|i: int|
                    0 <= i < manifest.dependencies.kvs().len() ==> {
                        &&& (#[trigger] r.0.dependencies.kvs()[i]).0@
                            == manifest.dependencies.kvs()[i].0@
                        &&& r.0.dependencies.kvs()[i].1@ == npm_dep_value(
                            *root,
                            *rnpm,
                            manifest.dependencies.kvs()[i].0@,
                            manifest.dependencies.kvs()[i].1@,
                        )
                    }
            },
    {
        let steps = npm_steps(member, verb, &manifest);
        if !is_mutating_verb(verb) {
            return (manifest, steps);
        }
        let mut deps: StrMap<String> = StrMap::new();
        let n = manifest.dependencies.len();
        let mut i: usize = 0;
        while i < n
            invariant
                manifest.dependencies.wf(),
                rnpm.wf(),
                root.members.wf(),
                n == manifest.dependencies.kvs().len(),
                i <= n,
                deps.wf(),
                deps.kvs().len() == i,
                forall|j: int|
                    0 <= j < i ==> {
                        &&& (#[trigger] deps.kvs()[j]).0@ == manifest.dependencies.kvs()[j].0@
                        &&& deps.kvs()[j].1@ == npm_dep_value(
                            *root,
                            *rnpm,
                            manifest.dependencies.kvs()[j].0@,
                            manifest.dependencies.kvs()[j].1@,
                        )
                    },
            decreases n - i,
        {
            let e = manifest.dependencies.entry_at(i);
            let newv: String = match rnpm.get(e.0.as_str()) {
                Option::Some(p) => match root.members.get(p.as_str()) {
                    Option::Some(dm) => caret_range(dm.version.as_str()),
                    Option::None => e.1.clone(),
                },
                Option::None => e.1.clone(),
            };
            proof {
                assert(!deps@.contains_key(e.0@)) by {
                    crate::strmap::lemma_strmap_keys(deps, e.0@);
                    if exists|j: int| 0 <= j < deps.kvs().len() && deps.kvs()[j].0@ == e.0@ {
                        let j = choose|j: int|
                            0 <= j < deps.kvs().len() && deps.kvs()[j].0@ == e.0@;
                        assert(manifest.dependencies.kvs()[j].0@
                            == manifest.dependencies.kvs()[i as int].0@);
                    }
                }
            }
            deps.insert(e.0.clone(), newv);
            i = i + 1;
        }
        let man = NpmManifest {
            version: member.version.clone(),
            description: member.description.clone(),
            dependencies: deps,
            has_zshy: manifest.has_zshy,
            has_source: manifest.has_source,
        };
        (man, steps)
    }
}

fn npm_steps(member: &Member, verb: &str, manifest: &NpmManifest) -> (r: Vec<NpmStep>)
    ensures
        r@ == npm_steps_spec(*member, verb@, *manifest),
{
    let mut steps: Vec<NpmStep> = Vec::new();
    if is_build_verb(verb) {
        if manifest.has_zshy {
            steps.push(NpmStep::WriteManifest);
            steps.push(NpmStep::RunZshy);
            steps.push(NpmStep::ReloadManifest);
        } else if manifest.has_source {
            steps.push(NpmStep::RunParcel);
        }
    }
    if is_publish_verb(verb) && !member.private {
        steps.push(NpmStep::Publish);
    }
    steps.push(NpmStep::WriteManifest);
    proof {
        assert(steps@ =~= npm_steps_spec(*member, verb@, *manifest));
    }
    steps
}

/// A private member is never published, whatever the command verb and
/// whatever its manifests hold.
pub proof fn lemma_private_never_published(m: Member, verb: Seq<char>, man: NpmManifest)
    requires
        m.private,
    ensures
        forall|i: int|
            0 <= i < cargo_steps_spec(m, verb).len()
                ==> #[trigger] cargo_steps_spec(m, verb)[i] != CargoStep::Publish,
        forall|i: int|
            0 <= i < npm_steps_spec(m, verb, man).len()
                ==> #[trigger] npm_steps_spec(m, verb, man)[i] != NpmStep::Publish,
{
}

} // verus!
