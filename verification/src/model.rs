//! The manifest model: a workspace root, its members, their dependency edges
//! and build-system bindings.  Pure data; the behaviour lives in the
//! traversal and dispatch modules.

use vstd::prelude::*;
use crate::strmap::StrMap;

verus! {

/// A workspace: member path to member.  Loaded once per distinct root path
/// and immutable for the duration of one run.
pub struct Root {
    /// Root-level metadata, the reserved `//` key of the manifest.
    pub core: Option<RootCore>,
    /// The members, keyed by their path relative to the root.
    pub members: StrMap<Member>,
}

/// Root-level metadata; currently carries nothing.
pub struct RootCore {}

/// One package of a workspace.
pub struct Member {
    /// Dependency edges, keyed by the target member's path.
    pub deps: StrMap<Dep>,
    /// The declared version, copied into native manifests on mutating runs.
    pub version: String,
    /// The declared description, copied likewise.
    pub description: String,
    /// Suppresses every publish action when set.
    pub private: bool,
    /// Informational parent path.
    pub parent: Option<String>,
    /// Native-package binding: the member has a native manifest to dispatch.
    pub cargo: Option<Cargo>,
    /// JS-package binding: the member has a JS metadata file to dispatch.
    pub npm: Option<NPM>,
    /// Vendored-subtree binding.
    pub subtree: Option<Subtree>,
    /// Linked-submodule binding.
    pub submodule: Option<Submodule>,
    /// Lifecycle hook: script path followed by extra arguments.
    pub updater: Option<Vec<String>>,
}

/// Marker for the native-package binding.
pub struct Cargo {}

/// Marker for the JS-package binding.
pub struct NPM {}

/// Vendored subtrees: local subdirectory name to upstream reference.
pub struct Subtree {
    pub paths: StrMap<String>,
}

/// Linked submodules: local subdirectory name to upstream reference.
pub struct Submodule {
    pub paths: StrMap<String>,
}

/// A dependency edge: direct unless it carries a subrepo indirection.
pub struct Dep {
    pub subrepo: Option<SubrepoID>,
}

/// A chain of root-context switches: first resolve `pkg` under member
/// `pkg_name`; that member embeds a vendored mirror named `subrepo`; inside
/// that mirror's manifest, continue with `nest`.
pub struct SubrepoID {
    pub pkg_name: String,
    pub pkg: Box<Dep>,
    pub subrepo: String,
    pub nest: Box<Dep>,
}

/// Well-formedness of a member: every table it holds has distinct keys.
pub open spec fn member_wf(m: Member) -> bool {
    &&& m.deps.wf()
    &&& (m.subtree matches Some(s) ==> s.paths.wf())
    &&& (m.submodule matches Some(s) ==> s.paths.wf())
}

/// Well-formedness of a root: distinct member paths, well-formed members.
pub open spec fn root_wf(r: Root) -> bool {
    &&& r.members.wf()
    &&& forall|i: int|
        0 <= i < r.members.kvs().len() ==> member_wf(#[trigger] r.members.kvs()[i].1)
}

/// In a well-formed root, every member reached through the map view is
/// well-formed.
pub proof fn lemma_root_member_wf(r: Root, k: Seq<char>)
    requires
        root_wf(r),
        r.members@.contains_key(k),
    ensures
        member_wf(r.members@[k]),
{
    crate::strmap::lemma_strmap_keys(r.members, k);
    let i = choose|i: int| 0 <= i < r.members.kvs().len() && r.members.kvs()[i].0@ == k;
    crate::strmap::lemma_strmap_entry(r.members, i);
}

/// Structural size of a dependency edge; the termination measure for walking
/// a subrepo chain.
pub open spec fn dep_size(d: Dep) -> nat
    decreases d,
{
    match d.subrepo {
        Option::None => 1,
        Option::Some(s) => 1 + dep_size(*s.pkg) + dep_size(*s.nest),
    }
}

} // verus!
