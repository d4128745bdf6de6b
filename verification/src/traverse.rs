//! The traversal engine: visits each member of each root context at most
//! once, resolves dependency edges — possibly across nested-repository
//! contexts — before the dependent, and emits the schedule of
//! synchronization and dispatch events that the shell then executes.
//!
//! The engine works over an environment of loaded roots, keyed by root
//! path.  When a dependency chain needs a nested root that is not loaded
//! yet, planning stops with the path to load; the shell loads it and plans
//! again.  Planning is sequential, so the emitted order is one legal
//! schedule of the concurrent run: dependencies complete before their
//! dependents are dispatched.

use vstd::prelude::*;
use vstd::seq_lib::seq_to_set_is_finite;
use vstd::set::group_set_axioms;
use vstd::set_lib::lemma_len_subset;
use crate::model::{dep_size, root_wf, Dep, Member, Root};
use crate::strmap::StrMap;
use crate::strutil::{join_path, spec_join};
use crate::depmap::subroot_names;
use crate::dispatch::is_mutating_spec;

verus! {

/// The loaded roots of one run, keyed by root path.  The main root is one
/// of them; nested-repository roots are added as the shell loads them.
pub struct Env {
    pub roots: StrMap<Root>,
}

/// A set of (root path, member path) pairs: the members already visited.
pub struct PairSet {
    items: Vec<(String, String)>,
}

impl PairSet {
    /// The pairs, as character sequences, in insertion order.
    pub closed spec fn pairs(&self) -> Seq<(Seq<char>, Seq<char>)> {
        self.items@.map_values(|p: (String, String)| (p.0@, p.1@))
    }

    /// No pair occurs twice.
    pub open spec fn wf(&self) -> bool {
        self.pairs().no_duplicates()
    }

    pub fn new() -> (r: PairSet)
        ensures
            r.wf(),
            r.pairs() == Seq::<(Seq<char>, Seq<char>)>::empty(),
    {
        let r = PairSet { items: Vec::new() };
        proof {
            assert(r.pairs() =~= Seq::<(Seq<char>, Seq<char>)>::empty());
        }
        r
    }

    /// Whether a pair is in the set.
    pub fn contains(&self, c: &str, m: &str) -> (r: bool)
        ensures
            r == self.pairs().contains((c@, m@)),
    {
        let n = self.items.len();
        let mut i: usize = 0;
        while i < n
            invariant
                n == self.items@.len(),
                n == self.pairs().len(),
                i <= n,
                forall|j: int| 0 <= j < i ==> self.pairs()[j] != (c@, m@),
            decreases n - i,
        {
            proof {
                assert(self.pairs()[i as int] == (self.items@[i as int].0@,
                self.items@[i as int].1@));
            }
            if crate::strutil::str_eq(self.items[i].0.as_str(), c) && crate::strutil::str_eq(
                self.items[i].1.as_str(),
                m,
            ) {
                return true;
            }
            i = i + 1;
        }
        false
    }

    /// Adds a pair known to be absent.
    pub fn insert(&mut self, c: String, m: String)
        requires
            old(self).wf(),
            !old(self).pairs().contains((c@, m@)),
        ensures
            final(self).wf(),
            final(self).pairs() == old(self).pairs().push((c@, m@)),
    {
        let ghost pre = self.pairs();
        self.items.push((c, m));
        proof {
            assert(self.pairs() =~= pre.push((c@, m@)));
            assert forall|i: int, j: int|
                0 <= i < j < self.pairs().len() implies self.pairs()[i] != self.pairs()[j] by {
                if j == self.pairs().len() - 1 {
                    assert(pre[i] == self.pairs()[i]);
                    if self.pairs()[i] == (c@, m@) {
                        assert(pre.contains((c@, m@)));
                    }
                }
            }
        }
    }
}

/// One entry of the computed schedule.
#[derive(Debug, PartialEq, Eq)]
pub enum Event {
    /// Merge-pull one vendored-subtree subdirectory of a member.
    SubtreePull { ctx: String, member: String, subdir: String, upstream: String },
    /// Materialize and update one linked-submodule subdirectory of a member.
    SubmoduleEnsure { ctx: String, member: String, subdir: String, upstream: String },
    /// Run the member's lifecycle hook and build-system dispatchers.  All
    /// the member's dependency edges are resolved earlier in the schedule.
    Dispatch { ctx: String, member: String },
}

/// Why planning stopped.
#[derive(Debug, PartialEq, Eq)]
pub enum PlanError {
    /// A dependency chain crosses into a nested repository whose manifest
    /// is not loaded: load the root at this path and plan again.
    RootUnloaded { path: String },
    /// A dependency edge names a member that does not exist in its context.
    UnknownMember { ctx: String, name: String },
}

/// The planner's growing state: the visited set, the schedule so far, and
/// — as ghost bookkeeping — the members whose processing failed after they
/// were marked visited, so that no event was scheduled for them.
pub struct PlanState {
    pub visited: PairSet,
    pub events: Vec<Event>,
    pub aborted: Ghost<Set<(Seq<char>, Seq<char>)>>,
}

/// The dispatch events of a schedule, as (context, member) pairs in order.
pub open spec fn dispatches(es: Seq<Event>) -> Seq<(Seq<char>, Seq<char>)>
    decreases es.len(),
{
    if es.len() == 0 {
        Seq::empty()
    } else {
        dispatches(es.drop_last()) + (match es.last() {
            Event::Dispatch { ctx, member } => seq![(ctx@, member@)],
            _ => Seq::empty(),
        })
    }
}

/// Dispatch extraction distributes over concatenation.
pub proof fn lemma_dispatches_concat(a: Seq<Event>, b: Seq<Event>)
    ensures
        dispatches(a + b) == dispatches(a) + dispatches(b),
    decreases b.len(),
{
    if b.len() == 0 {
        assert(a + b =~= a);
        assert(dispatches(a) + Seq::<(Seq<char>, Seq<char>)>::empty() =~= dispatches(a));
    } else {
        lemma_dispatches_concat(a, b.drop_last());
        assert((a + b).drop_last() =~= a + b.drop_last());
        assert((a + b).last() == b.last());
        assert(dispatches(a + b) =~= dispatches(a) + dispatches(b));
    }
}

/// A pair is valid when its context is loaded and names one of the
/// context's members.
pub open spec fn pair_valid(env: Env, p: (Seq<char>, Seq<char>)) -> bool {
    &&& env.roots@.contains_key(p.0)
    &&& env.roots@[p.0].members@.contains_key(p.1)
}

/// Well-formedness of the environment: distinct root paths, well-formed
/// roots.
pub open spec fn env_wf(env: Env) -> bool {
    &&& env.roots.wf()
    &&& forall|i: int| 0 <= i < env.roots.kvs().len() ==> root_wf(#[trigger] env.roots.kvs()[i].1)
}

/// Every root reached through the environment's map view is well-formed.
pub proof fn lemma_env_root_wf(env: Env, c: Seq<char>)
    requires
        env_wf(env),
        env.roots@.contains_key(c),
    ensures
        root_wf(env.roots@[c]),
{
    crate::strmap::lemma_strmap_keys(env.roots, c);
    let i = choose|i: int| 0 <= i < env.roots.kvs().len() && env.roots.kvs()[i].0@ == c;
    crate::strmap::lemma_strmap_entry(env.roots, i);
}

/// Well-formedness of the planner state: distinct visited pairs, each
/// naming a loaded context and an existing member.
pub open spec fn st_wf(env: Env, st: PlanState) -> bool {
    &&& st.visited.wf()
    &&& forall|j: int|
        0 <= j < st.visited.pairs().len() ==> pair_valid(env, #[trigger] st.visited.pairs()[j])
}

/// Schedule soundness: no member is dispatched twice, only visited members
/// are dispatched, and a member whose processing was aborted is visited but
/// never dispatched.
pub open spec fn events_inv(st: PlanState) -> bool {
    &&& dispatches(st.events@).no_duplicates()
    &&& forall|i: int|
        0 <= i < dispatches(st.events@).len() ==> st.visited.pairs().contains(
            #[trigger] dispatches(st.events@)[i],
        )
    &&& forall|p: (Seq<char>, Seq<char>)|
        st.aborted@.contains(p) ==> st.visited.pairs().contains(p) && !dispatches(
            st.events@,
        ).contains(p)
}

/// All valid pairs of one root's members.
pub open spec fn root_pairs(c: String, r: Root) -> Seq<(Seq<char>, Seq<char>)> {
    r.members.kvs().map_values(|e: (String, Member)| (c@, e.0@))
}

/// All valid pairs of an environment.
pub open spec fn all_pairs(s: Seq<(String, Root)>) -> Seq<(Seq<char>, Seq<char>)>
    decreases s.len(),
{
    if s.len() == 0 {
        Seq::empty()
    } else {
        all_pairs(s.drop_last()) + root_pairs(s.last().0, s.last().1)
    }
}

/// A pair is among an environment's pairs exactly when it is valid.
proof fn lemma_all_pairs_valid(env: Env, p: (Seq<char>, Seq<char>))
    requires
        env.roots.wf(),
    ensures
        all_pairs(env.roots.kvs()).contains(p) <==> pair_valid(env, p),
{
    lemma_all_pairs_valid_rec(env.roots.kvs(), p);
    if pair_valid(env, p) {
        crate::strmap::lemma_strmap_keys(env.roots, p.0);
        let i = choose|i: int| 0 <= i < env.roots.kvs().len() && env.roots.kvs()[i].0@ == p.0;
        crate::strmap::lemma_strmap_entry(env.roots, i);
        let r = env.roots.kvs()[i].1;
        assert(r == env.roots@[p.0]);
        crate::strmap::lemma_strmap_keys(r.members, p.1);
        let k = choose|k: int| 0 <= k < r.members.kvs().len() && r.members.kvs()[k].0@ == p.1;
        let rp = root_pairs(env.roots.kvs()[i].0, r);
        assert(rp[k] == p);
        assert(rp.contains(p));
    }
    if all_pairs(env.roots.kvs()).contains(p) {
        let i = choose|i: int|
            {
                &&& 0 <= i < env.roots.kvs().len()
                &&& env.roots.kvs()[i].0@ == p.0
                &&& root_pairs(#[trigger] env.roots.kvs()[i].0, env.roots.kvs()[i].1).contains(p)
            };
        crate::strmap::lemma_strmap_entry(env.roots, i);
        let r = env.roots.kvs()[i].1;
        let rp = root_pairs(env.roots.kvs()[i].0, r);
        let k = choose|k: int| 0 <= k < rp.len() && rp[k] == p;
        assert(r.members.kvs()[k].0@ == p.1);
        crate::strmap::lemma_strmap_keys(r.members, p.1);
    }
}

proof fn lemma_all_pairs_valid_rec(s: Seq<(String, Root)>, p: (Seq<char>, Seq<char>))
    ensures
        all_pairs(s).contains(p) <==> exists|i: int|
            {
                &&& 0 <= i < s.len()
                &&& s[i].0@ == p.0
                &&& root_pairs(#[trigger] s[i].0, s[i].1).contains(p)
            },
    decreases s.len(),
{
    if s.len() > 0 {
        lemma_all_pairs_valid_rec(s.drop_last(), p);
        let a = all_pairs(s.drop_last());
        let b = root_pairs(s.last().0, s.last().1);
        if all_pairs(s).contains(p) {
            let k = choose|k: int| 0 <= k < (a + b).len() && (a + b)[k] == p;
            if k < a.len() {
                assert(a.contains(p)) by {
                    assert(a[k] == p);
                }
                let i = choose|i: int|
                    {
                        &&& 0 <= i < s.drop_last().len()
                        &&& s.drop_last()[i].0@ == p.0
                        &&& root_pairs(#[trigger] s.drop_last()[i].0, s.drop_last()[i].1).contains(
                            p,
                        )
                    };
                assert(s[i] == s.drop_last()[i]);
            } else {
                assert(b.contains(p)) by {
                    assert(b[k - a.len()] == p);
                }
                assert(s[s.len() - 1] == s.last());
            }
        }
        if exists|i: int|
            {
                &&& 0 <= i < s.len()
                &&& s[i].0@ == p.0
                &&& root_pairs(#[trigger] s[i].0, s[i].1).contains(p)
            } {
            let i = choose|i: int|
                {
                    &&& 0 <= i < s.len()
                    &&& s[i].0@ == p.0
                    &&& root_pairs(#[trigger] s[i].0, s[i].1).contains(p)
                };
            if i < s.len() - 1 {
                assert(s.drop_last()[i] == s[i]);
                let k = choose|k: int| 0 <= k < a.len() && a[k] == p;
                assert((a + b)[k] == p);
            } else {
                let k = choose|k: int| 0 <= k < b.len() && b[k] == p;
                assert((a + b)[a.len() + k] == p);
            }
        }
    }
}

/// The planner's termination measure: how many valid pairs are not yet
/// visited.
pub open spec fn plan_slack(env: Env, st: PlanState) -> nat {
    all_pairs(env.roots.kvs()).to_set().difference(st.visited.pairs().to_set()).len()
}

/// Visiting one more valid, unvisited pair strictly shrinks the measure.
proof fn lemma_slack_decreases(env: Env, st0: PlanState, st1: PlanState, p: (Seq<char>, Seq<char>))
    requires
        env.roots.wf(),
        pair_valid(env, p),
        !st0.visited.pairs().contains(p),
        st1.visited.pairs() == st0.visited.pairs().push(p),
    ensures
        plan_slack(env, st1) < plan_slack(env, st0),
{
    broadcast use group_set_axioms;

    let v = all_pairs(env.roots.kvs()).to_set();
    lemma_all_pairs_valid(env, p);
    assert(v.contains(p));
    seq_to_set_is_finite(all_pairs(env.roots.kvs()));
    assert(st1.visited.pairs().to_set() =~= st0.visited.pairs().to_set().insert(p)) by {
        assert forall|q: (Seq<char>, Seq<char>)| st1.visited.pairs().contains(q) <==> st0
            .visited.pairs().contains(q) || q == p by {
            if st1.visited.pairs().contains(q) {
                let i = choose|i: int|
                    0 <= i < st1.visited.pairs().len() && st1.visited.pairs()[i] == q;
                if i < st0.visited.pairs().len() {
                    assert(st0.visited.pairs()[i] == q);
                }
            }
            if st0.visited.pairs().contains(q) {
                let i = choose|i: int|
                    0 <= i < st0.visited.pairs().len() && st0.visited.pairs()[i] == q;
                assert(st1.visited.pairs()[i] == q);
            }
            if q == p {
                assert(st1.visited.pairs().last() == p);
            }
        }
    }
    v.lemma_set_insert_diff_decreases(st0.visited.pairs().to_set(), p);
}

/// How one planning step may grow the state: the visited set and the
/// schedule only grow, the schedule stays sound, and every new dispatch is
/// of a newly visited member.
pub open spec fn grows(env: Env, st0: PlanState, st1: PlanState) -> bool {
    &&& st_wf(env, st1)
    &&& events_inv(st1)
    &&& forall|p: (Seq<char>, Seq<char>)|
        st0.visited.pairs().contains(p) ==> st1.visited.pairs().contains(p)
    &&& st1.events@.len() >= st0.events@.len()
    &&& st1.events@.take(st0.events@.len() as int) == st0.events@
    &&& forall|p: (Seq<char>, Seq<char>)|
        dispatches(st1.events@).contains(p) ==> dispatches(st0.events@).contains(p) || (
        st1.visited.pairs().contains(p) && !st0.visited.pairs().contains(p))
    &&& forall|p: (Seq<char>, Seq<char>)| st0.aborted@.contains(p) ==> st1.aborted@.contains(p)
    &&& forall|p: (Seq<char>, Seq<char>)|
        st1.aborted@.contains(p) && !st0.aborted@.contains(p) ==> st1.visited.pairs().contains(p)
            && !st0.visited.pairs().contains(p)
}

proof fn lemma_grows_refl(env: Env, st: PlanState)
    requires
        st_wf(env, st),
        events_inv(st),
    ensures
        grows(env, st, st),
{
    assert(st.events@.take(st.events@.len() as int) =~= st.events@);
}

proof fn lemma_grows_trans(env: Env, st0: PlanState, st1: PlanState, st2: PlanState)
    requires
        grows(env, st0, st1),
        grows(env, st1, st2),
    ensures
        grows(env, st0, st2),
{
    let n0 = st0.events@.len() as int;
    let n1 = st1.events@.len() as int;
    assert(st2.events@.take(n0) =~= st0.events@) by {
        assert(forall|i: int| 0 <= i < n1 ==> st2.events@[i] == st1.events@[i]) by {
            assert(forall|i: int|
                0 <= i < n1 ==> st2.events@.take(n1)[i] == #[trigger] st2.events@[i]);
        }
        assert(forall|i: int| 0 <= i < n0 ==> st1.events@[i] == st0.events@[i]) by {
            assert(forall|i: int|
                0 <= i < n0 ==> st1.events@.take(n0)[i] == #[trigger] st1.events@[i]);
        }
    }
    assert forall|p: (Seq<char>, Seq<char>)|
        dispatches(st2.events@).contains(p) implies dispatches(st0.events@).contains(p) || (
    st2.visited.pairs().contains(p) && !st0.visited.pairs().contains(p)) by {
        if dispatches(st1.events@).contains(p) {
            if !dispatches(st0.events@).contains(p) {
                assert(st1.visited.pairs().contains(p) && !st0.visited.pairs().contains(p));
                assert(st2.visited.pairs().contains(p));
            }
        }
        if !dispatches(st1.events@).contains(p) && dispatches(st2.events@).contains(p) {
            assert(st2.visited.pairs().contains(p) && !st1.visited.pairs().contains(p));
            if st0.visited.pairs().contains(p) {
                assert(st1.visited.pairs().contains(p));
            }
        }
    }
}

/// Pushing keeps the old elements and adds the new one.
proof fn lemma_push_contains<T>(s: Seq<T>, x: T)
    ensures
        forall|q: T| s.contains(q) ==> #[trigger] s.push(x).contains(q),
        s.push(x).contains(x),
        forall|q: T| #[trigger] s.push(x).contains(q) ==> s.contains(q) || q == x,
{
    assert(s.push(x)[s.len() as int] == x);
    assert forall|q: T| s.contains(q) implies #[trigger] s.push(x).contains(q) by {
        let i = choose|i: int| 0 <= i < s.len() && s[i] == q;
        assert(s.push(x)[i] == q);
    }
    assert forall|q: T| #[trigger] s.push(x).contains(q) implies s.contains(q) || q == x by {
        let i = choose|i: int| 0 <= i < s.push(x).len() && s.push(x)[i] == q;
        if i < s.len() {
            assert(s[i] == q);
        }
    }
}

/// A non-dispatch event leaves the dispatch sequence unchanged.
proof fn lemma_dispatches_push_sync(es: Seq<Event>, ev: Event)
    requires
        !(ev is Dispatch),
    ensures
        dispatches(es.push(ev)) == dispatches(es),
{
    assert(es.push(ev).drop_last() =~= es);
    assert(dispatches(es.push(ev)) =~= dispatches(es));
}

/// Growing the visited set never grows the measure.
proof fn lemma_slack_monotone(env: Env, st0: PlanState, st1: PlanState)
    requires
        forall|q: (Seq<char>, Seq<char>)|
            st0.visited.pairs().contains(q) ==> st1.visited.pairs().contains(q),
    ensures
        plan_slack(env, st1) <= plan_slack(env, st0),
{
    broadcast use group_set_axioms;

    let v = all_pairs(env.roots.kvs()).to_set();
    seq_to_set_is_finite(all_pairs(env.roots.kvs()));
    let d0 = v.difference(st0.visited.pairs().to_set());
    let d1 = v.difference(st1.visited.pairs().to_set());
    assert(d1.subset_of(d0));
    lemma_len_subset(d1, d0);
}

// ---------------------------------------------------------------------------
// Synchronization completeness
// ---------------------------------------------------------------------------

/// The schedule pulls this member's vendored-subtree subdirectory.
pub open spec fn has_subtree_event(
    es: Seq<Event>,
    c: Seq<char>,
    m: Seq<char>,
    sd: Seq<char>,
    up: Seq<char>,
) -> bool {
    exists|idx: int|
        {
            &&& 0 <= idx < es.len()
            &&& (#[trigger] es[idx]) matches Event::SubtreePull { ctx, member, subdir, upstream }
            &&& ctx@ == c
            &&& member@ == m
            &&& subdir@ == sd
            &&& upstream@ == up
        }
}

/// The schedule materializes this member's linked-submodule subdirectory.
pub open spec fn has_submodule_event(
    es: Seq<Event>,
    c: Seq<char>,
    m: Seq<char>,
    sd: Seq<char>,
    up: Seq<char>,
) -> bool {
    exists|idx: int|
        {
            &&& 0 <= idx < es.len()
            &&& (#[trigger] es[idx]) matches Event::SubmoduleEnsure { ctx, member, subdir, upstream }
            &&& ctx@ == c
            &&& member@ == m
            &&& subdir@ == sd
            &&& upstream@ == up
        }
}

/// A dispatched member's declared subtree and submodule subdirectories are
/// all in the schedule — every one of them, so a failing sibling never
/// removes another.
pub open spec fn pair_synced(env: Env, es: Seq<Event>, p: (Seq<char>, Seq<char>)) -> bool {
    pair_valid(env, p) ==> {
        let mb = env.roots@[p.0].members@[p.1];
        &&& (mb.subtree matches Option::Some(stp) ==> forall|k: int|
            0 <= k < stp.paths.kvs().len() ==> has_subtree_event(
                es,
                p.0,
                p.1,
                (#[trigger] stp.paths.kvs()[k]).0@,
                stp.paths.kvs()[k].1@,
            ))
        &&& (mb.submodule matches Option::Some(sub) ==> forall|k: int|
            0 <= k < sub.paths.kvs().len() ==> has_submodule_event(
                es,
                p.0,
                p.1,
                (#[trigger] sub.paths.kvs()[k]).0@,
                sub.paths.kvs()[k].1@,
            ))
    }
}

/// Every dispatched member has its synchronization events scheduled.
pub open spec fn sync_complete(env: Env, es: Seq<Event>) -> bool {
    forall|i: int|
        0 <= i < dispatches(es).len() ==> pair_synced(env, es, #[trigger] dispatches(es)[i])
}

/// Extending a schedule keeps the synchronization events it already holds.
proof fn lemma_sync_event_prefix(
    a: Seq<Event>,
    b: Seq<Event>,
    c: Seq<char>,
    m: Seq<char>,
    sd: Seq<char>,
    up: Seq<char>,
)
    requires
        a.len() <= b.len(),
        b.take(a.len() as int) == a,
    ensures
        has_subtree_event(a, c, m, sd, up) ==> has_subtree_event(b, c, m, sd, up),
        has_submodule_event(a, c, m, sd, up) ==> has_submodule_event(b, c, m, sd, up),
{
    assert(forall|idx: int|
        0 <= idx < a.len() ==> b.take(a.len() as int)[idx] == #[trigger] b[idx]);
    if has_subtree_event(a, c, m, sd, up) {
        let idx = choose|idx: int|
            {
                &&& 0 <= idx < a.len()
                &&& (#[trigger] a[idx]) matches Event::SubtreePull { ctx, member, subdir, upstream }
                &&& ctx@ == c
                &&& member@ == m
                &&& subdir@ == sd
                &&& upstream@ == up
            };
        assert(b[idx] == a[idx]);
    }
    if has_submodule_event(a, c, m, sd, up) {
        let idx = choose|idx: int|
            {
                &&& 0 <= idx < a.len()
                &&& (#[trigger] a[idx]) matches Event::SubmoduleEnsure { ctx, member, subdir, upstream }
                &&& ctx@ == c
                &&& member@ == m
                &&& subdir@ == sd
                &&& upstream@ == up
            };
        assert(b[idx] == a[idx]);
    }
}

/// Extending a schedule keeps a member's synchronization events.
proof fn lemma_pair_synced_prefix(env: Env, a: Seq<Event>, b: Seq<Event>, p: (Seq<char>, Seq<char>))
    requires
        a.len() <= b.len(),
        b.take(a.len() as int) == a,
        pair_synced(env, a, p),
    ensures
        pair_synced(env, b, p),
{
    if pair_valid(env, p) {
        let mb = env.roots@[p.0].members@[p.1];
        if mb.subtree is Some {
            let stp = mb.subtree->Some_0;
            assert forall|k: int| 0 <= k < stp.paths.kvs().len() implies has_subtree_event(
                b,
                p.0,
                p.1,
                (#[trigger] stp.paths.kvs()[k]).0@,
                stp.paths.kvs()[k].1@,
            ) by {
                let pe = stp.paths.kvs()[k];
                lemma_sync_event_prefix(a, b, p.0, p.1, pe.0@, pe.1@);
            }
        }
        if mb.submodule is Some {
            let sub = mb.submodule->Some_0;
            assert forall|k: int| 0 <= k < sub.paths.kvs().len() implies has_submodule_event(
                b,
                p.0,
                p.1,
                (#[trigger] sub.paths.kvs()[k]).0@,
                sub.paths.kvs()[k].1@,
            ) by {
                let pe = sub.paths.kvs()[k];
                lemma_sync_event_prefix(a, b, p.0, p.1, pe.0@, pe.1@);
            }
        }
    }
}

/// A schedule extension with no new dispatches stays fully synchronized.
proof fn lemma_sync_complete_extend(env: Env, a: Seq<Event>, b: Seq<Event>)
    requires
        a.len() <= b.len(),
        b.take(a.len() as int) == a,
        dispatches(b) == dispatches(a),
        sync_complete(env, a),
    ensures
        sync_complete(env, b),
{
    assert forall|i: int|
        0 <= i < dispatches(b).len() implies pair_synced(env, b, #[trigger] dispatches(b)[i]) by {
        let p = dispatches(b)[i];
        assert(pair_synced(env, a, p));
        lemma_pair_synced_prefix(env, a, b, p);
    }
}

// ---------------------------------------------------------------------------
// The dependency-order guarantee
// ---------------------------------------------------------------------------

/// The members that resolving one dependency edge visits, after the edge's
/// chain of nested-repository switches is walked against the environment.
pub open spec fn visit_targets(
    env: Env,
    mutating: bool,
    c: Seq<char>,
    k: Seq<char>,
    dep: Dep,
) -> Set<(Seq<char>, Seq<char>)>
    decreases dep,
{
    match dep.subrepo {
        Option::None => set![(c, k)],
        Option::Some(s) => {
            if mutating {
                set![(c, k)]
            } else {
                let name = spec_join(s.pkg_name@, s.subrepo@);
                let sub = spec_join(c, name);
                visit_targets(env, mutating, c, s.pkg_name@, *s.pkg).union(
                    if subroot_names(env.roots@[c].members.kvs()).contains(name) {
                        if env.roots@.contains_key(sub) {
                            visit_targets(env, mutating, sub, k, *s.nest)
                        } else {
                            Set::empty()
                        }
                    } else {
                        set![(c, k)]
                    },
                )
            }
        },
    }
}

/// One traversal step: from a member to a member visited while resolving
/// one of its dependency edges.
pub open spec fn step(
    env: Env,
    mutating: bool,
    p: (Seq<char>, Seq<char>),
    q: (Seq<char>, Seq<char>),
) -> bool {
    &&& pair_valid(env, p)
    &&& exists|i: int|
        #![trigger env.roots@[p.0].members@[p.1].deps.kvs()[i]]
        {
            let m = env.roots@[p.0].members@[p.1];
            &&& 0 <= i < m.deps.kvs().len()
            &&& visit_targets(env, mutating, p.0, m.deps.kvs()[i].0@, m.deps.kvs()[i].1).contains(
                q,
            )
        }
}

/// A walk along traversal steps.
pub open spec fn is_chain(env: Env, mutating: bool, ch: Seq<(Seq<char>, Seq<char>)>) -> bool {
    forall|i: int| 0 <= i < ch.len() - 1 ==> step(env, mutating, #[trigger] ch[i], ch[i + 1])
}

/// Whether the traversal can reach `q` from `p` in one or more steps.
pub open spec fn reaches(
    env: Env,
    mutating: bool,
    p: (Seq<char>, Seq<char>),
    q: (Seq<char>, Seq<char>),
) -> bool {
    exists|ch: Seq<(Seq<char>, Seq<char>)>|
        {
            &&& is_chain(env, mutating, ch)
            &&& ch.len() >= 2
            &&& ch.first() == p
            &&& ch.last() == q
        }
}

/// The dependency structure is acyclic for this run: no member reaches
/// itself through dependency resolution.
pub open spec fn acyclic(env: Env, mutating: bool) -> bool {
    forall|p: (Seq<char>, Seq<char>)| !reaches(env, mutating, p, p)
}

/// Everything visited after the elements of a chain is reachable from each
/// of them.
proof fn lemma_chain_reaches(
    env: Env,
    mutating: bool,
    ch: Seq<(Seq<char>, Seq<char>)>,
    x: (Seq<char>, Seq<char>),
    i: int,
)
    requires
        is_chain(env, mutating, ch),
        0 <= i < ch.len(),
        step(env, mutating, ch.last(), x),
    ensures
        reaches(env, mutating, ch[i], x),
{
    let sub = ch.subrange(i, ch.len() as int).push(x);
    assert(sub.first() == ch[i]);
    assert(sub.last() == x);
    assert(sub.len() >= 2);
    assert(is_chain(env, mutating, sub)) by {
        assert forall|j: int| 0 <= j < sub.len() - 1 implies step(
            env,
            mutating,
            #[trigger] sub[j],
            sub[j + 1],
        ) by {
            if j < sub.len() - 2 {
                assert(sub[j] == ch[i + j]);
                assert(sub[j + 1] == ch[i + j + 1]);
            } else {
                assert(sub[j] == ch[ch.len() - 1]);
                assert(sub[j + 1] == x);
            }
        }
    }
}

/// One more step extends reachability.
proof fn lemma_reaches_step(
    env: Env,
    mutating: bool,
    p: (Seq<char>, Seq<char>),
    q: (Seq<char>, Seq<char>),
    x: (Seq<char>, Seq<char>),
)
    requires
        reaches(env, mutating, p, q),
        step(env, mutating, q, x),
    ensures
        reaches(env, mutating, p, x),
{
    let ch = choose|ch: Seq<(Seq<char>, Seq<char>)>|
        {
            &&& is_chain(env, mutating, ch)
            &&& ch.len() >= 2
            &&& ch.first() == p
            &&& ch.last() == q
        };
    lemma_chain_reaches(env, mutating, ch, x, 0);
}

/// A single step is a chain of length two.
proof fn lemma_step_reaches(
    env: Env,
    mutating: bool,
    p: (Seq<char>, Seq<char>),
    q: (Seq<char>, Seq<char>),
)
    requires
        step(env, mutating, p, q),
    ensures
        reaches(env, mutating, p, q),
{
    let ch = seq![p, q];
    assert(ch.first() == p);
    assert(ch.last() == q);
    assert(is_chain(env, mutating, ch)) by {
        assert forall|i: int| 0 <= i < ch.len() - 1 implies step(env, mutating, #[trigger] ch[i], ch[i + 1]) by {
            assert(ch[i] == p && ch[i + 1] == q);
        }
    }
}

/// The target of one dependency edge of a member, and whether the edge is
/// direct, with no subrepo indirection.
pub open spec fn edge_target(env: Env, p: (Seq<char>, Seq<char>), j: int) -> (
    Seq<char>,
    Seq<char>,
) {
    (p.0, env.roots@[p.0].members@[p.1].deps.kvs()[j].0@)
}

pub open spec fn direct_edge(env: Env, p: (Seq<char>, Seq<char>), j: int) -> bool {
    &&& pair_valid(env, p)
    &&& 0 <= j < env.roots@[p.0].members@[p.1].deps.kvs().len()
    &&& env.roots@[p.0].members@[p.1].deps.kvs()[j].1.subrepo is None
}

/// A direct edge is itself a traversal step.
proof fn lemma_direct_edge_step(env: Env, mutating: bool, p: (Seq<char>, Seq<char>), j: int)
    requires
        direct_edge(env, p, j),
    ensures
        step(env, mutating, p, edge_target(env, p, j)),
{
    let m = env.roots@[p.0].members@[p.1];
    assert(visit_targets(env, mutating, p.0, m.deps.kvs()[j].0@, m.deps.kvs()[j].1).contains(
        edge_target(env, p, j),
    ));
}

/// One scheduled dispatch respects one direct edge: the target was
/// dispatched earlier, or is still in progress on the traversal stack with
/// the dispatched member in its subtree, or was aborted.
pub open spec fn ord_ok(
    env: Env,
    mutating: bool,
    d: Seq<(Seq<char>, Seq<char>)>,
    ab: Set<(Seq<char>, Seq<char>)>,
    stack: Seq<(Seq<char>, Seq<char>)>,
    i: int,
    j: int,
) -> bool {
    let t = edge_target(env, d[i], j);
    ||| exists|k: int| 0 <= k < i && d[k] == t
    ||| (stack.contains(t) && reaches(env, mutating, t, d[i]))
    ||| ab.contains(t)
}

/// Every scheduled dispatch respects every direct edge of its member.
pub open spec fn ord_events(
    env: Env,
    mutating: bool,
    d: Seq<(Seq<char>, Seq<char>)>,
    ab: Set<(Seq<char>, Seq<char>)>,
    stack: Seq<(Seq<char>, Seq<char>)>,
) -> bool {
    forall|i: int, j: int|
        0 <= i < d.len() && #[trigger] direct_edge(env, d[i], j) ==> ord_ok(
            env,
            mutating,
            d,
            ab,
            stack,
            i,
            j,
        )
}

/// Every visited member is dispatched, still in progress on the traversal
/// stack, or aborted: nothing visited is silently dropped from the
/// schedule.
pub open spec fn accounted(
    d: Seq<(Seq<char>, Seq<char>)>,
    vis: Seq<(Seq<char>, Seq<char>)>,
    ab: Set<(Seq<char>, Seq<char>)>,
    stack: Seq<(Seq<char>, Seq<char>)>,
) -> bool {
    forall|p: (Seq<char>, Seq<char>)|
        vis.contains(p) ==> d.contains(p) || stack.contains(p) || ab.contains(p)
}

/// Extending a schedule keeps every dispatch it already holds.
proof fn lemma_dispatches_prefix(a: Seq<Event>, b: Seq<Event>)
    requires
        a.len() <= b.len(),
        b.take(a.len() as int) == a,
    ensures
        forall|p: (Seq<char>, Seq<char>)|
            dispatches(a).contains(p) ==> #[trigger] dispatches(b).contains(p),
{
    assert(b =~= a + b.skip(a.len() as int));
    lemma_dispatches_concat(a, b.skip(a.len() as int));
    assert forall|p: (Seq<char>, Seq<char>)|
        dispatches(a).contains(p) implies #[trigger] dispatches(b).contains(p) by {
        let k = choose|k: int| 0 <= k < dispatches(a).len() && dispatches(a)[k] == p;
        assert(dispatches(b)[k] == p);
    }
}

/// The ordering invariant over the schedule, visited set, aborted set and
/// traversal stack: members on the stack are not yet dispatched, every
/// visited member is dispatched, on the stack or aborted, and the schedule
/// respects direct edges.
pub open spec fn ord_core(
    env: Env,
    mutating: bool,
    d: Seq<(Seq<char>, Seq<char>)>,
    vis: Seq<(Seq<char>, Seq<char>)>,
    ab: Set<(Seq<char>, Seq<char>)>,
    stack: Seq<(Seq<char>, Seq<char>)>,
) -> bool {
    &&& forall|i: int| 0 <= i < stack.len() ==> !d.contains(#[trigger] stack[i])
    &&& forall|p: (Seq<char>, Seq<char>)|
        vis.contains(p) ==> d.contains(p) || stack.contains(p) || ab.contains(p)
    &&& ord_events(env, mutating, d, ab, stack)
}

/// The ordering invariant of a planner state, carried through the
/// traversal whenever the dependency structure is acyclic.
pub open spec fn ord_inv(
    env: Env,
    mutating: bool,
    st: PlanState,
    stack: Seq<(Seq<char>, Seq<char>)>,
) -> bool {
    acyclic(env, mutating) ==> ord_core(
        env,
        mutating,
        dispatches(st.events@),
        st.visited.pairs(),
        st.aborted@,
        stack,
    )
}

/// Each link of a chain reaches the chain's end.
proof fn lemma_chain_to_last(env: Env, mutating: bool, ch: Seq<(Seq<char>, Seq<char>)>, i: int)
    requires
        is_chain(env, mutating, ch),
        0 <= i < ch.len() - 1,
    ensures
        reaches(env, mutating, ch[i], ch.last()),
{
    let sub = ch.subrange(i, ch.len() as int);
    assert(sub.first() == ch[i]);
    assert(sub.last() == ch.last());
    assert(sub.len() >= 2);
    assert(is_chain(env, mutating, sub)) by {
        assert forall|k: int| 0 <= k < sub.len() - 1 implies step(
            env,
            mutating,
            #[trigger] sub[k],
            sub[k + 1],
        ) by {
            assert(sub[k] == ch[i + k]);
            assert(sub[k + 1] == ch[i + k + 1]);
        }
    }
}

/// Visits one member in one root context: a no-op if it was already
/// visited in that context; otherwise it is marked visited, its vendored
/// subtrees and linked submodules are scheduled, every dependency edge is
/// resolved — all of them, even after one fails — and finally the member's
/// own dispatch is scheduled.
fn update(
    env: &Env,
    mutating: bool,
    ctx: &String,
    xpath: &String,
    st: &mut PlanState,
    Ghost(stack): Ghost<Seq<(Seq<char>, Seq<char>)>>,
) -> (r: Result<(), PlanError>)
    requires
        env_wf(*env),
        env.roots@.contains_key(ctx@),
        st_wf(*env, *old(st)),
        events_inv(*old(st)),
        is_chain(*env, mutating, stack),
        stack.len() > 0 ==> step(*env, mutating, stack.last(), (ctx@, xpath@)),
        forall|i: int|
            0 <= i < stack.len() ==> old(st).visited.pairs().contains(#[trigger] stack[i]),
        ord_inv(*env, mutating, *old(st), stack),
        accounted(
            dispatches(old(st).events@),
            old(st).visited.pairs(),
            old(st).aborted@,
            stack,
        ),
        sync_complete(*env, old(st).events@),
    ensures
        grows(*env, *old(st), *final(st)),
        mutating ==> !(r is Err && r->Err_0 is RootUnloaded),
        r is Ok ==> final(st).visited.pairs().contains((ctx@, xpath@)),
        r is Ok ==> final(st).aborted@ == old(st).aborted@,
        ord_inv(*env, mutating, *final(st), stack),
        accounted(
            dispatches(final(st).events@),
            final(st).visited.pairs(),
            final(st).aborted@,
            stack,
        ),
        sync_complete(*env, final(st).events@),
        r matches Result::Err(PlanError::UnknownMember { ctx: c2, name: n2 })
            ==> env.roots@.contains_key(c2@) && !env.roots@[c2@].members@.contains_key(n2@),
        r matches Result::Err(PlanError::RootUnloaded { path }) ==> !env.roots@.contains_key(
            path@,
        ),
    decreases plan_slack(*env, *st), 0nat, 0nat,
{
    let ghost st0 = *st;
    let root = match env.roots.get(ctx.as_str()) {
        Option::Some(r) => r,
        Option::None => {
            proof {
                assert(false);
            }
            return Result::Ok(());
        },
    };
    proof {
        lemma_env_root_wf(*env, ctx@);
    }
    let member = match root.members.get(xpath.as_str()) {
        Option::Some(m) => m,
        Option::None => {
            proof {
                lemma_grows_refl(*env, *st);
            }
            return Result::Err(PlanError::UnknownMember { ctx: ctx.clone(), name: xpath.clone() });
        },
    };
    proof {
        crate::model::lemma_root_member_wf(env.roots@[ctx@], xpath@);
    }
    if st.visited.contains(ctx.as_str(), xpath.as_str()) {
        proof {
            lemma_grows_refl(*env, *st);
        }
        return Result::Ok(());
    }
    st.visited.insert(ctx.clone(), xpath.clone());
    let ghost st1 = *st;
    proof {
        lemma_push_contains(st0.visited.pairs(), (ctx@, xpath@));
        assert(st_wf(*env, st1)) by {
            assert(forall|j: int|
                0 <= j < st0.visited.pairs().len() ==> st1.visited.pairs()[j]
                    == #[trigger] st0.visited.pairs()[j]);
        }
        assert(events_inv(st1));
        lemma_slack_decreases(*env, st0, st1, (ctx@, xpath@));
        lemma_grows_refl(*env, st1);
        assert(grows(*env, st0, st1)) by {
            assert(st1.events@.take(st0.events@.len() as int) =~= st0.events@);
        }
    }
    let ghost slack1 = plan_slack(*env, st1);
    let ghost pair = (ctx@, xpath@);
    let ghost stack2 = stack.push(pair);
    proof {
        lemma_push_contains(stack, pair);
        assert(is_chain(*env, mutating, stack2)) by {
            assert forall|k: int| 0 <= k < stack2.len() - 1 implies step(
                *env,
                mutating,
                #[trigger] stack2[k],
                stack2[k + 1],
            ) by {
                if k < stack.len() - 1 {
                    assert(stack2[k] == stack[k]);
                    assert(stack2[k + 1] == stack[k + 1]);
                } else {
                    assert(stack2[k] == stack.last());
                    assert(stack2[k + 1] == pair);
                }
            }
        }
        assert(stack2.last() == pair);
        assert(!dispatches(st1.events@).contains(pair)) by {
            if dispatches(st0.events@).contains(pair) {
                let k = choose|k: int|
                    0 <= k < dispatches(st0.events@).len() && dispatches(st0.events@)[k] == pair;
                assert(st0.visited.pairs().contains(pair));
            }
        }
        assert(forall|i: int|
            0 <= i < stack2.len() ==> st1.visited.pairs().contains(#[trigger] stack2[i]));
        assert(accounted(
            dispatches(st1.events@),
            st1.visited.pairs(),
            st1.aborted@,
            stack2,
        )) by {
            assert(dispatches(st1.events@) == dispatches(st0.events@));
            assert(st1.aborted@ == st0.aborted@);
            assert(stack2.contains(pair));
        }
        assert(ord_inv(*env, mutating, st1, stack2)) by {
            if acyclic(*env, mutating) {
                let d = dispatches(st1.events@);
                assert(d == dispatches(st0.events@));
                assert(forall|i: int| 0 <= i < stack2.len() ==> !d.contains(#[trigger] stack2[i]));
                assert(forall|p: (Seq<char>, Seq<char>)|
                    st1.visited.pairs().contains(p) ==> d.contains(p) || stack2.contains(p)
                        || st1.aborted@.contains(p));
                assert(ord_events(*env, mutating, d, st1.aborted@, stack2)) by {
                    assert forall|i: int, j: int|
                        0 <= i < d.len() && #[trigger] direct_edge(*env, d[i], j) implies ord_ok(
                        *env,
                        mutating,
                        d,
                        st1.aborted@,
                        stack2,
                        i,
                        j,
                    ) by {
                        assert(ord_ok(*env, mutating, d, st0.aborted@, stack, i, j));
                        assert(st1.aborted@ == st0.aborted@);
                    }
                }
            }
        }
    }
    // Vendored subtrees and linked submodules: one event per declared
    // subdirectory, unconditionally.
    if let Option::Some(subtree) = &member.subtree {
        let n = subtree.paths.len();
        let mut i: usize = 0;
        while i < n
            invariant
                n == subtree.paths.kvs().len(),
                i <= n,
                env_wf(*env),
                st_wf(*env, *st),
                events_inv(*st),
                st.visited == st1.visited,
                st.aborted == st1.aborted,
                st.events@.len() >= st1.events@.len(),
                st.events@.take(st1.events@.len() as int) == st1.events@,
                dispatches(st.events@) == dispatches(st1.events@),
                ord_inv(*env, mutating, st1, stack2),
                ord_inv(*env, mutating, *st, stack2),
                accounted(
                    dispatches(st.events@),
                    st.visited.pairs(),
                    st.aborted@,
                    stack2,
                ),
                pair == (ctx@, xpath@),
                sync_complete(*env, st1.events@),
                sync_complete(*env, st.events@),
                forall|k: int|
                    0 <= k < i ==> has_subtree_event(
                        st.events@,
                        ctx@,
                        xpath@,
                        (#[trigger] subtree.paths.kvs()[k]).0@,
                        subtree.paths.kvs()[k].1@,
                    ),
            decreases n - i,
        {
            let e = subtree.paths.entry_at(i);
            let ghost pre = st.events@;
            st.events.push(
                Event::SubtreePull {
                    ctx: ctx.clone(),
                    member: xpath.clone(),
                    subdir: e.0.clone(),
                    upstream: e.1.clone(),
                },
            );
            proof {
                lemma_dispatches_push_sync(pre, st.events@.last());
                assert(st.events@ == pre.push(st.events@.last()));
                assert(st.events@.take(st1.events@.len() as int) =~= st1.events@);
                assert(ord_inv(*env, mutating, *st, stack2)) by {
                    assert(dispatches(st.events@) == dispatches(st1.events@));
                    assert(st.visited.pairs() == st1.visited.pairs());
                    assert(st.aborted@ == st1.aborted@);
                }
                assert(pre.len() <= st.events@.len() && st.events@.take(pre.len() as int) =~= pre);
                lemma_sync_complete_extend(*env, pre, st.events@);
                assert forall|k: int| 0 <= k < i + 1 implies has_subtree_event(
                    st.events@,
                    ctx@,
                    xpath@,
                    (#[trigger] subtree.paths.kvs()[k]).0@,
                    subtree.paths.kvs()[k].1@,
                ) by {
                    if k < i {
                        lemma_sync_event_prefix(
                            pre,
                            st.events@,
                            ctx@,
                            xpath@,
                            subtree.paths.kvs()[k].0@,
                            subtree.paths.kvs()[k].1@,
                        );
                    } else {
                        let idx = st.events@.len() - 1;
                        assert(st.events@[idx] matches Event::SubtreePull {
                            ctx: c2,
                            member: m2,
                            subdir: s2,
                            upstream: u2,
                        } && c2@ == ctx@ && m2@ == xpath@ && s2@ == subtree.paths.kvs()[k].0@
                            && u2@ == subtree.paths.kvs()[k].1@);
                    }
                }
            }
            i = i + 1;
        }
    }
    if let Option::Some(submodule) = &member.submodule {
        let n = submodule.paths.len();
        let mut i: usize = 0;
        while i < n
            invariant
                n == submodule.paths.kvs().len(),
                i <= n,
                env_wf(*env),
                st_wf(*env, *st),
                events_inv(*st),
                st.visited == st1.visited,
                st.aborted == st1.aborted,
                st.events@.len() >= st1.events@.len(),
                st.events@.take(st1.events@.len() as int) == st1.events@,
                dispatches(st.events@) == dispatches(st1.events@),
                ord_inv(*env, mutating, st1, stack2),
                ord_inv(*env, mutating, *st, stack2),
                accounted(
                    dispatches(st.events@),
                    st.visited.pairs(),
                    st.aborted@,
                    stack2,
                ),
                pair == (ctx@, xpath@),
                sync_complete(*env, st1.events@),
                sync_complete(*env, st.events@),
                member.subtree matches Option::Some(stp) ==> forall|k: int|
                    0 <= k < stp.paths.kvs().len() ==> has_subtree_event(
                        st.events@,
                        ctx@,
                        xpath@,
                        (#[trigger] stp.paths.kvs()[k]).0@,
                        stp.paths.kvs()[k].1@,
                    ),
                forall|k: int|
                    0 <= k < i ==> has_submodule_event(
                        st.events@,
                        ctx@,
                        xpath@,
                        (#[trigger] submodule.paths.kvs()[k]).0@,
                        submodule.paths.kvs()[k].1@,
                    ),
            decreases n - i,
        {
            let e = submodule.paths.entry_at(i);
            let ghost pre = st.events@;
            st.events.push(
                Event::SubmoduleEnsure {
                    ctx: ctx.clone(),
                    member: xpath.clone(),
                    subdir: e.0.clone(),
                    upstream: e.1.clone(),
                },
            );
            proof {
                lemma_dispatches_push_sync(pre, st.events@.last());
                assert(st.events@ == pre.push(st.events@.last()));
                assert(st.events@.take(st1.events@.len() as int) =~= st1.events@);
                assert(ord_inv(*env, mutating, *st, stack2)) by {
                    assert(dispatches(st.events@) == dispatches(st1.events@));
                    assert(st.visited.pairs() == st1.visited.pairs());
                    assert(st.aborted@ == st1.aborted@);
                }
                assert(pre.len() <= st.events@.len() && st.events@.take(pre.len() as int) =~= pre);
                lemma_sync_complete_extend(*env, pre, st.events@);
                if member.subtree is Some {
                    let stp = member.subtree->Some_0;
                    assert forall|k: int| 0 <= k < stp.paths.kvs().len() implies has_subtree_event(
                        st.events@,
                        ctx@,
                        xpath@,
                        (#[trigger] stp.paths.kvs()[k]).0@,
                        stp.paths.kvs()[k].1@,
                    ) by {
                        lemma_sync_event_prefix(
                            pre,
                            st.events@,
                            ctx@,
                            xpath@,
                            stp.paths.kvs()[k].0@,
                            stp.paths.kvs()[k].1@,
                        );
                    }
                }
                assert forall|k: int| 0 <= k < i + 1 implies has_submodule_event(
                    st.events@,
                    ctx@,
                    xpath@,
                    (#[trigger] submodule.paths.kvs()[k]).0@,
                    submodule.paths.kvs()[k].1@,
                ) by {
                    if k < i {
                        lemma_sync_event_prefix(
                            pre,
                            st.events@,
                            ctx@,
                            xpath@,
                            submodule.paths.kvs()[k].0@,
                            submodule.paths.kvs()[k].1@,
                        );
                    } else {
                        let idx = st.events@.len() - 1;
                        assert(st.events@[idx] matches Event::SubmoduleEnsure {
                            ctx: c2,
                            member: m2,
                            subdir: s2,
                            upstream: u2,
                        } && c2@ == ctx@ && m2@ == xpath@ && s2@ == submodule.paths.kvs()[k].0@
                            && u2@ == submodule.paths.kvs()[k].1@);
                    }
                }
            }
            i = i + 1;
        }
    }
    let ghost st2 = *st;
    proof {
        lemma_grows_refl(*env, st2);
        assert(grows(*env, st1, st2));
        lemma_grows_trans(*env, st0, st1, st2);
    }
    // Dependency edges: every edge is resolved, even after one fails; the
    // first failure wins.
    let mut first_err: Option<PlanError> = None;
    let ndeps = member.deps.len();
    let mut i: usize = 0;
    while i < ndeps
        invariant
            ndeps == member.deps.kvs().len(),
            i <= ndeps,
            env_wf(*env),
            env.roots@.contains_key(ctx@),
            st_wf(*env, *st),
            events_inv(*st),
            grows(*env, st2, *st),
            grows(*env, st0, *st),
            st0 == *old(st),
            st2.visited == st1.visited,
            plan_slack(*env, st1) < plan_slack(*env, st0),
            forall|p: (Seq<char>, Seq<char>)|
                st1.visited.pairs().contains(p) ==> st.visited.pairs().contains(p),
            mutating ==> !(first_err matches Option::Some(e) && e is RootUnloaded),
            first_err matches Option::Some(PlanError::UnknownMember { ctx: c2, name: n2 })
                ==> env.roots@.contains_key(c2@) && !env.roots@[c2@].members@.contains_key(n2@),
            first_err matches Option::Some(PlanError::RootUnloaded { path })
                ==> !env.roots@.contains_key(path@),
            pair == (ctx@, xpath@),
            stack2 == stack.push(pair),
            stack2.last() == pair,
            is_chain(*env, mutating, stack2),
            env.roots@[ctx@].members@.contains_key(xpath@),
            *root == env.roots@[ctx@],
            *member == env.roots@[ctx@].members@[xpath@],
            forall|k: int|
                0 <= k < stack2.len() ==> st.visited.pairs().contains(#[trigger] stack2[k]),
            ord_inv(*env, mutating, *st, stack2),
            accounted(
                dispatches(st.events@),
                st.visited.pairs(),
                st.aborted@,
                stack2,
            ),
            sync_complete(*env, st.events@),
            member.subtree matches Option::Some(stp) ==> forall|k: int|
                0 <= k < stp.paths.kvs().len() ==> has_subtree_event(
                    st.events@,
                    ctx@,
                    xpath@,
                    (#[trigger] stp.paths.kvs()[k]).0@,
                    stp.paths.kvs()[k].1@,
                ),
            member.submodule matches Option::Some(sub) ==> forall|k: int|
                0 <= k < sub.paths.kvs().len() ==> has_submodule_event(
                    st.events@,
                    ctx@,
                    xpath@,
                    (#[trigger] sub.paths.kvs()[k]).0@,
                    sub.paths.kvs()[k].1@,
                ),
            st2.aborted@ == st0.aborted@,
            first_err is None ==> st.aborted@ == st0.aborted@,
            first_err is None ==> forall|j: int|
                0 <= j < i && (#[trigger] member.deps.kvs()[j]).1.subrepo is None
                    ==> st.visited.pairs().contains((ctx@, member.deps.kvs()[j].0@)),
        decreases ndeps - i,
    {
        let e = member.deps.entry_at(i);
        // A dependency edge must name a member of this same root; an
        // unresolved reference fails here, at traversal time.
        if !root.members.contains_key(e.0.as_str()) {
            if first_err.is_none() {
                first_err = Option::Some(
                    PlanError::UnknownMember { ctx: ctx.clone(), name: e.0.clone() },
                );
            }
            i = i + 1;
            continue ;
        }
        let ghost pre = *st;
        proof {
            lemma_slack_monotone(*env, st1, *st);
            assert forall|q: (Seq<char>, Seq<char>)| #[trigger] visit_targets(
                *env,
                mutating,
                ctx@,
                e.0@,
                e.1,
            ).contains(q) implies step(*env, mutating, stack2.last(), q) by {
                let m = env.roots@[ctx@].members@[xpath@];
                let entry = m.deps.kvs()[i as int];
                assert(entry == *e);
                assert(visit_targets(*env, mutating, ctx@, entry.0@, entry.1).contains(q));
            }
        }
        let r = update_dep(env, mutating, ctx, &e.0, &e.1, st, Ghost(stack2));
        proof {
            lemma_grows_trans(*env, st2, pre, *st);
            lemma_grows_trans(*env, st0, pre, *st);
            assert(forall|k: int|
                0 <= k < stack2.len() ==> st.visited.pairs().contains(#[trigger] stack2[k]));
            if member.subtree is Some {
                let stp = member.subtree->Some_0;
                assert forall|k: int| 0 <= k < stp.paths.kvs().len() implies has_subtree_event(
                    st.events@,
                    ctx@,
                    xpath@,
                    (#[trigger] stp.paths.kvs()[k]).0@,
                    stp.paths.kvs()[k].1@,
                ) by {
                    lemma_sync_event_prefix(
                        pre.events@,
                        st.events@,
                        ctx@,
                        xpath@,
                        stp.paths.kvs()[k].0@,
                        stp.paths.kvs()[k].1@,
                    );
                }
            }
            if member.submodule is Some {
                let sub = member.submodule->Some_0;
                assert forall|k: int| 0 <= k < sub.paths.kvs().len() implies has_submodule_event(
                    st.events@,
                    ctx@,
                    xpath@,
                    (#[trigger] sub.paths.kvs()[k]).0@,
                    sub.paths.kvs()[k].1@,
                ) by {
                    lemma_sync_event_prefix(
                        pre.events@,
                        st.events@,
                        ctx@,
                        xpath@,
                        sub.paths.kvs()[k].0@,
                        sub.paths.kvs()[k].1@,
                    );
                }
            }
        }
        match r {
            Result::Ok(()) => {},
            Result::Err(er) => {
                if first_err.is_none() {
                    first_err = Option::Some(er);
                }
            },
        }
        i = i + 1;
    }
    if let Option::Some(er) = first_err {
        let ghost stpre = *st;
        proof {
            assert(!dispatches(stpre.events@).contains(pair)) by {
                if dispatches(stpre.events@).contains(pair) {
                    assert(dispatches(st2.events@).contains(pair) || (stpre.visited.pairs()
                        .contains(pair) && !st2.visited.pairs().contains(pair)));
                    assert(st2.visited.pairs().contains(pair)) by {
                        assert(st1.visited.pairs().contains(pair));
                    }
                    assert(dispatches(st2.events@) == dispatches(st0.events@)) by {
                        assert(st1.events@ == st0.events@);
                    }
                    let k = choose|k: int|
                        0 <= k < dispatches(st0.events@).len() && dispatches(st0.events@)[k]
                            == pair;
                    assert(st0.visited.pairs().contains(pair));
                    assert(false);
                }
            }
        }
        st.aborted = Ghost(st.aborted@.insert(pair));
        proof {
            assert(sync_complete(*env, st.events@));
            assert(st.visited.pairs().contains(pair)) by {
                assert(st1.visited.pairs().contains(pair));
            }
            assert(events_inv(*st));
            assert(grows(*env, st0, *st)) by {
                assert forall|q: (Seq<char>, Seq<char>)|
                    st.aborted@.contains(q) && !st0.aborted@.contains(q) implies st.visited.pairs()
                    .contains(q) && !st0.visited.pairs().contains(q) by {
                    if q != pair {
                        assert(stpre.aborted@.contains(q));
                    }
                }
            }
            assert forall|p: (Seq<char>, Seq<char>)| st.visited.pairs().contains(p) implies
                dispatches(st.events@).contains(p) || stack.contains(p) || st.aborted@.contains(
                p,
            ) by {
                assert(dispatches(st.events@).contains(p) || stack2.contains(p)
                    || stpre.aborted@.contains(p));
                if stack2.contains(p) && !stack.contains(p) && !dispatches(
                    st.events@,
                ).contains(p) {
                    let k = choose|k: int| 0 <= k < stack2.len() && stack2[k] == p;
                    if k < stack.len() {
                        assert(stack[k] == p);
                    } else {
                        assert(p == pair);
                    }
                }
            }
            assert(ord_inv(*env, mutating, *st, stack)) by {
                if acyclic(*env, mutating) {
                    let d = dispatches(st.events@);
                    let vis = st.visited.pairs();
                    assert(forall|k: int|
                        0 <= k < stack.len() ==> !d.contains(#[trigger] stack[k])) by {
                        assert(forall|k: int|
                            0 <= k < stack.len() ==> stack2[k] == #[trigger] stack[k]);
                    }
                    assert(ord_events(*env, mutating, d, st.aborted@, stack)) by {
                        assert forall|i: int, j: int|
                            0 <= i < d.len() && #[trigger] direct_edge(*env, d[i], j) implies
                            ord_ok(*env, mutating, d, st.aborted@, stack, i, j) by {
                            assert(ord_ok(*env, mutating, d, stpre.aborted@, stack2, i, j));
                            let t = edge_target(*env, d[i], j);
                            if stack2.contains(t) && reaches(*env, mutating, t, d[i]) {
                                let k = choose|k: int| 0 <= k < stack2.len() && stack2[k] == t;
                                if k < stack.len() {
                                    assert(stack[k] == t);
                                    assert(stack.contains(t));
                                } else {
                                    assert(t == pair);
                                    assert(st.aborted@.contains(t));
                                }
                            }
                        }
                    }
                }
            }
        }
        return Result::Err(er);
    }
    // The member's own dispatch, after all its dependencies.
    let ghost st3 = *st;
    let ghost pre_events = st.events@;
    st.events.push(Event::Dispatch { ctx: ctx.clone(), member: xpath.clone() });
    proof {
        assert(st.events@.drop_last() =~= pre_events);
        assert(st.events@.last() is Dispatch);
        assert(dispatches(st.events@) =~= dispatches(pre_events).push((ctx@, xpath@)));
        let p = (ctx@, xpath@);
        let d3 = dispatches(st3.events@);
        assert(!d3.contains(p)) by {
            if d3.contains(p) {
                assert(dispatches(st2.events@).contains(p) || (st3.visited.pairs().contains(p)
                    && !st2.visited.pairs().contains(p)));
                assert(st2.visited.pairs().contains(p)) by {
                    assert(st1.visited.pairs().contains(p));
                }
                assert(dispatches(st2.events@) == dispatches(st0.events@)) by {
                    assert(st1.events@ == st0.events@);
                }
                assert(dispatches(st0.events@).contains(p));
                let k = choose|k: int| 0 <= k < dispatches(st0.events@).len() && dispatches(
                    st0.events@,
                )[k] == p;
                assert(st0.visited.pairs().contains(p));
                assert(false);
            }
        }
        lemma_push_contains(d3, p);
        assert(dispatches(st.events@).no_duplicates()) by {
            let d = dispatches(st.events@);
            assert(d == d3.push(p));
            assert forall|a: int, b: int| 0 <= a < b < d.len() implies d[a] != d[b] by {
                if b == d.len() - 1 {
                    assert(d3[a] == d[a]);
                    if d[a] == p {
                        assert(d3.contains(p));
                    }
                }
            }
        }
        assert(events_inv(*st)) by {
            assert forall|k: int|
                0 <= k < dispatches(st.events@).len() implies st.visited.pairs().contains(
                #[trigger] dispatches(st.events@)[k],
            ) by {
                let d = dispatches(st.events@);
                if k < d3.len() {
                    assert(d[k] == d3[k]);
                    assert(d3.contains(d3[k]));
                    assert(st3.visited.pairs().contains(d3[k]));
                } else {
                    assert(d[k] == p);
                    assert(st1.visited.pairs().contains(p));
                }
            }
        }
        assert(grows(*env, st0, *st)) by {
            assert(st.visited == st3.visited);
            assert(st.events@.take(st0.events@.len() as int) =~= st0.events@) by {
                assert(st3.events@.take(st0.events@.len() as int) == st0.events@);
                assert(forall|k: int|
                    0 <= k < st0.events@.len() ==> st3.events@.take(st0.events@.len() as int)[k]
                        == #[trigger] st3.events@[k]);
            }
            assert forall|q: (Seq<char>, Seq<char>)|
                dispatches(st.events@).contains(q) implies dispatches(st0.events@).contains(q)
                || (st.visited.pairs().contains(q) && !st0.visited.pairs().contains(q)) by {
                assert(dispatches(st.events@) == d3.push(p));
                if dispatches(st.events@).contains(q) {
                    assert(d3.contains(q) || q == p);
                    if q == p {
                        assert(st1.visited.pairs().contains(p));
                        assert(!st0.visited.pairs().contains(p));
                    } else {
                        assert(d3.contains(q));
                        assert(dispatches(st0.events@).contains(q) || (st3.visited.pairs().contains(
                            q,
                        ) && !st0.visited.pairs().contains(q)));
                    }
                }
            }
        }
        assert(st.aborted@ == st0.aborted@);
        assert(sync_complete(*env, st.events@)) by {
            let esn = st.events@;
            assert(st3.events@.len() <= esn.len() && esn.take(st3.events@.len() as int) =~= st3
                .events@);
            assert forall|i2: int|
                0 <= i2 < dispatches(esn).len() implies pair_synced(
                *env,
                esn,
                #[trigger] dispatches(esn)[i2],
            ) by {
                let q = dispatches(esn)[i2];
                assert(dispatches(esn) == d3.push(p));
                if i2 < d3.len() {
                    assert(q == d3[i2]);
                    assert(pair_synced(*env, st3.events@, q));
                    lemma_pair_synced_prefix(*env, st3.events@, esn, q);
                } else {
                    assert(q == p);
                    let mb = env.roots@[p.0].members@[p.1];
                    assert(mb == *member);
                    if mb.subtree is Some {
                        let stp = mb.subtree->Some_0;
                        assert forall|k: int|
                            0 <= k < stp.paths.kvs().len() implies has_subtree_event(
                            esn,
                            p.0,
                            p.1,
                            (#[trigger] stp.paths.kvs()[k]).0@,
                            stp.paths.kvs()[k].1@,
                        ) by {
                            lemma_sync_event_prefix(
                                st3.events@,
                                esn,
                                p.0,
                                p.1,
                                stp.paths.kvs()[k].0@,
                                stp.paths.kvs()[k].1@,
                            );
                        }
                    }
                    if mb.submodule is Some {
                        let sub = mb.submodule->Some_0;
                        assert forall|k: int|
                            0 <= k < sub.paths.kvs().len() implies has_submodule_event(
                            esn,
                            p.0,
                            p.1,
                            (#[trigger] sub.paths.kvs()[k]).0@,
                            sub.paths.kvs()[k].1@,
                        ) by {
                            lemma_sync_event_prefix(
                                st3.events@,
                                esn,
                                p.0,
                                p.1,
                                sub.paths.kvs()[k].0@,
                                sub.paths.kvs()[k].1@,
                            );
                        }
                    }
                }
            }
        }
        assert forall|q: (Seq<char>, Seq<char>)| st.visited.pairs().contains(q) implies dispatches(
            st.events@,
        ).contains(q) || stack.contains(q) || st.aborted@.contains(q) by {
            assert(d3.contains(q) || stack2.contains(q) || st3.aborted@.contains(q));
            if d3.contains(q) {
                assert(dispatches(st.events@).contains(q));
            } else if stack2.contains(q) {
                let k = choose|k: int| 0 <= k < stack2.len() && stack2[k] == q;
                if k < stack.len() {
                    assert(stack[k] == q);
                    assert(stack.contains(q));
                } else {
                    assert(q == p);
                    assert(dispatches(st.events@).contains(p));
                }
            }
        }
        assert(ord_inv(*env, mutating, *st, stack)) by {
            if acyclic(*env, mutating) {
                let d = dispatches(st.events@);
                let vis = st.visited.pairs();
                let ab = st.aborted@;
                assert(d == d3.push(p));
                assert(ab == st3.aborted@);
                assert forall|k: int| 0 <= k < stack.len() implies !d.contains(
                    #[trigger] stack[k],
                ) by {
                    assert(stack2[k] == stack[k]);
                    assert(!d3.contains(stack2[k]));
                    assert(st0.visited.pairs().contains(stack[k]));
                    if d.contains(stack[k]) {
                        assert(d3.contains(stack[k]) || stack[k] == p);
                        assert(stack[k] == p);
                        assert(!st0.visited.pairs().contains(p));
                        assert(false);
                    }
                }
                assert forall|q: (Seq<char>, Seq<char>)| vis.contains(q) implies d.contains(q)
                    || stack.contains(q) || ab.contains(q) by {
                    assert(d3.contains(q) || stack2.contains(q) || st3.aborted@.contains(q));
                    if d3.contains(q) {
                        assert(d.contains(q));
                    } else if stack2.contains(q) {
                        let k = choose|k: int| 0 <= k < stack2.len() && stack2[k] == q;
                        if k < stack.len() {
                            assert(stack[k] == q);
                            assert(stack.contains(q));
                        } else {
                            assert(q == p);
                            assert(d.contains(p));
                        }
                    }
                }
                assert forall|i: int, j: int|
                    0 <= i < d.len() && #[trigger] direct_edge(*env, d[i], j) implies ord_ok(
                    *env,
                    mutating,
                    d,
                    ab,
                    stack,
                    i,
                    j,
                ) by {
                    let t = edge_target(*env, d[i], j);
                    if i < d3.len() {
                        assert(d[i] == d3[i]);
                        assert(direct_edge(*env, d3[i], j));
                        assert(ord_ok(*env, mutating, d3, st3.aborted@, stack2, i, j));
                        if exists|k: int| 0 <= k < i && d3[k] == t {
                            let k = choose|k: int| 0 <= k < i && d3[k] == t;
                            assert(d[k] == t);
                        } else if stack2.contains(t) && reaches(*env, mutating, t, d3[i]) {
                            let k = choose|k: int| 0 <= k < stack2.len() && stack2[k] == t;
                            if k < stack.len() {
                                assert(stack[k] == t);
                                assert(stack.contains(t) && reaches(*env, mutating, t, d[i]));
                            } else {
                                assert(t == p);
                                lemma_direct_edge_step(*env, mutating, d3[i], j);
                                lemma_reaches_step(*env, mutating, p, d3[i], p);
                                assert(false);
                            }
                        } else {
                            assert(st3.aborted@.contains(t));
                        }
                    } else {
                        assert(d[i] == p);
                        assert(env.roots@[p.0].members@[p.1] == *member);
                        assert(member.deps.kvs()[j].1.subrepo is None);
                        assert(st3.visited.pairs().contains((ctx@, member.deps.kvs()[j].0@)));
                        assert(t == (ctx@, member.deps.kvs()[j].0@));
                        assert(d3.contains(t) || stack2.contains(t) || st3.aborted@.contains(t));
                        if d3.contains(t) {
                            let k = choose|k: int| 0 <= k < d3.len() && d3[k] == t;
                            assert(d[k] == t);
                            assert(0 <= k < i);
                        } else if stack2.contains(t) {
                            let k = choose|k: int| 0 <= k < stack2.len() && stack2[k] == t;
                            if k < stack.len() {
                                lemma_chain_to_last(*env, mutating, stack2, k);
                                assert(stack2.last() == p);
                                assert(stack[k] == t);
                                assert(stack.contains(t) && reaches(*env, mutating, t, d[i]));
                            } else {
                                assert(t == p);
                                lemma_direct_edge_step(*env, mutating, p, j);
                                lemma_step_reaches(*env, mutating, p, p);
                                assert(false);
                            }
                        } else {
                            assert(ab.contains(t));
                        }
                    }
                }
            }
        }
    }
    Result::Ok(())
}

/// Resolves one dependency edge, walking any chain of nested-repository
/// switches it encodes.  On a mutating command a subrepo-indirected edge
/// short-circuits to the member in the current context, without consulting
/// any nested manifest.  Otherwise the inner dependency is resolved first,
/// then the context switches to `{root}/{pkg_name}/{subrepo}` — if that
/// root is loaded — and the rest of the chain continues there; a chain
/// whose name is no candidate falls back to the current context.
fn update_dep(
    env: &Env,
    mutating: bool,
    ctx: &String,
    xpath: &String,
    dep: &Dep,
    st: &mut PlanState,
    Ghost(stack): Ghost<Seq<(Seq<char>, Seq<char>)>>,
) -> (r: Result<(), PlanError>)
    requires
        env_wf(*env),
        env.roots@.contains_key(ctx@),
        st_wf(*env, *old(st)),
        events_inv(*old(st)),
        is_chain(*env, mutating, stack),
        stack.len() > 0,
        forall|q: (Seq<char>, Seq<char>)|
            #[trigger] visit_targets(*env, mutating, ctx@, xpath@, *dep).contains(q) ==> step(
                *env,
                mutating,
                stack.last(),
                q,
            ),
        forall|i: int|
            0 <= i < stack.len() ==> old(st).visited.pairs().contains(#[trigger] stack[i]),
        ord_inv(*env, mutating, *old(st), stack),
        accounted(
            dispatches(old(st).events@),
            old(st).visited.pairs(),
            old(st).aborted@,
            stack,
        ),
        sync_complete(*env, old(st).events@),
    ensures
        grows(*env, *old(st), *final(st)),
        mutating ==> !(r is Err && r->Err_0 is RootUnloaded),
        ord_inv(*env, mutating, *final(st), stack),
        r is Ok ==> final(st).aborted@ == old(st).aborted@,
        r is Ok && dep.subrepo is None ==> final(st).visited.pairs().contains((ctx@, xpath@)),
        accounted(
            dispatches(final(st).events@),
            final(st).visited.pairs(),
            final(st).aborted@,
            stack,
        ),
        sync_complete(*env, final(st).events@),
        r matches Result::Err(PlanError::UnknownMember { ctx: c2, name: n2 })
            ==> env.roots@.contains_key(c2@) && !env.roots@[c2@].members@.contains_key(n2@),
        r matches Result::Err(PlanError::RootUnloaded { path }) ==> !env.roots@.contains_key(
            path@,
        ),
    decreases plan_slack(*env, *st), dep_size(*dep), 1nat,
{
    match &dep.subrepo {
        Option::None => {
            proof {
                assert(visit_targets(*env, mutating, ctx@, xpath@, *dep) =~= set![(ctx@, xpath@)]);
                assert(visit_targets(*env, mutating, ctx@, xpath@, *dep).contains((ctx@, xpath@)));
            }
            update(env, mutating, ctx, xpath, st, Ghost(stack))
        },
        Option::Some(s) => {
            proof {
                assert(dep_size(*dep) == 1 + dep_size(*s.pkg) + dep_size(*s.nest));
            }
            if mutating {
                proof {
                    assert(visit_targets(*env, mutating, ctx@, xpath@, *dep) =~= set![
                        (ctx@, xpath@),
                    ]);
                    assert(visit_targets(*env, mutating, ctx@, xpath@, *dep).contains(
                        (ctx@, xpath@),
                    ));
                }
                return update(env, mutating, ctx, xpath, st, Ghost(stack));
            }
            let ghost st0 = *st;
            let ghost inner = visit_targets(*env, mutating, ctx@, s.pkg_name@, *s.pkg);
            proof {
                assert forall|q: (Seq<char>, Seq<char>)| #[trigger] inner.contains(q) implies step(
                    *env,
                    mutating,
                    stack.last(),
                    q,
                ) by {
                    assert(visit_targets(*env, mutating, ctx@, xpath@, *dep).contains(q));
                }
            }
            let r1 = update_dep(env, mutating, ctx, &s.pkg_name, &s.pkg, st, Ghost(stack));
            match r1 {
                Result::Err(e) => {
                    return Result::Err(e);
                },
                Result::Ok(()) => {},
            }
            let name = join_path(s.pkg_name.as_str(), s.subrepo.as_str());
            let root = match env.roots.get(ctx.as_str()) {
                Option::Some(r) => r,
                Option::None => {
                    proof {
                        assert(false);
                    }
                    return Result::Ok(());
                },
            };
            if crate::depmap::is_subroot_name(root, name.as_str()) {
                let sub_path = join_path(ctx.as_str(), name.as_str());
                if env.roots.contains_key(sub_path.as_str()) {
                    let ghost st1 = *st;
                    let ghost nested = visit_targets(*env, mutating, sub_path@, xpath@, *s.nest);
                    proof {
                        lemma_slack_monotone(*env, st0, st1);
                        assert forall|q: (Seq<char>, Seq<char>)| #[trigger] nested.contains(
                            q,
                        ) implies step(*env, mutating, stack.last(), q) by {
                            assert(visit_targets(*env, mutating, ctx@, xpath@, *dep).contains(q));
                        }
                        assert(forall|i: int|
                            0 <= i < stack.len() ==> st1.visited.pairs().contains(
                                #[trigger] stack[i],
                            ));
                    }
                    let r2 = update_dep(env, mutating, &sub_path, xpath, &s.nest, st, Ghost(stack));
                    proof {
                        lemma_grows_trans(*env, st0, st1, *st);
                    }
                    r2
                } else {
                    Result::Err(PlanError::RootUnloaded { path: sub_path })
                }
            } else {
                let ghost st1 = *st;
                proof {
                    lemma_slack_monotone(*env, st0, st1);
                    assert(visit_targets(*env, mutating, ctx@, xpath@, *dep).contains(
                        (ctx@, xpath@),
                    ));
                    assert(forall|i: int|
                        0 <= i < stack.len() ==> st1.visited.pairs().contains(#[trigger] stack[i]));
                }
                let r3 = update(env, mutating, ctx, xpath, st, Ghost(stack));
                proof {
                    lemma_grows_trans(*env, st0, st1, *st);
                }
                r3
            }
        },
    }
}

/// Plans one whole run: visits every member of the main root, resolving
/// dependencies first, and returns the schedule.  No member is dispatched
/// twice, whatever the shape of the dependency edges and nested-repository
/// chains; a mutating command never asks for a nested root.
pub fn plan_run(env: &Env, root_path: &String, cmd: &Vec<String>) -> (r: Result<
    Vec<Event>,
    PlanError,
>)
    requires
        env_wf(*env),
        cmd@.len() >= 1,
        env.roots@.contains_key(root_path@),
    ensures
        r matches Result::Ok(events) ==> dispatches(events@).no_duplicates(),
        r matches Result::Ok(events) ==> forall|k: int|
            0 <= k < env.roots@[root_path@].members.kvs().len() ==> dispatches(
                events@,
            ).contains(
                (root_path@, (#[trigger] env.roots@[root_path@].members.kvs()[k]).0@),
            ),
        is_mutating_spec(cmd@[0]@) ==> !(r is Err && r->Err_0 is RootUnloaded),
        r matches Result::Ok(events) ==> sync_complete(*env, events@),
        r matches Result::Err(PlanError::UnknownMember { ctx: c2, name: n2 })
            ==> env.roots@.contains_key(c2@) && !env.roots@[c2@].members@.contains_key(n2@),
        r matches Result::Err(PlanError::RootUnloaded { path }) ==> !env.roots@.contains_key(
            path@,
        ),
        r matches Result::Ok(events) ==> (acyclic(*env, is_mutating_spec(cmd@[0]@))
            ==> forall|i: int, j: int|
            0 <= i < dispatches(events@).len() && #[trigger] direct_edge(
                *env,
                dispatches(events@)[i],
                j,
            ) ==> exists|k: int|
                0 <= k < i && dispatches(events@)[k] == edge_target(
                    *env,
                    dispatches(events@)[i],
                    j,
                )),
{
    let mutating = crate::dispatch::is_mutating_verb(cmd[0].as_str());
    let mut st = PlanState {
        visited: PairSet::new(),
        events: Vec::new(),
        aborted: Ghost(Set::empty()),
    };
    proof {
        assert(st_wf(*env, st));
        assert(dispatches(st.events@) =~= Seq::<(Seq<char>, Seq<char>)>::empty());
        assert(events_inv(st));
    }
    let root = match env.roots.get(root_path.as_str()) {
        Option::Some(r) => r,
        Option::None => {
            proof {
                assert(false);
            }
            return Result::Err(
                PlanError::UnknownMember { ctx: root_path.clone(), name: root_path.clone() },
            );
        },
    };
    let ghost nil = Seq::<(Seq<char>, Seq<char>)>::empty();
    proof {
        assert(ord_inv(*env, mutating, st, nil)) by {
            assert(st.visited.pairs().len() == 0);
            assert(dispatches(st.events@).len() == 0);
        }
        assert(accounted(dispatches(st.events@), st.visited.pairs(), st.aborted@, nil)) by {
            assert(st.visited.pairs().len() == 0);
        }
        assert(sync_complete(*env, st.events@)) by {
            assert(dispatches(st.events@).len() == 0);
        }
    }
    let mut first_err: Option<PlanError> = None;
    let n = root.members.len();
    let mut i: usize = 0;
    while i < n
        invariant
            n == root.members.kvs().len(),
            i <= n,
            env_wf(*env),
            env.roots@.contains_key(root_path@),
            st_wf(*env, st),
            events_inv(st),
            mutating == is_mutating_spec(cmd@[0]@),
            mutating ==> !(first_err matches Option::Some(e) && e is RootUnloaded),
            first_err matches Option::Some(PlanError::UnknownMember { ctx: c2, name: n2 })
                ==> env.roots@.contains_key(c2@) && !env.roots@[c2@].members@.contains_key(n2@),
            first_err matches Option::Some(PlanError::RootUnloaded { path })
                ==> !env.roots@.contains_key(path@),
            nil == Seq::<(Seq<char>, Seq<char>)>::empty(),
            ord_inv(*env, mutating, st, nil),
            accounted(dispatches(st.events@), st.visited.pairs(), st.aborted@, nil),
            sync_complete(*env, st.events@),
            first_err is None ==> st.aborted@ == Set::<(Seq<char>, Seq<char>)>::empty(),
            *root == env.roots@[root_path@],
            first_err is None ==> forall|k: int|
                0 <= k < i ==> dispatches(st.events@).contains(
                    (root_path@, (#[trigger] root.members.kvs()[k]).0@),
                ),
        decreases n - i,
    {
        let e = root.members.entry_at(i);
        let ghost pre = st;
        let r = update(env, mutating, root_path, &e.0, &mut st, Ghost(nil));
        proof {
            lemma_dispatches_prefix(pre.events@, st.events@);
        }
        match r {
            Result::Ok(()) => {},
            Result::Err(er) => {
                if first_err.is_none() {
                    first_err = Option::Some(er);
                }
            },
        }
        proof {
            if first_err is None {
                assert(st.visited.pairs().contains((root_path@, e.0@)));
                assert(dispatches(st.events@).contains((root_path@, e.0@))) by {
                    assert(!nil.contains((root_path@, e.0@)));
                    assert(!st.aborted@.contains((root_path@, e.0@)));
                }
            }
        }
        i = i + 1;
    }
    match first_err {
        Option::Some(er) => Result::Err(er),
        Option::None => {
            proof {
                if acyclic(*env, mutating) {
                    let d = dispatches(st.events@);
                    assert forall|i: int, j: int|
                        0 <= i < d.len() && #[trigger] direct_edge(*env, d[i], j) implies exists|
                        k: int,
                    | 0 <= k < i && d[k] == edge_target(*env, d[i], j) by {
                        assert(ord_ok(*env, mutating, d, st.aborted@, nil, i, j));
                        let t = edge_target(*env, d[i], j);
                        assert(!nil.contains(t));
                        assert(!st.aborted@.contains(t));
                    }
                }
            }
            Result::Ok(st.events)
        },
    }
}

} // verus!
