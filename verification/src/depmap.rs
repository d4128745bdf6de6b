//! Root-scoped derived metadata: the member-path to JS-registry-name table,
//! its inverse, and the candidate nested-repository names reachable from a
//! root.  The registry names themselves come out of each JS member's
//! metadata file, which the shell reads; everything derived from them is
//! computed here.

use vstd::prelude::*;
use crate::model::{Member, Root};
use crate::strmap::StrMap;
use crate::strutil::{join_path, spec_join};

verus! {

/// The inverse of a name table: registry name back to member path, later
/// entries winning.
pub open spec fn invert_spec(s: Seq<(String, String)>) -> Map<Seq<char>, String>
    decreases s.len(),
{
    if s.len() == 0 {
        Map::empty()
    } else {
        invert_spec(s.drop_last()).insert(s.last().1@, s.last().0)
    }
}

/// Every name in the inverse comes from some entry, and maps back to the
/// path of the last entry declaring it.
pub proof fn lemma_invert_spec(s: Seq<(String, String)>, n: Seq<char>)
    ensures
        invert_spec(s).contains_key(n) <==> exists|i: int| 0 <= i < s.len() && s[i].1@ == n,
        invert_spec(s).contains_key(n) ==> exists|i: int|
            {
                &&& 0 <= i < s.len()
                &&& s[i].1@ == n
                &&& invert_spec(s)[n] == s[i].0
                &&& forall|j: int| i < j < s.len() ==> s[j].1@ != n
            },
    decreases s.len(),
{
    if s.len() > 0 {
        lemma_invert_spec(s.drop_last(), n);
        if s.last().1@ == n {
            assert(s[s.len() - 1].1@ == n);
        } else {
            if invert_spec(s).contains_key(n) {
                let i = choose|i: int|
                    {
                        &&& 0 <= i < s.drop_last().len()
                        &&& s.drop_last()[i].1@ == n
                        &&& invert_spec(s.drop_last())[n] == s.drop_last()[i].0
                        &&& forall|j: int| i < j < s.drop_last().len() ==> s.drop_last()[j].1@ != n
                    };
                assert(s[i].1@ == n && invert_spec(s)[n] == s[i].0);
                assert(forall|j: int| i < j < s.len() - 1 ==> s.drop_last()[j] == #[trigger] s[j]);
            }
            if exists|i: int| 0 <= i < s.len() && s[i].1@ == n {
                let i = choose|i: int| 0 <= i < s.len() && s[i].1@ == n;
                assert(s.drop_last()[i].1@ == n);
            }
        }
    }
}

/// Inverts a name table.
pub fn invert(m: &StrMap<String>) -> (r: StrMap<String>)
    ensures
        r.wf(),
        r@ == invert_spec(m.kvs()),
{
    let mut r: StrMap<String> = StrMap::new();
    let n = m.len();
    proof {
        assert(m.kvs().take(0) =~= Seq::<(String, String)>::empty());
    }
    let mut i: usize = 0;
    while i < n
        invariant
            n == m.kvs().len(),
            i <= n,
            r.wf(),
            r@ == invert_spec(m.kvs().take(i as int)),
        decreases n - i,
    {
        let e = m.entry_at(i);
        proof {
            assert(m.kvs().take(i + 1).drop_last() =~= m.kvs().take(i as int));
            assert(m.kvs().take(i + 1).last() == m.kvs()[i as int]);
        }
        r.insert(e.1.clone(), e.0.clone());
        i = i + 1;
    }
    proof {
        assert(m.kvs().take(n as int) =~= m.kvs());
    }
    r
}

/// The candidate nested-repository names of one member:
/// `{member}/{subdir}` for each vendored-subtree subdirectory.
pub open spec fn member_subroot_names(e: (String, Member)) -> Seq<Seq<char>> {
    match e.1.subtree {
        Option::None => Seq::empty(),
        Option::Some(st) => st.paths.kvs().map_values(
            |p: (String, String)| spec_join(e.0@, p.0@),
        ),
    }
}

/// All candidate nested-repository names of a root, in manifest order.
pub open spec fn subroot_names(s: Seq<(String, Member)>) -> Seq<Seq<char>>
    decreases s.len(),
{
    if s.len() == 0 {
        Seq::empty()
    } else {
        subroot_names(s.drop_last()) + member_subroot_names(s.last())
    }
}

/// Enumerates every candidate nested-repository name of a root.
pub fn subroot_candidates(root: &Root) -> (r: Vec<String>)
    ensures
        r.deep_view() == subroot_names(root.members.kvs()),
{
    let mut r: Vec<String> = Vec::new();
    let n = root.members.len();
    proof {
        assert(root.members.kvs().take(0) =~= Seq::<(String, Member)>::empty());
        assert(r.deep_view() =~= subroot_names(root.members.kvs().take(0)));
    }
    let mut i: usize = 0;
    while i < n
        invariant
            n == root.members.kvs().len(),
            i <= n,
            r.deep_view() == subroot_names(root.members.kvs().take(i as int)),
        decreases n - i,
    {
        let e = root.members.entry_at(i);
        proof {
            assert(root.members.kvs().take(i + 1).drop_last() =~= root.members.kvs().take(
                i as int,
            ));
            assert(root.members.kvs().take(i + 1).last() == root.members.kvs()[i as int]);
        }
        match &e.1.subtree {
            Option::None => {
                proof {
                    assert(r.deep_view() =~= subroot_names(root.members.kvs().take(i + 1)));
                }
            },
            Option::Some(st) => {
                let ghost pre = r.deep_view();
                let m = st.paths.len();
                let mut k: usize = 0;
                while k < m
                    invariant
                        m == st.paths.kvs().len(),
                        k <= m,
                        r.deep_view() == pre + st.paths.kvs().map_values(
                            |p: (String, String)| spec_join(e.0@, p.0@),
                        ).take(k as int),
                    decreases m - k,
                {
                    let p = st.paths.entry_at(k);
                    let nm = join_path(e.0.as_str(), p.0.as_str());
                    let ghost before = r.deep_view();
                    r.push(nm);
                    proof {
                        let mapped = st.paths.kvs().map_values(
                            |p: (String, String)| spec_join(e.0@, p.0@),
                        );
                        assert(mapped[k as int] == spec_join(e.0@, st.paths.kvs()[k as int].0@));
                        assert(r.deep_view() =~= before.push(mapped[k as int]));
                        assert(r.deep_view() =~= pre + mapped.take(k + 1));
                    }
                    k = k + 1;
                }
                proof {
                    let mapped = st.paths.kvs().map_values(
                        |p: (String, String)| spec_join(e.0@, p.0@),
                    );
                    assert(mapped.take(m as int) =~= mapped);
                    assert(r.deep_view() =~= subroot_names(root.members.kvs().take(i + 1)));
                }
            },
        }
        i = i + 1;
    }
    proof {
        assert(root.members.kvs().take(n as int) =~= root.members.kvs());
    }
    r
}

/// Whether a name is a candidate nested-repository name of this root.
pub fn is_subroot_name(root: &Root, name: &str) -> (r: bool)
    ensures
        r == subroot_names(root.members.kvs()).contains(name@),
{
    let cands = subroot_candidates(root);
    let n = cands.len();
    let mut i: usize = 0;
    while i < n
        invariant
            n == cands.deep_view().len(),
            cands.deep_view() == subroot_names(root.members.kvs()),
            i <= n,
            forall|j: int| 0 <= j < i ==> cands.deep_view()[j] != name@,
        decreases n - i,
    {
        if crate::strutil::str_eq(cands[i].as_str(), name) {
            proof {
                assert(cands.deep_view()[i as int] == name@);
            }
            return true;
        }
        i = i + 1;
    }
    false
}

/// The memoized per-root metadata: the JS-registry-name table for the
/// root's JS members, its inverse, and the candidate nested-repository
/// names.  Computed once per root context and shared.
pub struct DepMap {
    /// Member path to declared JS-registry name.
    pub npm: StrMap<String>,
    /// JS-registry name back to member path.
    pub rnpm: StrMap<String>,
    /// Candidate nested-repository names, `{member}/{subdir}`.
    pub subroots: Vec<String>,
}

impl DepMap {
    /// Builds the per-root tables.  The registry names are read out of each
    /// JS member's metadata file by the shell and handed in as a table.
    pub fn new(root: &Root, npm_names: StrMap<String>) -> (r: DepMap)
        requires
            npm_names.wf(),
        ensures
            r.npm == npm_names,
            r.rnpm.wf(),
            r.rnpm@ == invert_spec(npm_names.kvs()),
            r.subroots.deep_view() == subroot_names(root.members.kvs()),
    {
        let rnpm = invert(&npm_names);
        let subroots = subroot_candidates(root);
        DepMap { npm: npm_names, rnpm, subroots }
    }
}

} // verus!
