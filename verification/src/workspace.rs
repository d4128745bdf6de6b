//! The workspace synchronizer: reconciles a root manifest's membership with
//! the workspace lists of the root's native and JS metadata files.  The new
//! list is the union of every member path carrying the matching binding and
//! the paths already listed, each with its leading `./` stripped,
//! deduplicated and written back sorted.  Running it twice is a no-op after
//! the first pass.

use vstd::prelude::*;
use crate::model::{Member, Root};
use crate::strutil::{lemma_lex_trans, lemma_lex_trichotomy, lex_lt, spec_strip_dot_slash,
    str_eq, str_lt, strip_dot_slash};

verus! {

/// Paths of the members that carry a JS binding, in manifest order.
pub open spec fn npm_keys(s: Seq<(String, Member)>) -> Seq<Seq<char>>
    decreases s.len(),
{
    if s.len() == 0 {
        Seq::empty()
    } else {
        npm_keys(s.drop_last()) + (if s.last().1.npm is Some {
            seq![s.last().0@]
        } else {
            Seq::empty()
        })
    }
}

/// Paths of the members that carry a native-package binding, in manifest
/// order.
pub open spec fn cargo_keys(s: Seq<(String, Member)>) -> Seq<Seq<char>>
    decreases s.len(),
{
    if s.len() == 0 {
        Seq::empty()
    } else {
        cargo_keys(s.drop_last()) + (if s.last().1.cargo is Some {
            seq![s.last().0@]
        } else {
            Seq::empty()
        })
    }
}

/// Every element with its leading `./` stripped.
pub open spec fn normalize_all(s: Seq<Seq<char>>) -> Seq<Seq<char>> {
    s.map_values(|x: Seq<char>| spec_strip_dot_slash(x))
}

/// Insertion into a sorted, duplicate-free sequence: before the first
/// larger element, dropped if already present.
pub open spec fn sorted_insert(s: Seq<Seq<char>>, x: Seq<char>) -> Seq<Seq<char>>
    decreases s.len(),
{
    if s.len() == 0 {
        seq![x]
    } else if x == s[0] {
        s
    } else if lex_lt(x, s[0]) {
        seq![x] + s
    } else {
        seq![s[0]] + sorted_insert(s.drop_first(), x)
    }
}

/// The sorted deduplication of a sequence.
pub open spec fn canon(s: Seq<Seq<char>>) -> Seq<Seq<char>>
    decreases s.len(),
{
    if s.len() == 0 {
        Seq::empty()
    } else {
        sorted_insert(canon(s.drop_last()), s.last())
    }
}

/// What the synchronizer writes: the union of the selected member paths and
/// the existing list, normalized, deduplicated and sorted.
pub open spec fn workspace_sync_spec(selected: Seq<Seq<char>>, existing: Seq<Seq<char>>)
    -> Seq<Seq<char>> {
    canon(normalize_all(selected + existing))
}

/// Strictly ascending, hence duplicate-free.
pub open spec fn strictly_sorted(s: Seq<Seq<char>>) -> bool {
    forall|i: int, j: int| 0 <= i < j < s.len() ==> lex_lt(s[i], s[j])
}

/// The two sequences hold the same elements.
pub open spec fn same_elems(a: Seq<Seq<char>>, b: Seq<Seq<char>>) -> bool {
    forall|x: Seq<char>| a.contains(x) <==> b.contains(x)
}

proof fn lemma_sorted_insert_elems(s: Seq<Seq<char>>, x: Seq<char>)
    ensures
        forall|y: Seq<char>| #[trigger] sorted_insert(s, x).contains(y) <==> s.contains(y) || y
            == x,
    decreases s.len(),
{
    let t = sorted_insert(s, x);
    if s.len() == 0 {
        assert forall|y: Seq<char>| #[trigger] t.contains(y) <==> s.contains(y) || y == x by {
            if t.contains(y) {
                let i = choose|i: int| 0 <= i < t.len() && t[i] == y;
                assert(y == x);
            }
            if y == x {
                assert(t[0] == y);
            }
        }
    } else if x == s[0] {
        assert forall|y: Seq<char>| #[trigger] t.contains(y) <==> s.contains(y) || y == x by {
            if y == x {
                assert(t[0] == y);
            }
        }
    } else if lex_lt(x, s[0]) {
        assert forall|y: Seq<char>| #[trigger] t.contains(y) <==> s.contains(y) || y == x by {
            if t.contains(y) {
                let i = choose|i: int| 0 <= i < t.len() && t[i] == y;
                if i > 0 {
                    assert(s[i - 1] == y);
                }
            }
            if s.contains(y) {
                let i = choose|i: int| 0 <= i < s.len() && s[i] == y;
                assert(t[i + 1] == y);
            }
            if y == x {
                assert(t[0] == y);
            }
        }
    } else {
        let rest = s.drop_first();
        lemma_sorted_insert_elems(rest, x);
        let tr = sorted_insert(rest, x);
        assert(t == seq![s[0]] + tr);
        assert forall|y: Seq<char>| #[trigger] t.contains(y) <==> s.contains(y) || y == x by {
            if t.contains(y) {
                let i = choose|i: int| 0 <= i < t.len() && t[i] == y;
                if i == 0 {
                    assert(s[0] == y);
                } else {
                    assert(tr[i - 1] == y);
                    assert(tr.contains(y));
                    if rest.contains(y) {
                        let k = choose|k: int| 0 <= k < rest.len() && rest[k] == y;
                        assert(s[k + 1] == y);
                    }
                }
            }
            if s.contains(y) {
                let i = choose|i: int| 0 <= i < s.len() && s[i] == y;
                if i == 0 {
                    assert(t[0] == y);
                } else {
                    assert(rest[i - 1] == y);
                    assert(rest.contains(y));
                    assert(tr.contains(y));
                    let k = choose|k: int| 0 <= k < tr.len() && tr[k] == y;
                    assert(t[k + 1] == y);
                }
            }
            if y == x {
                assert(tr.contains(x));
                let k = choose|k: int| 0 <= k < tr.len() && tr[k] == x;
                assert(t[k + 1] == x);
            }
        }
    }
}

proof fn lemma_sorted_insert_sorted(s: Seq<Seq<char>>, x: Seq<char>)
    requires
        strictly_sorted(s),
    ensures
        strictly_sorted(sorted_insert(s, x)),
    decreases s.len(),
{
    let t = sorted_insert(s, x);
    if s.len() == 0 {
    } else if x == s[0] {
    } else if lex_lt(x, s[0]) {
        assert forall|i: int, j: int| 0 <= i < j < t.len() implies lex_lt(t[i], t[j]) by {
            if i == 0 {
                assert(t[j] == s[j - 1]);
                if j == 1 {
                    assert(t[j] == s[0]);
                } else {
                    assert(lex_lt(s[0], s[j - 1]));
                    lemma_lex_trans(x, s[0], s[j - 1]);
                }
            } else {
                assert(t[i] == s[i - 1] && t[j] == s[j - 1]);
            }
        }
    } else {
        lemma_lex_trichotomy(x, s[0]);
        assert(lex_lt(s[0], x));
        let rest = s.drop_first();
        assert(strictly_sorted(rest)) by {
            assert(forall|p: int, q: int|
                0 <= p < q < rest.len() ==> lex_lt(#[trigger] rest[p], #[trigger] rest[q]));
        }
        lemma_sorted_insert_sorted(rest, x);
        lemma_sorted_insert_elems(rest, x);
        let tr = sorted_insert(rest, x);
        assert(t == seq![s[0]] + tr);
        assert forall|i: int, j: int| 0 <= i < j < t.len() implies lex_lt(t[i], t[j]) by {
            if i == 0 {
                assert(t[j] == tr[j - 1]);
                assert(tr.contains(tr[j - 1])) by {
                    assert(0 <= j - 1 < tr.len());
                }
                assert(rest.contains(tr[j - 1]) || tr[j - 1] == x);
                if tr[j - 1] == x {
                    assert(lex_lt(s[0], x));
                } else {
                    let k = choose|k: int| 0 <= k < rest.len() && rest[k] == tr[j - 1];
                    assert(s[k + 1] == rest[k]);
                    assert(lex_lt(s[0], s[k + 1]));
                }
            } else {
                assert(t[i] == tr[i - 1] && t[j] == tr[j - 1]);
            }
        }
    }
}

proof fn lemma_sorted_insert_props(s: Seq<Seq<char>>, x: Seq<char>)
    requires
        strictly_sorted(s),
    ensures
        strictly_sorted(sorted_insert(s, x)),
        sorted_insert(s, x).contains(x),
        forall|y: Seq<char>| #[trigger] sorted_insert(s, x).contains(y) <==> s.contains(y) || y
            == x,
{
    lemma_sorted_insert_elems(s, x);
    lemma_sorted_insert_sorted(s, x);
}

/// The canonical form is strictly sorted and holds exactly the elements of
/// its input.
pub proof fn lemma_canon_props(s: Seq<Seq<char>>)
    ensures
        strictly_sorted(canon(s)),
        same_elems(canon(s), s),
    decreases s.len(),
{
    if s.len() > 0 {
        lemma_canon_props(s.drop_last());
        lemma_sorted_insert_props(canon(s.drop_last()), s.last());
        assert forall|x: Seq<char>| canon(s).contains(x) <==> s.contains(x) by {
            if s.contains(x) {
                let i = choose|i: int| 0 <= i < s.len() && s[i] == x;
                if i < s.len() - 1 {
                    assert(s.drop_last()[i] == x);
                    assert(s.drop_last().contains(x));
                }
            }
            if s.drop_last().contains(x) {
                let i = choose|i: int| 0 <= i < s.drop_last().len() && s.drop_last()[i] == x;
                assert(s[i] == x);
            }
            if x == s.last() {
                assert(s[s.len() - 1] == x);
            }
        }
    }
}

/// Two strictly sorted sequences with the same elements are equal.
pub proof fn lemma_canonical_unique(a: Seq<Seq<char>>, b: Seq<Seq<char>>)
    requires
        strictly_sorted(a),
        strictly_sorted(b),
        same_elems(a, b),
    ensures
        a == b,
    decreases a.len(),
{
    if a.len() == 0 {
        if b.len() > 0 {
            assert(b.contains(b[0]));
            assert(a.contains(b[0]));
        }
        assert(a =~= b);
    } else {
        assert(a.contains(a[0]));
        assert(b.contains(a[0]));
        let j = choose|j: int| 0 <= j < b.len() && b[j] == a[0];
        assert(b.contains(b[0]));
        assert(a.contains(b[0]));
        let i = choose|i: int| 0 <= i < a.len() && a[i] == b[0];
        if j > 0 {
            assert(lex_lt(b[0], b[j]));
            if i > 0 {
                assert(lex_lt(a[0], a[i]));
                lemma_lex_trans(a[0], a[i], b[j]);
                lemma_lex_trichotomy(a[0], b[j]);
                assert(false);
            }
        }
        assert(a[0] == b[0]);
        let ta = a.drop_first();
        let tb = b.drop_first();
        assert(strictly_sorted(ta)) by {
            assert(forall|p: int, q: int|
                0 <= p < q < ta.len() ==> lex_lt(#[trigger] ta[p], #[trigger] ta[q]));
        }
        assert(strictly_sorted(tb)) by {
            assert(forall|p: int, q: int|
                0 <= p < q < tb.len() ==> lex_lt(#[trigger] tb[p], #[trigger] tb[q]));
        }
        assert forall|x: Seq<char>| ta.contains(x) <==> tb.contains(x) by {
            if ta.contains(x) {
                let p = choose|p: int| 0 <= p < ta.len() && ta[p] == x;
                assert(a[p + 1] == x);
                assert(lex_lt(a[0], x));
                assert(a.contains(x));
                assert(b.contains(x));
                let q = choose|q: int| 0 <= q < b.len() && b[q] == x;
                lemma_lex_trichotomy(a[0], x);
                assert(q != 0);
                assert(tb[q - 1] == x);
                assert(tb.contains(x));
            }
            if tb.contains(x) {
                let q = choose|q: int| 0 <= q < tb.len() && tb[q] == x;
                assert(b[q + 1] == x);
                assert(lex_lt(b[0], x));
                assert(b.contains(x));
                assert(a.contains(x));
                let p = choose|p: int| 0 <= p < a.len() && a[p] == x;
                lemma_lex_trichotomy(b[0], x);
                assert(p != 0);
                assert(ta[p - 1] == x);
                assert(ta.contains(x));
            }
        }
        lemma_canonical_unique(ta, tb);
        assert(a =~= b) by {
            assert(forall|k: int| 1 <= k < a.len() ==> a[k] == ta[k - 1] && b[k] == tb[k - 1]);
        }
    }
}

proof fn lemma_sorted_insert_at(s: Seq<Seq<char>>, x: Seq<char>, j: int)
    requires
        0 <= j <= s.len(),
        forall|k: int| 0 <= k < j ==> lex_lt(#[trigger] s[k], x),
        j < s.len() ==> !lex_lt(s[j], x),
    ensures
        sorted_insert(s, x) == if j < s.len() && s[j] == x {
            s
        } else {
            s.take(j) + seq![x] + s.skip(j)
        },
    decreases j,
{
    if j == 0 {
        if s.len() == 0 {
            assert(sorted_insert(s, x) =~= s.take(0) + seq![x] + s.skip(0));
        } else if s[0] == x {
        } else {
            lemma_lex_trichotomy(x, s[0]);
            assert(lex_lt(x, s[0]));
            assert(seq![x] + s =~= s.take(0) + seq![x] + s.skip(0));
        }
    } else {
        lemma_lex_trichotomy(x, s[0]);
        assert(lex_lt(s[0], x));
        let rest = s.drop_first();
        assert(forall|k: int| 0 <= k < j - 1 ==> #[trigger] rest[k] == s[k + 1]);
        lemma_sorted_insert_at(rest, x, j - 1);
        if j < s.len() && s[j] == x {
            assert(rest[j - 1] == x);
            assert(sorted_insert(s, x) =~= s);
        } else {
            assert(seq![s[0]] + (rest.take(j - 1) + seq![x] + rest.skip(j - 1)) =~= s.take(j)
                + seq![x] + s.skip(j));
        }
    }
}

/// Inserts a path into a sorted, duplicate-free list, keeping it so.
fn insert_sorted_vec(acc: &mut Vec<String>, x: String)
    requires
        strictly_sorted(old(acc).deep_view()),
    ensures
        final(acc).deep_view() == sorted_insert(old(acc).deep_view(), x@),
        strictly_sorted(final(acc).deep_view()),
{
    proof {
        lemma_sorted_insert_props(old(acc).deep_view(), x@);
    }
    let n = acc.len();
    let mut j: usize = 0;
    while j < n && str_lt(acc[j].as_str(), x.as_str())
        invariant
            acc@ == old(acc)@,
            n == acc.deep_view().len(),
            j <= n,
            forall|k: int| 0 <= k < j ==> lex_lt(#[trigger] acc.deep_view()[k], x@),
        decreases n - j,
    {
        j = j + 1;
    }
    proof {
        lemma_sorted_insert_at(acc.deep_view(), x@, j as int);
    }
    if j < n {
        if str_eq(acc[j].as_str(), x.as_str()) {
            proof {
                assert(acc.deep_view()[j as int] == x@);
            }
            return ;
        }
    }
    let ghost pre = acc.deep_view();
    acc.insert(j, x);
    proof {
        assert(acc.deep_view() =~= pre.take(j as int) + seq![x@] + pre.skip(j as int));
    }
}

/// The union, normalization and sort shared by both workspace lists.
fn build_list(selected: &Vec<String>, existing: &Vec<String>) -> (r: Vec<String>)
    ensures
        r.deep_view() == workspace_sync_spec(selected.deep_view(), existing.deep_view()),
{
    let ghost combined = selected.deep_view() + existing.deep_view();
    let ghost norm = normalize_all(combined);
    let mut acc: Vec<String> = Vec::new();
    proof {
        assert(norm.take(0) =~= Seq::<Seq<char>>::empty());
        assert(acc.deep_view() =~= canon(norm.take(0)));
    }
    let mut i: usize = 0;
    let ns = selected.len();
    while i < ns
        invariant
            combined == selected.deep_view() + existing.deep_view(),
            norm == normalize_all(combined),
            ns == selected.deep_view().len(),
            i <= ns,
            acc.deep_view() == canon(norm.take(i as int)),
            strictly_sorted(acc.deep_view()),
        decreases ns - i,
    {
        let nx = strip_dot_slash(selected[i].as_str());
        proof {
            assert(combined[i as int] == selected.deep_view()[i as int]);
            assert(norm[i as int] == spec_strip_dot_slash(combined[i as int]));
            assert(norm.take(i + 1).drop_last() =~= norm.take(i as int));
            assert(norm.take(i + 1).last() == norm[i as int]);
        }
        insert_sorted_vec(&mut acc, nx);
        i = i + 1;
    }
    let mut k: usize = 0;
    let ne = existing.len();
    while k < ne
        invariant
            combined == selected.deep_view() + existing.deep_view(),
            norm == normalize_all(combined),
            ns == selected.deep_view().len(),
            ne == existing.deep_view().len(),
            k <= ne,
            acc.deep_view() == canon(norm.take(ns + k as int)),
            strictly_sorted(acc.deep_view()),
        decreases ne - k,
    {
        let nx = strip_dot_slash(existing[k].as_str());
        proof {
            assert(combined[ns + k as int] == existing.deep_view()[k as int]);
            assert(norm[ns + k as int] == spec_strip_dot_slash(combined[ns + k as int]));
            assert(norm.take(ns + k + 1).drop_last() =~= norm.take(ns + k as int));
            assert(norm.take(ns + k + 1).last() == norm[ns + k as int]);
        }
        insert_sorted_vec(&mut acc, nx);
        k = k + 1;
    }
    proof {
        assert(norm.take(ns + ne as int) =~= norm);
    }
    acc
}

/// The JS metadata file's workspace list: every member path carrying a JS
/// binding joined with the existing list, `./` prefixes stripped,
/// deduplicated, sorted.
pub fn npm_workspace_members(root: &Root, existing: &Vec<String>) -> (r: Vec<String>)
    ensures
        r.deep_view() == workspace_sync_spec(npm_keys(root.members.kvs()), existing.deep_view()),
{
    let kvs_len = root.members.len();
    let mut sel: Vec<String> = Vec::new();
    proof {
        assert(root.members.kvs().take(0) =~= Seq::<(String, Member)>::empty());
        assert(sel.deep_view() =~= npm_keys(root.members.kvs().take(0)));
    }
    let mut i: usize = 0;
    while i < kvs_len
        invariant
            kvs_len == root.members.kvs().len(),
            i <= kvs_len,
            sel.deep_view() == npm_keys(root.members.kvs().take(i as int)),
        decreases kvs_len - i,
    {
        let e = root.members.entry_at(i);
        proof {
            assert(root.members.kvs().take(i + 1).drop_last() =~= root.members.kvs().take(
                i as int,
            ));
            assert(root.members.kvs().take(i + 1).last() == root.members.kvs()[i as int]);
        }
        if e.1.npm.is_some() {
            sel.push(e.0.clone());
            proof {
                assert(sel.deep_view() =~= npm_keys(root.members.kvs().take(i + 1)));
            }
        } else {
            proof {
                assert(sel.deep_view() =~= npm_keys(root.members.kvs().take(i + 1)));
            }
        }
        i = i + 1;
    }
    proof {
        assert(root.members.kvs().take(kvs_len as int) =~= root.members.kvs());
    }
    build_list(&sel, existing)
}

/// The native workspace manifest's member list: every member path carrying
/// a native-package binding joined with the existing list, `./` prefixes
/// stripped, deduplicated, sorted.
pub fn cargo_workspace_members(root: &Root, existing: &Vec<String>) -> (r: Vec<String>)
    ensures
        r.deep_view() == workspace_sync_spec(
            cargo_keys(root.members.kvs()),
            existing.deep_view(),
        ),
{
    let kvs_len = root.members.len();
    let mut sel: Vec<String> = Vec::new();
    proof {
        assert(root.members.kvs().take(0) =~= Seq::<(String, Member)>::empty());
        assert(sel.deep_view() =~= cargo_keys(root.members.kvs().take(0)));
    }
    let mut i: usize = 0;
    while i < kvs_len
        invariant
            kvs_len == root.members.kvs().len(),
            i <= kvs_len,
            sel.deep_view() == cargo_keys(root.members.kvs().take(i as int)),
        decreases kvs_len - i,
    {
        let e = root.members.entry_at(i);
        proof {
            assert(root.members.kvs().take(i + 1).drop_last() =~= root.members.kvs().take(
                i as int,
            ));
            assert(root.members.kvs().take(i + 1).last() == root.members.kvs()[i as int]);
        }
        if e.1.cargo.is_some() {
            sel.push(e.0.clone());
            proof {
                assert(sel.deep_view() =~= cargo_keys(root.members.kvs().take(i + 1)));
            }
        } else {
            proof {
                assert(sel.deep_view() =~= cargo_keys(root.members.kvs().take(i + 1)));
            }
        }
        i = i + 1;
    }
    proof {
        assert(root.members.kvs().take(kvs_len as int) =~= root.members.kvs());
    }
    build_list(&sel, existing)
}

/// Stripping leading `./` twice is the same as stripping once.
pub proof fn lemma_strip_idempotent(x: Seq<char>)
    ensures
        spec_strip_dot_slash(spec_strip_dot_slash(x)) == spec_strip_dot_slash(x),
    decreases x.len(),
{
    if x.len() >= 2 && x[0] == '.' && x[1] == '/' {
        lemma_strip_idempotent(x.skip(2));
    }
}

/// Synchronizing a workspace list twice gives the output of the first pass:
/// the second pass sees a list that is already the normalized, sorted union
/// and leaves it unchanged.
pub proof fn lemma_workspace_sync_idempotent(selected: Seq<Seq<char>>, existing: Seq<Seq<char>>)
    ensures
        workspace_sync_spec(selected, workspace_sync_spec(selected, existing))
            == workspace_sync_spec(selected, existing),
{
    let once = workspace_sync_spec(selected, existing);
    let n1 = normalize_all(selected + existing);
    lemma_canon_props(n1);
    let n2 = normalize_all(selected + once);
    lemma_canon_props(n2);
    assert forall|x: Seq<char>| n2.contains(x) implies n1.contains(x) by {
        let i = choose|i: int| 0 <= i < n2.len() && n2[i] == x;
        let src = (selected + once)[i];
        assert(x == spec_strip_dot_slash(src));
        if i < selected.len() {
            assert((selected + existing)[i] == src);
            assert(n1[i] == spec_strip_dot_slash(src));
        } else {
            assert(once.contains(src));
            assert(n1.contains(src));
            let j = choose|j: int| 0 <= j < n1.len() && n1[j] == src;
            assert(src == spec_strip_dot_slash((selected + existing)[j]));
            lemma_strip_idempotent((selected + existing)[j]);
            assert(x == src);
        }
    }
    assert forall|x: Seq<char>| n1.contains(x) implies n2.contains(x) by {
        let i = choose|i: int| 0 <= i < n1.len() && n1[i] == x;
        if i < selected.len() {
            assert((selected + once)[i] == (selected + existing)[i]);
            assert(n2[i] == x);
        } else {
            assert(once.contains(x)) by {
                assert(n1.contains(x));
            }
            let j = choose|j: int| 0 <= j < once.len() && once[j] == x;
            assert((selected + once)[selected.len() + j] == x);
            assert(n2[selected.len() + j] == spec_strip_dot_slash(x));
            assert(n1.contains(spec_strip_dot_slash(x))) by {
                let k = choose|k: int| 0 <= k < n1.len() && n1[k] == x;
                assert(x == spec_strip_dot_slash((selected + existing)[k]));
                lemma_strip_idempotent((selected + existing)[k]);
            }
            assert(spec_strip_dot_slash(x) == x) by {
                let k = choose|k: int| 0 <= k < n1.len() && n1[k] == x;
                assert(x == spec_strip_dot_slash((selected + existing)[k]));
                lemma_strip_idempotent((selected + existing)[k]);
            }
        }
    }
    lemma_canonical_unique(canon(n2), canon(n1));
}

} // verus!
