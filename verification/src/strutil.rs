//! String primitives the manifest logic is built on: equality, lexicographic
//! order, path joining, and the `./`-prefix normalization applied to
//! workspace member paths.

use vstd::prelude::*;
use vstd::string::StrSliceExecFns;
use vstd::string::StringExecFns;

verus! {

/// Character-for-character string equality.
pub fn str_eq(a: &str, b: &str) -> (r: bool)
    ensures
        r == (a@ == b@),
{
    let na = a.unicode_len();
    let nb = b.unicode_len();
    if na != nb {
        proof {
            if a@ == b@ {
                assert(a@.len() == b@.len());
            }
        }
        return false;
    }
    let mut i: usize = 0;
    while i < na
        invariant
            na == a@.len(),
            nb == b@.len(),
            na == nb,
            i <= na,
            forall|j: int| 0 <= j < i ==> a@[j] == b@[j],
        decreases na - i,
    {
        let ca = a.get_char(i);
        let cb = b.get_char(i);
        if ca != cb {
            proof {
                if a@ == b@ {
                    assert(a@[i as int] == b@[i as int]);
                }
            }
            return false;
        }
        i = i + 1;
    }
    proof {
        assert(a@ =~= b@);
    }
    true
}

/// Strict lexicographic order on character sequences, by code point, with a
/// proper prefix ordered before its extensions.
pub open spec fn lex_lt(a: Seq<char>, b: Seq<char>) -> bool
    decreases a.len(),
{
    if b.len() == 0 {
        false
    } else if a.len() == 0 {
        true
    } else if (a[0] as u32) < (b[0] as u32) {
        true
    } else if (a[0] as u32) > (b[0] as u32) {
        false
    } else {
        lex_lt(a.drop_first(), b.drop_first())
    }
}

/// Exactly one of `lex_lt(a, b)`, `lex_lt(b, a)` and `a == b` holds.
pub proof fn lemma_lex_trichotomy(a: Seq<char>, b: Seq<char>)
    ensures
        lex_lt(a, b) || lex_lt(b, a) || a == b,
        lex_lt(a, b) ==> !lex_lt(b, a) && a != b,
        lex_lt(b, a) ==> !lex_lt(a, b) && a != b,
    decreases a.len(),
{
    if a.len() == 0 && b.len() == 0 {
        assert(a =~= b);
    } else if a.len() > 0 && b.len() > 0 {
        if (a[0] as u32) == (b[0] as u32) {
            assert(a[0] == b[0]) by {
                vstd::utf8::char_u32_cast(a[0], a[0] as u32);
                vstd::utf8::char_u32_cast(b[0], b[0] as u32);
            }
            lemma_lex_trichotomy(a.drop_first(), b.drop_first());
            if a.drop_first() == b.drop_first() {
                assert(a.len() == b.len());
                assert forall|j: int| 0 <= j < a.len() implies a[j] == b[j] by {
                    if j > 0 {
                        assert(a[j] == a.drop_first()[j - 1]);
                        assert(b[j] == b.drop_first()[j - 1]);
                    }
                }
                assert(a =~= b);
            }
            if a == b {
                assert(a.drop_first() =~= b.drop_first());
            }
        } else {
            assert(a != b) by {
                if a == b {
                    assert(a[0] == b[0]);
                }
            }
        }
    }
}

/// Lexicographic order is transitive.
pub proof fn lemma_lex_trans(a: Seq<char>, b: Seq<char>, c: Seq<char>)
    requires
        lex_lt(a, b),
        lex_lt(b, c),
    ensures
        lex_lt(a, c),
    decreases a.len() + b.len() + c.len(),
{
    if a.len() > 0 && b.len() > 0 && c.len() > 0 {
        if (a[0] as u32) == (b[0] as u32) && (b[0] as u32) == (c[0] as u32) {
            lemma_lex_trans(a.drop_first(), b.drop_first(), c.drop_first());
        }
    }
}

/// Equal prefixes do not affect the order of the remainders.
proof fn lemma_lex_skip(a: Seq<char>, b: Seq<char>, i: int)
    requires
        0 <= i <= a.len(),
        0 <= i <= b.len(),
        forall|j: int| 0 <= j < i ==> a[j] == b[j],
    ensures
        lex_lt(a, b) == lex_lt(a.skip(i), b.skip(i)),
    decreases i,
{
    if i > 0 {
        assert(a.len() > 0 && b.len() > 0);
        assert(a[0] == b[0]);
        assert(forall|j: int| 0 <= j < i - 1 ==> a.drop_first()[j] == b.drop_first()[j]);
        lemma_lex_skip(a.drop_first(), b.drop_first(), i - 1);
        assert(a.drop_first().skip(i - 1) =~= a.skip(i));
        assert(b.drop_first().skip(i - 1) =~= b.skip(i));
    } else {
        assert(a.skip(0) =~= a);
        assert(b.skip(0) =~= b);
    }
}

/// Decides the lexicographic order of two strings.
pub fn str_lt(a: &str, b: &str) -> (r: bool)
    ensures
        r == lex_lt(a@, b@),
{
    let na = a.unicode_len();
    let nb = b.unicode_len();
    let mut i: usize = 0;
    loop
        invariant
            na == a@.len(),
            nb == b@.len(),
            i <= na,
            i <= nb,
            forall|j: int| 0 <= j < i ==> a@[j] == b@[j],
        decreases na - i,
    {
        proof {
            lemma_lex_skip(a@, b@, i as int);
        }
        if i >= nb {
            proof {
                assert(b@.skip(i as int).len() == 0);
            }
            return false;
        }
        if i >= na {
            proof {
                assert(a@.skip(i as int).len() == 0);
                assert(b@.skip(i as int).len() > 0);
            }
            return true;
        }
        let ca = a.get_char(i);
        let cb = b.get_char(i);
        proof {
            assert(a@.skip(i as int)[0] == a@[i as int]);
            assert(b@.skip(i as int)[0] == b@[i as int]);
            assert(a@.skip(i as int).len() > 0);
            assert(b@.skip(i as int).len() > 0);
        }
        if (ca as u32) < (cb as u32) {
            return true;
        }
        if (ca as u32) > (cb as u32) {
            return false;
        }
        proof {
            vstd::utf8::char_u32_cast(ca, ca as u32);
            vstd::utf8::char_u32_cast(cb, cb as u32);
            assert(a@[i as int] == b@[i as int]);
        }
        i = i + 1;
    }
}

/// Every leading `./` removed, the canonical form of a workspace member path.
pub open spec fn spec_strip_dot_slash(s: Seq<char>) -> Seq<char>
    decreases s.len(),
{
    if s.len() >= 2 && s[0] == '.' && s[1] == '/' {
        spec_strip_dot_slash(s.skip(2))
    } else {
        s
    }
}

/// Removes every leading `./` from a path.
pub fn strip_dot_slash(s: &str) -> (r: String)
    ensures
        r@ == spec_strip_dot_slash(s@),
{
    let mut t: &str = s;
    loop
        invariant
            spec_strip_dot_slash(s@) == spec_strip_dot_slash(t@),
        decreases t@.len(),
    {
        let n = t.unicode_len();
        if n >= 2 && t.get_char(0) == '.' && t.get_char(1) == '/' {
            t = t.substring_char(2, n);
            proof {
                assert(t@ =~= t@);
            }
        } else {
            return t.to_owned();
        }
    }
}

/// Two path components joined by a slash.
pub open spec fn spec_join(a: Seq<char>, b: Seq<char>) -> Seq<char> {
    a + seq!['/'] + b
}

/// Joins two path components with a slash.
pub fn join_path(a: &str, b: &str) -> (r: String)
    ensures
        r@ == spec_join(a@, b@),
{
    let mut r = a.to_owned();
    r.append("/");
    r.append(b);
    proof {
        reveal_strlit("/");
        assert("/"@ =~= seq!['/']);
        assert(r@ =~= spec_join(a@, b@));
    }
    r
}

/// A version string turned into its caret range.
pub open spec fn spec_caret(v: Seq<char>) -> Seq<char> {
    seq!['^'] + v
}

/// Prefixes a version with a caret, the range written into dependents.
pub fn caret_range(v: &str) -> (r: String)
    ensures
        r@ == spec_caret(v@),
{
    let mut r = "^".to_owned();
    r.append(v);
    proof {
        reveal_strlit("^");
        assert("^"@ =~= seq!['^']);
        assert(r@ =~= spec_caret(v@));
    }
    r
}

} // verus!
