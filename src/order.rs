//! Lexicographic order on sequences, and the laws that make it a strict
//! total order whenever the order on elements is one.
use vstd::prelude::*;

verus! {

/// `s` and `t` agree before position `k`, and `s` comes first at `k`:
/// either `s` ends there while `t` goes on, or `s[k]` precedes `t[k]`.
pub open spec fn lex_at<A>(s: Seq<A>, t: Seq<A>, lt: spec_fn(A, A) -> bool, k: int) -> bool {
    &&& 0 <= k <= s.len()
    &&& k <= t.len()
    &&& forall|i: int| 0 <= i < k ==> s[i] == t[i]
    &&& (k == s.len() && k < t.len()) || (k < s.len() && k < t.len() && lt(s[k], t[k]))
}

/// `s` precedes `t` in the lexicographic order built on `lt`.
pub open spec fn lex_lt<A>(s: Seq<A>, t: Seq<A>, lt: spec_fn(A, A) -> bool) -> bool {
    exists|k: int| #[trigger] lex_at(s, t, lt, k)
}

pub open spec fn irreflexive<A>(lt: spec_fn(A, A) -> bool) -> bool {
    forall|a: A| !#[trigger] lt(a, a)
}

pub open spec fn transitive<A>(lt: spec_fn(A, A) -> bool) -> bool {
    forall|a: A, b: A, c: A| #[trigger] lt(a, b) && #[trigger] lt(b, c) ==> lt(a, c)
}

pub open spec fn total<A>(lt: spec_fn(A, A) -> bool) -> bool {
    forall|a: A, b: A| a != b ==> #[trigger] lt(a, b) || #[trigger] lt(b, a)
}

pub proof fn lemma_lex_irreflexive<A>(s: Seq<A>, lt: spec_fn(A, A) -> bool)
    requires
        irreflexive(lt),
    ensures
        !lex_lt(s, s, lt),
{
    if lex_lt(s, s, lt) {
        let k = choose|k: int| #[trigger] lex_at(s, s, lt, k);
        assert(!lt(s[k], s[k]));
    }
}

pub proof fn lemma_lex_transitive<A>(s: Seq<A>, t: Seq<A>, u: Seq<A>, lt: spec_fn(A, A) -> bool)
    requires
        transitive(lt),
        lex_lt(s, t, lt),
        lex_lt(t, u, lt),
    ensures
        lex_lt(s, u, lt),
{
    let k1 = choose|k: int| #[trigger] lex_at(s, t, lt, k);
    let k2 = choose|k: int| #[trigger] lex_at(t, u, lt, k);
    if k1 < k2 {
        assert(t[k1] == u[k1]);
        assert(lex_at(s, u, lt, k1));
    } else if k2 < k1 {
        assert(s[k2] == t[k2]);
        assert(lex_at(s, u, lt, k2));
    } else {
        if k1 < s.len() {
            assert(lt(s[k1], t[k1]) && lt(t[k1], u[k1]));
        }
        assert(lex_at(s, u, lt, k1));
    }
}

/// The first position at or after `j` where `s` and `t` differ or one ends.
proof fn lemma_first_difference<A>(s: Seq<A>, t: Seq<A>, j: int) -> (k: int)
    requires
        0 <= j <= s.len(),
        j <= t.len(),
        forall|i: int| 0 <= i < j ==> s[i] == t[i],
    ensures
        j <= k <= s.len(),
        k <= t.len(),
        forall|i: int| 0 <= i < k ==> s[i] == t[i],
        k == s.len() || k == t.len() || s[k] != t[k],
    decreases s.len() - j,
{
    if j == s.len() || j == t.len() || s[j] != t[j] {
        j
    } else {
        lemma_first_difference(s, t, j + 1)
    }
}

pub proof fn lemma_lex_total<A>(s: Seq<A>, t: Seq<A>, lt: spec_fn(A, A) -> bool)
    requires
        total(lt),
        s != t,
    ensures
        lex_lt(s, t, lt) || lex_lt(t, s, lt),
{
    let k = lemma_first_difference(s, t, 0);
    if k == s.len() && k == t.len() {
        assert(s =~= t);
    } else if k == s.len() {
        assert(lex_at(s, t, lt, k));
    } else if k == t.len() {
        assert(lex_at(t, s, lt, k));
    } else {
        assert(lt(s[k], t[k]) || lt(t[k], s[k]));
        if lt(s[k], t[k]) {
            assert(lex_at(s, t, lt, k));
        } else {
            assert(lex_at(t, s, lt, k));
        }
    }
}

/// Where `s` and `t` first differ (or one ends) at `i`, the order is decided there.
pub proof fn lemma_lex_decided_at<A>(s: Seq<A>, t: Seq<A>, lt: spec_fn(A, A) -> bool, i: int)
    requires
        irreflexive(lt),
        0 <= i <= s.len(),
        i <= t.len(),
        forall|j: int| 0 <= j < i ==> s[j] == t[j],
        i == s.len() || i == t.len() || s[i] != t[i],
    ensures
        lex_lt(s, t, lt) == lex_at(s, t, lt, i),
{
    if lex_lt(s, t, lt) {
        let k = choose|k: int| #[trigger] lex_at(s, t, lt, k);
        if k < i {
            assert(s[k] == t[k]);
            assert(!lt(s[k], s[k]));
        }
    }
}

/// Sequences that start alike are ordered as their rests are.
pub proof fn lemma_lex_rest<A>(s: Seq<A>, t: Seq<A>, lt: spec_fn(A, A) -> bool)
    requires
        irreflexive(lt),
        s.len() > 0,
        t.len() > 0,
        s[0] == t[0],
    ensures
        lex_lt(s, t, lt) == lex_lt(s.drop_first(), t.drop_first(), lt),
{
    let s1 = s.drop_first();
    let t1 = t.drop_first();
    if lex_lt(s, t, lt) {
        let k = choose|k: int| #[trigger] lex_at(s, t, lt, k);
        assert(!lt(s[0], s[0]));
        assert(k >= 1);
        assert forall|i: int| 0 <= i < k - 1 implies s1[i] == t1[i] by {
            assert(s[i + 1] == t[i + 1]);
        }
        if k < s.len() {
            assert(s1[k - 1] == s[k] && t1[k - 1] == t[k]);
        }
        assert(lex_at(s1, t1, lt, k - 1));
    }
    if lex_lt(s1, t1, lt) {
        let k = choose|k: int| #[trigger] lex_at(s1, t1, lt, k);
        assert forall|i: int| 0 <= i < k + 1 implies s[i] == t[i] by {
            if i > 0 {
                assert(s1[i - 1] == t1[i - 1]);
            }
        }
        assert(lex_at(s, t, lt, k + 1));
    }
}

/// Sequences that start differently are ordered as their first elements are.
pub proof fn lemma_lex_head<A>(s: Seq<A>, t: Seq<A>, lt: spec_fn(A, A) -> bool)
    requires
        s.len() > 0,
        t.len() > 0,
        s[0] != t[0],
    ensures
        lex_lt(s, t, lt) == lt(s[0], t[0]),
{
    if lex_lt(s, t, lt) {
        let k = choose|k: int| #[trigger] lex_at(s, t, lt, k);
        if k > 0 {
            assert(s[0] == t[0]);
        }
    }
    if lt(s[0], t[0]) {
        assert(lex_at(s, t, lt, 0));
    }
}

} // verus!
