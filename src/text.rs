//! Lexicographic order on identifiers, and sorting by it.
use vstd::prelude::*;

verus! {

/// Lexicographic comparison of `a` and `b` from position `i` on, by code point.
pub open spec fn lex_lt_from(a: Seq<char>, b: Seq<char>, i: int) -> bool
    decreases a.len() - i,
{
    if i < 0 || i >= a.len() {
        0 <= i < b.len()
    } else if i >= b.len() {
        false
    } else if a[i] != b[i] {
        (a[i] as int) < (b[i] as int)
    } else {
        lex_lt_from(a, b, i + 1)
    }
}

/// `a` sorts strictly before `b` (the order of `String`'s `Ord`).
pub open spec fn lex_lt(a: Seq<char>, b: Seq<char>) -> bool {
    lex_lt_from(a, b, 0)
}

/// Every element sorts strictly before every later one.
pub open spec fn strictly_sorted(s: Seq<Seq<char>>) -> bool {
    forall|i: int, j: int| 0 <= i < j < s.len() ==> lex_lt(#[trigger] s[i], #[trigger] s[j])
}

proof fn lemma_lex_irreflexive_from(a: Seq<char>, i: int)
    requires
        0 <= i,
    ensures
        !lex_lt_from(a, a, i),
    decreases a.len() - i,
{
    if i < a.len() {
        lemma_lex_irreflexive_from(a, i + 1);
    }
}

proof fn lemma_lex_asymmetric_from(a: Seq<char>, b: Seq<char>, i: int)
    requires
        0 <= i,
    ensures
        !(lex_lt_from(a, b, i) && lex_lt_from(b, a, i)),
    decreases a.len() - i,
{
    if i < a.len() && i < b.len() && a[i] == b[i] {
        lemma_lex_asymmetric_from(a, b, i + 1);
    }
}

proof fn lemma_lex_transitive_from(a: Seq<char>, b: Seq<char>, c: Seq<char>, i: int)
    requires
        0 <= i,
        lex_lt_from(a, b, i),
        lex_lt_from(b, c, i),
    ensures
        lex_lt_from(a, c, i),
    decreases a.len() - i,
{
    if i < a.len() && i < b.len() && i < c.len() && a[i] == b[i] && b[i] == c[i] {
        lemma_lex_transitive_from(a, b, c, i + 1);
    }
}

proof fn lemma_lex_total_from(a: Seq<char>, b: Seq<char>, i: int)
    requires
        0 <= i <= a.len(),
        i <= b.len(),
        !lex_lt_from(a, b, i),
        !lex_lt_from(b, a, i),
    ensures
        a.len() == b.len(),
        forall|k: int| i <= k < a.len() ==> a[k] == b[k],
    decreases a.len() - i,
{
    if i < a.len() {
        assert(i < b.len());
        if a[i] != b[i] {
            assert((a[i] as int) != (b[i] as int));
        }
        assert(a[i] == b[i]);
        lemma_lex_total_from(a, b, i + 1);
    }
}

/// The lexicographic order is a strict total order.
pub proof fn lemma_lex_order(a: Seq<char>, b: Seq<char>, c: Seq<char>)
    ensures
        !lex_lt(a, a),
        !(lex_lt(a, b) && lex_lt(b, a)),
        lex_lt(a, b) && lex_lt(b, c) ==> lex_lt(a, c),
        !lex_lt(a, b) && !lex_lt(b, a) ==> a == b,
{
    lemma_lex_irreflexive_from(a, 0);
    lemma_lex_asymmetric_from(a, b, 0);
    if lex_lt(a, b) && lex_lt(b, c) {
        lemma_lex_transitive_from(a, b, c, 0);
    }
    if !lex_lt(a, b) && !lex_lt(b, a) {
        lemma_lex_total_from(a, b, 0);
        assert(a =~= b);
    }
}

/// Two strictly sorted sequences with the same elements are the same sequence.
pub proof fn lemma_sorted_unique(s: Seq<Seq<char>>, t: Seq<Seq<char>>)
    requires
        strictly_sorted(s),
        strictly_sorted(t),
        s.to_set() == t.to_set(),
    ensures
        s == t,
    decreases s.len(),
{
    if s.len() == 0 {
        if t.len() > 0 {
            assert(t.to_set().contains(t[0]));
        }
        assert(s =~= t);
    } else if t.len() == 0 {
        assert(s.to_set().contains(s[0]));
    } else {
        assert(s.to_set().contains(s[0]));
        assert(t.to_set().contains(t[0]));
        let k = choose|k: int| 0 <= k < t.len() && t[k] == s[0];
        let m = choose|m: int| 0 <= m < s.len() && s[m] == t[0];
        lemma_lex_order(s[0], t[0], s[0]);
        if k > 0 && m > 0 {
            assert(lex_lt(t[0], t[k]));
            assert(lex_lt(s[0], s[m]));
        } else if k > 0 {
            assert(lex_lt(t[0], t[k]));
            lemma_lex_order(s[0], s[0], s[0]);
        } else if m > 0 {
            assert(lex_lt(s[0], s[m]));
            lemma_lex_order(t[0], t[0], t[0]);
        }
        assert(s[0] == t[0]);
        let s1 = s.drop_first();
        let t1 = t.drop_first();
        assert forall|x: Seq<char>| s1.to_set().contains(x) implies t1.to_set().contains(x) by {
            let i = choose|i: int| 0 <= i < s1.len() && s1[i] == x;
            assert(s.to_set().contains(x)) by { assert(s[i + 1] == x); }
            let j = choose|j: int| 0 <= j < t.len() && t[j] == x;
            assert(lex_lt(s[0], s[i + 1]));
            if j == 0 {
                lemma_lex_order(x, x, x);
            }
            assert(t1[j - 1] == x);
        }
        assert forall|x: Seq<char>| t1.to_set().contains(x) implies s1.to_set().contains(x) by {
            let i = choose|i: int| 0 <= i < t1.len() && t1[i] == x;
            assert(t.to_set().contains(x)) by { assert(t[i + 1] == x); }
            let j = choose|j: int| 0 <= j < s.len() && s[j] == x;
            assert(lex_lt(t[0], t[i + 1]));
            if j == 0 {
                lemma_lex_order(x, x, x);
            }
            assert(s1[j - 1] == x);
        }
        assert(s1.to_set() =~= t1.to_set());
        lemma_sorted_unique(s1, t1);
        assert(s =~= t1.insert(0, t[0]));
        assert(t =~= t1.insert(0, t[0]));
    }
}

/// Whether `a` sorts strictly before `b`.
pub fn str_lt(a: &str, b: &str) -> (r: bool)
    ensures
        r == lex_lt(a@, b@),
{
    let la = a.unicode_len();
    let lb = b.unicode_len();
    let mut i: usize = 0;
    while i < la && i < lb
        invariant
            la == a@.len(),
            lb == b@.len(),
            i <= la,
            i <= lb,
            lex_lt(a@, b@) == lex_lt_from(a@, b@, i as int),
        decreases la - i,
    {
        let ca = a.get_char(i);
        let cb = b.get_char(i);
        if ca != cb {
            return (ca as u32) < (cb as u32);
        }
        i = i + 1;
    }
    i < lb && i == la
}

/// Sorts `v` into lexicographic order, keeping every element.
pub fn sort_ids(v: &mut Vec<String>)
    requires
        forall|i: int, j: int| 0 <= i < j < old(v)@.len() ==> old(v)@[i]@ != old(v)@[j]@,
    ensures
        final(v)@.len() == old(v)@.len(),
        strictly_sorted(final(v)@.map_values(|s: String| s@)),
        final(v)@.map_values(|s: String| s@).to_set() == old(v)@.map_values(|s: String| s@).to_set(),
{
    let mut out: Vec<String> = Vec::new();
    let ghost src = old(v)@.map_values(|s: String| s@);
    let mut k: usize = 0;
    let n = v.len();
    while k < n
        invariant
            n == v@.len(),
            v@ == old(v)@,
            src == old(v)@.map_values(|s: String| s@),
            forall|i: int, j: int| 0 <= i < j < old(v)@.len() ==> old(v)@[i]@ != old(v)@[j]@,
            k <= n,
            out@.len() == k,
            strictly_sorted(out@.map_values(|s: String| s@)),
            out@.map_values(|s: String| s@).to_set() == src.subrange(0, k as int).to_set(),
        decreases n - k,
    {
        let x = v[k].clone();
        let ghost xs = x@;
        let ghost before = out@.map_values(|s: String| s@);
        let mut p: usize = 0;
        while p < out.len() && str_lt(out[p].as_str(), x.as_str())
            invariant
                p <= out@.len(),
                forall|q: int| 0 <= q < p ==> lex_lt(#[trigger] out@[q]@, xs),
                x@ == xs,
            decreases out@.len() - p,
        {
            p = p + 1;
        }
        proof {
            assert(!src.subrange(0, k as int).to_set().contains(xs)) by {
                if src.subrange(0, k as int).to_set().contains(xs) {
                    let j = choose|j: int| 0 <= j < k && src.subrange(0, k as int)[j] == xs;
                    assert(src[j] == xs);
                    assert(old(v)@[j]@ != old(v)@[k as int]@);
                }
            }
            if p < out@.len() {
                assert(before.to_set().contains(before[p as int]));
                assert(before[p as int] != xs);
                lemma_lex_order(before[p as int], xs, xs);
                assert forall|q: int| p <= q < before.len() implies lex_lt(xs, before[q]) by {
                    if q > p {
                        lemma_lex_order(xs, before[p as int], before[q]);
                    }
                }
            }
        }
        out.insert(p, x);
        proof {
            let after = out@.map_values(|s: String| s@);
            assert(after =~= before.insert(p as int, xs));
            assert forall|i: int, j: int| 0 <= i < j < after.len() implies lex_lt(after[i], after[j]) by {
                if i < p && j > p {
                    assert(lex_lt(before[i], xs));
                    lemma_lex_order(before[i], xs, before[j - 1]);
                }
            }
            assert(src.subrange(0, k + 1) =~= src.subrange(0, k as int).push(xs));
            assert(after.to_set() =~= before.to_set().insert(xs)) by {
                assert forall|y: Seq<char>| after.to_set().contains(y) implies before.to_set().insert(xs).contains(y) by {
                    let i = choose|i: int| 0 <= i < after.len() && after[i] == y;
                    if i < p { assert(before[i] == y); } else if i > p { assert(before[i - 1] == y); }
                }
                assert forall|y: Seq<char>| before.to_set().insert(xs).contains(y) implies after.to_set().contains(y) by {
                    if y == xs { assert(after[p as int] == y); } else {
                        let i = choose|i: int| 0 <= i < before.len() && before[i] == y;
                        if i < p { assert(after[i] == y); } else { assert(after[i + 1] == y); }
                    }
                }
            }
            assert(src.subrange(0, k + 1).to_set() =~= src.subrange(0, k as int).to_set().insert(xs)) by {
                let s0 = src.subrange(0, k as int);
                assert forall|y: Seq<char>| s0.push(xs).to_set().contains(y) implies s0.to_set().insert(xs).contains(y) by {
                    let i = choose|i: int| 0 <= i < s0.len() + 1 && s0.push(xs)[i] == y;
                    if i < s0.len() { assert(s0[i] == y); }
                }
                assert forall|y: Seq<char>| s0.to_set().insert(xs).contains(y) implies s0.push(xs).to_set().contains(y) by {
                    if y == xs { assert(s0.push(xs)[k as int] == y); } else {
                        let i = choose|i: int| 0 <= i < s0.len() && s0[i] == y;
                        assert(s0.push(xs)[i] == y);
                    }
                }
            }
        }
        k = k + 1;
    }
    proof {
        assert(src.subrange(0, n as int) =~= src);
    }
    *v = out;
}

} // verus!
