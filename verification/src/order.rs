//! Stable sorting under a total preorder.
use vstd::prelude::*;

verus! {

/// A total preorder on `T`, with an executable test.
pub trait Order<T> {
    /// `a` may stand before `b`.
    spec fn le(&self, a: T, b: T) -> bool;

    fn le_exec(&self, a: &T, b: &T) -> (r: bool)
        ensures
            r == self.le(*a, *b),
    ;

    proof fn le_total(&self, a: T, b: T)
        ensures
            self.le(a, b) || self.le(b, a),
    ;

    proof fn le_trans(&self, a: T, b: T, c: T)
        requires
            self.le(a, b),
            self.le(b, c),
        ensures
            self.le(a, c),
    ;
}

/// `p` reorders `n` positions: each position once.
pub open spec fn is_permutation(p: Seq<int>, n: nat) -> bool {
    &&& p.len() == n
    &&& forall|k: int| 0 <= k < n ==> 0 <= #[trigger] p[k] < n
    &&& forall|a: int, b: int| 0 <= a < b < n ==> p[a] != p[b]
}

/// `b` holds the items of `a`, each once, in some order.
pub open spec fn is_reordering<T>(b: Seq<T>, a: Seq<T>) -> bool {
    exists|p: Seq<int>|
        {
            &&& is_permutation(p, a.len())
            &&& b.len() == a.len()
            &&& forall|k: int| 0 <= k < b.len() ==> b[k] == a[#[trigger] p[k]]
        }
}

/// No `m` distinct values fit into fewer than `m` places.
pub proof fn lemma_pigeonhole(f: spec_fn(int) -> int, m: int, n: int)
    requires
        0 <= m,
        0 <= n,
        forall|i: int| 0 <= i < m ==> 0 <= #[trigger] f(i) < n,
        forall|i: int, j: int| 0 <= i < j < m ==> #[trigger] f(i) != #[trigger] f(j),
    ensures
        m <= n,
    decreases m,
{
    if m > 0 {
        let v = f(m - 1);
        let g = |i: int| if f(i) == n - 1 { v } else { f(i) };
        assert forall|i: int| 0 <= i < m - 1 implies 0 <= #[trigger] g(i) < n - 1 by {
            assert(f(i) != f(m - 1));
        }
        assert forall|i: int, j: int| 0 <= i < j < m - 1 implies #[trigger] g(i) != #[trigger] g(j) by {
            assert(f(i) != f(m - 1));
            assert(f(j) != f(m - 1));
        }
        assert(0 <= f(0) < n);
        lemma_pigeonhole(g, m - 1, n - 1);
    }
}

/// A permutation of `n` positions reaches every position.
pub proof fn lemma_permutation_onto(p: Seq<int>, n: nat, v: int)
    requires
        is_permutation(p, n),
        0 <= v < n,
    ensures
        exists|k: int| 0 <= k < n && #[trigger] p[k] == v,
{
    if !(exists|k: int| 0 <= k < n && #[trigger] p[k] == v) {
        let f = |i: int| if p[i] > v { p[i] - 1 } else { p[i] };
        assert forall|i: int| 0 <= i < n implies 0 <= #[trigger] f(i) < n - 1 by {
            assert(p[i] != v);
        }
        assert forall|i: int, j: int| 0 <= i < j < n implies #[trigger] f(i) != #[trigger] f(j) by {
            assert(p[i] != v);
            assert(p[j] != v);
        }
        if n > 0 {
            assert(0 <= f(0) < n - 1);
        }
        lemma_pigeonhole(f, n as int, n - 1);
    }
}

pub open spec fn is_sorted_by<T, O: Order<T>>(ord: &O, s: Seq<T>) -> bool {
    forall|a: int, b: int| 0 <= a < b < s.len() ==> ord.le(s[a], s[b])
}

/// `out` is `inp` sorted under `ord`, with equivalent items in the order
/// in which they came. This pins `out` down.
pub open spec fn is_stable_sort_of<T, O: Order<T>>(ord: &O, out: Seq<T>, inp: Seq<T>) -> bool {
    exists|p: Seq<int>|
        {
            &&& is_permutation(p, inp.len())
            &&& out.len() == inp.len()
            &&& forall|k: int| 0 <= k < out.len() ==> out[k] == inp[#[trigger] p[k]]
            &&& is_sorted_by(ord, out)
            &&& forall|a: int, b: int|
                0 <= a < b < out.len() && ord.le(out[b], out[a]) ==> p[a] < p[b]
        }
}

/// Stable insertion sort.
pub fn stable_sort<T, O: Order<T>>(v: Vec<T>, ord: &O) -> (r: Vec<T>)
    ensures
        is_stable_sort_of(ord, r@, v@),
{
    let ghost orig = v@;
    let n = v.len();
    let mut v = v;
    let ghost mut p: Seq<int> = Seq::new(n as nat, |k: int| k);
    let mut i: usize = 0;
    while i < n
        invariant
            n == orig.len(),
            v@.len() == n,
            i <= n,
            p.len() == n,
            forall|k: int| 0 <= k < n ==> v@[k] == orig[#[trigger] p[k]],
            forall|k: int| i <= k < n ==> #[trigger] p[k] == k,
            forall|k: int| 0 <= k < i ==> 0 <= #[trigger] p[k] < i,
            forall|a: int, b: int| 0 <= a < b < i ==> p[a] != p[b],
            forall|a: int, b: int| 0 <= a < b < i ==> ord.le(v@[a], v@[b]),
            forall|a: int, b: int| 0 <= a < b < i && ord.le(v@[b], v@[a]) ==> p[a] < p[b],
        decreases n - i,
    {
        let ghost old_v = v@;
        let x = v.remove(i);
        let ghost before = v@;
        assert(p[i as int] == i as int);
        assert(x == orig[i as int]);
        let mut j: usize = i;
        while j > 0 && !ord.le_exec(&v[j - 1], &x)
            invariant
                j <= i,
                i < n,
                v@ == before,
                v@.len() == n - 1,
                forall|k: int| j <= k < i ==> !ord.le(#[trigger] v@[k], x),
            decreases j,
        {
            j = j - 1;
        }
        proof {
            assert forall|k: int| 0 <= k < j implies ord.le(#[trigger] v@[k], x) by {
                if k < j - 1 {
                    ord.le_trans(v@[k], v@[j - 1], x);
                }
            }
            assert forall|k: int| j <= k < i implies ord.le(x, #[trigger] v@[k]) by {
                ord.le_total(x, v@[k]);
            }
        }
        v.insert(j, x);
        proof {
            let old_p = p;
            p = old_p.remove(i as int).insert(j as int, i as int);
            assert forall|k: int| 0 <= k < n implies v@[k] == orig[#[trigger] p[k]] by {
                if k < j {
                    assert(v@[k] == old_v[k]);
                    assert(p[k] == old_p[k]);
                } else if k == j {
                } else if k <= i {
                    assert(v@[k] == old_v[k - 1]);
                    assert(p[k] == old_p[k - 1]);
                } else {
                    assert(v@[k] == old_v[k]);
                    assert(p[k] == old_p[k]);
                }
            }
            assert forall|a: int, b: int| 0 <= a < b < i + 1 implies ord.le(v@[a], v@[b]) by {
                if b < j {
                } else if b == j {
                } else if a < j {
                    ord.le_trans(v@[a], x, v@[b]);
                } else if a == j {
                } else {
                }
            }
            assert forall|a: int, b: int|
                0 <= a < b < i + 1 && ord.le(v@[b], v@[a]) implies p[a] < p[b] by {
                if b < j {
                } else if b == j {
                } else if a < j {
                } else if a == j {
                } else {
                }
            }
            assert forall|a: int, b: int| 0 <= a < b < i + 1 implies p[a] != p[b] by {
                if a == j || b == j {
                } else {
                }
            }
        }
        i = i + 1;
    }
    proof {
        assert(is_permutation(p, orig.len()));
    }
    v
}

} // verus!
