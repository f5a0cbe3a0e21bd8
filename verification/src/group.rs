//! The intrusive cyclic group structure.
//!
//! Every stone group is threaded through the `next_vertex` array: the
//! next-pointers of the N stones of a group form exactly one cycle. The
//! well-formedness invariant kept here is that `next_vertex`, restricted to
//! occupied vertices, is a color-preserving injection, which makes it a
//! permutation of the occupied vertices; every stone therefore lies on a
//! cycle of at most 361 same-colored stones.

use vstd::prelude::*;
use vstd::set_lib::{set_int_range, lemma_int_range, lemma_len_subset};

verus! {

pub open spec fn is_stone(b: u8) -> bool {
    b == 1 || b == 2
}

pub open spec fn occupied(s: Seq<u8>, v: int) -> bool {
    0 <= v < 361 && is_stone(s[v])
}

/// The vertex array holds colors on the board and the off-board marker on
/// the seven sentinel cells.
pub open spec fn stones_wf(s: Seq<u8>) -> bool {
    &&& s.len() == 368
    &&& forall|i: int| 0 <= i < 361 ==> s[i] == 0 || s[i] == 1 || s[i] == 2
    &&& forall|i: int| 361 <= i < 368 ==> s[i] == 0xff
}

/// `next_vertex` restricted to occupied vertices is an injective,
/// color-preserving self-map: a permutation whose cycles are the groups.
pub open spec fn links_wf(s: Seq<u8>, n: Seq<u16>) -> bool {
    &&& n.len() == 361
    &&& forall|v: int|
        occupied(s, v) ==> occupied(s, (#[trigger] n[v]) as int) && s[n[v] as int] == s[v]
    &&& forall|v: int, w: int|
        occupied(s, v) && occupied(s, w) && #[trigger] n[v] == #[trigger] n[w] ==> v == w
}

/// The vertex reached from `v` after `k` steps along `next_vertex`.
pub open spec fn iter_next(n: Seq<u16>, v: int, k: nat) -> int
    decreases k,
{
    if k == 0 {
        v
    } else {
        n[iter_next(n, v, (k - 1) as nat)] as int
    }
}

/// `w` lies on the cycle through `v`.
pub open spec fn in_orbit(n: Seq<u16>, v: int, w: int) -> bool {
    exists|k: nat| k < 361 && iter_next(n, v, k) == w
}

/// `p` is the first positive step count at which the walk from `v` returns.
pub open spec fn is_first_return(n: Seq<u16>, v: int, p: nat) -> bool {
    &&& 1 <= p
    &&& iter_next(n, v, p) == v
    &&& forall|j: nat| 1 <= j < p ==> iter_next(n, v, j) != v
}

/// The length of the cycle through `v`.
pub open spec fn orbit_period(n: Seq<u16>, v: int) -> nat {
    choose|p: nat| is_first_return(n, v, p)
}

/// Walking stays on the board, on occupied vertices of the starting color.
pub proof fn lemma_iter_in_orbit(s: Seq<u8>, n: Seq<u16>, v: int, k: nat)
    requires
        stones_wf(s),
        links_wf(s, n),
        occupied(s, v),
    ensures
        occupied(s, iter_next(n, v, k)),
        s[iter_next(n, v, k)] == s[v],
    decreases k,
{
    if k > 0 {
        lemma_iter_in_orbit(s, n, v, (k - 1) as nat);
    }
}

/// Walking `a + b` steps is walking `a` steps, then `b` more.
pub proof fn lemma_iter_add(n: Seq<u16>, v: int, a: nat, b: nat)
    ensures
        iter_next(n, v, a + b) == iter_next(n, iter_next(n, v, a), b),
    decreases b,
{
    if b > 0 {
        lemma_iter_add(n, v, a, (b - 1) as nat);
    }
}

/// Injectivity lets equal walk positions be cancelled from the front.
pub proof fn lemma_iter_cancel(s: Seq<u8>, n: Seq<u16>, v: int, k1: nat, k2: nat)
    requires
        stones_wf(s),
        links_wf(s, n),
        occupied(s, v),
        k1 <= k2,
        iter_next(n, v, k1) == iter_next(n, v, k2),
    ensures
        v == iter_next(n, v, (k2 - k1) as nat),
    decreases k1,
{
    if k1 > 0 {
        lemma_iter_in_orbit(s, n, v, (k1 - 1) as nat);
        lemma_iter_in_orbit(s, n, v, (k2 - 1) as nat);
        assert(iter_next(n, v, k1) == n[iter_next(n, v, (k1 - 1) as nat)] as int);
        assert(iter_next(n, v, k2) == n[iter_next(n, v, (k2 - 1) as nat)] as int);
        lemma_iter_cancel(s, n, v, (k1 - 1) as nat, (k2 - 1) as nat);
    }
}

/// The walk from any stone returns to it within 361 steps.
pub proof fn lemma_orbit_returns(s: Seq<u8>, n: Seq<u16>, v: int)
    requires
        stones_wf(s),
        links_wf(s, n),
        occupied(s, v),
    ensures
        exists|p: nat| 1 <= p <= 361 && iter_next(n, v, p) == v,
{
    let q = Seq::new(362, |k: int| iter_next(n, v, k as nat));
    assert forall|k: int| 0 <= k < 362 implies 0 <= #[trigger] q[k] < 361 by {
        lemma_iter_in_orbit(s, n, v, k as nat);
    }
    if q.no_duplicates() {
        q.unique_seq_to_set();
        let range = set_int_range(0, 361);
        lemma_int_range(0, 361);
        assert(q.to_set().subset_of(range)) by {
            assert forall|x: int| q.to_set().contains(x) implies range.contains(x) by {
                let k = choose|k: int| 0 <= k < q.len() && q[k] == x;
                assert(0 <= q[k] < 361);
            }
        }
        lemma_len_subset(q.to_set(), range);
        assert(false);
    } else {
        let (i, j) = choose|i: int, j: int|
            0 <= i < q.len() && 0 <= j < q.len() && i != j && q[i] == q[j];
        let lo = if i < j {
            i
        } else {
            j
        };
        let hi = if i < j {
            j
        } else {
            i
        };
        assert(q[lo] == q[hi]);
        assert(iter_next(n, v, lo as nat) == iter_next(n, v, hi as nat));
        lemma_iter_cancel(s, n, v, lo as nat, hi as nat);
        let p = (hi - lo) as nat;
        assert(1 <= p <= 361 && iter_next(n, v, p) == v);
    }
}

proof fn lemma_min_return(n: Seq<u16>, v: int, p: nat)
    requires
        1 <= p,
        iter_next(n, v, p) == v,
    ensures
        exists|q: nat| is_first_return(n, v, q) && q <= p,
    decreases p,
{
    if exists|j: nat| 1 <= j < p && iter_next(n, v, j) == v {
        let j = choose|j: nat| 1 <= j < p && iter_next(n, v, j) == v;
        lemma_min_return(n, v, j);
    } else {
        assert(is_first_return(n, v, p));
    }
}

/// The cycle length is well defined, positive, and at most 361.
pub proof fn lemma_period_valid(s: Seq<u8>, n: Seq<u16>, v: int)
    requires
        stones_wf(s),
        links_wf(s, n),
        occupied(s, v),
    ensures
        is_first_return(n, v, orbit_period(n, v)),
        1 <= orbit_period(n, v) <= 361,
{
    lemma_orbit_returns(s, n, v);
    let p0 = choose|p: nat| 1 <= p <= 361 && iter_next(n, v, p) == v;
    lemma_min_return(n, v, p0);
    let q = choose|q: nat| is_first_return(n, v, q) && q <= p0;
    assert(is_first_return(n, v, q));
    let pp = orbit_period(n, v);
    assert(is_first_return(n, v, pp));
    if pp != q {
        if pp < q {
            assert(iter_next(n, v, pp) == v && 1 <= pp < q);
            assert(false);
        } else {
            assert(iter_next(n, v, q) == v && 1 <= q < pp);
            assert(false);
        }
    }
}

/// Walk positions repeat with the cycle length.
pub proof fn lemma_iter_mod(n: Seq<u16>, v: int, p: nat, k: nat)
    requires
        1 <= p,
        iter_next(n, v, p) == v,
    ensures
        iter_next(n, v, k) == iter_next(n, v, ((k as int) % (p as int)) as nat),
    decreases k,
{
    if k >= p {
        lemma_iter_add(n, v, p, (k - p) as nat);
        assert(iter_next(n, v, k) == iter_next(n, v, (k - p) as nat));
        lemma_iter_mod(n, v, p, (k - p) as nat);
        assert((k - p) % (p as int) == (k as int) % (p as int)) by {
            vstd::arithmetic::div_mod::lemma_mod_sub_multiples_vanish(k as int, p as int);
        }
    } else {
        vstd::arithmetic::div_mod::lemma_small_mod(k, p);
    }
}

/// Every walk position is an orbit member.
pub proof fn lemma_in_orbit_iter(s: Seq<u8>, n: Seq<u16>, v: int, k: nat)
    requires
        stones_wf(s),
        links_wf(s, n),
        occupied(s, v),
    ensures
        in_orbit(n, v, iter_next(n, v, k)),
{
    lemma_period_valid(s, n, v);
    let p = orbit_period(n, v);
    lemma_iter_mod(n, v, p, k);
    let r = ((k as int) % (p as int)) as nat;
    assert(r < 361);
    assert(iter_next(n, v, r) == iter_next(n, v, k));
}

/// Orbit membership is symmetric.
pub proof fn lemma_orbit_sym(s: Seq<u8>, n: Seq<u16>, v: int, w: int)
    requires
        stones_wf(s),
        links_wf(s, n),
        occupied(s, v),
        in_orbit(n, v, w),
    ensures
        occupied(s, w),
        in_orbit(n, w, v),
{
    let k = choose|k: nat| k < 361 && iter_next(n, v, k) == w;
    lemma_iter_in_orbit(s, n, v, k);
    lemma_period_valid(s, n, v);
    let p = orbit_period(n, v);
    lemma_iter_mod(n, v, p, k);
    let r = ((k as int) % (p as int)) as nat;
    assert(iter_next(n, v, r) == w);
    assert(r < p);
    lemma_iter_add(n, v, r, (p - r) as nat);
    assert(iter_next(n, w, (p - r) as nat) == iter_next(n, v, p) == v);
    if r == 0 {
        assert(iter_next(n, w, 0) == w == v);
        assert(in_orbit(n, w, v));
    } else {
        assert(((p - r) as nat) < 361);
        assert(in_orbit(n, w, v));
    }
}

/// Orbit membership is transitive.
pub proof fn lemma_orbit_trans(s: Seq<u8>, n: Seq<u16>, v: int, w: int, u: int)
    requires
        stones_wf(s),
        links_wf(s, n),
        occupied(s, v),
        in_orbit(n, v, w),
        in_orbit(n, w, u),
    ensures
        in_orbit(n, v, u),
{
    let k1 = choose|k: nat| k < 361 && iter_next(n, v, k) == w;
    let k2 = choose|k: nat| k < 361 && iter_next(n, w, k) == u;
    lemma_iter_add(n, v, k1, k2);
    assert(iter_next(n, v, (k1 + k2) as nat) == u);
    lemma_in_orbit_iter(s, n, v, (k1 + k2) as nat);
}

/// Orbits are closed under the next-pointer.
pub proof fn lemma_orbit_succ(s: Seq<u8>, n: Seq<u16>, v: int, w: int)
    requires
        stones_wf(s),
        links_wf(s, n),
        occupied(s, v),
        in_orbit(n, v, w),
    ensures
        in_orbit(n, v, n[w] as int),
{
    let k = choose|k: nat| k < 361 && iter_next(n, v, k) == w;
    assert(iter_next(n, v, (k + 1) as nat) == n[w] as int);
    lemma_in_orbit_iter(s, n, v, (k + 1) as nat);
}

/// Two stones on a common cycle share their whole orbit.
pub proof fn lemma_orbit_same(s: Seq<u8>, n: Seq<u16>, v: int, w: int)
    requires
        stones_wf(s),
        links_wf(s, n),
        occupied(s, v),
        in_orbit(n, v, w),
    ensures
        forall|u: int| in_orbit(n, v, u) <==> in_orbit(n, w, u),
{
    lemma_orbit_sym(s, n, v, w);
    assert forall|u: int| in_orbit(n, v, u) implies in_orbit(n, w, u) by {
        lemma_orbit_trans(s, n, w, v, u);
    }
    assert forall|u: int| in_orbit(n, w, u) implies in_orbit(n, v, u) by {
        lemma_orbit_trans(s, n, v, w, u);
    }
}

/// Lists the stones of the group containing `v`, in cycle order. The
/// position `s` is ghost: only the cycle structure is walked.
pub fn cycle_members(Ghost(s): Ghost<Seq<u8>>, n: &Vec<u16>, v: usize) -> (m: Vec<usize>)
    requires
        stones_wf(s),
        links_wf(s, n@),
        occupied(s, v as int),
    ensures
        m@.len() == orbit_period(n@, v as int),
        1 <= m@.len() <= 361,
        forall|k: int| 0 <= k < m@.len() ==> m@[k] == iter_next(n@, v as int, k as nat),
        m@[0] == v,
        m@.no_duplicates(),
        forall|k: int|
            0 <= k < m@.len() ==> occupied(s, #[trigger] m@[k] as int) && s[m@[k] as int]
                == s[v as int],
        forall|w: int| in_orbit(n@, v as int, w) <==> exists|k: int|
            0 <= k < m@.len() && m@[k] == w,
{
    proof {
        lemma_period_valid(s, n@, v as int);
    }
    let ghost p = orbit_period(n@, v as int);
    let mut m: Vec<usize> = Vec::new();
    m.push(v);
    proof {
        lemma_iter_in_orbit(s, n@, v as int, 1);
        assert(iter_next(n@, v as int, 1) == n@[v as int] as int) by {
            assert(iter_next(n@, v as int, 0) == v as int);
        }
    }
    let mut cur: usize = n[v] as usize;
    let ghost k: nat = 1;
    while cur != v
        invariant
            stones_wf(s),
            links_wf(s, n@),
            occupied(s, v as int),
            is_first_return(n@, v as int, p),
            p == orbit_period(n@, v as int),
            p <= 361,
            1 <= k <= p,
            cur == iter_next(n@, v as int, k),
            occupied(s, cur as int),
            m@.len() == k,
            forall|j: int| 0 <= j < k ==> m@[j] == iter_next(n@, v as int, j as nat),
        decreases p - k,
    {
        proof {
            if k == p {
                assert(iter_next(n@, v as int, p) == v as int);
                assert(false);
            }
        }
        m.push(cur);
        proof {
            lemma_iter_in_orbit(s, n@, v as int, (k + 1) as nat);
        }
        cur = n[cur] as usize;
        proof {
            k = (k + 1) as nat;
        }
    }
    proof {
        assert(iter_next(n@, v as int, k) == v as int);
        if k < p {
            assert(false);
        }
        assert(k == p);
        assert(m@.no_duplicates()) by {
            assert forall|i: int, j: int|
                0 <= i < m@.len() && 0 <= j < m@.len() && i != j implies m@[i] != m@[j] by {
                let lo = if i < j {
                    i
                } else {
                    j
                };
                let hi = if i < j {
                    j
                } else {
                    i
                };
                if m@[lo] == m@[hi] {
                    lemma_iter_cancel(s, n@, v as int, lo as nat, hi as nat);
                    assert(iter_next(n@, v as int, (hi - lo) as nat) == v as int);
                    assert(1 <= hi - lo < p);
                    assert(false);
                }
            }
        }
        assert forall|k2: int| 0 <= k2 < m@.len() implies occupied(
            s,
            #[trigger] m@[k2] as int,
        ) && s[m@[k2] as int] == s[v as int] by {
            lemma_iter_in_orbit(s, n@, v as int, k2 as nat);
        }
        assert forall|w: int| in_orbit(n@, v as int, w) implies exists|k2: int|
            0 <= k2 < m@.len() && m@[k2] == w by {
            let kw = choose|kw: nat| kw < 361 && iter_next(n@, v as int, kw) == w;
            lemma_iter_mod(n@, v as int, p, kw);
            let r = ((kw as int) % (p as int)) as int;
            assert(0 <= r < p);
            assert(m@[r] == w);
        }
        assert forall|w: int|
            (exists|k2: int| 0 <= k2 < m@.len() && m@[k2] == w) implies in_orbit(
            n@,
            v as int,
            w,
        ) by {
            let k2 = choose|k2: int| 0 <= k2 < m@.len() && m@[k2] == w;
            assert(iter_next(n@, v as int, k2 as nat) == w);
            assert((k2 as nat) < 361);
        }
    }
    m
}

/// Walks agree step by step under a next-map that agrees on the orbit.
pub proof fn lemma_iter_agree(s: Seq<u8>, n: Seq<u16>, n2: Seq<u16>, v: int, k: nat)
    requires
        stones_wf(s),
        links_wf(s, n),
        occupied(s, v),
        forall|x: int| in_orbit(n, v, x) ==> n2[x] == n[x],
    ensures
        iter_next(n2, v, k) == iter_next(n, v, k),
    decreases k,
{
    if k > 0 {
        lemma_iter_agree(s, n, n2, v, (k - 1) as nat);
        let u = iter_next(n, v, (k - 1) as nat);
        lemma_in_orbit_iter(s, n, v, (k - 1) as nat);
        assert(n2[u] == n[u]);
    }
}

/// A vertex whose orbit the update does not touch keeps its whole orbit.
pub proof fn lemma_orbit_agree(s: Seq<u8>, n: Seq<u16>, n2: Seq<u16>, v: int)
    requires
        stones_wf(s),
        links_wf(s, n),
        occupied(s, v),
        forall|x: int| in_orbit(n, v, x) ==> n2[x] == n[x],
    ensures
        forall|w: int| in_orbit(n2, v, w) <==> in_orbit(n, v, w),
{
    assert forall|w: int| in_orbit(n2, v, w) <==> in_orbit(n, v, w) by {
        if in_orbit(n2, v, w) {
            let k = choose|k: nat| k < 361 && iter_next(n2, v, k) == w;
            lemma_iter_agree(s, n, n2, v, k);
            assert(iter_next(n, v, k) == w);
        }
        if in_orbit(n, v, w) {
            let k = choose|k: nat| k < 361 && iter_next(n, v, k) == w;
            lemma_iter_agree(s, n, n2, v, k);
            assert(iter_next(n2, v, k) == w);
        }
    }
}

/// Occupied orbits never pass through an empty vertex.
pub proof fn lemma_orbit_avoids(s: Seq<u8>, n: Seq<u16>, v: int, x: int)
    requires
        stones_wf(s),
        links_wf(s, n),
        occupied(s, v),
        !occupied(s, x),
    ensures
        !in_orbit(n, v, x),
{
    if in_orbit(n, v, x) {
        let k = choose|k: nat| k < 361 && iter_next(n, v, k) == x;
        lemma_iter_in_orbit(s, n, v, k);
    }
}

/// Registering a new stone as its own one-element cycle.
pub proof fn lemma_fresh_stone(s: Seq<u8>, n: Seq<u16>, c: u8, i: int)
    requires
        stones_wf(s),
        links_wf(s, n),
        0 <= i < 361,
        s[i] == 0,
        is_stone(c),
    ensures
        ({
            let s1 = s.update(i, c);
            let n1 = n.update(i, i as u16);
            &&& stones_wf(s1)
            &&& links_wf(s1, n1)
            &&& forall|w: int| in_orbit(n1, i, w) <==> w == i
            &&& forall|v: int, w: int|
                occupied(s, v) ==> (in_orbit(n1, v, w) <==> #[trigger] in_orbit(n, v, w))
            &&& forall|v: int| #[trigger] occupied(s, v) ==> !in_orbit(n, v, i)
        }),
{
    let s1 = s.update(i, c);
    let n1 = n.update(i, i as u16);
    assert(stones_wf(s1));
    assert forall|v: int| #[trigger] occupied(s, v) implies !in_orbit(n, v, i) by {
        lemma_orbit_avoids(s, n, v, i);
    }
    assert(links_wf(s1, n1)) by {
        assert forall|v: int| #[trigger] occupied(s1, v) implies occupied(s1, n1[v] as int)
            && s1[n1[v] as int] == s1[v] by {
            if v != i {
                assert(occupied(s, v));
                assert(n1[v] == n[v]);
                assert(occupied(s, n[v] as int));
                assert(n[v] as int != i);
            }
        }
        assert forall|v: int, w: int|
            occupied(s1, v) && occupied(s1, w) && #[trigger] n1[v] == #[trigger] n1[w] implies v
            == w by {
            if v != i && w != i {
                assert(occupied(s, v) && occupied(s, w));
                assert(n[v] == n[w]);
            } else if v == i && w != i {
                assert(occupied(s, w));
                assert(n1[w] == n[w] && occupied(s, n[w] as int));
                assert(n1[v] as int == i);
            } else if v != i && w == i {
                assert(occupied(s, v));
                assert(n1[v] == n[v] && occupied(s, n[v] as int));
                assert(n1[w] as int == i);
            }
        }
    }
    assert forall|w: int| in_orbit(n1, i, w) <==> w == i by {
        if w == i {
            assert(iter_next(n1, i, 0) == i);
            assert(in_orbit(n1, i, i));
        }
        if in_orbit(n1, i, w) {
            let k = choose|k: nat| k < 361 && iter_next(n1, i, k) == w;
            lemma_fresh_stays(n1, i, k);
        }
    }
    assert forall|v: int, w: int| occupied(s, v) implies (in_orbit(n1, v, w)
        <==> #[trigger] in_orbit(n, v, w)) by {
        assert forall|x: int| in_orbit(n, v, x) implies n1[x] == n[x] by {
            lemma_orbit_avoids(s, n, v, i);
            lemma_orbit_sym(s, n, v, x);
            assert(x != i);
            assert(0 <= x < 361);
        }
        lemma_orbit_agree(s, n, n1, v);
    }
}

proof fn lemma_fresh_stays(n1: Seq<u16>, i: int, k: nat)
    requires
        n1[i] as int == i,
        0 <= i,
    ensures
        iter_next(n1, i, k) == i,
    decreases k,
{
    if k > 0 {
        lemma_fresh_stays(n1, i, (k - 1) as nat);
    }
}

/// The spliced next-map after joining the cycles of `a` and `b`.
pub open spec fn splice(n: Seq<u16>, a: int, b: int) -> Seq<u16> {
    n.update(a, n[b]).update(b, n[a])
}

/// What joining two vertices does to the next-map: nothing when they
/// already share a cycle, otherwise a splice that merges the two cycles.
pub open spec fn join_spec(n: Seq<u16>, a: int, b: int) -> Seq<u16> {
    if in_orbit(n, a, b) {
        n
    } else {
        splice(n, a, b)
    }
}

#[verifier::rlimit(100)]
proof fn lemma_join_path(s: Seq<u8>, n: Seq<u16>, a: int, b: int, k: nat)
    requires
        stones_wf(s),
        links_wf(s, n),
        occupied(s, a),
        occupied(s, b),
        s[a] == s[b],
        !in_orbit(n, a, b),
        1 <= k <= orbit_period(n, b) + orbit_period(n, a),
    ensures
        k <= orbit_period(n, b) ==> iter_next(splice(n, a, b), a, k) == iter_next(n, b, k),
        orbit_period(n, b) < k ==> iter_next(splice(n, a, b), a, k) == iter_next(
            n,
            a,
            (k - orbit_period(n, b)) as nat,
        ),
    decreases k,
{
    let n2 = splice(n, a, b);
    let pb = orbit_period(n, b);
    let pa = orbit_period(n, a);
    lemma_period_valid(s, n, a);
    lemma_period_valid(s, n, b);
    assert(iter_next(n, a, 0) == a);
    assert(in_orbit(n, a, a));
    assert(a != b);
    if k == 1 {
        assert(iter_next(n2, a, 0) == a);
        assert(iter_next(n2, a, 1) == n2[a] as int);
        assert(n2[a] == n[b]);
        assert(iter_next(n, b, 0) == b);
        assert(iter_next(n, b, 1) == n[b] as int);
        if pb < 1 {
            assert(false);
        }
    } else {
        lemma_join_path(s, n, a, b, (k - 1) as nat);
        if k <= pb {
            let u = iter_next(n, b, (k - 1) as nat);
            assert(iter_next(n2, a, (k - 1) as nat) == u);
            lemma_in_orbit_iter(s, n, b, (k - 1) as nat);
            lemma_iter_in_orbit(s, n, b, (k - 1) as nat);
            assert(0 <= u < 361);
            assert(u != b) by {
                assert(1 <= k - 1 < pb);
            }
            assert(u != a) by {
                if u == a {
                    lemma_orbit_sym(s, n, b, a);
                }
            }
            assert(n2[u] == n[u]);
            assert(iter_next(n2, a, k) == n2[u] as int);
            assert(iter_next(n, b, k) == n[u] as int);
        } else if k == pb + 1 {
            assert(iter_next(n2, a, (k - 1) as nat) == iter_next(n, b, pb) == b);
            assert(iter_next(n2, a, k) == n2[b] as int);
            assert(n2[b] == n[a]);
            assert(iter_next(n, a, 1) == n[a] as int);
        } else {
            let u = iter_next(n, a, (k - 1 - pb) as nat);
            assert(iter_next(n2, a, (k - 1) as nat) == u);
            lemma_in_orbit_iter(s, n, a, (k - 1 - pb) as nat);
            lemma_iter_in_orbit(s, n, a, (k - 1 - pb) as nat);
            assert(0 <= u < 361);
            assert(u != a) by {
                assert(1 <= k - 1 - pb < pa);
            }
            assert(u != b) by {
                if u == b {
                    assert(in_orbit(n, a, b));
                }
            }
            assert(n2[u] == n[u]);
            assert(iter_next(n2, a, k) == n2[u] as int);
            assert(iter_next(n, a, (k - pb) as nat) == n[u] as int);
        }
    }
}

#[verifier::rlimit(100)]
proof fn lemma_join_covers(s: Seq<u8>, n: Seq<u16>, a: int, b: int, k: nat)
    requires
        stones_wf(s),
        links_wf(s, n),
        occupied(s, a),
        occupied(s, b),
        s[a] == s[b],
        !in_orbit(n, a, b),
    ensures
        in_orbit(n, a, iter_next(splice(n, a, b), a, k)) || in_orbit(
            n,
            b,
            iter_next(splice(n, a, b), a, k),
        ),
    decreases k,
{
    let n2 = splice(n, a, b);
    if k == 0 {
        assert(iter_next(n2, a, 0) == a);
        assert(iter_next(n, a, 0) == a);
        assert(in_orbit(n, a, a));
    } else {
        lemma_join_covers(s, n, a, b, (k - 1) as nat);
        let u = iter_next(n2, a, (k - 1) as nat);
        assert(iter_next(n2, a, k) == n2[u] as int);
        if u == a {
            assert(iter_next(n, b, 0) == b);
            assert(in_orbit(n, b, b));
            lemma_orbit_succ(s, n, b, b);
            assert(n2[a] == n[b]);
        } else if u == b {
            assert(iter_next(n, a, 0) == a);
            assert(in_orbit(n, a, a));
            lemma_orbit_succ(s, n, a, a);
            assert(n2[b] == n[a]);
        } else {
            if in_orbit(n, a, u) {
                lemma_orbit_sym(s, n, a, u);
                assert(0 <= u < 361);
                assert(n2[u] == n[u]);
                lemma_orbit_succ(s, n, a, u);
            } else {
                lemma_orbit_sym(s, n, b, u);
                assert(0 <= u < 361);
                assert(n2[u] == n[u]);
                lemma_orbit_succ(s, n, b, u);
            }
        }
    }
}

/// Splicing two distinct cycles merges them into one and leaves every
/// other cycle alone.
#[verifier::rlimit(100)]
pub proof fn lemma_join_orbits(s: Seq<u8>, n: Seq<u16>, a: int, b: int)
    requires
        stones_wf(s),
        links_wf(s, n),
        occupied(s, a),
        occupied(s, b),
        s[a] == s[b],
        !in_orbit(n, a, b),
    ensures
        links_wf(s, splice(n, a, b)),
        forall|w: int|
            in_orbit(splice(n, a, b), a, w) <==> in_orbit(n, a, w) || in_orbit(n, b, w),
        forall|v: int, w: int|
            occupied(s, v) && !in_orbit(n, a, v) && !in_orbit(n, b, v) ==> (in_orbit(
                splice(n, a, b),
                v,
                w,
            ) <==> #[trigger] in_orbit(n, v, w)),
{
    lemma_splice_wf(s, n, a, b);
    lemma_splice_new_orbit(s, n, a, b);
    lemma_splice_unrelated(s, n, a, b);
}

#[verifier::rlimit(100)]
proof fn lemma_splice_wf(s: Seq<u8>, n: Seq<u16>, a: int, b: int)
    requires
        stones_wf(s),
        links_wf(s, n),
        occupied(s, a),
        occupied(s, b),
        s[a] == s[b],
        !in_orbit(n, a, b),
    ensures
        links_wf(s, splice(n, a, b)),
{
    let n2 = splice(n, a, b);
    assert(iter_next(n, a, 0) == a);
    assert(in_orbit(n, a, a));
    assert(a != b);
    assert forall|v: int| #[trigger] occupied(s, v) implies occupied(s, n2[v] as int)
        && s[n2[v] as int] == s[v] by {
        if v == a {
            assert(n2[a] == n[b]);
        } else if v == b {
            assert(n2[b] == n[a]);
        } else {
            assert(n2[v] == n[v]);
        }
    }
    assert forall|v: int, w: int|
        occupied(s, v) && occupied(s, w) && #[trigger] n2[v] == #[trigger] n2[w] implies v
        == w by {
        if v == a && w == b {
            assert(n[b] == n[a]);
            assert(a == b);
        } else if v == b && w == a {
            assert(n[a] == n[b]);
            assert(a == b);
        } else if v == a && w != a && w != b {
            assert(n[b] == n[w]);
            assert(b == w);
        } else if v == b && w != a && w != b {
            assert(n[a] == n[w]);
            assert(a == w);
        } else if w == a && v != a && v != b {
            assert(n[b] == n[v]);
            assert(b == v);
        } else if w == b && v != a && v != b {
            assert(n[a] == n[v]);
            assert(a == v);
        }
    }
}

#[verifier::rlimit(100)]
proof fn lemma_splice_new_orbit(s: Seq<u8>, n: Seq<u16>, a: int, b: int)
    requires
        stones_wf(s),
        links_wf(s, n),
        occupied(s, a),
        occupied(s, b),
        s[a] == s[b],
        !in_orbit(n, a, b),
    ensures
        forall|w: int|
            in_orbit(splice(n, a, b), a, w) <==> in_orbit(n, a, w) || in_orbit(n, b, w),
{
    let n2 = splice(n, a, b);
    assert forall|w: int|
        in_orbit(n2, a, w) <==> in_orbit(n, a, w) || in_orbit(n, b, w) by {
        if in_orbit(n2, a, w) {
            let k = choose|k: nat| k < 361 && iter_next(n2, a, k) == w;
            lemma_join_covers(s, n, a, b, k);
        }
        if in_orbit(n, a, w) {
            lemma_splice_member_a(s, n, a, b, w);
        }
        if in_orbit(n, b, w) {
            lemma_splice_member_b(s, n, a, b, w);
        }
    }
}

#[verifier::rlimit(100)]
proof fn lemma_splice_member_a(s: Seq<u8>, n: Seq<u16>, a: int, b: int, w: int)
    requires
        stones_wf(s),
        links_wf(s, n),
        occupied(s, a),
        occupied(s, b),
        s[a] == s[b],
        !in_orbit(n, a, b),
        in_orbit(n, a, w),
    ensures
        in_orbit(splice(n, a, b), a, w),
{
    let n2 = splice(n, a, b);
    let pa = orbit_period(n, a);
    let pb = orbit_period(n, b);
    lemma_period_valid(s, n, a);
    lemma_period_valid(s, n, b);
    lemma_splice_wf(s, n, a, b);
    let k = choose|k: nat| k < 361 && iter_next(n, a, k) == w;
    lemma_iter_mod(n, a, pa, k);
    let r = ((k as int) % (pa as int)) as nat;
    assert(iter_next(n, a, r) == w && r < pa);
    if r == 0 {
        assert(w == a);
        assert(iter_next(n2, a, 0) == a);
        assert(in_orbit(n2, a, a));
    } else {
        lemma_join_path(s, n, a, b, (pb + r) as nat);
        assert(iter_next(n2, a, (pb + r) as nat) == w);
        lemma_in_orbit_iter(s, n2, a, (pb + r) as nat);
    }
}

#[verifier::rlimit(100)]
proof fn lemma_splice_member_b(s: Seq<u8>, n: Seq<u16>, a: int, b: int, w: int)
    requires
        stones_wf(s),
        links_wf(s, n),
        occupied(s, a),
        occupied(s, b),
        s[a] == s[b],
        !in_orbit(n, a, b),
        in_orbit(n, b, w),
    ensures
        in_orbit(splice(n, a, b), a, w),
{
    let n2 = splice(n, a, b);
    let pb = orbit_period(n, b);
    lemma_period_valid(s, n, a);
    lemma_period_valid(s, n, b);
    lemma_splice_wf(s, n, a, b);
    let k = choose|k: nat| k < 361 && iter_next(n, b, k) == w;
    lemma_iter_mod(n, b, pb, k);
    let r = ((k as int) % (pb as int)) as nat;
    assert(iter_next(n, b, r) == w && r < pb);
    if r == 0 {
        assert(w == b);
        lemma_join_path(s, n, a, b, pb);
        assert(iter_next(n2, a, pb) == b);
        lemma_in_orbit_iter(s, n2, a, pb);
    } else {
        lemma_join_path(s, n, a, b, r);
        assert(iter_next(n2, a, r) == w);
        lemma_in_orbit_iter(s, n2, a, r);
    }
}

#[verifier::rlimit(100)]
proof fn lemma_splice_unrelated(s: Seq<u8>, n: Seq<u16>, a: int, b: int)
    requires
        stones_wf(s),
        links_wf(s, n),
        occupied(s, a),
        occupied(s, b),
        s[a] == s[b],
        !in_orbit(n, a, b),
    ensures
        forall|v: int, w: int|
            occupied(s, v) && !in_orbit(n, a, v) && !in_orbit(n, b, v) ==> (in_orbit(
                splice(n, a, b),
                v,
                w,
            ) <==> #[trigger] in_orbit(n, v, w)),
{
    let n2 = splice(n, a, b);
    assert forall|v: int, w: int|
        occupied(s, v) && !in_orbit(n, a, v) && !in_orbit(n, b, v) implies (in_orbit(n2, v, w)
        <==> #[trigger] in_orbit(n, v, w)) by {
        assert forall|x: int| in_orbit(n, v, x) implies n2[x] == n[x] by {
            lemma_orbit_sym(s, n, v, x);
            if x == a {
                lemma_orbit_sym(s, n, v, a);
                assert(in_orbit(n, a, v));
                assert(false);
            }
            if x == b {
                lemma_orbit_sym(s, n, v, b);
                assert(in_orbit(n, b, v));
                assert(false);
            }
            assert(0 <= x < 361);
        }
        lemma_orbit_agree(s, n, n2, v);
    }
}

} // verus!
