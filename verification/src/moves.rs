//! Mutating the group structure: joining cycles, placing stones, and
//! removing captured groups.

use vstd::prelude::*;
use crate::geometry::{north_of, east_of, south_of, west_of, dir_of, north, east, south, west};
use crate::group::{
    stones_wf, links_wf, occupied, in_orbit, is_stone, cycle_members, join_spec, splice,
    lemma_join_orbits, lemma_fresh_stone, lemma_orbit_sym, lemma_orbit_trans, lemma_orbit_same,
};
use crate::zobrist::{xor_all, zobrist_at, zobrist_value, lemma_xor_all_clear};

verus! {

/// The stones left after the group of `v` is captured: every cycle member
/// becomes empty, everything else is untouched.
pub open spec fn zero_orbit(s: Seq<u8>, n: Seq<u16>, v: int) -> Seq<u8> {
    Seq::new(
        s.len(),
        |j: int|
            if in_orbit(n, v, j) {
                0
            } else {
                s[j]
            },
    )
}

/// Removing a whole group keeps the position and the remaining cycles well
/// formed.
pub proof fn lemma_zero_orbit_wf(s: Seq<u8>, n: Seq<u16>, v: int)
    requires
        stones_wf(s),
        links_wf(s, n),
        occupied(s, v),
    ensures
        stones_wf(zero_orbit(s, n, v)),
        links_wf(zero_orbit(s, n, v), n),
        forall|w: int|
            occupied(zero_orbit(s, n, v), w) <==> occupied(s, w) && !in_orbit(n, v, w),
{
    let s2 = zero_orbit(s, n, v);
    assert forall|w: int| occupied(s2, w) <==> occupied(s, w) && !in_orbit(n, v, w) by {
        if 0 <= w < 361 {
            if in_orbit(n, v, w) {
                assert(s2[w] == 0);
            } else {
                assert(s2[w] == s[w]);
            }
        }
    }
    assert(stones_wf(s2)) by {
        assert forall|i: int| 0 <= i < 368 implies (if 0 <= i < 361 {
            s2[i] == 0 || s2[i] == 1 || s2[i] == 2
        } else {
            s2[i] == 0xff
        }) by {
            if in_orbit(n, v, i) {
                if !(0 <= i < 361) {
                    lemma_orbit_sym(s, n, v, i);
                }
            }
        }
    }
    assert forall|w: int|
        occupied(s2, w) implies occupied(s2, (#[trigger] n[w]) as int) && s2[n[w] as int]
        == s2[w] by {
        assert(occupied(s, w) && !in_orbit(n, v, w));
        assert(occupied(s, n[w] as int) && s[n[w] as int] == s[w]);
        if in_orbit(n, v, n[w] as int) {
            assert(iter_one(n, w) == n[w] as int) by {
                assert(crate::group::iter_next(n, w, 0) == w);
            }
            assert(in_orbit(n, w, n[w] as int)) by {
                assert(crate::group::iter_next(n, w, 1) == n[w] as int);
            }
            lemma_orbit_sym(s, n, w, n[w] as int);
            lemma_orbit_trans(s, n, v, n[w] as int, w);
            assert(false);
        }
        assert(s2[n[w] as int] == s[n[w] as int]);
        assert(s2[w] == s[w]);
    }
}

/// One step of the walk, named so a proof can mention it.
pub open spec fn iter_one(n: Seq<u16>, w: int) -> int {
    crate::group::iter_next(n, w, 1)
}

/// Connects the groups of the two vertices into one cycle. A no-op when
/// they already share a cycle; otherwise the two next-pointers are swapped,
/// which splices the cycles.
pub fn join_vertices(
    next_vertex: &mut Vec<u16>,
    index: usize,
    other: usize,
    Ghost(s): Ghost<Seq<u8>>,
)
    requires
        stones_wf(s),
        links_wf(s, old(next_vertex)@),
        occupied(s, index as int),
        occupied(s, other as int),
        s[index as int] == s[other as int],
    ensures
        final(next_vertex)@ == join_spec(old(next_vertex)@, index as int, other as int),
        links_wf(s, final(next_vertex)@),
{
    let ghost n0 = next_vertex@;
    let m = cycle_members(Ghost(s), next_vertex, index);
    let mut k: usize = 0;
    let mut found = false;
    while k < m.len()
        invariant
            k <= m@.len(),
            forall|w: int| in_orbit(n0, index as int, w) <==> exists|k2: int|
                0 <= k2 < m@.len() && m@[k2] == w,
            found <==> exists|k2: int| 0 <= k2 < k && m@[k2] == other as int,
        decreases m@.len() - k,
    {
        if m[k] == other {
            found = true;
            proof {
                assert(0 <= k < k + 1 && m@[k as int] == other as int);
            }
        }
        k += 1;
    }
    proof {
        assert(found <==> in_orbit(n0, index as int, other as int));
    }
    if found {
        return ;
    }
    let index_prev = next_vertex[index];
    let other_prev = next_vertex[other];
    next_vertex.set(other, index_prev);
    next_vertex.set(index, other_prev);
    proof {
        assert(next_vertex@ =~= splice(n0, index as int, other as int));
        lemma_join_orbits(s, n0, index as int, other as int);
    }
}

/// The next-map after a stone of color byte `c` lands on `i`: the new
/// stone is its own cycle, then joined with each same-colored neighbour.
pub open spec fn pnc_next(s0: Seq<u8>, n0: Seq<u16>, c: u8, i: int) -> Seq<u16> {
    let s = s0.update(i, c);
    let n1 = n0.update(i, i as u16);
    let n2 = if s[north_of(i)] == c {
        join_spec(n1, i, north_of(i))
    } else {
        n1
    };
    let n3 = if s[east_of(i)] == c {
        join_spec(n2, i, east_of(i))
    } else {
        n2
    };
    let n4 = if s[south_of(i)] == c {
        join_spec(n3, i, south_of(i))
    } else {
        n3
    };
    if s[west_of(i)] == c {
        join_spec(n4, i, west_of(i))
    } else {
        n4
    }
}

/// A placement without captures keeps the position and links well formed.
pub proof fn lemma_pnc_wf(s0: Seq<u8>, n0: Seq<u16>, c: u8, i: int)
    requires
        stones_wf(s0),
        links_wf(s0, n0),
        0 <= i < 361,
        s0[i] == 0,
        is_stone(c),
    ensures
        stones_wf(s0.update(i, c)),
        links_wf(s0.update(i, c), pnc_next(s0, n0, c, i)),
{
    let s = s0.update(i, c);
    let n1 = n0.update(i, i as u16);
    lemma_fresh_stone(s0, n0, c, i);
    let n2 = if s[north_of(i)] == c {
        join_spec(n1, i, north_of(i))
    } else {
        n1
    };
    if s[north_of(i)] == c {
        assert(north_of(i) != i);
        lemma_join_spec_wf(s, n1, i, north_of(i));
    }
    let n3 = if s[east_of(i)] == c {
        join_spec(n2, i, east_of(i))
    } else {
        n2
    };
    if s[east_of(i)] == c {
        assert(east_of(i) != i);
        lemma_join_spec_wf(s, n2, i, east_of(i));
    }
    let n4 = if s[south_of(i)] == c {
        join_spec(n3, i, south_of(i))
    } else {
        n3
    };
    if s[south_of(i)] == c {
        assert(south_of(i) != i);
        lemma_join_spec_wf(s, n3, i, south_of(i));
    }
    if s[west_of(i)] == c {
        assert(west_of(i) != i);
        lemma_join_spec_wf(s, n4, i, west_of(i));
    }
}

/// What one join does to the cycle through `i`: the joined neighbour's
/// cycle is absorbed, and every unabsorbed cycle stays as it was.
pub proof fn lemma_join_into(s1: Seq<u8>, nk: Seq<u16>, i: int, d: int)
    requires
        stones_wf(s1),
        links_wf(s1, nk),
        occupied(s1, i),
        occupied(s1, d),
        s1[d] == s1[i],
    ensures
        links_wf(s1, join_spec(nk, i, d)),
        forall|w: int|
            in_orbit(join_spec(nk, i, d), i, w) <==> in_orbit(nk, i, w) || in_orbit(nk, d, w),
        forall|v: int, w: int|
            occupied(s1, v) && !in_orbit(join_spec(nk, i, d), i, v) ==> (in_orbit(
                join_spec(nk, i, d),
                v,
                w,
            ) <==> #[trigger] in_orbit(nk, v, w)),
{
    let n2 = join_spec(nk, i, d);
    if in_orbit(nk, i, d) {
        assert(n2 == nk);
        lemma_orbit_same(s1, nk, i, d);
        assert forall|w: int|
            in_orbit(n2, i, w) <==> in_orbit(nk, i, w) || in_orbit(nk, d, w) by {
            assert(in_orbit(nk, d, w) ==> in_orbit(nk, i, w));
        }
    } else {
        lemma_join_orbits(s1, nk, i, d);
        assert forall|v: int, w: int|
            occupied(s1, v) && !in_orbit(n2, i, v) implies (in_orbit(n2, v, w)
            <==> #[trigger] in_orbit(nk, v, w)) by {
            assert(!in_orbit(nk, i, v) && !in_orbit(nk, d, v));
        }
    }
}

/// The next-map after the first `k` of the four directional joins.
pub open spec fn pnc_upto(s0: Seq<u8>, n0: Seq<u16>, c: u8, i: int, k: int) -> Seq<u16>
    decreases k,
{
    if k <= 0 {
        n0.update(i, i as u16)
    } else {
        let prev = pnc_upto(s0, n0, c, i, k - 1);
        let e = dir_of(i, k - 1);
        if s0.update(i, c)[e] == c {
            join_spec(prev, i, e)
        } else {
            prev
        }
    }
}

/// The members the stone's cycle has gathered after the first `k` joins:
/// the stone itself and the old cycles of the like-colored neighbours
/// among the first `k` directions.
pub open spec fn pnc_union(s0: Seq<u8>, n0: Seq<u16>, c: u8, i: int, k: int, w: int) -> bool {
    w == i || exists|d: int|
        0 <= d < k && s0[#[trigger] dir_of(i, d)] == c && in_orbit(n0, dir_of(i, d), w)
}

#[verifier::rlimit(100)]
proof fn lemma_pnc_upto(s0: Seq<u8>, n0: Seq<u16>, c: u8, i: int, k: int)
    requires
        stones_wf(s0),
        links_wf(s0, n0),
        0 <= i < 361,
        s0[i] == 0,
        is_stone(c),
        0 <= k <= 4,
    ensures
        links_wf(s0.update(i, c), pnc_upto(s0, n0, c, i, k)),
        forall|w: int|
            in_orbit(pnc_upto(s0, n0, c, i, k), i, w) <==> pnc_union(s0, n0, c, i, k, w),
        forall|v: int, w: int|
            occupied(s0, v) && !in_orbit(pnc_upto(s0, n0, c, i, k), i, v) ==> (in_orbit(
                pnc_upto(s0, n0, c, i, k),
                v,
                w,
            ) <==> #[trigger] in_orbit(n0, v, w)),
    decreases k,
{
    let s = s0.update(i, c);
    assert(forall|x: int| occupied(s0, x) ==> occupied(s, x) && s[x] == s0[x]);
    if k == 0 {
        lemma_fresh_stone(s0, n0, c, i);
        let n1 = pnc_upto(s0, n0, c, i, 0);
        assert(n1 == n0.update(i, i as u16));
        assert forall|w: int| in_orbit(n1, i, w) <==> pnc_union(s0, n0, c, i, 0, w) by {
            assert(in_orbit(n1, i, w) <==> w == i);
        }
    } else {
        lemma_pnc_upto(s0, n0, c, i, k - 1);
        let prev = pnc_upto(s0, n0, c, i, k - 1);
        let cur = pnc_upto(s0, n0, c, i, k);
        let e = dir_of(i, k - 1);
        assert(e != i);
        if s[e] == c {
            assert(cur == join_spec(prev, i, e));
            assert(s0[e] == c && occupied(s0, e) && occupied(s, e) && s[e] == s[i]);
            assert(occupied(s, i));
            lemma_join_into(s, prev, i, e);
            assert forall|w: int|
                in_orbit(cur, i, w) <==> pnc_union(s0, n0, c, i, k, w) by {
                assert(in_orbit(cur, i, w) <==> in_orbit(prev, i, w) || in_orbit(prev, e, w));
                assert(in_orbit(prev, i, w) <==> pnc_union(s0, n0, c, i, k - 1, w));
                if in_orbit(prev, i, e) {
                    assert(pnc_union(s0, n0, c, i, k - 1, e));
                    let dd = choose|dd: int|
                        0 <= dd < k - 1 && s0[#[trigger] dir_of(i, dd)] == c && in_orbit(
                            n0,
                            dir_of(i, dd),
                            e,
                        );
                    lemma_orbit_same(s0, n0, dir_of(i, dd), e);
                    lemma_orbit_same(s, prev, i, e);
                    assert(in_orbit(prev, e, w) <==> in_orbit(prev, i, w));
                    if pnc_union(s0, n0, c, i, k, w) && w != i {
                        let d2 = choose|d2: int|
                            0 <= d2 < k && s0[#[trigger] dir_of(i, d2)] == c && in_orbit(
                                n0,
                                dir_of(i, d2),
                                w,
                            );
                        if d2 == k - 1 {
                            assert(in_orbit(n0, e, w));
                            assert(in_orbit(n0, dir_of(i, dd), w));
                            assert(pnc_union(s0, n0, c, i, k - 1, w));
                        } else {
                            assert(pnc_union(s0, n0, c, i, k - 1, w));
                        }
                    }
                    if pnc_union(s0, n0, c, i, k - 1, w) && w != i {
                        let d3 = choose|d3: int|
                            0 <= d3 < k - 1 && s0[#[trigger] dir_of(i, d3)] == c && in_orbit(
                                n0,
                                dir_of(i, d3),
                                w,
                            );
                        assert(0 <= d3 < k);
                        assert(pnc_union(s0, n0, c, i, k, w));
                    }
                } else {
                    assert(in_orbit(prev, e, w) <==> in_orbit(n0, e, w));
                    if pnc_union(s0, n0, c, i, k, w) && w != i {
                        let d2 = choose|d2: int|
                            0 <= d2 < k && s0[#[trigger] dir_of(i, d2)] == c && in_orbit(
                                n0,
                                dir_of(i, d2),
                                w,
                            );
                        if d2 == k - 1 {
                            assert(in_orbit(n0, e, w));
                        } else {
                            assert(pnc_union(s0, n0, c, i, k - 1, w));
                        }
                    }
                    if pnc_union(s0, n0, c, i, k - 1, w) && w != i {
                        let d3 = choose|d3: int|
                            0 <= d3 < k - 1 && s0[#[trigger] dir_of(i, d3)] == c && in_orbit(
                                n0,
                                dir_of(i, d3),
                                w,
                            );
                        assert(0 <= d3 < k);
                        assert(pnc_union(s0, n0, c, i, k, w));
                    }
                    if in_orbit(n0, e, w) {
                        assert(0 <= k - 1 < k && s0[dir_of(i, k - 1)] == c && in_orbit(
                            n0,
                            dir_of(i, k - 1),
                            w,
                        ));
                        assert(pnc_union(s0, n0, c, i, k, w));
                    }
                }
            }
            assert forall|v: int, w: int|
                occupied(s0, v) && !in_orbit(cur, i, v) implies (in_orbit(cur, v, w)
                <==> #[trigger] in_orbit(n0, v, w)) by {
                assert(!in_orbit(prev, i, v));
                assert(occupied(s, v));
                assert(in_orbit(cur, v, w) <==> in_orbit(prev, v, w));
            }
        } else {
            assert(cur == prev);
            assert(s0[e] != c);
            assert forall|w: int|
                in_orbit(cur, i, w) <==> pnc_union(s0, n0, c, i, k, w) by {
                assert(in_orbit(prev, i, w) <==> pnc_union(s0, n0, c, i, k - 1, w));
                if pnc_union(s0, n0, c, i, k, w) && w != i {
                    let d2 = choose|d2: int|
                        0 <= d2 < k && s0[#[trigger] dir_of(i, d2)] == c && in_orbit(
                            n0,
                            dir_of(i, d2),
                            w,
                        );
                    assert(d2 != k - 1);
                    assert(pnc_union(s0, n0, c, i, k - 1, w));
                }
                if pnc_union(s0, n0, c, i, k - 1, w) && w != i {
                    let d3 = choose|d3: int|
                        0 <= d3 < k - 1 && s0[#[trigger] dir_of(i, d3)] == c && in_orbit(
                            n0,
                            dir_of(i, d3),
                            w,
                        );
                    assert(0 <= d3 < k);
                    assert(pnc_union(s0, n0, c, i, k, w));
                }
            }
        }
    }
}

/// The stones the merged cycle of a new stone gathers: the stone itself
/// and every old cycle of a like-colored cardinal neighbour.
pub open spec fn merged_members(s0: Seq<u8>, n0: Seq<u16>, c: u8, i: int, w: int) -> bool {
    ||| w == i
    ||| (s0[north_of(i)] == c && in_orbit(n0, north_of(i), w))
    ||| (s0[east_of(i)] == c && in_orbit(n0, east_of(i), w))
    ||| (s0[south_of(i)] == c && in_orbit(n0, south_of(i), w))
    ||| (s0[west_of(i)] == c && in_orbit(n0, west_of(i), w))
}

/// What joining a new stone with its like-colored neighbours does to the
/// cycles: the stone's cycle becomes itself together with the cycles of
/// those neighbours, and every other stone keeps its old cycle.
#[verifier::rlimit(100)]
pub proof fn lemma_pnc_orbits(s0: Seq<u8>, n0: Seq<u16>, c: u8, i: int)
    requires
        stones_wf(s0),
        links_wf(s0, n0),
        0 <= i < 361,
        s0[i] == 0,
        is_stone(c),
    ensures
        forall|w: int|
            #[trigger] in_orbit(pnc_next(s0, n0, c, i), i, w) <==> merged_members(
                s0,
                n0,
                c,
                i,
                w,
            ),
        forall|v: int, w: int|
            occupied(s0, v) && !in_orbit(pnc_next(s0, n0, c, i), i, v) ==> (in_orbit(
                pnc_next(s0, n0, c, i),
                v,
                w,
            ) <==> #[trigger] in_orbit(n0, v, w)),
{
    lemma_pnc_upto(s0, n0, c, i, 4);
    assert(pnc_upto(s0, n0, c, i, 4) == pnc_next(s0, n0, c, i)) by {
        let s = s0.update(i, c);
        let u0 = pnc_upto(s0, n0, c, i, 0);
        let u1 = pnc_upto(s0, n0, c, i, 1);
        let u2 = pnc_upto(s0, n0, c, i, 2);
        let u3 = pnc_upto(s0, n0, c, i, 3);
        let u4 = pnc_upto(s0, n0, c, i, 4);
        assert(u0 == n0.update(i, i as u16));
        assert(dir_of(i, 0) == north_of(i));
        assert(dir_of(i, 1) == east_of(i));
        assert(dir_of(i, 2) == south_of(i));
        assert(dir_of(i, 3) == west_of(i));
        assert(u1 == (if s[north_of(i)] == c {
            join_spec(u0, i, north_of(i))
        } else {
            u0
        }));
        assert(u2 == (if s[east_of(i)] == c {
            join_spec(u1, i, east_of(i))
        } else {
            u1
        }));
        assert(u3 == (if s[south_of(i)] == c {
            join_spec(u2, i, south_of(i))
        } else {
            u2
        }));
        assert(u4 == (if s[west_of(i)] == c {
            join_spec(u3, i, west_of(i))
        } else {
            u3
        }));
    }
    assert forall|w: int|
        #[trigger] in_orbit(pnc_next(s0, n0, c, i), i, w) <==> merged_members(
        s0,
        n0,
        c,
        i,
        w,
    ) by {
        assert(in_orbit(pnc_next(s0, n0, c, i), i, w) <==> pnc_union(s0, n0, c, i, 4, w));
        if pnc_union(s0, n0, c, i, 4, w) && w != i {
            let d2 = choose|d2: int|
                0 <= d2 < 4 && s0[#[trigger] dir_of(i, d2)] == c && in_orbit(n0, dir_of(i, d2), w);
            assert(d2 == 0 || d2 == 1 || d2 == 2 || d2 == 3);
        }
        if s0[north_of(i)] == c && in_orbit(n0, north_of(i), w) {
            assert(s0[dir_of(i, 0)] == c && in_orbit(n0, dir_of(i, 0), w));
        }
        if s0[east_of(i)] == c && in_orbit(n0, east_of(i), w) {
            assert(s0[dir_of(i, 1)] == c && in_orbit(n0, dir_of(i, 1), w));
        }
        if s0[south_of(i)] == c && in_orbit(n0, south_of(i), w) {
            assert(s0[dir_of(i, 2)] == c && in_orbit(n0, dir_of(i, 2), w));
        }
        if s0[west_of(i)] == c && in_orbit(n0, west_of(i), w) {
            assert(s0[dir_of(i, 3)] == c && in_orbit(n0, dir_of(i, 3), w));
        }
    }
    assert forall|v: int, w: int|
        occupied(s0, v) && !in_orbit(pnc_next(s0, n0, c, i), i, v) implies (in_orbit(
        pnc_next(s0, n0, c, i),
        v,
        w,
    ) <==> #[trigger] in_orbit(n0, v, w)) by {
        assert(!in_orbit(pnc_upto(s0, n0, c, i, 4), i, v));
        assert(in_orbit(pnc_upto(s0, n0, c, i, 4), v, w) <==> in_orbit(n0, v, w));
    }
}

/// Joining an occupied vertex with any same-colored occupied vertex keeps
/// the links well formed.
pub proof fn lemma_join_spec_wf(s: Seq<u8>, n: Seq<u16>, a: int, b: int)
    requires
        stones_wf(s),
        links_wf(s, n),
        occupied(s, a),
        occupied(s, b),
        s[a] == s[b],
    ensures
        links_wf(s, join_spec(n, a, b)),
{
    if !in_orbit(n, a, b) {
        lemma_join_orbits(s, n, a, b);
    }
}

/// Place the given stone on the board without checking whether that is
/// legal and without capturing anything: the stone becomes a one-stone
/// cycle, then merges with every neighbouring group of its color.
pub fn place_no_capture(
    vertices: &mut Vec<u8>,
    next_vertex: &mut Vec<u16>,
    color_byte: u8,
    index: usize,
)
    requires
        stones_wf(old(vertices)@),
        links_wf(old(vertices)@, old(next_vertex)@),
        index < 361,
        old(vertices)@[index as int] == 0,
        is_stone(color_byte),
    ensures
        final(vertices)@ == old(vertices)@.update(index as int, color_byte),
        final(next_vertex)@ == pnc_next(old(vertices)@, old(next_vertex)@, color_byte, index as int),
        stones_wf(final(vertices)@),
        links_wf(final(vertices)@, final(next_vertex)@),
{
    let ghost s0 = vertices@;
    let ghost n0 = next_vertex@;
    vertices.set(index, color_byte);
    next_vertex.set(index, index as u16);
    let ghost s = vertices@;
    proof {
        lemma_fresh_stone(s0, n0, color_byte, index as int);
        assert(s =~= s0.update(index as int, color_byte));
        assert(next_vertex@ =~= n0.update(index as int, index as u16));
    }
    let nb_n = north(index);
    if vertices[nb_n] == color_byte {
        proof {
            lemma_join_spec_wf(s, next_vertex@, index as int, nb_n as int);
        }
        join_vertices(next_vertex, index, nb_n, Ghost(s));
    }
    let nb_e = east(index);
    if vertices[nb_e] == color_byte {
        proof {
            lemma_join_spec_wf(s, next_vertex@, index as int, nb_e as int);
        }
        join_vertices(next_vertex, index, nb_e, Ghost(s));
    }
    let nb_s = south(index);
    if vertices[nb_s] == color_byte {
        proof {
            lemma_join_spec_wf(s, next_vertex@, index as int, nb_s as int);
        }
        join_vertices(next_vertex, index, nb_s, Ghost(s));
    }
    let nb_w = west(index);
    if vertices[nb_w] == color_byte {
        proof {
            lemma_join_spec_wf(s, next_vertex@, index as int, nb_w as int);
        }
        join_vertices(next_vertex, index, nb_w, Ghost(s));
    }
}

/// Removes the group of `index` from the board and XORs every removed
/// stone's Zobrist constant out of the hash.
pub fn capture(vertices: &mut Vec<u8>, next_vertex: &Vec<u16>, hash: &mut u64, index: usize)
    requires
        stones_wf(old(vertices)@),
        links_wf(old(vertices)@, next_vertex@),
        occupied(old(vertices)@, index as int),
        *old(hash) == xor_all(old(vertices)@),
    ensures
        final(vertices)@ == zero_orbit(old(vertices)@, next_vertex@, index as int),
        *final(hash) == xor_all(final(vertices)@),
        stones_wf(final(vertices)@),
        links_wf(final(vertices)@, next_vertex@),
{
    let ghost s0 = vertices@;
    let ghost n = next_vertex@;
    let m = cycle_members(Ghost(vertices@), next_vertex, index);
    let color = vertices[index];
    let mut k: usize = 0;
    while k < m.len()
        invariant
            stones_wf(s0),
            links_wf(s0, n),
            occupied(s0, index as int),
            n == next_vertex@,
            color == s0[index as int],
            is_stone(color),
            k <= m@.len(),
            m@.no_duplicates(),
            forall|k2: int|
                0 <= k2 < m@.len() ==> occupied(s0, #[trigger] m@[k2] as int) && s0[m@[k2] as int]
                    == color,
            forall|w: int| in_orbit(n, index as int, w) <==> exists|k2: int|
                0 <= k2 < m@.len() && m@[k2] == w,
            vertices@.len() == 368,
            forall|j: int|
                0 <= j < 368 ==> vertices@[j] == (if exists|k2: int|
                    0 <= k2 < k && m@[k2] == j {
                    0u8
                } else {
                    s0[j]
                }),
            *hash == xor_all(vertices@),
        decreases m@.len() - k,
    {
        let w = m[k];
        let ghost s_cur = vertices@;
        proof {
            assert(forall|k2: int| 0 <= k2 < k ==> m@[k2] != m@[k as int]);
            assert(s_cur[w as int] == s0[w as int] == color);
            lemma_xor_all_clear(s_cur, w as int);
        }
        vertices.set(w, 0);
        let z = zobrist_value(color, w);
        *hash = *hash ^ z;
        proof {
            assert(vertices@ =~= s_cur.update(w as int, 0));
            assert forall|j: int|
                0 <= j < 368 implies vertices@[j] == (if exists|k2: int|
                0 <= k2 < k + 1 && m@[k2] == j {
                0u8
            } else {
                s0[j]
            }) by {
                if j == w as int {
                    assert(0 <= k < k + 1 && m@[k as int] == j);
                } else {
                    assert(forall|k2: int| 0 <= k2 < k + 1 && m@[k2] == j ==> k2 < k);
                }
            }
        }
        k += 1;
    }
    proof {
        assert(vertices@ =~= zero_orbit(s0, n, index as int));
        lemma_zero_orbit_wf(s0, n, index as int);
    }
}

/// Removes the group of `index` from a copied vertex array, using the
/// group structure of the (ghost) walk position.
pub fn capture_other(
    vertices: &mut Vec<u8>,
    next_vertex: &Vec<u16>,
    Ghost(walk): Ghost<Seq<u8>>,
    index: usize,
)
    requires
        stones_wf(walk),
        links_wf(walk, next_vertex@),
        occupied(walk, index as int),
        old(vertices)@.len() == 368,
    ensures
        final(vertices)@ == zero_orbit(old(vertices)@, next_vertex@, index as int),
{
    let ghost s0 = vertices@;
    let ghost n = next_vertex@;
    let m = cycle_members(Ghost(walk), next_vertex, index);
    let mut k: usize = 0;
    while k < m.len()
        invariant
            n == next_vertex@,
            k <= m@.len(),
            forall|k2: int| 0 <= k2 < m@.len() ==> 0 <= #[trigger] m@[k2] < 361,
            forall|w: int| in_orbit(n, index as int, w) <==> exists|k2: int|
                0 <= k2 < m@.len() && m@[k2] == w,
            vertices@.len() == 368,
            forall|j: int|
                0 <= j < 368 ==> vertices@[j] == (if exists|k2: int|
                    0 <= k2 < k && m@[k2] == j {
                    0u8
                } else {
                    s0[j]
                }),
        decreases m@.len() - k,
    {
        let w = m[k];
        let ghost s_cur = vertices@;
        vertices.set(w, 0);
        proof {
            assert forall|j: int|
                0 <= j < 368 implies vertices@[j] == (if exists|k2: int|
                0 <= k2 < k + 1 && m@[k2] == j {
                0u8
            } else {
                s0[j]
            }) by {
                if j == w as int {
                    assert(0 <= k < k + 1 && m@[k as int] == j);
                } else {
                    assert(vertices@[j] == s_cur[j]);
                    assert(forall|k2: int| 0 <= k2 < k + 1 && m@[k2] == j ==> k2 < k);
                }
            }
        }
        k += 1;
    }
    proof {
        assert(vertices@ =~= zero_orbit(s0, n, index as int));
    }
}

/// The Zobrist adjustment that capturing the group of `index` would make:
/// the XOR distance between the position's hash and the hash with that
/// group removed.
pub fn capture_if(vertices: &Vec<u8>, next_vertex: &Vec<u16>, color_byte: u8, index: usize) -> (r:
    u64)
    requires
        stones_wf(vertices@),
        links_wf(vertices@, next_vertex@),
        occupied(vertices@, index as int),
        vertices@[index as int] == color_byte,
    ensures
        r == xor_all(vertices@) ^ xor_all(zero_orbit(vertices@, next_vertex@, index as int)),
{
    let ghost s0 = vertices@;
    let ghost n = next_vertex@;
    let m = cycle_members(Ghost(vertices@), next_vertex, index);
    let mut adjustment: u64 = 0;
    let ghost partial0 = Seq::new(
        368,
        |j: int|
            if exists|k2: int| 0 <= k2 < 0 && m@[k2] == j {
                0u8
            } else {
                s0[j]
            },
    );
    proof {
        assert(partial0 =~= s0);
        crate::zobrist::lemma_xor_zero(xor_all(s0));
    }
    let mut k: usize = 0;
    while k < m.len()
        invariant
            stones_wf(s0),
            links_wf(s0, n),
            occupied(s0, index as int),
            s0 == vertices@,
            n == next_vertex@,
            color_byte == s0[index as int],
            is_stone(color_byte),
            k <= m@.len(),
            m@.no_duplicates(),
            forall|k2: int|
                0 <= k2 < m@.len() ==> occupied(s0, #[trigger] m@[k2] as int) && s0[m@[k2] as int]
                    == color_byte,
            forall|w: int| in_orbit(n, index as int, w) <==> exists|k2: int|
                0 <= k2 < m@.len() && m@[k2] == w,
            xor_all(s0) ^ adjustment == xor_all(
                Seq::new(
                    368,
                    |j: int|
                        if exists|k2: int| 0 <= k2 < k && m@[k2] == j {
                            0u8
                        } else {
                            s0[j]
                        },
                ),
            ),
        decreases m@.len() - k,
    {
        let ghost partial = Seq::new(
            368,
            |j: int|
                if exists|k2: int| 0 <= k2 < k && m@[k2] == j {
                    0u8
                } else {
                    s0[j]
                },
        );
        let ghost partial_next = Seq::new(
            368,
            |j: int|
                if exists|k2: int| 0 <= k2 < k + 1 && m@[k2] == j {
                    0u8
                } else {
                    s0[j]
                },
        );
        let w = m[k];
        proof {
            assert(forall|k2: int| 0 <= k2 < k ==> m@[k2] != m@[k as int]);
            assert(partial[w as int] == s0[w as int] == color_byte);
            assert(partial.len() == 368);
            lemma_xor_all_clear(partial, w as int);
            assert(partial_next =~= partial.update(w as int, 0)) by {
                assert forall|j: int| 0 <= j < 368 implies partial_next[j] == partial.update(
                    w as int,
                    0,
                )[j] by {
                    if j == w as int {
                        assert(0 <= k < k + 1 && m@[k as int] == j);
                    } else {
                        assert(forall|k2: int| 0 <= k2 < k + 1 && m@[k2] == j ==> k2 < k);
                    }
                }
            }
            crate::zobrist::lemma_xor_assoc(
                xor_all(s0),
                adjustment,
                zobrist_at(color_byte as int, w as int),
            );
        }
        let z = zobrist_value(color_byte, w);
        adjustment = adjustment ^ z;
        k += 1;
    }
    proof {
        let final_partial = Seq::new(
            368,
            |j: int|
                if exists|k2: int| 0 <= k2 < m@.len() && m@[k2] == j {
                    0u8
                } else {
                    s0[j]
                },
        );
        assert(final_partial =~= zero_orbit(s0, n, index as int));
        crate::zobrist::lemma_xor_cancel(xor_all(s0), adjustment);
    }
    adjustment
}

} // verus!
