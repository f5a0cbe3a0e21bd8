//! Territory reachability and Tromp-Taylor area scoring.

use vstd::prelude::*;
use crate::color::{Color, color_byte};
use crate::geometry::{
    north_of, east_of, south_of, west_of, adjacent, north, east, south, west, dir_of,
    lemma_adjacent_sym,
};
use crate::group::stones_wf;
use crate::counting::count_range;
use crate::board::Board;

verus! {

/// A vertex is reached from color byte `c` within `k` expansion steps: it
/// carries a `c` stone, or it is empty and adjacent to a vertex reached in
/// fewer steps.
pub open spec fn reach_n(s: Seq<u8>, c: u8, j: int, k: nat) -> bool
    decreases k,
{
    if k == 0 {
        0 <= j < 361 && s[j] == c
    } else {
        reach_n(s, c, j, (k - 1) as nat) || (0 <= j < 361 && s[j] == 0 && exists|w: int|
            0 <= w < 361 && #[trigger] adjacent(j, w) && reach_n(s, c, w, (k - 1) as nat))
    }
}

/// A vertex is reachable from some stone of color byte `c` through empty
/// vertices.
pub open spec fn reaches(s: Seq<u8>, c: u8, j: int) -> bool {
    exists|k: nat| reach_n(s, c, j, k)
}

/// Reachability within more steps subsumes fewer.
pub proof fn lemma_reach_mono(s: Seq<u8>, c: u8, j: int, k1: nat, k2: nat)
    requires
        k1 <= k2,
        reach_n(s, c, j, k1),
    ensures
        reach_n(s, c, j, k2),
    decreases k2,
{
    if k1 < k2 {
        lemma_reach_mono(s, c, j, k1, (k2 - 1) as nat);
    }
}

/// `k` is the least step count that reaches `j`: the shortest Manhattan
/// distance from a stone of the color through empty vertices.
pub open spec fn is_reach_dist(s: Seq<u8>, c: u8, j: int, k: nat) -> bool {
    reach_n(s, c, j, k) && (k == 0 || !reach_n(s, c, j, (k - 1) as nat))
}

/// The shortest travel distance to `j`, for reachable `j`.
pub open spec fn reach_dist(s: Seq<u8>, c: u8, j: int) -> nat {
    choose|k: nat| is_reach_dist(s, c, j, k)
}

/// A distance value as the board stores it: saturated below the off-board
/// marker.
pub open spec fn capped_dist(k: nat) -> int {
    if k < 254 {
        k as int
    } else {
        254
    }
}

proof fn lemma_min_reach(s: Seq<u8>, c: u8, j: int, k: nat)
    requires
        reach_n(s, c, j, k),
    ensures
        exists|q: nat| is_reach_dist(s, c, j, q) && q <= k,
    decreases k,
{
    if k == 0 {
        assert(is_reach_dist(s, c, j, 0));
    } else if reach_n(s, c, j, (k - 1) as nat) {
        lemma_min_reach(s, c, j, (k - 1) as nat);
    } else {
        assert(is_reach_dist(s, c, j, k));
    }
}

/// A witness of minimality pins the distance down.
pub proof fn lemma_reach_dist_is(s: Seq<u8>, c: u8, j: int, k: nat)
    requires
        is_reach_dist(s, c, j, k),
    ensures
        reach_dist(s, c, j) == k,
        reaches(s, c, j),
{
    let d = reach_dist(s, c, j);
    assert(is_reach_dist(s, c, j, d));
    if d < k {
        lemma_reach_mono(s, c, j, d, (k - 1) as nat);
        assert(false);
    }
    if d > k {
        lemma_reach_mono(s, c, j, k, (d - 1) as nat);
        assert(false);
    }
}

/// Every reachable vertex has a well-defined shortest distance.
pub proof fn lemma_reach_dist_valid(s: Seq<u8>, c: u8, j: int)
    requires
        reaches(s, c, j),
    ensures
        is_reach_dist(s, c, j, reach_dist(s, c, j)),
        reach_n(s, c, j, reach_dist(s, c, j)),
{
    let k = choose|k: nat| reach_n(s, c, j, k);
    lemma_min_reach(s, c, j, k);
    let q = choose|q: nat| is_reach_dist(s, c, j, q) && q <= k;
    lemma_reach_dist_is(s, c, j, q);
}

/// A cell of the scored position counts for black: it holds a black stone,
/// or is no white stone and unreachable from white.
pub open spec fn scores_black(s: Seq<u8>, j: int) -> bool {
    s[j] == 1 || (s[j] != 2 && !reaches(s, 2, j))
}

/// A cell counts for white: not for black, and it holds a white stone or
/// is unreachable from black.
pub open spec fn scores_white(s: Seq<u8>, j: int) -> bool {
    !scores_black(s, j) && (s[j] == 2 || !reaches(s, 1, j))
}

impl Board {
    /// Returns one byte per cell: 0 on the stones of `color`, a positive
    /// travel distance on empty cells reachable from them through empty
    /// vertices, and the off-board marker on unreachable cells and the
    /// sentinels. Distances saturate below the marker.
    #[verifier::loop_isolation(false)]
    pub fn get_territory_distance(&self, color: Color) -> (r: Vec<u8>)
        requires
            self.wf(),
        ensures
            r@.len() == 368,
            forall|j: int| 0 <= j < 361 ==> (r@[j] == 0 <==> self.vertices@[j] == color_byte(color)),
            forall|j: int|
                0 <= j < 361 ==> (r@[j] != 0xff <==> reaches(
                    self.vertices@,
                    color_byte(color),
                    j,
                )),
            forall|j: int|
                0 <= j < 361 && reaches(self.vertices@, color_byte(color), j) ==> r@[j]
                    == capped_dist(reach_dist(self.vertices@, color_byte(color), j)),
            forall|j: int| 361 <= j < 368 ==> r@[j] == 0xff,
    {
        let c = color.byte();
        let ghost s = self.vertices@;
        let mut territory: Vec<u8> = Vec::new();
        let mut i: usize = 0;
        while i < 368
            invariant
                territory@.len() == i,
                i <= 368,
                forall|j: int| 0 <= j < i ==> territory@[j] == 0xff,
            decreases 368 - i,
        {
            territory.push(0xff);
            i += 1;
        }
        let mut queue: Vec<usize> = Vec::new();
        let mut index: usize = 0;
        while index < 361
            invariant
                territory@.len() == 368,
                index <= 361,
                forall|j: int|
                    0 <= j < 368 ==> ((#[trigger] territory@[j]) == 0 <==> (j < index && s[j]
                        == c)),
                forall|j: int|
                    0 <= j < 368 ==> territory@[j] == 0 || (#[trigger] territory@[j]) == 0xff,
                forall|k: int| 0 <= k < queue@.len() ==> 0 <= #[trigger] queue@[k] < 361,
                forall|k: int|
                    0 <= k < queue@.len() ==> territory@[#[trigger] queue@[k] as int] != 0xff,
                forall|j: int| 0 <= j < 368 && territory@[j] != 0xff ==> exists|k: int|
                    0 <= k < queue@.len() && queue@[k] == j,
            decreases 361 - index,
        {
            let ghost t_in = territory@;
            if self.vertices[index] == c {
                let ghost q0 = queue@;
                territory.set(index, 0);
                queue.push(index);
                proof {
                    assert(queue@[q0.len() as int] == index);
                    assert forall|j: int| 0 <= j < 368 && territory@[j] != 0xff implies exists|
                        k: int,
                    | 0 <= k < queue@.len() && queue@[k] == j by {
                        if j == index as int {
                            assert(queue@[q0.len() as int] == j);
                        } else {
                            let k = choose|k: int| 0 <= k < q0.len() && q0[k] == j;
                            assert(queue@[k] == j);
                        }
                    }
                }
            }
            proof {
                assert forall|j: int|
                    0 <= j < 368 implies (territory@[j] == 0 <==> (j < index + 1 && s[j]
                    == c)) by {
                    assert(0 <= j < 368);
                    assert(t_in[j] == 0 <==> (j < index && s[j] == c));
                    if j == index as int {
                        if s[j] == c {
                            assert(territory@[j] == 0);
                        } else {
                            assert(territory@[j] == t_in[j]);
                            assert(territory@[j] != 0);
                        }
                    } else {
                        assert(territory@[j] == t_in[j]);
                    }
                }
            }
            index += 1;
        }
        proof {
            assert forall|j: int|
                0 <= j < 361 && territory@[j] != 0xff implies reaches(s, c, j) && territory@[j]
                == capped_dist(reach_dist(s, c, j)) by {
                assert(reach_n(s, c, j, 0));
                assert(is_reach_dist(s, c, j, 0));
                lemma_reach_dist_is(s, c, j, 0);
            }
            assert forall|k1: int, k2: int|
                0 <= k1 <= k2 < queue@.len() implies territory@[#[trigger] queue@[k1] as int]
                <= territory@[#[trigger] queue@[k2] as int] by {
                assert(territory@[queue@[k1] as int] != 0xff);
                assert(territory@[queue@[k1] as int] == 0);
                assert(territory@[queue@[k2] as int] == 0);
            }
            assert forall|k2: int|
                0 <= k2 < queue@.len() implies territory@[#[trigger] queue@[k2] as int] <= bump(
                territory@[queue@[0] as int] as int,
            ) by {
                assert(territory@[queue@[k2] as int] == 0);
            }
        }
        let mut head: usize = 0;
        while head < queue.len()
            invariant
                territory@.len() == 368,
                head <= queue@.len(),
                forall|j: int| 0 <= j < 361 && s[j] == c ==> territory@[j] != 0xff,
                forall|j: int| 0 <= j < 361 ==> (territory@[j] == 0 <==> s[j] == c),
                forall|j: int| 361 <= j < 368 ==> territory@[j] == 0xff,
                forall|j: int|
                    0 <= j < 361 && territory@[j] != 0xff ==> reaches(s, c, j) && territory@[j]
                        == capped_dist(reach_dist(s, c, j)),
                forall|k: int| 0 <= k < queue@.len() ==> 0 <= #[trigger] queue@[k] < 361,
                forall|k: int|
                    0 <= k < queue@.len() ==> territory@[#[trigger] queue@[k] as int] != 0xff,
                forall|j: int| 0 <= j < 361 && territory@[j] != 0xff ==> exists|k: int|
                    0 <= k < queue@.len() && queue@[k] == j,
                forall|k: int|
                    0 <= k < head ==> processed(s, territory@, queue@[k] as int),
                forall|k1: int, k2: int|
                    0 <= k1 <= k2 < queue@.len() ==> territory@[#[trigger] queue@[k1] as int]
                        <= territory@[#[trigger] queue@[k2] as int],
                forall|k2: int|
                    head <= k2 < queue@.len() ==> territory@[#[trigger] queue@[k2] as int] <= bump(
                        territory@[queue@[head as int] as int] as int,
                    ),
            decreases (361 - count_range(marked_closure(territory@), 361)), queue@.len() - head,
        {
            let ghost t0 = territory@;
            let ghost q0 = queue@;
            let v = queue[head];
            let dist = territory[v];
            let t = if dist >= 254 {
                254
            } else {
                dist + 1
            };
            let mut d: usize = 0;
            while d < 4
                invariant
                    territory@.len() == 368,
                    0 <= (v as int) < 361,
                    d <= 4,
                    1 <= t <= 254,
                    reaches(s, c, v as int),
                    territory@[v as int] != 0xff,
                    forall|j: int| 0 <= j < 361 && s[j] == c ==> territory@[j] != 0xff,
                    forall|j: int| 0 <= j < 361 ==> (territory@[j] == 0 <==> s[j] == c),
                    forall|j: int| 361 <= j < 368 ==> territory@[j] == 0xff,
                    forall|j: int|
                        0 <= j < 361 && territory@[j] != 0xff ==> reaches(s, c, j) && territory@[j]
                            == capped_dist(reach_dist(s, c, j)),
                    forall|k: int| 0 <= k < queue@.len() ==> 0 <= #[trigger] queue@[k] < 361,
                    forall|k: int|
                        0 <= k < queue@.len() ==> territory@[#[trigger] queue@[k] as int] != 0xff,
                    forall|j: int| 0 <= j < 361 && territory@[j] != 0xff ==> exists|k: int|
                        0 <= k < queue@.len() && queue@[k] == j,
                    forall|k: int|
                        0 <= k < head ==> processed(s, territory@, queue@[k] as int),
                    forall|k1: int, k2: int|
                        0 <= k1 <= k2 < queue@.len() ==> territory@[#[trigger] queue@[k1] as int]
                            <= territory@[#[trigger] queue@[k2] as int],
                    forall|k2: int|
                        head <= k2 < queue@.len() ==> territory@[#[trigger] queue@[k2] as int]
                            <= bump(territory@[queue@[head as int] as int] as int),
                    territory@[v as int] == t0[v as int],
                    t as int == bump(territory@[v as int] as int),
                    q0.len() <= queue@.len(),
                    q0 == queue@.subrange(0, q0.len() as int),
                    head < q0.len(),
                    q0[head as int] == v,
                    forall|j: int|
                        0 <= j < 368 && t0[j] != 0xff ==> territory@[j] == t0[j],
                    count_range(marked_closure(t0), 361) <= count_range(
                        marked_closure(territory@),
                        361,
                    ),
                    queue@.len() > q0.len() ==> count_range(marked_closure(t0), 361) < count_range(
                        marked_closure(territory@),
                        361,
                    ),
                    forall|dd: int|
                        0 <= dd < d ==> !(s[dir_of(v as int, dd)] == 0 && territory@[dir_of(
                            v as int,
                            dd,
                        )] == 0xff),
                decreases 4 - d,
            {
                let nb = dir_at(v, d);
                if nb < 361 {
                    if self.vertices[nb] == 0 && territory[nb] == 0xff {
                        let ghost t1 = territory@;
                        let ghost q1 = queue@;
                        territory.set(nb, t);
                        queue.push(nb);
                        proof {
                            lemma_adjacent_sym(v as int, nb as int);
                            let dv = reach_dist(s, c, v as int);
                            lemma_reach_dist_valid(s, c, v as int);
                            assert(reach_n(s, c, nb as int, (dv + 1) as nat)) by {
                                assert(adjacent(nb as int, v as int));
                                assert(reach_n(s, c, v as int, dv));
                            }
                            lemma_min_reach(s, c, nb as int, (dv + 1) as nat);
                            let qd = choose|qd: nat|
                                is_reach_dist(s, c, nb as int, qd) && qd <= dv + 1;
                            lemma_reach_dist_is(s, c, nb as int, qd);
                            let dn = reach_dist(s, c, nb as int);
                            assert(dn <= dv + 1);
                            assert(t1[v as int] == capped_dist(dv));
                            assert(q1[head as int] == v);
                            if (t as int) != capped_dist(dn) {
                                assert(dn < 254 ==> dn <= dv) by {
                                    if dn == dv + 1 {
                                        assert(capped_dist(dn) == t as int);
                                    }
                                }
                                lemma_frontier(s, c, t1, q1, head as int, nb as int, dn);
                                let k2 = choose|k2: int|
                                    head <= k2 < q1.len() && reach_dist(
                                        s,
                                        c,
                                        #[trigger] q1[k2] as int,
                                    ) < dn;
                                let p = q1[k2] as int;
                                assert(t1[p] != 0xff);
                                assert(t1[p] == capped_dist(reach_dist(s, c, p)));
                                assert(t1[q1[head as int] as int] <= t1[q1[k2] as int]);
                                assert(t1[v as int] <= t1[p]);
                                if capped_dist(dv) < 254 {
                                    assert(reach_dist(s, c, p) < dn <= dv);
                                    assert(t1[p] < capped_dist(dv));
                                    assert(false);
                                } else {
                                    assert(t as int == 254);
                                    assert(dn < 254);
                                    assert(reach_dist(s, c, p) < dn < 254);
                                    assert(t1[p] < 254);
                                    assert(t1[v as int] == 254);
                                    assert(false);
                                }
                            }
                            assert(t as int == capped_dist(dn));
                            assert(reaches(s, c, nb as int));
                            assert(queue@[q1.len() as int] == nb);
                            assert forall|j: int|
                                0 <= j < 361 && territory@[j] != 0xff implies exists|k: int|
                                0 <= k < queue@.len() && queue@[k] == j by {
                                if j == nb as int {
                                    assert(queue@[q1.len() as int] == j);
                                } else {
                                    let k = choose|k: int| 0 <= k < q1.len() && q1[k] == j;
                                    assert(queue@[k] == j);
                                }
                            }
                            assert forall|k: int|
                                0 <= k < head implies processed(s, territory@, queue@[k] as int) by {
                                assert(processed(s, t1, q1[k] as int));
                                assert(queue@[k] == q1[k]);
                            }
                            assert forall|j: int|
                                0 <= j < 361 && territory@[j] != 0xff implies reaches(s, c, j)
                                && territory@[j] == capped_dist(reach_dist(s, c, j)) by {
                                if j != nb as int {
                                    assert(territory@[j] == t1[j]);
                                }
                            }
                            assert forall|k1: int, k2: int|
                                0 <= k1 <= k2 < queue@.len() implies territory@[#[trigger] queue@[k1] as int]
                                <= territory@[#[trigger] queue@[k2] as int] by {
                                if k1 < q1.len() {
                                    assert(queue@[k1] == q1[k1]);
                                    assert(t1[q1[k1] as int] != 0xff);
                                    assert(q1[k1] as int != nb as int);
                                    assert(territory@[q1[k1] as int] == t1[q1[k1] as int]);
                                }
                                if k2 < q1.len() {
                                    assert(queue@[k2] == q1[k2]);
                                    assert(q1[k2] as int != nb as int);
                                    assert(territory@[q1[k2] as int] == t1[q1[k2] as int]);
                                } else {
                                    assert(k2 == q1.len());
                                    assert(queue@[k2] == nb);
                                    assert(territory@[nb as int] == t);
                                    if k1 < q1.len() {
                                        if k1 < head {
                                            assert(t1[q1[k1] as int] <= t1[q1[head as int] as int]);
                                        } else {
                                            assert(t1[q1[k1] as int] <= bump(
                                                t1[q1[head as int] as int] as int,
                                            ));
                                        }
                                    }
                                }
                            }
                            assert forall|k2: int|
                                head <= k2 < queue@.len() implies territory@[#[trigger] queue@[k2] as int]
                                <= bump(territory@[queue@[head as int] as int] as int) by {
                                assert(queue@[head as int] == q1[head as int]);
                                assert(q1[head as int] as int != nb as int);
                                assert(territory@[v as int] == t1[v as int]);
                                if k2 < q1.len() {
                                    assert(queue@[k2] == q1[k2]);
                                    assert(q1[k2] as int != nb as int);
                                    assert(territory@[q1[k2] as int] == t1[q1[k2] as int]);
                                } else {
                                    assert(queue@[k2] == nb);
                                    assert(territory@[nb as int] == t);
                                }
                            }
                            crate::counting::lemma_count_range_update(
                                marked_closure(t1),
                                marked_closure(territory@),
                                nb as int,
                                361,
                            );
                        }
                    }
                }
                d += 1;
            }
            head += 1;
            proof {
                assert(processed(s, territory@, v as int)) by {
                    assert forall|j: int|
                        0 <= j < 361 && s[j] == 0 && adjacent(v as int, j) implies territory@[j]
                        != 0xff by {
                        if j == north_of(v as int) {
                            assert(!(s[dir_of(v as int, 0)] == 0 && territory@[dir_of(v as int, 0)]
                                == 0xff));
                        } else if j == east_of(v as int) {
                            assert(!(s[dir_of(v as int, 1)] == 0 && territory@[dir_of(v as int, 1)]
                                == 0xff));
                        } else if j == south_of(v as int) {
                            assert(!(s[dir_of(v as int, 2)] == 0 && territory@[dir_of(v as int, 2)]
                                == 0xff));
                        } else {
                            assert(j == west_of(v as int));
                            assert(!(s[dir_of(v as int, 3)] == 0 && territory@[dir_of(v as int, 3)]
                                == 0xff));
                        }
                    }
                }
                assert forall|k: int|
                    0 <= k < head implies processed(s, territory@, queue@[k] as int) by {
                    if k < head - 1 {
                        assert(processed(s, territory@, queue@[k] as int));
                    } else {
                        assert(k == head - 1);
                        assert(queue@[k] == q0[k]);
                        assert(q0[k] == v);
                        assert(processed(s, territory@, v as int));
                    }
                }
                assert forall|k2: int|
                    head <= k2 < queue@.len() implies territory@[#[trigger] queue@[k2] as int]
                    <= bump(territory@[queue@[head as int] as int] as int) by {
                    assert(0 <= head - 1 <= k2 < queue@.len());
                    assert(territory@[queue@[head - 1] as int] <= territory@[queue@[head as int] as int]);
                    assert(territory@[queue@[k2] as int] <= bump(
                        territory@[queue@[head - 1] as int] as int,
                    ));
                }
                crate::counting::lemma_count_range_bounds(marked_closure(territory@), 361);
            }
        }
        proof {
            assert forall|j: int|
                0 <= j < 361 && reaches(s, c, j) implies territory@[j] != 0xff by {
                let k = choose|k: nat| reach_n(s, c, j, k);
                lemma_bfs_complete(s, c, territory@, queue@, j, k);
            }
        }
        territory
    }
}

/// The `dd`-th cardinal neighbour of `v`, as executable code.
fn dir_at(v: usize, dd: usize) -> (r: usize)
    requires
        v < 361,
        dd < 4,
    ensures
        r == dir_of(v as int, dd as int),
        r <= 361,
{
    if dd == 0 {
        north(v)
    } else if dd == 1 {
        east(v)
    } else if dd == 2 {
        south(v)
    } else {
        west(v)
    }
}

/// Every empty neighbour of a processed vertex has been marked.
pub open spec fn processed(s: Seq<u8>, t: Seq<u8>, v: int) -> bool {
    forall|j: int| 0 <= j < 361 && s[j] == 0 && #[trigger] adjacent(v, j) ==> t[j] != 0xff
}

/// The marking predicate, as a counting measure for termination.
pub open spec fn marked_closure(t: Seq<u8>) -> spec_fn(int) -> bool {
    |j: int| t[j] != 0xff
}

/// A stored distance, one step further out.
pub open spec fn bump(x: int) -> int {
    if x < 254 {
        x + 1
    } else {
        254
    }
}

/// No shortcut past the frontier: while `j` is unmarked, any `k`-step
/// derivation of its reachability passes through some queued, not yet
/// processed vertex whose true distance is below `k`.
proof fn lemma_frontier(s: Seq<u8>, c: u8, t: Seq<u8>, q: Seq<usize>, head: int, j: int, k: nat)
    requires
        t.len() == 368,
        forall|j2: int|
            0 <= j2 < 361 && t[j2] != 0xff ==> reaches(s, c, j2) && t[j2] == capped_dist(
                reach_dist(s, c, j2),
            ),
        forall|j2: int| 0 <= j2 < 361 && s[j2] == c ==> t[j2] != 0xff,
        forall|j2: int| 0 <= j2 < 361 && t[j2] != 0xff ==> exists|k2: int|
            0 <= k2 < q.len() && q[k2] == j2,
        forall|k2: int| 0 <= k2 < q.len() ==> 0 <= #[trigger] q[k2] < 361,
        forall|k2: int| 0 <= k2 < head ==> processed(s, t, #[trigger] q[k2] as int),
        0 <= head <= q.len(),
        0 <= j < 361,
        t[j] == 0xff,
        reach_n(s, c, j, k),
    ensures
        exists|k2: int|
            head <= k2 < q.len() && reach_dist(s, c, #[trigger] q[k2] as int) < k,
    decreases k,
{
    if k == 0 {
        assert(s[j] == c);
        assert(false);
    } else if reach_n(s, c, j, (k - 1) as nat) {
        lemma_frontier(s, c, t, q, head, j, (k - 1) as nat);
        let k2 = choose|k2: int|
            head <= k2 < q.len() && reach_dist(s, c, #[trigger] q[k2] as int) < k - 1;
        assert(head <= k2 < q.len() && reach_dist(s, c, q[k2] as int) < k);
    } else {
        let w = choose|w: int|
            0 <= w < 361 && #[trigger] adjacent(j, w) && reach_n(s, c, w, (k - 1) as nat);
        if t[w] != 0xff {
            let k2 = choose|k2: int| 0 <= k2 < q.len() && q[k2] == w;
            if k2 < head {
                lemma_adjacent_sym(j, w);
                assert(adjacent(w, j));
                assert(processed(s, t, q[k2] as int));
                assert(t[j] != 0xff);
                assert(false);
            }
            lemma_min_reach(s, c, w, (k - 1) as nat);
            let qd = choose|qd: nat| is_reach_dist(s, c, w, qd) && qd <= k - 1;
            lemma_reach_dist_is(s, c, w, qd);
            assert(head <= k2 < q.len() && reach_dist(s, c, q[k2] as int) < k);
        } else {
            lemma_frontier(s, c, t, q, head, w, (k - 1) as nat);
            let k2 = choose|k2: int|
                head <= k2 < q.len() && reach_dist(s, c, #[trigger] q[k2] as int) < k - 1;
            assert(head <= k2 < q.len() && reach_dist(s, c, q[k2] as int) < k);
        }
    }
}

/// When every stone of the color is marked and every marked cell has its
/// empty neighbours marked, everything reachable is marked.
proof fn lemma_bfs_complete(s: Seq<u8>, c: u8, t: Seq<u8>, q: Seq<usize>, j: int, k: nat)
    requires
        forall|j2: int| 0 <= j2 < 361 && s[j2] == c ==> t[j2] != 0xff,
        forall|j2: int| 0 <= j2 < 361 && t[j2] != 0xff ==> exists|k2: int|
            0 <= k2 < q.len() && q[k2] == j2,
        forall|k2: int| 0 <= k2 < q.len() ==> processed(s, t, #[trigger] q[k2] as int),
        0 <= j < 361,
        reach_n(s, c, j, k),
    ensures
        t[j] != 0xff,
    decreases k,
{
    if k == 0 {
    } else {
        if reach_n(s, c, j, (k - 1) as nat) {
            lemma_bfs_complete(s, c, t, q, j, (k - 1) as nat);
        } else {
            let w = choose|w: int|
                0 <= w < 361 && #[trigger] adjacent(j, w) && reach_n(s, c, w, (k - 1) as nat);
            lemma_bfs_complete(s, c, t, q, w, (k - 1) as nat);
            let k2 = choose|k2: int| 0 <= k2 < q.len() && q[k2] == w;
            assert(processed(s, t, w));
            lemma_adjacent_sym(j, w);
            assert(adjacent(w, j));
        }
    }
}

impl Board {
    /// Whether the game is fully scorable: both colors have played at
    /// least one stone and every cell is unreachable from at least one
    /// color, so no empty region touches both.
    pub fn is_scoreable(&self) -> (r: bool)
        requires
            self.wf(),
        ensures
            r == ((exists|j: int| 0 <= j < 361 && self.vertices@[j] == 1) && (exists|j: int|
                0 <= j < 361 && self.vertices@[j] == 2) && forall|j: int|
                0 <= j < 361 ==> !reaches(self.vertices@, 1, j) || !reaches(self.vertices@, 2, j)),
    {
        let ghost s = self.vertices@;
        let mut some_black = false;
        let mut some_white = false;
        let mut i: usize = 0;
        while i < 361
            invariant
                self.wf(),
                s == self.vertices@,
                i <= 361,
                some_black <==> exists|j: int| 0 <= j < i && s[j] == 1,
                some_white <==> exists|j: int| 0 <= j < i && s[j] == 2,
            decreases 361 - i,
        {
            if self.vertices[i] == 1 {
                some_black = true;
                proof {
                    assert(0 <= i < i + 1 && s[i as int] == 1);
                }
            }
            if self.vertices[i] == 2 {
                some_white = true;
                proof {
                    assert(0 <= i < i + 1 && s[i as int] == 2);
                }
            }
            i += 1;
        }
        if !(some_black && some_white) {
            return false;
        }
        let black_distance = self.get_territory_distance(Color::Black);
        let white_distance = self.get_territory_distance(Color::White);
        let mut j: usize = 0;
        while j < 361
            invariant
                s == self.vertices@,
                black_distance@.len() == 368,
                white_distance@.len() == 368,
                j <= 361,
                forall|j2: int|
                    0 <= j2 < 361 ==> (black_distance@[j2] != 0xff <==> reaches(s, 1, j2)),
                forall|j2: int|
                    0 <= j2 < 361 ==> (white_distance@[j2] != 0xff <==> reaches(s, 2, j2)),
                forall|j2: int| 0 <= j2 < j ==> !reaches(s, 1, j2) || !reaches(s, 2, j2),
            decreases 361 - j,
        {
            if black_distance[j] != 0xff && white_distance[j] != 0xff {
                proof {
                    assert(reaches(self.vertices@, 1, j as int) && reaches(
                        self.vertices@,
                        2,
                        j as int,
                    ));
                    assert(!(forall|j2: int|
                        0 <= j2 < 361 ==> !reaches(self.vertices@, 1, j2) || !reaches(
                            self.vertices@,
                            2,
                            j2,
                        ))) by {
                        if forall|j2: int|
                            0 <= j2 < 361 ==> !reaches(self.vertices@, 1, j2) || !reaches(
                                self.vertices@,
                                2,
                                j2,
                            ) {
                            assert(!reaches(self.vertices@, 1, j as int) || !reaches(
                                self.vertices@,
                                2,
                                j as int,
                            ));
                        }
                    }
                }
                return false;
            }
            j += 1;
        }
        true
    }

    /// Returns the area score `(black, white)` under the Tromp-Taylor
    /// rules: each cell counts for the color whose stone sits on it, or
    /// that alone can reach it; contested empty cells count for neither.
    /// Before any stone has been hashed in, the score is `(0, 0)`.
    pub fn get_score(&self) -> (r: (usize, usize))
        requires
            self.wf(),
        ensures
            self.zobrist_hash == 0 ==> r == (0usize, 0usize),
            self.zobrist_hash != 0 ==> r.0 == count_range(
                |j: int| scores_black(self.vertices@, j),
                361,
            ) && r.1 == count_range(|j: int| scores_white(self.vertices@, j), 361),
    {
        let ghost s = self.vertices@;
        if self.zobrist_hash == 0 {
            return (0, 0);
        }
        let black_distance = self.get_territory_distance(Color::Black);
        let white_distance = self.get_territory_distance(Color::White);
        let mut black: usize = 0;
        let mut white: usize = 0;
        let mut i: usize = 0;
        while i < 361
            invariant
                self.wf(),
                s == self.vertices@,
                black_distance@.len() == 368,
                white_distance@.len() == 368,
                i <= 361,
                black <= i,
                white <= i,
                forall|j2: int|
                    0 <= j2 < 361 ==> (black_distance@[j2] == 0 <==> s[j2] == 1),
                forall|j2: int|
                    0 <= j2 < 361 ==> (white_distance@[j2] == 0 <==> s[j2] == 2),
                forall|j2: int|
                    0 <= j2 < 361 ==> (black_distance@[j2] != 0xff <==> reaches(s, 1, j2)),
                forall|j2: int|
                    0 <= j2 < 361 ==> (white_distance@[j2] != 0xff <==> reaches(s, 2, j2)),
                black == count_range(|j: int| scores_black(s, j), i as int),
                white == count_range(|j: int| scores_white(s, j), i as int),
            decreases 361 - i,
        {
            if black_distance[i] == 0 {
                black += 1;
            } else if white_distance[i] == 0 {
                white += 1;
            } else if white_distance[i] == 0xff {
                black += 1;
            } else if black_distance[i] == 0xff {
                white += 1;
            }
            proof {
                assert(scores_black(s, i as int) == (s[i as int] == 1 || (s[i as int] != 2
                    && !reaches(s, 2, i as int))));
            }
            i += 1;
        }
        (black, white)
    }
}

} // verus!
