//! The 32-plane feature tensor handed to a policy/value network.
//!
//! Every plane holds one byte per vertex, written through a symmetry
//! permutation of the 361 cells; the `Order` strategy decides whether the
//! tensor is laid out plane-major or vertex-major.

use vstd::prelude::*;
use crate::color::{Color, color_byte, opp_byte};
use crate::geometry::{north_of, east_of, south_of, west_of, adjacent, north, east, south, west};
use crate::group::{
    stones_wf, links_wf, occupied, in_orbit, cycle_members, lemma_orbit_sym, lemma_orbit_same,
};
use crate::liberty::{
    is_liberty_of, has_two_spec, lib_count, group_adjacent, num_liberties, fill_liberties,
    count_zeros, lemma_lib_count_exists, lemma_lib_same_group,
};
use crate::moves::{zero_orbit, capture_other};
use crate::counting::{
    count_range, lemma_count_range_congruence, lemma_count_range_extend, lemma_count_range_bounds,
};
use crate::board::{Board, pseudo_legal, dir_saves};

verus! {

/// Layout strategy for the flat feature tensor: where plane `c` of vertex
/// `i` lives.
pub trait Order {
    /// The linear offset of plane `c` at vertex `i`.
    spec fn index_spec(c: int, i: int) -> int;

    /// Offsets stay inside the 32 x 361 tensor.
    proof fn lemma_index_range(c: int, i: int)
        requires
            0 <= c < 32,
            0 <= i < 361,
        ensures
            0 <= Self::index_spec(c, i) < 11552,
    ;

    /// Distinct (plane, vertex) pairs land on distinct offsets.
    proof fn lemma_index_injective(c1: int, i1: int, c2: int, i2: int)
        requires
            0 <= c1 < 32,
            0 <= i1 < 361,
            0 <= c2 < 32,
            0 <= i2 < 361,
            Self::index_spec(c1, i1) == Self::index_spec(c2, i2),
        ensures
            c1 == c2,
            i1 == i2,
    ;

    /// Computes the offset.
    fn index(c: usize, i: usize) -> (r: usize)
        requires
            c < 32,
            i < 361,
        ensures
            r == Self::index_spec(c as int, i as int),
            r < 11552,
    ;
}

/// Plane-major layout: all 361 entries of a plane are contiguous.
pub struct CHW;

impl Order for CHW {
    proof fn lemma_index_range(c: int, i: int) {
    }

    open spec fn index_spec(c: int, i: int) -> int {
        c * 361 + i
    }

    proof fn lemma_index_injective(c1: int, i1: int, c2: int, i2: int) {
    }

    fn index(c: usize, i: usize) -> (r: usize) {
        c * 361 + i
    }
}

/// Vertex-major layout: the 32 planes of a vertex are contiguous.
pub struct HWC;

impl Order for HWC {
    proof fn lemma_index_range(c: int, i: int) {
    }

    open spec fn index_spec(c: int, i: int) -> int {
        i * 32 + c
    }

    proof fn lemma_index_injective(c1: int, i1: int, c2: int, i2: int) {
    }

    fn index(c: usize, i: usize) -> (r: usize) {
        i * 32 + c
    }
}

/// The cached liberty counts are sound and group-complete: a nonzero entry
/// belongs to a stone, holds its group's exact count, and is cached along
/// with every other stone of its group.
pub open spec fn cache_wf(s: Seq<u8>, n: Seq<u16>, memo: Seq<usize>) -> bool {
    &&& memo.len() == 368
    &&& cache_sound(s, n, memo)
    &&& forall|j: int, m: int|
        0 <= j < 361 && (#[trigger] memo[j]) != 0 && #[trigger] in_orbit(n, j, m) ==> memo[m] != 0
}

/// Every nonzero cache entry is a stone's exact liberty count.
pub open spec fn cache_sound(s: Seq<u8>, n: Seq<u16>, memo: Seq<usize>) -> bool {
    forall|j: int|
        0 <= j < 361 && (#[trigger] memo[j]) != 0 ==> occupied(s, j) && memo[j] == lib_count(
            s,
            n,
            j,
        )
}

/// The position after pretending to play `c` on the empty vertex `i`: the
/// stone is written and each adjacent opponent group whose single liberty
/// was `i` is removed. The group structure is read from the original
/// position throughout.
pub open spec fn stones_if(s: Seq<u8>, n: Seq<u16>, c: u8, i: int) -> Seq<u8> {
    let opp = opp_byte(c);
    let s1 = s.update(i, c);
    let s2 = if s1[north_of(i)] == opp && lib_count(s, n, north_of(i)) == 1 {
        zero_orbit(s1, n, north_of(i))
    } else {
        s1
    };
    let s3 = if s2[east_of(i)] == opp && lib_count(s, n, east_of(i)) == 1 {
        zero_orbit(s2, n, east_of(i))
    } else {
        s2
    };
    let s4 = if s3[south_of(i)] == opp && lib_count(s, n, south_of(i)) == 1 {
        zero_orbit(s3, n, south_of(i))
    } else {
        s3
    };
    if s4[west_of(i)] == opp && lib_count(s, n, west_of(i)) == 1 {
        zero_orbit(s4, n, west_of(i))
    } else {
        s4
    }
}

/// A liberty the pretended stone's merged group would have: an empty
/// vertex of the tentative position adjacent to the stone itself or to a
/// friendly neighbour group.
pub open spec fn feat_lib(sv: Seq<u8>, n: Seq<u16>, c: u8, i: int, j: int) -> bool {
    0 <= j < 361 && sv[j] == 0 && (adjacent(i, j) || (sv[north_of(i)] == c && group_adjacent(
        n,
        north_of(i),
        j,
    )) || (sv[east_of(i)] == c && group_adjacent(n, east_of(i), j)) || (sv[south_of(i)] == c
        && group_adjacent(n, south_of(i), j)) || (sv[west_of(i)] == c && group_adjacent(
        n,
        west_of(i),
        j,
    )))
}

/// The number of liberties the move `c` at `i` would leave its own merged
/// group, captures included.
pub open spec fn libs_if(s: Seq<u8>, n: Seq<u16>, c: u8, i: int) -> int {
    count_range(|j: int| feat_lib(stones_if(s, n, c, i), n, c, i, j), 361)
}

impl Board {
    /// The exact liberty count of the group of `index`, answered from the
    /// cache when possible; the count is recorded for every stone of the
    /// group, so one traversal serves the whole group for the turn.
    pub fn get_num_liberties(&self, index: usize, cache: &mut Vec<usize>) -> (r: usize)
        requires
            self.wf(),
            occupied(self.vertices@, index as int),
            cache_wf(self.vertices@, self.next_vertex@, old(cache)@),
        ensures
            r == lib_count(self.vertices@, self.next_vertex@, index as int),
            cache_wf(self.vertices@, self.next_vertex@, final(cache)@),
            forall|m: int|
                #[trigger] in_orbit(self.next_vertex@, index as int, m) ==> final(cache)@[m] == r,
    {
        let ghost s = self.vertices@;
        let ghost n = self.next_vertex@;
        let cached = cache[index];
        if cached != 0 {
            proof {
                assert(cache@[index as int] != 0);
                assert forall|m: int| #[trigger] in_orbit(n, index as int, m) implies cache@[m]
                    == cached by {
                    lemma_orbit_sym(s, n, index as int, m);
                    assert(cache@[m] != 0);
                    lemma_lib_same_group(s, n, index as int, m);
                    assert(cache@[m] == lib_count(s, n, m));
                }
            }
            return cached;
        }
        let r = num_liberties(&self.vertices, &self.next_vertex, index);
        let m = cycle_members(Ghost(s), &self.next_vertex, index);
        let mut k: usize = 0;
        while k < m.len()
            invariant
                self.wf(),
                s == self.vertices@,
                n == self.next_vertex@,
                occupied(s, index as int),
                r == lib_count(s, n, index as int),
                k <= m@.len(),
                forall|k2: int|
                    0 <= k2 < m@.len() ==> occupied(s, #[trigger] m@[k2] as int),
                forall|w: int| in_orbit(n, index as int, w) <==> exists|k2: int|
                    0 <= k2 < m@.len() && m@[k2] == w,
                cache@.len() == 368,
                cache_sound(s, n, cache@),
                forall|k2: int| 0 <= k2 < k ==> cache@[#[trigger] m@[k2] as int] == r,
                forall|j: int|
                    0 <= j < 361 && (#[trigger] cache@[j]) != 0 && !in_orbit(n, index as int, j)
                        ==> old(cache)@[j] == cache@[j],
                forall|j: int, w: int|
                    0 <= j < 361 && (#[trigger] cache@[j]) != 0 && !in_orbit(n, index as int, j)
                        && #[trigger] in_orbit(n, j, w) ==> cache@[w] != 0,
            decreases m@.len() - k,
        {
            let w = m[k];
            let ghost cache0 = cache@;
            proof {
                assert(in_orbit(n, index as int, w as int));
                lemma_lib_same_group(s, n, index as int, w as int);
                assert(lib_count(s, n, w as int) == r);
            }
            cache.set(w, r);
            proof {
                assert forall|j: int, w2: int|
                    0 <= j < 361 && (#[trigger] cache@[j]) != 0 && !in_orbit(n, index as int, j)
                        && #[trigger] in_orbit(n, j, w2) implies cache@[w2] != 0 by {
                    assert(in_orbit(n, index as int, w as int));
                    if j == w as int {
                        assert(in_orbit(n, index as int, j));
                        assert(false);
                    }
                    assert(cache0[j] != 0);
                    assert(occupied(s, j));
                    assert(cache0[w2] != 0);
                    lemma_orbit_sym(s, n, j, w2);
                    assert(occupied(s, w2));
                    if w2 == w as int {
                        assert(in_orbit(n, w as int, j));
                        lemma_orbit_same(s, n, index as int, w as int);
                        assert(in_orbit(n, index as int, j));
                        assert(false);
                    }
                    assert(0 <= w2 < 361);
                    assert(cache@[w2] == cache0[w2]);
                }
            }
            k += 1;
        }
        proof {
            assert forall|m2: int| #[trigger] in_orbit(n, index as int, m2) implies cache@[m2]
                == r by {
                let k2 = choose|k2: int| 0 <= k2 < m@.len() && m@[k2] == m2;
                assert(cache@[m@[k2] as int] == r);
            }
            assert forall|j: int, m2: int|
                0 <= j < 361 && (#[trigger] cache@[j]) != 0 && #[trigger] in_orbit(n, j, m2)
                    implies cache@[m2] != 0 by {
                if in_orbit(n, index as int, j) {
                    lemma_orbit_same(s, n, index as int, j);
                    assert(in_orbit(n, index as int, m2));
                    assert(cache@[m2] == r);
                    if r == 0 {
                        assert(cache@[j] == r);
                        assert(false);
                    }
                }
            }
        }
        r
    }

    /// Pseudo-legality decided through the liberty cache: same answer as
    /// `_is_valid`, with counts shared across queries of one turn.
    pub fn _is_valid_cached(&self, color: Color, index: usize, cache: &mut Vec<usize>) -> (r:
        bool)
        requires
            self.wf(),
            index < 361,
            self.vertices@[index as int] == 0,
            cache_wf(self.vertices@, self.next_vertex@, old(cache)@),
        ensures
            r == pseudo_legal(self.vertices@, self.next_vertex@, color_byte(color), index as int),
            cache_wf(self.vertices@, self.next_vertex@, final(cache)@),
    {
        let c = color.byte();
        let nb_n = north(index);
        let nb_e = east(index);
        let nb_s = south(index);
        let nb_w = west(index);
        if self.vertices[nb_n] == 0 || self.vertices[nb_e] == 0 || self.vertices[nb_s] == 0
            || self.vertices[nb_w] == 0 {
            return true;
        }
        if self.dir_saves_cache(c, nb_n, cache) {
            return true;
        }
        if self.dir_saves_cache(c, nb_e, cache) {
            return true;
        }
        if self.dir_saves_cache(c, nb_s, cache) {
            return true;
        }
        if self.dir_saves_cache(c, nb_w, cache) {
            return true;
        }
        false
    }

    /// `dir_saves` decided through the liberty cache.
    fn dir_saves_cache(&self, c: u8, d: usize, cache: &mut Vec<usize>) -> (r: bool)
        requires
            self.wf(),
            d <= 361,
            cache_wf(self.vertices@, self.next_vertex@, old(cache)@),
        ensures
            r == dir_saves(self.vertices@, self.next_vertex@, c, d as int),
            cache_wf(self.vertices@, self.next_vertex@, final(cache)@),
    {
        let v = self.vertices[d];
        if v == 0xff || v == 0 {
            return false;
        }
        proof {
            assert(d < 361);
            assert(occupied(self.vertices@, d as int));
        }
        let libs = self.get_num_liberties(d, cache);
        proof {
            lemma_lib_count_exists(self.vertices@, self.next_vertex@, d as int);
        }
        (v == c) == (libs >= 2)
    }

    /// The number of liberties the group of the pretended stone would
    /// have if `color` were played on the empty vertex `index`.
    #[verifier::rlimit(100)]
    pub fn get_num_liberties_if(&self, color: Color, index: usize, cache: &mut Vec<usize>) -> (r:
        usize)
        requires
            self.wf(),
            index < 361,
            self.vertices@[index as int] == 0,
            cache_wf(self.vertices@, self.next_vertex@, old(cache)@),
        ensures
            r == libs_if(self.vertices@, self.next_vertex@, color_byte(color), index as int),
            cache_wf(self.vertices@, self.next_vertex@, final(cache)@),
    {
        let ghost s = self.vertices@;
        let ghost n = self.next_vertex@;
        let c = color.byte();
        let opp = color.opposite().byte();
        let mut vertices = crate::circular_buf::copy_row(&self.vertices);
        vertices.set(index, c);
        let nb_n = north(index);
        let nb_e = east(index);
        let nb_s = south(index);
        let nb_w = west(index);
        if vertices[nb_n] == opp && self.get_num_liberties(nb_n, cache) == 1 {
            capture_other(&mut vertices, &self.next_vertex, Ghost(s), nb_n);
        }
        if vertices[nb_e] == opp && self.get_num_liberties(nb_e, cache) == 1 {
            capture_other(&mut vertices, &self.next_vertex, Ghost(s), nb_e);
        }
        if vertices[nb_s] == opp && self.get_num_liberties(nb_s, cache) == 1 {
            capture_other(&mut vertices, &self.next_vertex, Ghost(s), nb_s);
        }
        if vertices[nb_w] == opp && self.get_num_liberties(nb_w, cache) == 1 {
            capture_other(&mut vertices, &self.next_vertex, Ghost(s), nb_w);
        }
        let ghost sv = stones_if(s, n, c, index as int);
        proof {
            assert(vertices@ == sv);
            lemma_stones_if_sentinels(s, n, c, index as int);
        }
        let mut buffer: Vec<u8> = Vec::new();
        let mut i: usize = 0;
        while i < 384
            invariant
                buffer@.len() == i,
                i <= 384,
                forall|j: int| 0 <= j < i ==> buffer@[j] == 0xff,
            decreases 384 - i,
        {
            buffer.push(0xff);
            i += 1;
        }
        let ghost pre0 = buffer@;
        let ghost fill_n = vertices@[nb_n as int] == c;
        if vertices[nb_n] == c {
            fill_liberties(&vertices, &self.next_vertex, Ghost(s), nb_n, &mut buffer);
        }
        let ghost pre1 = buffer@;
        let ghost fill_e = vertices@[nb_e as int] == c;
        if vertices[nb_e] == c {
            fill_liberties(&vertices, &self.next_vertex, Ghost(s), nb_e, &mut buffer);
        }
        let ghost pre2 = buffer@;
        let ghost fill_s = vertices@[nb_s as int] == c;
        if vertices[nb_s] == c {
            fill_liberties(&vertices, &self.next_vertex, Ghost(s), nb_s, &mut buffer);
        }
        let ghost pre3 = buffer@;
        let ghost fill_w = vertices@[nb_w as int] == c;
        if vertices[nb_w] == c {
            fill_liberties(&vertices, &self.next_vertex, Ghost(s), nb_w, &mut buffer);
        }
        let ghost after_fills = buffer@;
        buffer.set(nb_n, vertices[nb_n]);
        buffer.set(nb_e, vertices[nb_e]);
        buffer.set(nb_s, vertices[nb_s]);
        buffer.set(nb_w, vertices[nb_w]);
        let r = count_zeros(&buffer);
        proof {
            let ii = index as int;
            assert forall|j: int|
                0 <= j < 384 && (j == north_of(ii) || j == east_of(ii) || j == south_of(ii) || j
                == west_of(ii)) implies buffer@[j] == sv[j] by {
                if j == nb_w as int {
                    assert(buffer@[j] == vertices@[nb_w as int]);
                } else if j == nb_s as int {
                    assert(buffer@[j] == vertices@[nb_s as int]);
                } else if j == nb_e as int {
                    assert(buffer@[j] == vertices@[nb_e as int]);
                } else {
                    assert(j == nb_n as int);
                    assert(buffer@[j] == vertices@[nb_n as int]);
                }
            }
            assert forall|j: int|
                0 <= j < 384 && j != north_of(ii) && j != east_of(ii) && j != south_of(ii) && j
                != west_of(ii) implies buffer@[j] == after_fills[j] by {}
            assert forall|j: int| 362 <= j < 384 && fill_n implies !group_adjacent(
                n,
                north_of(ii),
                j,
            ) by {
                assert(sv[north_of(ii)] == c);
                assert(s[north_of(ii)] == c);
                if group_adjacent(n, north_of(ii), j) {
                    let w = choose|w: int|
                        #[trigger] in_orbit(n, north_of(ii), w) && adjacent(w, j);
                    crate::group::lemma_orbit_sym(s, n, north_of(ii), w);
                    assert(0 <= w < 361);
                    assert(false);
                }
            }
            assert forall|j: int| 362 <= j < 384 && fill_e implies !group_adjacent(
                n,
                east_of(ii),
                j,
            ) by {
                assert(sv[east_of(ii)] == c);
                assert(s[east_of(ii)] == c);
                if group_adjacent(n, east_of(ii), j) {
                    let w = choose|w: int|
                        #[trigger] in_orbit(n, east_of(ii), w) && adjacent(w, j);
                    crate::group::lemma_orbit_sym(s, n, east_of(ii), w);
                    assert(0 <= w < 361);
                    assert(false);
                }
            }
            assert forall|j: int| 362 <= j < 384 && fill_s implies !group_adjacent(
                n,
                south_of(ii),
                j,
            ) by {
                assert(sv[south_of(ii)] == c);
                assert(s[south_of(ii)] == c);
                if group_adjacent(n, south_of(ii), j) {
                    let w = choose|w: int|
                        #[trigger] in_orbit(n, south_of(ii), w) && adjacent(w, j);
                    crate::group::lemma_orbit_sym(s, n, south_of(ii), w);
                    assert(0 <= w < 361);
                    assert(false);
                }
            }
            assert forall|j: int| 362 <= j < 384 && fill_w implies !group_adjacent(
                n,
                west_of(ii),
                j,
            ) by {
                assert(sv[west_of(ii)] == c);
                assert(s[west_of(ii)] == c);
                if group_adjacent(n, west_of(ii), j) {
                    let w = choose|w: int|
                        #[trigger] in_orbit(n, west_of(ii), w) && adjacent(w, j);
                    crate::group::lemma_orbit_sym(s, n, west_of(ii), w);
                    assert(0 <= w < 361);
                    assert(false);
                }
            }
            assert forall|j: int|
                0 <= j < 384 implies (after_fills[j] == 0 <==> (j < 361 && sv[j] == 0 && ((fill_n
                && group_adjacent(n, north_of(ii), j)) || (fill_e && group_adjacent(
                n,
                east_of(ii),
                j,
            )) || (fill_s && group_adjacent(n, south_of(ii), j)) || (fill_w && group_adjacent(
                n,
                west_of(ii),
                j,
            ))))) by {
                if fill_w && group_adjacent(n, west_of(ii), j) {
                    assert(after_fills[j] == sv[j]);
                } else if fill_s && group_adjacent(n, south_of(ii), j) {
                    assert(after_fills[j] == pre3[j]);
                    assert(pre3[j] == sv[j]);
                } else if fill_e && group_adjacent(n, east_of(ii), j) {
                    assert(after_fills[j] == pre3[j]);
                    assert(pre3[j] == pre2[j]);
                    assert(pre2[j] == sv[j]);
                } else if fill_n && group_adjacent(n, north_of(ii), j) {
                    assert(after_fills[j] == pre3[j]);
                    assert(pre3[j] == pre2[j]);
                    assert(pre2[j] == pre1[j]);
                    assert(pre1[j] == sv[j]);
                } else {
                    assert(after_fills[j] == pre3[j]);
                    assert(pre3[j] == pre2[j]);
                    assert(pre2[j] == pre1[j]);
                    assert(pre1[j] == pre0[j]);
                    assert(pre0[j] == 0xff);
                }
                if 361 <= j < 368 {
                    assert(stones_if(s, n, c, ii)[j] == s[j]);
                    assert(sv[j] != 0);
                } else if j >= 368 {
                    assert(sv.len() == 368);
                }
            }
            assert forall|j: int| 0 <= j < 384 implies (buffer@[j] == 0 <==> (j < 361 && feat_lib(
                sv,
                n,
                c,
                ii,
                j,
            ))) by {
                if j == north_of(ii) || j == east_of(ii) || j == south_of(ii) || j == west_of(ii) {
                    assert(buffer@[j] == sv[j]);
                    if j < 361 {
                        assert(adjacent(ii, j));
                    } else {
                        assert(j == 361);
                        assert(stones_if(s, n, c, ii)[j] == s[j]);
                        assert(sv[j] != 0);
                    }
                } else {
                    assert(buffer@[j] == after_fills[j]);
                    assert(!adjacent(ii, j));
                }
            }
            let f = |j: int| buffer@[j] == 0;
            let g = |j: int| feat_lib(sv, n, c, ii, j);
            assert forall|j: int| 0 <= j < 361 implies #[trigger] f(j) == #[trigger] g(j) by {}
            lemma_count_range_congruence(f, g, 361);
            assert forall|j: int| 361 <= j < 384 implies !#[trigger] f(j) by {}
            lemma_count_range_extend(f, 361, 384);
        }
        r
    }
}

/// Caps a liberty count at the top one-hot bucket.
pub open spec fn min6(x: int) -> int {
    if x < 6 {
        x
    } else {
        6
    }
}

/// The byte the feature tensor holds for plane `p` of vertex `i`, before
/// the symmetry permutation: the constant planes, the one-hot liberty
/// buckets of standing groups, the buckets a pseudo-legal move would
/// create, and the own/opponent stone indicators of the six most recent
/// positions.
pub open spec fn feature_value(b: Board, c: u8, p: int, i: int) -> u8 {
    let s = b.vertices@;
    let n = b.next_vertex@;
    let opp = opp_byte(c);
    if p == 0 {
        1
    } else if p == 1 {
        if c == 1 {
            1
        } else {
            0
        }
    } else if 2 <= p <= 7 {
        if s[i] == c && min6(lib_count(s, n, i)) == p - 1 {
            1
        } else {
            0
        }
    } else if 8 <= p <= 13 {
        if s[i] == 0 && pseudo_legal(s, n, c, i) && min6(libs_if(s, n, c, i)) == p - 7 {
            1
        } else {
            0
        }
    } else if 14 <= p <= 19 {
        if b.history.snapshot(p - 14)[i] == c {
            1
        } else {
            0
        }
    } else if 20 <= p <= 25 {
        if s[i] == opp && min6(lib_count(s, n, i)) == p - 19 {
            1
        } else {
            0
        }
    } else {
        if b.history.snapshot(p - 26)[i] == opp {
            1
        } else {
            0
        }
    }
}

/// Writes one tensor entry, leaving every other (plane, vertex) slot as it
/// was.
fn set_plane<O: Order>(features: &mut Vec<u8>, p: usize, other: usize, value: u8)
    requires
        p < 32,
        other < 361,
        old(features)@.len() == 11552,
    ensures
        final(features)@.len() == 11552,
        final(features)@[O::index_spec(p as int, other as int)] == value,
        forall|p2: int, o2: int|
            0 <= p2 < 32 && 0 <= o2 < 361 && (p2 != p || o2 != other)
                ==> final(features)@[#[trigger] O::index_spec(p2, o2)] == old(features)@[O::index_spec(
                p2,
                o2,
            )],
{
    let pos = O::index(p, other);
    features.set(pos, value);
    proof {
        assert forall|p2: int, o2: int|
            0 <= p2 < 32 && 0 <= o2 < 361 && (p2 != p || o2 != other) implies features@[#[trigger] O::index_spec(
            p2,
            o2,
        )] == old(features)@[O::index_spec(p2, o2)] by {
            O::lemma_index_range(p2, o2);
            if O::index_spec(p2, o2) == O::index_spec(p as int, other as int) {
                O::lemma_index_injective(p2, o2, p as int, other as int);
            }
        }
    }
}

impl Board {
    /// Assembles the 32-plane feature tensor for `color`, written through
    /// the given permutation of the 361 vertices: entry
    /// `O::index(p, symmetry[i])` describes plane `p` of vertex `i`.
    #[verifier::loop_isolation(false)]
    pub fn get_features<O: Order>(&self, color: Color, symmetry: &Vec<u16>) -> (r: Vec<u8>)
        requires
            self.wf(),
            symmetry@.len() == 361,
            forall|k: int| 0 <= k < 361 ==> (#[trigger] symmetry@[k]) < 361,
            forall|k1: int, k2: int|
                0 <= k1 < 361 && 0 <= k2 < 361 && #[trigger] symmetry@[k1] == #[trigger] symmetry@[k2]
                    ==> k1 == k2,
        ensures
            r@.len() == 11552,
            forall|p: int, i: int|
                0 <= p < 32 && 0 <= i < 361 ==> r@[#[trigger] O::index_spec(
                    p,
                    symmetry@[i] as int,
                )] == feature_value(*self, color_byte(color), p, i),
    {
        let c = color.byte();
        let opp = color.opposite().byte();
        let is_black: u8 = if c == 1 {
            1
        } else {
            0
        };
        let mut features: Vec<u8> = Vec::new();
        let mut z: usize = 0;
        while z < 11552
            invariant
                features@.len() == z,
                z <= 11552,
                forall|q: int| 0 <= q < z ==> features@[q] == 0,
            decreases 11552 - z,
        {
            features.push(0);
            z += 1;
        }
        let mut cache: Vec<usize> = Vec::new();
        let mut y: usize = 0;
        while y < 368
            invariant
                cache@.len() == y,
                y <= 368,
                forall|q: int| 0 <= q < y ==> cache@[q] == 0,
            decreases 368 - y,
        {
            cache.push(0);
            y += 1;
        }
        proof {
            assert forall|p: int, i: int|
                0 <= p < 32 && 0 <= i < 361 implies features@[#[trigger] O::index_spec(
                p,
                symmetry@[i] as int,
            )] == 0 by {
                O::lemma_index_range(p, symmetry@[i] as int);
            }
        }
        let mut index: usize = 0;
        while index < 361
            invariant
                features@.len() == 11552,
                index <= 361,
                cache_wf(self.vertices@, self.next_vertex@, cache@),
                forall|p: int, i: int|
                    0 <= p < 32 && 0 <= i < index ==> features@[#[trigger] O::index_spec(
                        p,
                        symmetry@[i] as int,
                    )] == feature_value(*self, color_byte(color), p, i),
                forall|p: int, i: int|
                    0 <= p < 32 && index <= i < 361 ==> features@[#[trigger] O::index_spec(
                        p,
                        symmetry@[i] as int,
                    )] == 0,
            decreases 361 - index,
        {
            let other = symmetry[index] as usize;
            let ghost pre = features@;
            set_plane::<O>(&mut features, 0, other, 1);
            set_plane::<O>(&mut features, 1, other, is_black);
            if self.vertices[index] != 0 {
                let libs = self.get_num_liberties(index, &mut cache);
                let num = if libs < 6 {
                    libs
                } else {
                    6
                };
                proof {
                    lemma_lib_count_exists(self.vertices@, self.next_vertex@, index as int);
                }
                let l = if self.vertices[index] == c {
                    1 + num
                } else {
                    19 + num
                };
                if num >= 1 {
                    set_plane::<O>(&mut features, l, other, 1);
                }
            } else if self._is_valid_cached(color, index, &mut cache) {
                let libs = self.get_num_liberties_if(color, index, &mut cache);
                let num = if libs < 6 {
                    libs
                } else {
                    6
                };
                if num >= 1 {
                    set_plane::<O>(&mut features, 7 + num, other, 1);
                }
            }
            let mut h: usize = 0;
            while h < 6
                invariant
                    features@.len() == 11552,
                    index < 361,
                    h <= 6,
                    other == symmetry@[index as int],
                    other < 361,
                    forall|p: int, i: int|
                        0 <= p < 32 && 0 <= i < 361 && i != index ==> features@[#[trigger] O::index_spec(
                            p,
                            symmetry@[i] as int,
                        )] == pre[O::index_spec(p, symmetry@[i] as int)],
                    forall|p: int|
                        0 <= p < 32 && !(14 <= p < 14 + h) && !(26 <= p < 26 + h)
                            ==> features@[#[trigger] O::index_spec(p, other as int)]
                            == features_after_stones(*self, color_byte(color), pre, O::index_spec(
                            p,
                            other as int,
                        ), p, index as int),
                    forall|p: int|
                        (14 <= p < 14 + h || 26 <= p < 26 + h) ==> features@[#[trigger] O::index_spec(
                            p,
                            other as int,
                        )] == feature_value(*self, color_byte(color), p, index as int),
                decreases 6 - h,
            {
                let snap = self.history.nth_recent(h);
                let b = snap[index];
                if b == c {
                    set_plane::<O>(&mut features, 14 + h, other, 1);
                    set_plane::<O>(&mut features, 26 + h, other, 0);
                } else if b == opp {
                    set_plane::<O>(&mut features, 14 + h, other, 0);
                    set_plane::<O>(&mut features, 26 + h, other, 1);
                } else {
                    set_plane::<O>(&mut features, 14 + h, other, 0);
                    set_plane::<O>(&mut features, 26 + h, other, 0);
                }
                h += 1;
            }
            index += 1;
            proof {
                assert forall|p: int, i: int|
                    0 <= p < 32 && 0 <= i < index implies features@[#[trigger] O::index_spec(
                    p,
                    symmetry@[i] as int,
                )] == feature_value(*self, color_byte(color), p, i) by {
                    if i == index - 1 {
                        assert(symmetry@[i] as int == other as int);
                    } else {
                        assert(symmetry@[i] != symmetry@[index - 1]);
                        assert(features@[O::index_spec(p, symmetry@[i] as int)] == pre[O::index_spec(
                            p,
                            symmetry@[i] as int,
                        )]);
                    }
                }
            }
        }
        features
    }
}

/// What the non-history planes of the current vertex hold after the stone
/// and liberty passes, phrased against the zeroed tensor.
pub open spec fn features_after_stones(
    b: Board,
    c: u8,
    pre: Seq<u8>,
    pos: int,
    p: int,
    i: int,
) -> u8 {
    if p < 2 || (2 <= p <= 13) || (20 <= p <= 25) {
        feature_value(b, c, p, i)
    } else {
        pre[pos]
    }
}

/// The pretended position keeps the sentinel bytes of the original.
proof fn lemma_stones_if_sentinels(s: Seq<u8>, n: Seq<u16>, c: u8, i: int)
    requires
        stones_wf(s),
        links_wf(s, n),
        0 <= i < 361,
        s[i] == 0,
        crate::group::is_stone(c),
    ensures
        stones_if(s, n, c, i).len() == 368,
        forall|j: int| 361 <= j < 368 ==> stones_if(s, n, c, i)[j] == s[j],
{
    assert forall|d: int, j: int|
        occupied(s, d) && 361 <= j < 368 implies !in_orbit(n, d, j) by {
        crate::group::lemma_orbit_avoids(s, n, d, j);
    }
}

} // verus!
