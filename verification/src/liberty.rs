//! Liberty queries over the cyclic group structure.
//!
//! A liberty of a group is an empty vertex orthogonally adjacent to one of
//! its stones. All queries walk the group cycle once; the exact count uses
//! a 384-byte scratch buffer as a set of neighbour indices, deduplicating
//! without a hash set because every on-board index is below 384.

use vstd::prelude::*;
use crate::geometry::{north_of, east_of, south_of, west_of, adjacent, north, east, south, west};
use crate::group::{
    stones_wf, links_wf, occupied, in_orbit, cycle_members, lemma_orbit_same, lemma_orbit_sym,
};
use crate::counting::{
    count_range, lemma_count_range_pos, lemma_count_range_two, lemma_count_range_congruence,
    lemma_count_range_extend, lemma_count_range_update, lemma_count_range_bounds,
};

verus! {

/// `j` is a liberty of the group of `v`: an empty vertex (in the value
/// array `s`) adjacent to some stone on the cycle of `v` in `n`.
pub open spec fn is_liberty_of(s: Seq<u8>, n: Seq<u16>, v: int, j: int) -> bool {
    0 <= j < 361 && s[j] == 0 && group_adjacent(n, v, j)
}

/// The group of `v` has at least one liberty.
pub open spec fn has_lib_spec(s: Seq<u8>, n: Seq<u16>, v: int) -> bool {
    exists|j: int| #[trigger] is_liberty_of(s, n, v, j)
}

/// The group of `v` has at least two distinct liberties.
pub open spec fn has_two_spec(s: Seq<u8>, n: Seq<u16>, v: int) -> bool {
    exists|j1: int, j2: int|
        j1 != j2 && #[trigger] is_liberty_of(s, n, v, j1) && #[trigger] is_liberty_of(s, n, v, j2)
}

/// The exact number of liberties of the group of `v`.
pub open spec fn lib_count(s: Seq<u8>, n: Seq<u16>, v: int) -> int {
    count_range(|j: int| is_liberty_of(s, n, v, j), 361)
}

/// Stones of one group see the same liberties.
pub proof fn lemma_lib_same_group(s: Seq<u8>, n: Seq<u16>, v: int, w: int)
    requires
        stones_wf(s),
        links_wf(s, n),
        occupied(s, v),
        in_orbit(n, v, w),
    ensures
        forall|j: int| is_liberty_of(s, n, v, j) == is_liberty_of(s, n, w, j),
        lib_count(s, n, v) == lib_count(s, n, w),
        has_lib_spec(s, n, v) == has_lib_spec(s, n, w),
        has_two_spec(s, n, v) == has_two_spec(s, n, w),
{
    lemma_orbit_same(s, n, v, w);
    assert forall|j: int| is_liberty_of(s, n, v, j) == is_liberty_of(s, n, w, j) by {
        if is_liberty_of(s, n, v, j) {
            let x = choose|x: int| #[trigger] in_orbit(n, v, x) && adjacent(x, j);
            assert(in_orbit(n, w, x) && adjacent(x, j));
        }
        if is_liberty_of(s, n, w, j) {
            let x = choose|x: int| #[trigger] in_orbit(n, w, x) && adjacent(x, j);
            assert(in_orbit(n, v, x) && adjacent(x, j));
        }
    }
    lemma_count_range_congruence(
        |j: int| is_liberty_of(s, n, v, j),
        |j: int| is_liberty_of(s, n, w, j),
        361,
    );
}

/// A liberty exists exactly when the count is positive, two exactly when
/// the count reaches two.
pub proof fn lemma_lib_count_exists(s: Seq<u8>, n: Seq<u16>, v: int)
    ensures
        has_lib_spec(s, n, v) <==> lib_count(s, n, v) >= 1,
        has_two_spec(s, n, v) <==> lib_count(s, n, v) >= 2,
        0 <= lib_count(s, n, v) <= 361,
{
    let f = |j: int| is_liberty_of(s, n, v, j);
    lemma_count_range_pos(f, 361);
    lemma_count_range_two(f, 361);
    lemma_count_range_bounds(f, 361);
    assert(has_lib_spec(s, n, v) <==> exists|j: int| 0 <= j < 361 && #[trigger] f(j)) by {
        if has_lib_spec(s, n, v) {
            let j = choose|j: int| #[trigger] is_liberty_of(s, n, v, j);
            assert(f(j) && 0 <= j < 361);
        }
        if exists|j: int| 0 <= j < 361 && #[trigger] f(j) {
            let j = choose|j: int| 0 <= j < 361 && #[trigger] f(j);
            assert(is_liberty_of(s, n, v, j));
        }
    }
    assert(has_two_spec(s, n, v) <==> exists|j1: int, j2: int|
        0 <= j1 < 361 && 0 <= j2 < 361 && j1 != j2 && #[trigger] f(j1) && #[trigger] f(j2)) by {
        if has_two_spec(s, n, v) {
            let (j1, j2) = choose|j1: int, j2: int|
                j1 != j2 && #[trigger] is_liberty_of(s, n, v, j1) && #[trigger] is_liberty_of(
                    s,
                    n,
                    v,
                    j2,
                );
            assert(0 <= j1 < 361 && 0 <= j2 < 361 && f(j1) && f(j2));
        }
        if exists|j1: int, j2: int|
            0 <= j1 < 361 && 0 <= j2 < 361 && j1 != j2 && #[trigger] f(j1) && #[trigger] f(j2) {
            let (j1, j2) = choose|j1: int, j2: int|
                0 <= j1 < 361 && 0 <= j2 < 361 && j1 != j2 && #[trigger] f(j1) && #[trigger] f(
                    j2,
                );
            assert(is_liberty_of(s, n, v, j1) && is_liberty_of(s, n, v, j2));
        }
    }
}

/// Returns one liberty of the group of `index`, or `None` when the group
/// has none. When the group has exactly one liberty, the result is it.
pub fn get_one_liberty(vertices: &Vec<u8>, next_vertex: &Vec<u16>, index: usize) -> (r: Option<
    usize,
>)
    requires
        stones_wf(vertices@),
        links_wf(vertices@, next_vertex@),
        occupied(vertices@, index as int),
    ensures
        r is Some <==> has_lib_spec(vertices@, next_vertex@, index as int),
        r matches Some(j) ==> is_liberty_of(vertices@, next_vertex@, index as int, j as int),
{
    let m = cycle_members(Ghost(vertices@), next_vertex, index);
    let ghost s = vertices@;
    let ghost n = next_vertex@;
    let mut k: usize = 0;
    while k < m.len()
        invariant
            stones_wf(s),
            links_wf(s, n),
            occupied(s, index as int),
            s == vertices@,
            n == next_vertex@,
            k <= m@.len(),
            forall|k2: int|
                0 <= k2 < m@.len() ==> occupied(s, #[trigger] m@[k2] as int),
            forall|w: int| in_orbit(n, index as int, w) <==> exists|k2: int|
                0 <= k2 < m@.len() && m@[k2] == w,
            forall|k2: int|
                0 <= k2 < k ==> s[north_of(#[trigger] m@[k2] as int)] != 0 && s[east_of(
                    m@[k2] as int,
                )] != 0 && s[south_of(m@[k2] as int)] != 0 && s[west_of(m@[k2] as int)] != 0,
        decreases m@.len() - k,
    {
        let w = m[k];
        let nb_n = north(w);
        if vertices[nb_n] == 0 {
            proof {
                assert(in_orbit(n, index as int, w as int));
                assert(adjacent(w as int, nb_n as int));
                assert(is_liberty_of(s, n, index as int, nb_n as int));
            }
            return Some(nb_n);
        }
        let nb_e = east(w);
        if vertices[nb_e] == 0 {
            proof {
                assert(in_orbit(n, index as int, w as int));
                assert(adjacent(w as int, nb_e as int));
                assert(is_liberty_of(s, n, index as int, nb_e as int));
            }
            return Some(nb_e);
        }
        let nb_s = south(w);
        if vertices[nb_s] == 0 {
            proof {
                assert(in_orbit(n, index as int, w as int));
                assert(adjacent(w as int, nb_s as int));
                assert(is_liberty_of(s, n, index as int, nb_s as int));
            }
            return Some(nb_s);
        }
        let nb_w = west(w);
        if vertices[nb_w] == 0 {
            proof {
                assert(in_orbit(n, index as int, w as int));
                assert(adjacent(w as int, nb_w as int));
                assert(is_liberty_of(s, n, index as int, nb_w as int));
            }
            return Some(nb_w);
        }
        k += 1;
    }
    proof {
        if has_lib_spec(s, n, index as int) {
            let j = choose|j: int| #[trigger] is_liberty_of(s, n, index as int, j);
            let w = choose|w: int| #[trigger] in_orbit(n, index as int, w) && adjacent(w, j);
            let k2 = choose|k2: int| 0 <= k2 < m@.len() && m@[k2] == w;
            assert(s[j] == 0);
            assert(false);
        }
    }
    None
}

/// Spreads the neighbour values of every stone of the group of `index`
/// into the scratch buffer: a buffer position adjacent to the group ends
/// holding the value of that vertex, every other position keeps its old
/// byte. With a buffer pre-filled with the off-board marker, position `j`
/// ends as 0 exactly when `j` is a liberty of the group.
///
/// The group is walked in `next_vertex`, whose cycles are those of the
/// (ghost) `walk` position; `values` only supplies the bytes read, so a
/// tentative position can be inspected with the original group structure.
pub fn fill_liberties(
    values: &Vec<u8>,
    next_vertex: &Vec<u16>,
    Ghost(walk): Ghost<Seq<u8>>,
    index: usize,
    liberties: &mut Vec<u8>,
)
    requires
        stones_wf(walk),
        links_wf(walk, next_vertex@),
        occupied(walk, index as int),
        values@.len() == 368,
        old(liberties)@.len() == 384,
    ensures
        final(liberties)@.len() == 384,
        forall|j: int|
            0 <= j < 384 ==> final(liberties)@[j] == (if group_adjacent(
                next_vertex@,
                index as int,
                j,
            ) {
                values@[j]
            } else {
                old(liberties)@[j]
            }),
{
    let ghost s = values@;
    let ghost n = next_vertex@;
    let ghost walk_s = walk;
    let ghost pre = liberties@;
    let m = cycle_members(Ghost(walk), next_vertex, index);
    let mut k: usize = 0;
    while k < m.len()
        invariant
            s == values@,
            n == next_vertex@,
            values@.len() == 368,
            k <= m@.len(),
            liberties@.len() == 384,
            forall|k2: int| 0 <= k2 < m@.len() ==> 0 <= #[trigger] m@[k2] < 361,
            forall|w: int| in_orbit(n, index as int, w) <==> exists|k2: int|
                0 <= k2 < m@.len() && m@[k2] == w,
            forall|j: int|
                0 <= j < 384 ==> liberties@[j] == (if exists|k2: int|
                    0 <= k2 < k && adjacent(#[trigger] m@[k2] as int, j) {
                    s[j]
                } else {
                    pre[j]
                }),
        decreases m@.len() - k,
    {
        let ghost lib0 = liberties@;
        let w = m[k];
        let nb_n = north(w);
        let nb_e = east(w);
        let nb_s = south(w);
        let nb_w = west(w);
        liberties.set(nb_n, values[nb_n]);
        liberties.set(nb_e, values[nb_e]);
        liberties.set(nb_s, values[nb_s]);
        liberties.set(nb_w, values[nb_w]);
        proof {
            assert forall|j: int|
                0 <= j < 384 implies liberties@[j] == (if exists|k2: int|
                0 <= k2 < k + 1 && adjacent(#[trigger] m@[k2] as int, j) {
                s[j]
            } else {
                pre[j]
            }) by {
                if adjacent(w as int, j) {
                    assert(m@[k as int] == w);
                    assert(0 <= k < k + 1 && adjacent(m@[k as int] as int, j));
                    assert(j == nb_n as int || j == nb_e as int || j == nb_s as int || j
                        == nb_w as int);
                    assert(liberties@[j] == s[j]);
                } else {
                    assert(j != nb_n as int && j != nb_e as int && j != nb_s as int && j
                        != nb_w as int);
                    assert(liberties@[j] == lib0[j]);
                    assert forall|k2: int|
                        0 <= k2 < k + 1 && adjacent(#[trigger] m@[k2] as int, j) implies k2
                        < k by {
                        if k2 == k {
                            assert(m@[k2] == w);
                        }
                    }
                    assert((exists|k2: int|
                        0 <= k2 < k + 1 && adjacent(#[trigger] m@[k2] as int, j)) == (exists|
                        k2: int,
                    |
                        0 <= k2 < k && adjacent(#[trigger] m@[k2] as int, j)));
                }
            }
        }
        k += 1;
    }
    proof {
        assert forall|j: int| 0 <= j < 384 implies liberties@[j] == (if group_adjacent(
            n,
            index as int,
            j,
        ) {
            s[j]
        } else {
            pre[j]
        }) by {
            if exists|k2: int| 0 <= k2 < m@.len() && adjacent(#[trigger] m@[k2] as int, j) {
                let k2 = choose|k2: int|
                    0 <= k2 < m@.len() && adjacent(#[trigger] m@[k2] as int, j);
                assert(exists|k3: int| 0 <= k3 < m@.len() && m@[k3] == m@[k2] as int);
                assert(in_orbit(n, index as int, m@[k2] as int));
                assert(group_adjacent(n, index as int, j));
            }
            if group_adjacent(n, index as int, j) {
                let w = choose|w: int| #[trigger] in_orbit(n, index as int, w) && adjacent(w, j);
                let k2 = choose|k2: int| 0 <= k2 < m@.len() && m@[k2] == w;
                assert(adjacent(m@[k2] as int, j));
            }
        }
    }
}

/// Some stone of the group of `v` is orthogonally adjacent to `j`.
pub open spec fn group_adjacent(n: Seq<u16>, v: int, j: int) -> bool {
    exists|w: int| #[trigger] in_orbit(n, v, w) && adjacent(w, j)
}

/// Counts the bytes equal to 0 in the scratch buffer.
pub fn count_zeros(buf: &Vec<u8>) -> (r: usize)
    ensures
        r == count_range(|j: int| buf@[j] == 0, buf@.len() as int),
{
    let mut r: usize = 0;
    let mut i: usize = 0;
    while i < buf.len()
        invariant
            i <= buf@.len(),
            r <= i,
            r == count_range(|j: int| buf@[j] == 0, i as int),
        decreases buf@.len() - i,
    {
        if buf[i] == 0 {
            r += 1;
        }
        i += 1;
    }
    r
}

/// The exact number of liberties of the group of `index`: each stone's
/// neighbour values are spread into a scratch buffer, then the zero (empty)
/// entries are counted.
pub fn num_liberties(vertices: &Vec<u8>, next_vertex: &Vec<u16>, index: usize) -> (r: usize)
    requires
        stones_wf(vertices@),
        links_wf(vertices@, next_vertex@),
        occupied(vertices@, index as int),
    ensures
        r == lib_count(vertices@, next_vertex@, index as int),
{
    let mut liberties: Vec<u8> = Vec::new();
    let mut i: usize = 0;
    while i < 384
        invariant
            liberties@.len() == i,
            i <= 384,
            forall|j: int| 0 <= j < i ==> liberties@[j] == 0xff,
        decreases 384 - i,
    {
        liberties.push(0xff);
        i += 1;
    }
    let ghost pre = liberties@;
    fill_liberties(vertices, next_vertex, Ghost(vertices@), index, &mut liberties);
    let r = count_zeros(&liberties);
    proof {
        let s = vertices@;
        let n = next_vertex@;
        let f = |j: int| liberties@[j] == 0;
        let g = |j: int| is_liberty_of(s, n, index as int, j);
        assert forall|j: int| 0 <= j < 361 implies #[trigger] f(j) == #[trigger] g(j) by {
            assert(pre[j] == 0xff);
            if group_adjacent(n, index as int, j) {
                assert(liberties@[j] == s[j]);
            } else {
                assert(liberties@[j] == pre[j]);
            }
        }
        lemma_count_range_congruence(f, g, 361);
        assert forall|j: int| 361 <= j < 384 implies !#[trigger] f(j) by {
            assert(pre[j] == 0xff);
            if group_adjacent(n, index as int, j) {
                assert(liberties@[j] == s[j]);
                let w = choose|w: int| #[trigger] in_orbit(n, index as int, w) && adjacent(w, j);
                lemma_orbit_sym(s, n, index as int, w);
                assert(0 <= w < 361);
                assert(j == 361);
                assert(s[j] == 0xff);
            } else {
                assert(liberties@[j] == pre[j]);
            }
        }
        lemma_count_range_extend(f, 361, 384);
    }
    r
}

/// Whether the group of `index` has at least one liberty.
pub fn has_one_liberty_at(vertices: &Vec<u8>, next_vertex: &Vec<u16>, index: usize) -> (r: bool)
    requires
        stones_wf(vertices@),
        links_wf(vertices@, next_vertex@),
        occupied(vertices@, index as int),
    ensures
        r == has_lib_spec(vertices@, next_vertex@, index as int),
{
    get_one_liberty(vertices, next_vertex, index).is_some()
}

/// Whether the group of `index` has at least two distinct liberties.
pub fn has_two_liberties_at(vertices: &Vec<u8>, next_vertex: &Vec<u16>, index: usize) -> (r: bool)
    requires
        stones_wf(vertices@),
        links_wf(vertices@, next_vertex@),
        occupied(vertices@, index as int),
    ensures
        r == has_two_spec(vertices@, next_vertex@, index as int),
{
    let count = num_liberties(vertices, next_vertex, index);
    proof {
        lemma_lib_count_exists(vertices@, next_vertex@, index as int);
    }
    count >= 2
}

} // verus!
