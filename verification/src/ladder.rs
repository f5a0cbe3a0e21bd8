//! Ladder search: whether a move starts a winning sequence of ataris, and
//! whether a move saves a group from one.
//!
//! The search plays out the ladder on a local copy of the vertex and
//! next-pointer arrays only: no history and no hashing, since ladder
//! outcomes depend only on the local geometry and liberties.

use vstd::prelude::*;
use crate::color::{Color, color_byte, opp_byte};
use crate::geometry::{north_of, east_of, south_of, west_of, north, east, south, west};
use crate::group::{stones_wf, links_wf, occupied, is_stone};
use crate::liberty::{
    is_liberty_of, has_lib_spec, has_two_spec, lib_count, get_one_liberty, has_two_liberties_at,
    num_liberties, fill_liberties, group_adjacent, lemma_lib_count_exists,
};
use crate::moves::{pnc_next, place_no_capture, lemma_pnc_wf};
use crate::counting::{count_range, lemma_count_range_update, lemma_count_range_bounds};
use crate::circular_buf::copy_row;
use crate::board::Board;

verus! {

/// The number of empty vertices of a position; the measure that shrinks as
/// a ladder is played out.
pub open spec fn empty_count(s: Seq<u8>) -> int {
    count_range(|j: int| s[j] == 0, 361)
}

/// The group of `v` has at most one liberty, and this is it.
pub open spec fn the_liberty(s: Seq<u8>, n: Seq<u16>, v: int) -> int {
    choose|j: int| is_liberty_of(s, n, v, j)
}

/// The first neighbour of `i` (north, east, south, west) holding an
/// opponent group in atari, as the single liberty of that group: where the
/// chase continues.
pub open spec fn ladder_target(s: Seq<u8>, n: Seq<u16>, opp: u8, i: int) -> Option<int> {
    if dir_target_ok(s, n, opp, north_of(i)) {
        Some(the_liberty(s, n, north_of(i)))
    } else if dir_target_ok(s, n, opp, east_of(i)) {
        Some(the_liberty(s, n, east_of(i)))
    } else if dir_target_ok(s, n, opp, south_of(i)) {
        Some(the_liberty(s, n, south_of(i)))
    } else if dir_target_ok(s, n, opp, west_of(i)) {
        Some(the_liberty(s, n, west_of(i)))
    } else {
        None
    }
}

/// The neighbour at `d` is an opponent group with exactly one liberty.
pub open spec fn dir_target_ok(s: Seq<u8>, n: Seq<u16>, opp: u8, d: int) -> bool {
    s[d] == opp && !has_two_spec(s, n, d) && has_lib_spec(s, n, d)
}

/// A friendly neighbour group of `d` was left in atari by the opponent's
/// extension: the exchange is lost.
pub open spec fn atari_nearby(s: Seq<u8>, n: Seq<u16>, c: u8, d: int) -> bool {
    ||| (s[north_of(d)] == c && !has_two_spec(s, n, north_of(d)))
    ||| (s[east_of(d)] == c && !has_two_spec(s, n, east_of(d)))
    ||| (s[south_of(d)] == c && !has_two_spec(s, n, south_of(d)))
    ||| (s[west_of(d)] == c && !has_two_spec(s, n, west_of(d)))
}

/// Whether a stone of color byte `c` on the empty vertex `i` starts a
/// winning ladder: some adjacent opponent group is reduced to one liberty,
/// and chasing it through that liberty ends in its capture.
pub open spec fn ladder_capture_spec(s: Seq<u8>, n: Seq<u16>, c: u8, i: int) -> bool
    decreases empty_count(s),
    when stones_wf(s) && links_wf(s, n) && is_stone(c) && 0 <= i < 361 && s[i] == 0
    via ladder_capture_spec_dec
{
    let s1 = s.update(i, c);
    let n1 = pnc_next(s, n, c, i);
    let opp = opp_byte(c);
    match ladder_target(s1, n1, opp, i) {
        Option::None => false,
        Option::Some(oi) => {
            let s2 = s1.update(oi, opp);
            let n2 = pnc_next(s1, n1, opp, oi);
            let libs = lib_count(s2, n2, oi);
            if libs < 2 {
                true
            } else if libs > 2 {
                false
            } else if atari_nearby(s2, n2, c, oi) {
                false
            } else {
                exists|j: int|
                    #[trigger] is_liberty_of(s2, n2, oi, j) && ladder_capture_spec(s2, n2, c, j)
            }
        },
    }
}

#[via_fn]
proof fn ladder_capture_spec_dec(s: Seq<u8>, n: Seq<u16>, c: u8, i: int) {
    let s1 = s.update(i, c);
    let n1 = pnc_next(s, n, c, i);
    let opp = opp_byte(c);
    lemma_pnc_wf(s, n, c, i);
    if ladder_target(s1, n1, opp, i) is Some {
        let oi = ladder_target(s1, n1, opp, i)->Some_0;
        lemma_target_is_liberty(s1, n1, opp, i);
        assert(0 <= oi < 361 && s1[oi] == 0);
        lemma_pnc_wf(s1, n1, opp, oi);
        let s2 = s1.update(oi, opp);
        lemma_empty_two_fewer(s, c, i, opp, oi);
        lemma_count_range_bounds(|j: int| s2[j] == 0, 361);
        assert(empty_count(s2) >= 0);
        assert(empty_count(s2) < empty_count(s));
    }
}

/// The group whose single liberty the ladder target is.
pub open spec fn the_owner(s: Seq<u8>, n: Seq<u16>, opp: u8, i: int) -> int {
    if dir_target_ok(s, n, opp, north_of(i)) {
        north_of(i)
    } else if dir_target_ok(s, n, opp, east_of(i)) {
        east_of(i)
    } else if dir_target_ok(s, n, opp, south_of(i)) {
        south_of(i)
    } else {
        west_of(i)
    }
}

/// A found ladder target is the single liberty of the owning group.
pub proof fn lemma_target_is_liberty(s1: Seq<u8>, n1: Seq<u16>, opp: u8, i: int)
    requires
        ladder_target(s1, n1, opp, i) is Some,
    ensures
        is_liberty_of(s1, n1, the_owner(s1, n1, opp, i), ladder_target(s1, n1, opp, i)->Some_0),
        0 <= ladder_target(s1, n1, opp, i)->Some_0 < 361,
        s1[ladder_target(s1, n1, opp, i)->Some_0] == 0,
        forall|j: int|
            is_liberty_of(s1, n1, the_owner(s1, n1, opp, i), j) ==> j == ladder_target(
                s1,
                n1,
                opp,
                i,
            )->Some_0,
{
    let d = the_owner(s1, n1, opp, i);
    assert(dir_target_ok(s1, n1, opp, d));
    let oi = the_liberty(s1, n1, d);
    assert(has_lib_spec(s1, n1, d));
    let w = choose|j: int| #[trigger] is_liberty_of(s1, n1, d, j);
    assert(is_liberty_of(s1, n1, d, oi));
    assert forall|j: int| is_liberty_of(s1, n1, d, j) implies j == oi by {
        if j != oi {
            assert(has_two_spec(s1, n1, d));
        }
    }
}

proof fn lemma_empty_two_fewer(s: Seq<u8>, c: u8, i: int, opp: u8, oi: int)
    requires
        0 <= i < 361,
        0 <= oi < 361,
        i != oi,
        s[i] == 0,
        s.update(i, c)[oi] == 0,
        is_stone(c),
        is_stone(opp),
        s.len() == 368,
    ensures
        empty_count(s.update(i, c).update(oi, opp)) == empty_count(s) - 2,
{
    let s1 = s.update(i, c);
    let s2 = s1.update(oi, opp);
    let f0 = |j: int| s[j] == 0;
    let f1 = |j: int| s1[j] == 0;
    let f2 = |j: int| s2[j] == 0;
    assert(forall|j: int| 0 <= j < 361 && j != i ==> #[trigger] f0(j) == #[trigger] f1(j));
    lemma_count_range_update(f0, f1, i, 361);
    assert(forall|j: int| 0 <= j < 361 && j != oi ==> #[trigger] f1(j) == #[trigger] f2(j));
    lemma_count_range_update(f1, f2, oi, 361);
}

/// Lists the liberties of the group of `index`.
#[verifier::loop_isolation(false)]
fn list_liberties(vertices: &Vec<u8>, next_vertex: &Vec<u16>, index: usize) -> (r: Vec<usize>)
    requires
        stones_wf(vertices@),
        links_wf(vertices@, next_vertex@),
        occupied(vertices@, index as int),
    ensures
        forall|k: int|
            0 <= k < r@.len() ==> is_liberty_of(
                vertices@,
                next_vertex@,
                index as int,
                #[trigger] r@[k] as int,
            ),
        forall|j: int|
            is_liberty_of(vertices@, next_vertex@, index as int, j) ==> exists|k: int|
                0 <= k < r@.len() && r@[k] == j,
{
    let mut buffer: Vec<u8> = Vec::new();
    let mut i: usize = 0;
    while i < 384
        invariant
            buffer@.len() == i,
            i <= 384,
            forall|j: int| 0 <= j < i ==> buffer@[j] == 0xff,
        decreases 384 - i,
    {
        buffer.push(0xff);
        i += 1;
    }
    let ghost pre = buffer@;
    fill_liberties(vertices, next_vertex, Ghost(vertices@), index, &mut buffer);
    let mut r: Vec<usize> = Vec::new();
    let mut j: usize = 0;
    while j < 361
        invariant
            stones_wf(vertices@),
            buffer@.len() == 384,
            j <= 361,
            forall|j2: int|
                0 <= j2 < 384 ==> buffer@[j2] == (if group_adjacent(
                    next_vertex@,
                    index as int,
                    j2,
                ) {
                    vertices@[j2]
                } else {
                    pre[j2]
                }),
            forall|j2: int| 0 <= j2 < 384 ==> pre[j2] == 0xff,
            forall|k: int|
                0 <= k < r@.len() ==> is_liberty_of(
                    vertices@,
                    next_vertex@,
                    index as int,
                    #[trigger] r@[k] as int,
                ),
            forall|j2: int|
                0 <= j2 < j && is_liberty_of(vertices@, next_vertex@, index as int, j2)
                    ==> exists|k: int| 0 <= k < r@.len() && r@[k] == j2,
        decreases 361 - j,
    {
        if buffer[j] == 0 {
            let ghost r0 = r@;
            r.push(j);
            proof {
                assert(is_liberty_of(vertices@, next_vertex@, index as int, j as int));
                assert(r@ == r0.push(j));
                assert forall|j2: int|
                    0 <= j2 < j + 1 && is_liberty_of(
                        vertices@,
                        next_vertex@,
                        index as int,
                        j2,
                    ) implies exists|k: int| 0 <= k < r@.len() && r@[k] == j2 by {
                    if j2 == j as int {
                        assert(r@[r0.len() as int] == j);
                    } else {
                        let k = choose|k: int| 0 <= k < r0.len() && r0[k] == j2;
                        assert(r@[k] == j2);
                    }
                }
            }
        } else {
            proof {
                assert(!is_liberty_of(vertices@, next_vertex@, index as int, j as int));
            }
        }
        j += 1;
    }
    r
}

impl Board {
    /// Whether playing `color` on the empty vertex `index` starts a
    /// winning ladder against an adjacent opponent group. Plays out the
    /// chase on copies of the vertex colors and group links.
    ///
    /// The caller is expected to offer only pseudo-legal moves.
    pub fn is_ladder_capture(&self, color: Color, index: usize) -> (r: bool)
        requires
            self.wf(),
            index < 361,
            self.vertices@[index as int] == 0,
        ensures
            r == ladder_capture_spec(
                self.vertices@,
                self.next_vertex@,
                color_byte(color),
                index as int,
            ),
    {
        let mut vertices = copy_row(&self.vertices);
        let mut next_vertex = copy_links(&self.next_vertex);
        Board::_is_ladder_capture(&mut vertices, &mut next_vertex, color, index)
    }

    /// The recursive ladder chase on scratch arrays: place the chasing
    /// stone, extend the caught group through its single liberty, and
    /// decide by the liberties that remain.
    #[verifier::loop_isolation(false)]
    pub fn _is_ladder_capture(
        vertices: &mut Vec<u8>,
        next_vertex: &mut Vec<u16>,
        color: Color,
        index: usize,
    ) -> (r: bool)
        requires
            stones_wf(old(vertices)@),
            links_wf(old(vertices)@, old(next_vertex)@),
            index < 361,
            old(vertices)@[index as int] == 0,
        ensures
            r == ladder_capture_spec(
                old(vertices)@,
                old(next_vertex)@,
                color_byte(color),
                index as int,
            ),
        decreases empty_count(old(vertices)@),
    {
        let ghost s = vertices@;
        let ghost n = next_vertex@;
        let c = color.byte();
        let opponent = color.opposite();
        let opp = opponent.byte();
        place_no_capture(vertices, next_vertex, c, index);
        let ghost s1 = vertices@;
        let ghost n1 = next_vertex@;
        let target = Board::find_ladder_target(vertices, next_vertex, opp, index);
        let opponent_index: usize;
        match target {
            Option::None => {
                return false;
            },
            Option::Some(oi) => {
                opponent_index = oi;
            },
        }
        proof {
            lemma_target_is_liberty(s1, n1, opp, index as int);
        }
        place_no_capture(vertices, next_vertex, opp, opponent_index);
        let ghost s2 = vertices@;
        let ghost n2 = next_vertex@;
        let libs = num_liberties(vertices, next_vertex, opponent_index);
        if libs < 2 {
            return true;
        }
        if libs > 2 {
            return false;
        }
        if Board::atari_nearby_at(vertices, next_vertex, c, opponent_index) {
            return false;
        }
        let liberties = list_liberties(vertices, next_vertex, opponent_index);
        let mut k: usize = 0;
        proof {
            lemma_empty_two_fewer(s, c, index as int, opp, opponent_index as int);
        }
        while k < liberties.len()
            invariant
                stones_wf(s2),
                links_wf(s2, n2),
                s2 == vertices@,
                n2 == next_vertex@,
                is_stone(c),
                c == color_byte(color),
                empty_count(s2) < empty_count(s),
                k <= liberties@.len(),
                forall|k2: int|
                    0 <= k2 < liberties@.len() ==> is_liberty_of(
                        s2,
                        n2,
                        opponent_index as int,
                        #[trigger] liberties@[k2] as int,
                    ),
                forall|j: int|
                    is_liberty_of(s2, n2, opponent_index as int, j) ==> exists|k2: int|
                        0 <= k2 < liberties@.len() && liberties@[k2] == j,
                forall|k2: int|
                    0 <= k2 < k ==> !ladder_capture_spec(
                        s2,
                        n2,
                        c,
                        #[trigger] liberties@[k2] as int,
                    ),
            decreases liberties@.len() - k,
        {
            let j = liberties[k];
            let mut vs = copy_row(vertices);
            let mut ns = copy_links(next_vertex);
            proof {
                lemma_count_range_bounds(|j2: int| vs@[j2] == 0, 361);
                assert(empty_count(vs@) >= 0);
            }
            if Board::_is_ladder_capture(&mut vs, &mut ns, color, j) {
                proof {
                    assert(is_liberty_of(s2, n2, opponent_index as int, j as int));
                    assert(ladder_capture_spec(s2, n2, c, j as int));
                }
                return true;
            }
            k += 1;
        }
        proof {
            if exists|j: int|
                #[trigger] is_liberty_of(s2, n2, opponent_index as int, j)
                    && ladder_capture_spec(s2, n2, c, j) {
                let j = choose|j: int|
                    #[trigger] is_liberty_of(s2, n2, opponent_index as int, j)
                        && ladder_capture_spec(s2, n2, c, j);
                let k2 = choose|k2: int| 0 <= k2 < liberties@.len() && liberties@[k2] == j;
                assert(false);
            }
        }
        false
    }

    /// The first adjacent opponent group in atari, reported as its single
    /// remaining liberty.
    fn find_ladder_target(
        vertices: &Vec<u8>,
        next_vertex: &Vec<u16>,
        opp: u8,
        index: usize,
    ) -> (r: Option<usize>)
        requires
            stones_wf(vertices@),
            links_wf(vertices@, next_vertex@),
            index < 361,
            opp == 1 || opp == 2,
        ensures
            r is Some <==> ladder_target(vertices@, next_vertex@, opp, index as int) is Some,
            r matches Some(oi) ==> ladder_target(vertices@, next_vertex@, opp, index as int)
                == Some(oi as int),
    {
        let r_n = Board::dir_target(vertices, next_vertex, opp, north(index));
        if r_n.is_some() {
            return r_n;
        }
        let r_e = Board::dir_target(vertices, next_vertex, opp, east(index));
        if r_e.is_some() {
            return r_e;
        }
        let r_s = Board::dir_target(vertices, next_vertex, opp, south(index));
        if r_s.is_some() {
            return r_s;
        }
        Board::dir_target(vertices, next_vertex, opp, west(index))
    }

    /// The single liberty of the opponent group at `d`, when it has one.
    fn dir_target(vertices: &Vec<u8>, next_vertex: &Vec<u16>, opp: u8, d: usize) -> (r: Option<
        usize,
    >)
        requires
            stones_wf(vertices@),
            links_wf(vertices@, next_vertex@),
            d <= 361,
            opp == 1 || opp == 2,
        ensures
            r is Some <==> dir_target_ok(vertices@, next_vertex@, opp, d as int),
            r matches Some(oi) ==> oi as int == the_liberty(vertices@, next_vertex@, d as int),
    {
        if vertices[d] != opp {
            return None;
        }
        proof {
            assert(d < 361);
            assert(occupied(vertices@, d as int));
        }
        if has_two_liberties_at(vertices, next_vertex, d) {
            return None;
        }
        let r = get_one_liberty(vertices, next_vertex, d);
        proof {
            if r is Some {
                let oi = r->Some_0;
                let tl = the_liberty(vertices@, next_vertex@, d as int);
                assert(is_liberty_of(vertices@, next_vertex@, d as int, tl));
                if oi as int != tl {
                    assert(has_two_spec(vertices@, next_vertex@, d as int));
                }
            }
        }
        r
    }

    /// Whether the extension left a friendly neighbour group of `d` in
    /// atari.
    fn atari_nearby_at(vertices: &Vec<u8>, next_vertex: &Vec<u16>, c: u8, d: usize) -> (r: bool)
        requires
            stones_wf(vertices@),
            links_wf(vertices@, next_vertex@),
            d < 361,
            c == 1 || c == 2,
        ensures
            r == atari_nearby(vertices@, next_vertex@, c, d as int),
    {
        let nb_n = north(d);
        if vertices[nb_n] == c && !has_two_liberties_at(vertices, next_vertex, nb_n) {
            return true;
        }
        let nb_e = east(d);
        if vertices[nb_e] == c && !has_two_liberties_at(vertices, next_vertex, nb_e) {
            return true;
        }
        let nb_s = south(d);
        if vertices[nb_s] == c && !has_two_liberties_at(vertices, next_vertex, nb_s) {
            return true;
        }
        let nb_w = west(d);
        if vertices[nb_w] == c && !has_two_liberties_at(vertices, next_vertex, nb_w) {
            return true;
        }
        false
    }
}

/// The friendly group at `d` is in atari: what an escape move must be
/// adjacent to.
pub open spec fn dir_atari_friend(s: Seq<u8>, n: Seq<u16>, c: u8, d: int) -> bool {
    s[d] == c && !has_two_spec(s, n, d)
}

/// The opponent refutes the escape by starting a winning ladder on the
/// empty vertex `d`.
pub open spec fn escape_refuted(s1: Seq<u8>, n1: Seq<u16>, opp: u8, d: int) -> bool {
    0 <= d < 361 && s1[d] == 0 && ladder_capture_spec(s1, n1, opp, d)
}

/// Whether a stone of color byte `c` on the empty vertex `i` saves a
/// friendly group from a ladder: the stone touches a friendly group in
/// atari, the merged group ends with exactly two liberties, and the
/// opponent cannot win a ladder from any adjacent empty vertex.
pub open spec fn ladder_escape_spec(s: Seq<u8>, n: Seq<u16>, c: u8, i: int) -> bool {
    let opp = opp_byte(c);
    let s1 = s.update(i, c);
    let n1 = pnc_next(s, n, c, i);
    &&& (dir_atari_friend(s, n, c, north_of(i)) || dir_atari_friend(s, n, c, east_of(i))
        || dir_atari_friend(s, n, c, south_of(i)) || dir_atari_friend(s, n, c, west_of(i)))
    &&& lib_count(s1, n1, i) == 2
    &&& !escape_refuted(s1, n1, opp, north_of(i))
    &&& !escape_refuted(s1, n1, opp, east_of(i))
    &&& !escape_refuted(s1, n1, opp, south_of(i))
    &&& !escape_refuted(s1, n1, opp, west_of(i))
}

impl Board {
    /// Whether playing `color` on the empty vertex `index` saves an
    /// adjacent friendly group in atari from a ladder, leaving the merged
    /// group with two liberties that the opponent cannot chase down.
    ///
    /// The caller is expected to offer only pseudo-legal moves.
    pub fn is_ladder_escape(&self, color: Color, index: usize) -> (r: bool)
        requires
            self.wf(),
            index < 361,
            self.vertices@[index as int] == 0,
        ensures
            r == ladder_escape_spec(
                self.vertices@,
                self.next_vertex@,
                color_byte(color),
                index as int,
            ),
    {
        let c = color.byte();
        let opponent = color.opposite();
        let connected_to_one = self.dir_atari_friend_at(c, north(index)) || self.dir_atari_friend_at(
            c,
            east(index),
        ) || self.dir_atari_friend_at(c, south(index)) || self.dir_atari_friend_at(
            c,
            west(index),
        );
        if !connected_to_one {
            return false;
        }
        let mut vertices = copy_row(&self.vertices);
        let mut next_vertex = copy_links(&self.next_vertex);
        place_no_capture(&mut vertices, &mut next_vertex, c, index);
        let libs = num_liberties(&vertices, &next_vertex, index);
        if libs != 2 {
            return false;
        }
        if Board::refutes_escape(&vertices, &next_vertex, opponent, north(index)) {
            return false;
        }
        if Board::refutes_escape(&vertices, &next_vertex, opponent, east(index)) {
            return false;
        }
        if Board::refutes_escape(&vertices, &next_vertex, opponent, south(index)) {
            return false;
        }
        if Board::refutes_escape(&vertices, &next_vertex, opponent, west(index)) {
            return false;
        }
        true
    }

    /// Whether the friendly neighbour group at `d` is in atari.
    fn dir_atari_friend_at(&self, c: u8, d: usize) -> (r: bool)
        requires
            self.wf(),
            d <= 361,
            c == 1 || c == 2,
        ensures
            r == dir_atari_friend(self.vertices@, self.next_vertex@, c, d as int),
    {
        if self.vertices[d] != c {
            return false;
        }
        proof {
            assert(d < 361);
            assert(occupied(self.vertices@, d as int));
        }
        !has_two_liberties_at(&self.vertices, &self.next_vertex, d)
    }

    /// Whether the opponent wins a ladder by playing the vertex at `d`.
    fn refutes_escape(
        vertices: &Vec<u8>,
        next_vertex: &Vec<u16>,
        opponent: Color,
        d: usize,
    ) -> (r: bool)
        requires
            stones_wf(vertices@),
            links_wf(vertices@, next_vertex@),
            d <= 361,
        ensures
            r == escape_refuted(vertices@, next_vertex@, color_byte(opponent), d as int),
    {
        if d >= 361 {
            return false;
        }
        if vertices[d] != 0 {
            return false;
        }
        let mut vs = copy_row(vertices);
        let mut ns = copy_links(next_vertex);
        Board::_is_ladder_capture(&mut vs, &mut ns, opponent, d)
    }
}

/// Copies a next-pointer array.
pub fn copy_links(src: &Vec<u16>) -> (r: Vec<u16>)
    ensures
        r@ == src@,
{
    let mut r: Vec<u16> = Vec::new();
    let mut i: usize = 0;
    while i < src.len()
        invariant
            r@.len() == i,
            i <= src@.len(),
            forall|j: int| 0 <= j < i ==> r@[j] == src@[j],
        decreases src@.len() - i,
    {
        r.push(src[i]);
        i += 1;
    }
    assert(r@ =~= src@);
    r
}

} // verus!
