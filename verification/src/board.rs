//! The board state: vertex colors, cyclic groups, Zobrist hash, move
//! history and the bounded superko set.

use vstd::prelude::*;
use crate::color::{Color, color_byte, opp_byte};
use crate::geometry::{north_of, east_of, south_of, west_of, adjacent, north, east, south, west};
use crate::group::{
    stones_wf, links_wf, occupied, in_orbit, iter_next, is_stone, lemma_orbit_returns,
    lemma_iter_in_orbit, lemma_orbit_sym, lemma_orbit_same,
};
use crate::liberty::{
    has_lib_spec, has_two_spec, has_one_liberty_at, has_two_liberties_at, is_liberty_of,
    group_adjacent,
};
use crate::moves::{pnc_next, zero_orbit, place_no_capture, capture, capture_if, lemma_zero_orbit_wf};
use crate::zobrist::{xor_all, zobrist_at, zobrist_value, lemma_xor_upto_empty, lemma_xor_all_place};
use crate::circular_buf::CircularBuf;
use crate::small_set::SmallSet;

verus! {

/// A 19x19 Go position with its recent history.
pub struct Board {
    /// The color of the stone occupying each vertex: 0 empty, 1 black,
    /// 2 white, 0xff on the seven sentinel cells `361..368`.
    pub vertices: Vec<u8>,
    /// For every occupied vertex, the next stone of the same group; the
    /// next-pointers of a group form one cycle through its stones.
    pub next_vertex: Vec<u16>,
    /// The six most recent post-move snapshots of `vertices`.
    pub history: CircularBuf,
    /// The number of moves played so far.
    pub count: u16,
    /// The Zobrist hash of the current position.
    pub zobrist_hash: u64,
    /// The Zobrist hashes of the most recent positions, for superko.
    pub zobrist_history: SmallSet,
}

/// Whether the move `c` at the empty vertex `i` is pseudo-legal: it has a
/// direct liberty, merges into a friendly group that keeps a liberty, or
/// captures an adjacent opponent group in atari.
pub open spec fn pseudo_legal(s: Seq<u8>, n: Seq<u16>, c: u8, i: int) -> bool {
    &&& 0 <= i < 361
    &&& s[i] == 0
    &&& (s[north_of(i)] == 0 || s[east_of(i)] == 0 || s[south_of(i)] == 0 || s[west_of(i)] == 0
        || dir_saves(s, n, c, north_of(i)) || dir_saves(s, n, c, east_of(i)) || dir_saves(
        s,
        n,
        c,
        south_of(i),
    ) || dir_saves(s, n, c, west_of(i)))
}

/// A stone at `d` lets the move stand: a friendly neighbour group with two
/// liberties, or an opponent neighbour group with only one.
pub open spec fn dir_saves(s: Seq<u8>, n: Seq<u16>, c: u8, d: int) -> bool {
    s[d] != 0xff && s[d] != 0 && ((s[d] == c) == has_two_spec(s, n, d))
}

/// One direction of the capture pass: the neighbour group at `d` is
/// removed when it is opponent-colored and has no liberty left.
pub open spec fn capture_step(s: Seq<u8>, n: Seq<u16>, opp: u8, d: int) -> Seq<u8> {
    if s[d] == opp && !has_lib_spec(s, n, d) {
        zero_orbit(s, n, d)
    } else {
        s
    }
}

/// The vertex colors after a stone of color byte `c` lands on the empty
/// vertex `i`: the stone is written, then each adjacent opponent group
/// without a liberty is removed, in the order north, east, south, west.
pub open spec fn place_stones(s0: Seq<u8>, n0: Seq<u16>, c: u8, i: int) -> Seq<u8> {
    let n = pnc_next(s0, n0, c, i);
    let opp = opp_byte(c);
    let s1 = s0.update(i, c);
    let s2 = capture_step(s1, n, opp, north_of(i));
    let s3 = capture_step(s2, n, opp, east_of(i));
    let s4 = capture_step(s3, n, opp, south_of(i));
    capture_step(s4, n, opp, west_of(i))
}

/// The Zobrist adjustment `_is_ko` pretends for the neighbour group at
/// `d`: the hash distance of removing it, when it is an opponent group
/// with a single liberty (which must then be the played vertex).
pub open spec fn ko_adjust(s: Seq<u8>, n: Seq<u16>, opp: u8, d: int) -> u64 {
    if s[d] == opp && !has_two_spec(s, n, d) {
        xor_all(s) ^ xor_all(zero_orbit(s, n, d))
    } else {
        0
    }
}

/// The position hash the move `c` at `i` would lead to, computed without
/// touching the board.
pub open spec fn tentative_hash(s: Seq<u8>, n: Seq<u16>, h: u64, c: u8, i: int) -> u64 {
    let opp = opp_byte(c);
    ((((h ^ zobrist_at(c as int, i)) ^ ko_adjust(s, n, opp, north_of(i))) ^ ko_adjust(
        s,
        n,
        opp,
        east_of(i),
    )) ^ ko_adjust(s, n, opp, south_of(i))) ^ ko_adjust(s, n, opp, west_of(i))
}

impl Board {
    /// The internal invariant: colors and sentinels are valid, groups are
    /// cycles, the hash matches the position, the newest snapshot is the
    /// current position, and the current hash is recorded for superko.
    pub open spec fn wf(&self) -> bool {
        &&& stones_wf(self.vertices@)
        &&& links_wf(self.vertices@, self.next_vertex@)
        &&& self.zobrist_hash == xor_all(self.vertices@)
        &&& self.history.wf()
        &&& self.zobrist_history.wf()
        &&& self.zobrist_history.count == self.count
        &&& self.zobrist_history.spec_contains(self.zobrist_hash)
        &&& forall|i: int| 0 <= i < 361 ==> self.history.snapshot(0)[i] == self.vertices@[i]
    }

    /// Returns an empty board state: no stones, zero hash, six all-zero
    /// history snapshots and an all-zero superko ring.
    pub fn new() -> (r: Board)
        ensures
            r.wf(),
            forall|i: int| 0 <= i < 361 ==> r.vertices@[i] == 0,
            forall|i: int| 361 <= i < 368 ==> r.vertices@[i] == 0xff,
            r.count == 0,
            r.zobrist_hash == 0,
            forall|k: int, i: int| 0 <= k < 6 && 0 <= i < 368 ==> r.history.snapshot(k)[i] == 0,
            r.zobrist_history.count == 0,
            forall|i: int| 0 <= i < 8 ==> r.zobrist_history.buf@[i] == 0,
            forall|k: int| 0 <= k < 8 ==> r.zobrist_history.recent_seq()[k] == 0,
            no_dead(r.vertices@, r.next_vertex@),
    {
        let mut vertices: Vec<u8> = Vec::new();
        let mut i: usize = 0;
        while i < 368
            invariant
                vertices@.len() == i,
                i <= 368,
                forall|j: int| 0 <= j < i && j < 361 ==> vertices@[j] == 0,
                forall|j: int| 361 <= j < i ==> vertices@[j] == 0xff,
            decreases 368 - i,
        {
            if i < 361 {
                vertices.push(0);
            } else {
                vertices.push(0xff);
            }
            i += 1;
        }
        let mut next_vertex: Vec<u16> = Vec::new();
        let mut j: usize = 0;
        while j < 361
            invariant
                next_vertex@.len() == j,
                j <= 361,
            decreases 361 - j,
        {
            next_vertex.push(0);
            j += 1;
        }
        proof {
            lemma_xor_upto_empty(vertices@, 361);
        }
        let board = Board {
            vertices,
            next_vertex,
            history: CircularBuf::new(),
            count: 0,
            zobrist_hash: 0,
            zobrist_history: SmallSet::new(),
        };
        proof {
            assert(board.zobrist_history.buf@[0] == 0);
            assert(board.zobrist_history.spec_contains(0));
            assert forall|i: int| 0 <= i < 361 implies board.history.snapshot(0)[i]
                == board.vertices@[i] by {
                assert(board.history.snapshot(0)[i] == 0);
            }
            assert forall|v: int| occupied(board.vertices@, v) implies occupied(
                board.vertices@,
                (#[trigger] board.next_vertex@[v]) as int,
            ) && board.vertices@[board.next_vertex@[v] as int] == board.vertices@[v] by {
                assert(board.vertices@[v] == 0);
            }
        }
        board
    }

    /// Returns the width and height of this board.
    pub fn size(&self) -> (r: usize)
        ensures
            r == 19,
    {
        19
    }

    /// Returns the zobrist hash of this board.
    pub fn zobrist_hash(&self) -> (r: u64)
        ensures
            r == self.zobrist_hash,
    {
        self.zobrist_hash
    }

    /// Returns the number of moves that have been played on this board.
    pub fn count(&self) -> (r: u16)
        ensures
            r == self.count,
    {
        self.count
    }

    /// Returns the color of the stone at the given coordinates, if any.
    pub fn at(&self, x: usize, y: usize) -> (r: Option<Color>)
        requires
            self.wf(),
            x < 19,
            y < 19,
        ensures
            r == Some(Color::Black) <==> self.vertices@[19 * y + x] == 1,
            r == Some(Color::White) <==> self.vertices@[19 * y + x] == 2,
            r is None <==> self.vertices@[19 * y + x] == 0,
    {
        let index = 19 * y + x;
        if self.vertices[index] == 1 {
            Some(Color::Black)
        } else if self.vertices[index] == 2 {
            Some(Color::White)
        } else {
            None
        }
    }

    /// Whether the move is pseudo-legal under the Tromp-Taylor rules:
    /// the vertex is empty and the stone would keep at least one liberty,
    /// by an empty neighbour, a friendly group with two liberties, or the
    /// capture of an opponent group in atari.
    pub fn _is_valid(&self, color: Color, index: usize) -> (r: bool)
        requires
            self.wf(),
            index < 361,
        ensures
            r == pseudo_legal(self.vertices@, self.next_vertex@, color_byte(color), index as int),
    {
        let c = color.byte();
        if self.vertices[index] != 0 {
            return false;
        }
        let nb_n = north(index);
        let nb_e = east(index);
        let nb_s = south(index);
        let nb_w = west(index);
        if self.vertices[nb_n] == 0 || self.vertices[nb_e] == 0 || self.vertices[nb_s] == 0
            || self.vertices[nb_w] == 0 {
            return true;
        }
        if self.dir_saves_at(c, nb_n) {
            return true;
        }
        if self.dir_saves_at(c, nb_e) {
            return true;
        }
        if self.dir_saves_at(c, nb_s) {
            return true;
        }
        if self.dir_saves_at(c, nb_w) {
            return true;
        }
        false
    }

    /// Whether the neighbour stone at `d` makes the move pseudo-legal.
    fn dir_saves_at(&self, c: u8, d: usize) -> (r: bool)
        requires
            self.wf(),
            d <= 361,
        ensures
            r == dir_saves(self.vertices@, self.next_vertex@, c, d as int),
    {
        let v = self.vertices[d];
        if v == 0xff || v == 0 {
            return false;
        }
        proof {
            assert(d < 361);
            assert(occupied(self.vertices@, d as int));
        }
        let two = has_two_liberties_at(&self.vertices, &self.next_vertex, d);
        (v == c) == two
    }

    /// Whether playing `color` at `index` would recreate a recent
    /// position: the hash the move would lead to is computed without
    /// mutating the board and looked up in the superko history.
    pub fn _is_ko(&self, color: Color, index: usize) -> (r: bool)
        requires
            self.wf(),
            index < 361,
            self.vertices@[index as int] == 0,
        ensures
            r == self.zobrist_history.spec_contains(
                tentative_hash(
                    self.vertices@,
                    self.next_vertex@,
                    self.zobrist_hash,
                    color_byte(color),
                    index as int,
                ),
            ),
    {
        let c = color.byte();
        let opp = color.opposite().byte();
        let ghost s = self.vertices@;
        let ghost n = self.next_vertex@;
        let mut pretend: u64 = self.zobrist_hash ^ zobrist_value(c, index);
        pretend = pretend ^ self.ko_adjust_at(opp, north(index));
        pretend = pretend ^ self.ko_adjust_at(opp, east(index));
        pretend = pretend ^ self.ko_adjust_at(opp, south(index));
        pretend = pretend ^ self.ko_adjust_at(opp, west(index));
        self.zobrist_history.contains(pretend)
    }

    /// The pretended capture adjustment for the neighbour at `d`.
    fn ko_adjust_at(&self, opp: u8, d: usize) -> (r: u64)
        requires
            self.wf(),
            d <= 361,
            opp == 1 || opp == 2,
        ensures
            r == ko_adjust(self.vertices@, self.next_vertex@, opp, d as int),
    {
        if self.vertices[d] == opp {
            proof {
                assert(d < 361);
                assert(occupied(self.vertices@, d as int));
            }
            if !has_two_liberties_at(&self.vertices, &self.next_vertex, d) {
                capture_if(&self.vertices, &self.next_vertex, opp, d)
            } else {
                0
            }
        } else {
            0
        }
    }

    /// Whether the given move is valid under the Tromp-Taylor rules with
    /// positional superko: it is pseudo-legal and does not recreate a
    /// recent position.
    pub fn is_valid(&self, color: Color, x: usize, y: usize) -> (r: bool)
        requires
            self.wf(),
            x < 19,
            y < 19,
        ensures
            r == (pseudo_legal(self.vertices@, self.next_vertex@, color_byte(color), 19 * y + x)
                && !self.zobrist_history.spec_contains(
                tentative_hash(
                    self.vertices@,
                    self.next_vertex@,
                    self.zobrist_hash,
                    color_byte(color),
                    19 * y + x,
                ),
            )),
    {
        let index = 19 * y + x;
        self._is_valid(color, index) && !self._is_ko(color, index)
    }

    /// Plays a stone on the given empty vertex: the stone is written and
    /// linked with its friendly neighbours, the hash is advanced, adjacent
    /// opponent groups without liberties are captured, and the resulting
    /// position is pushed into both histories.
    ///
    /// Legality is not checked here; callers gate on `is_valid`. A move
    /// that is a suicide leaves its own group on the board with no
    /// liberties, as the capture pass clears opponent groups only.
    pub fn place(&mut self, color: Color, x: usize, y: usize)
        requires
            old(self).wf(),
            x < 19,
            y < 19,
            old(self).vertices@[19 * y + x] == 0,
            old(self).count < 65535,
        ensures
            final(self).wf(),
            final(self).vertices@ == place_stones(
                old(self).vertices@,
                old(self).next_vertex@,
                color_byte(color),
                19 * y + x,
            ),
            final(self).next_vertex@ == pnc_next(
                old(self).vertices@,
                old(self).next_vertex@,
                color_byte(color),
                19 * y + x,
            ),
            final(self).count == old(self).count + 1,
            final(self).zobrist_hash == xor_all(final(self).vertices@),
            final(self).zobrist_history.spec_contains(final(self).zobrist_hash),
            final(self).history.snapshot(0) == final(self).vertices@,
            forall|k: int|
                1 <= k < 6 ==> final(self).history.snapshot(k) == old(self).history.snapshot(
                    k - 1,
                ),
            final(self).zobrist_history.buf@ == old(self).zobrist_history.buf@.update(
                ((old(self).count as int) % 8),
                final(self).zobrist_hash,
            ),
            pseudo_legal(old(self).vertices@, old(self).next_vertex@, color_byte(color), 19 * y
                + x) && no_dead(old(self).vertices@, old(self).next_vertex@) ==> no_dead(
                final(self).vertices@,
                final(self).next_vertex@,
            ),
    {
        let index = 19 * y + x;
        let c = color.byte();
        let opp = color.opposite().byte();
        let ghost s0 = self.vertices@;
        let ghost n0 = self.next_vertex@;
        place_no_capture(&mut self.vertices, &mut self.next_vertex, c, index);
        let ghost n = self.next_vertex@;
        self.count = self.count + 1;
        proof {
            lemma_xor_all_place(s0, c, index as int);
        }
        self.zobrist_hash = self.zobrist_hash ^ zobrist_value(c, index);
        let ghost s1 = self.vertices@;
        self.capture_pass(opp, north(index));
        let ghost s2 = self.vertices@;
        self.capture_pass(opp, east(index));
        let ghost s3 = self.vertices@;
        self.capture_pass(opp, south(index));
        let ghost s4 = self.vertices@;
        self.capture_pass(opp, west(index));
        proof {
            assert(s2 == capture_step(s1, n, opp, north_of(index as int)));
            assert(s3 == capture_step(s2, n, opp, east_of(index as int)));
            assert(s4 == capture_step(s3, n, opp, south_of(index as int)));
            assert(self.vertices@ == capture_step(s4, n, opp, west_of(index as int)));
        }
        self.history.push(&self.vertices);
        self.zobrist_history.push(self.zobrist_hash);
        proof {
            if pseudo_legal(s0, n0, c, index as int) && no_dead(s0, n0) {
                lemma_gated_place_keeps_liberties(s0, n0, c, index as int);
            }
        }
    }

    /// One direction of the capture pass in `place`.
    fn capture_pass(&mut self, opp: u8, d: usize)
        requires
            stones_wf(old(self).vertices@),
            links_wf(old(self).vertices@, old(self).next_vertex@),
            old(self).zobrist_hash == xor_all(old(self).vertices@),
            opp == 1 || opp == 2,
            d <= 361,
        ensures
            final(self).vertices@ == capture_step(
                old(self).vertices@,
                old(self).next_vertex@,
                opp,
                d as int,
            ),
            final(self).next_vertex@ == old(self).next_vertex@,
            final(self).zobrist_hash == xor_all(final(self).vertices@),
            stones_wf(final(self).vertices@),
            links_wf(final(self).vertices@, final(self).next_vertex@),
            final(self).history == old(self).history,
            final(self).count == old(self).count,
            final(self).zobrist_history == old(self).zobrist_history,
    {
        if self.vertices[d] == opp {
            proof {
                assert(d < 361);
                assert(occupied(self.vertices@, d as int));
            }
            if !has_one_liberty_at(&self.vertices, &self.next_vertex, d) {
                let next_ref = &self.next_vertex;
                capture(&mut self.vertices, next_ref, &mut self.zobrist_hash, d);
            }
        }
    }
}

impl Clone for Board {
    /// A deep value clone: the copy shows the same position, histories and
    /// hash, and later moves on either board leave the other untouched.
    fn clone(&self) -> (r: Board)
        ensures
            r.vertices@ == self.vertices@,
            r.next_vertex@ == self.next_vertex@,
            r.count == self.count,
            r.zobrist_hash == self.zobrist_hash,
            r.zobrist_history.buf@ == self.zobrist_history.buf@,
            r.zobrist_history.count == self.zobrist_history.count,
            r.history.position == self.history.position,
            r.history.buf@.len() == self.history.buf@.len(),
            forall|i: int|
                0 <= i < self.history.buf@.len() ==> (#[trigger] r.history.buf@[i])@
                    == self.history.buf@[i]@,
            self.wf() ==> r.wf(),
            self.wf() ==> board_eq(&r, self),
    {
        let r = Board {
            vertices: crate::circular_buf::copy_row(&self.vertices),
            next_vertex: crate::ladder::copy_links(&self.next_vertex),
            history: self.history.clone(),
            count: self.count,
            zobrist_hash: self.zobrist_hash,
            zobrist_history: self.zobrist_history.clone(),
        };
        proof {
            if self.wf() {
                assert forall|i: int| 0 <= i < 361 implies r.history.snapshot(0)[i]
                    == r.vertices@[i] by {
                    assert(r.history.snapshot(0) == self.history.snapshot(0));
                }
            }
            assert(r.zobrist_history.recent_seq() =~= self.zobrist_history.recent_seq());
            assert(r.zobrist_history.history_seq() == self.zobrist_history.history_seq());
        }
        r
    }
}

impl Board {
    /// The recorded superko hashes, newest first: the board's identity for
    /// hashing purposes, exactly the sequence that equality compares.
    pub fn history_hashes(&self) -> (r: Vec<u64>)
        requires
            self.wf(),
        ensures
            r@ == self.zobrist_history.recent_seq(),
            r@ == self.zobrist_history.history_seq(),
    {
        let mut r: Vec<u64> = Vec::new();
        let mut k: usize = 0;
        while k < 8
            invariant
                self.wf(),
                r@.len() == k,
                k <= 8,
                forall|j: int| 0 <= j < k ==> r@[j] == self.zobrist_history.recent_seq()[j],
            decreases 8 - k,
        {
            r.push(self.zobrist_history.recent(k));
            k += 1;
        }
        proof {
            assert(r@ =~= self.zobrist_history.recent_seq());
        }
        r
    }
}

/// Two boards are equal when their vertex arrays match stone for stone and
/// their superko histories match element-wise, newest first. The history
/// is part of equality on purpose: the recent feature planes and the
/// superko answers distinguish otherwise-identical positions.
pub open spec fn board_eq(a: &Board, b: &Board) -> bool {
    &&& a.vertices@ == b.vertices@
    &&& a.zobrist_history.history_seq() == b.zobrist_history.history_seq()
}

impl PartialEq for Board {
    fn eq(&self, other: &Board) -> (r: bool) {
        if self.vertices.len() != other.vertices.len() {
            return false;
        }
        let mut i: usize = 0;
        while i < self.vertices.len()
            invariant
                self.vertices@.len() == other.vertices@.len(),
                i <= self.vertices@.len(),
                forall|j: int| 0 <= j < i ==> self.vertices@[j] == other.vertices@[j],
            decreases self.vertices@.len() - i,
        {
            if self.vertices[i] != other.vertices[i] {
                return false;
            }
            i += 1;
        }
        proof {
            assert(self.vertices@ =~= other.vertices@);
        }
        let a = &self.zobrist_history;
        let b = &other.zobrist_history;
        if a.buf.len() == 8 && b.buf.len() == 8 {
            let same = a.same_history(b);
            proof {
                if a.recent_seq() =~= b.recent_seq() {
                    assert(a.history_seq() == b.history_seq());
                } else {
                    assert(a.history_seq() != b.history_seq());
                }
            }
            same
        } else if a.buf.len() != 8 && b.buf.len() != 8 {
            if a.buf.len() != b.buf.len() {
                return false;
            }
            let mut k: usize = 0;
            while k < a.buf.len()
                invariant
                    self.vertices@ == other.vertices@,
                    a == &self.zobrist_history,
                    b == &other.zobrist_history,
                    a.buf@.len() != 8,
                    a.buf@.len() == b.buf@.len(),
                    k <= a.buf@.len(),
                    forall|j: int| 0 <= j < k ==> a.buf@[j] == b.buf@[j],
                decreases a.buf@.len() - k,
            {
                if a.buf[k] != b.buf[k] {
                    return false;
                }
                k += 1;
            }
            proof {
                assert(a.buf@ =~= b.buf@);
            }
            true
        } else {
            proof {
                assert(a.history_seq().len() != b.history_seq().len());
            }
            false
        }
    }
}

impl vstd::std_specs::cmp::PartialEqSpecImpl for Board {
    open spec fn obeys_eq_spec() -> bool {
        true
    }

    open spec fn eq_spec(&self, other: &Board) -> bool {
        board_eq(self, other)
    }
}

impl Eq for Board {

}

/// No occupied group is without a liberty.
pub open spec fn no_dead(s: Seq<u8>, n: Seq<u16>) -> bool {
    forall|v: int| #[trigger] occupied(s, v) ==> has_lib_spec(s, n, v)
}

/// Stones on one cycle have one color.
proof fn lemma_orbit_color(s: Seq<u8>, n: Seq<u16>, v: int, w: int)
    requires
        stones_wf(s),
        links_wf(s, n),
        occupied(s, v),
        in_orbit(n, v, w),
    ensures
        s[w] == s[v],
        occupied(s, w),
{
    let k = choose|k: nat| k < 361 && crate::group::iter_next(n, v, k) == w;
    crate::group::lemma_iter_in_orbit(s, n, v, k);
}

/// What one direction of the capture pass can do to the position: it
/// keeps it well formed, only empties cells, never touches a cell of
/// another color than the captured one, and removes whole cycles.
proof fn lemma_capture_step_facts(s: Seq<u8>, n: Seq<u16>, opp: u8, d: int)
    requires
        stones_wf(s),
        links_wf(s, n),
        is_stone(opp),
        0 <= d <= 361,
    ensures
        stones_wf(capture_step(s, n, opp, d)),
        links_wf(capture_step(s, n, opp, d), n),
        forall|j: int|
            0 <= j < 368 ==> #[trigger] capture_step(s, n, opp, d)[j] == s[j] || capture_step(
                s,
                n,
                opp,
                d,
            )[j] == 0,
        forall|j: int|
            0 <= j < 368 && s[j] != opp ==> #[trigger] capture_step(s, n, opp, d)[j] == s[j],
        forall|v: int|
            occupied(s, v) && capture_step(s, n, opp, d)[v] == 0 ==> forall|u: int|
                #[trigger] in_orbit(n, v, u) ==> capture_step(s, n, opp, d)[u] == 0,
{
    let cs = capture_step(s, n, opp, d);
    if s[d] == opp && !has_lib_spec(s, n, d) {
        assert(d != 361);
        assert(0 <= d < 361);
        assert(occupied(s, d));
        lemma_zero_orbit_wf(s, n, d);
        assert forall|j: int| 0 <= j < 368 && s[j] != opp implies #[trigger] cs[j] == s[j] by {
            if in_orbit(n, d, j) {
                lemma_orbit_color(s, n, d, j);
            }
        }
        assert forall|v: int|
            occupied(s, v) && cs[v] == 0 implies forall|u: int|
                #[trigger] in_orbit(n, v, u) ==> cs[u] == 0 by {
            assert(in_orbit(n, d, v));
            assert forall|u: int| #[trigger] in_orbit(n, v, u) implies cs[u] == 0 by {
                lemma_orbit_same(s, n, d, v);
                assert(in_orbit(n, d, u));
                lemma_orbit_sym(s, n, d, u);
            }
        }
    }
}

/// Under legality gating, placement keeps every group alive: played on a
/// pseudo-legal vertex of a position without dead groups, the resulting
/// position has none either.
#[verifier::rlimit(100)]
pub proof fn lemma_gated_place_keeps_liberties(s0: Seq<u8>, n0: Seq<u16>, c: u8, i: int)
    requires
        stones_wf(s0),
        links_wf(s0, n0),
        is_stone(c),
        pseudo_legal(s0, n0, c, i),
        no_dead(s0, n0),
    ensures
        no_dead(place_stones(s0, n0, c, i), pnc_next(s0, n0, c, i)),
{
    let n = pnc_next(s0, n0, c, i);
    let opp = opp_byte(c);
    let s1 = s0.update(i, c);
    crate::moves::lemma_pnc_wf(s0, n0, c, i);
    crate::moves::lemma_pnc_orbits(s0, n0, c, i);
    let s2 = capture_step(s1, n, opp, north_of(i));
    let s3 = capture_step(s2, n, opp, east_of(i));
    let s4 = capture_step(s3, n, opp, south_of(i));
    let sf = capture_step(s4, n, opp, west_of(i));
    assert(sf == place_stones(s0, n0, c, i));
    lemma_capture_step_facts(s1, n, opp, north_of(i));
    lemma_capture_step_facts(s2, n, opp, east_of(i));
    lemma_capture_step_facts(s3, n, opp, south_of(i));
    lemma_capture_step_facts(s4, n, opp, west_of(i));
    assert(forall|x: int| 0 <= x < 368 ==> #[trigger] sf[x] == s1[x] || sf[x] == 0);
    assert forall|v: int| #[trigger] occupied(sf, v) implies has_lib_spec(sf, n, v) by {
        assert(occupied(s4, v) && occupied(s3, v) && occupied(s2, v) && occupied(s1, v));
        assert(sf[v] == s1[v]);
        if in_orbit(n, i, v) {
            lemma_merged_has_lib(s0, n0, c, i, v);
        } else {
            lemma_outsider_has_lib(s0, n0, c, i, v);
        }
    }
}

/// Every vertex of the merged group still has a liberty after the capture
/// pass of a pseudo-legal placement.
#[verifier::rlimit(100)]
proof fn lemma_merged_has_lib(s0: Seq<u8>, n0: Seq<u16>, c: u8, i: int, v: int)
    requires
        stones_wf(s0),
        links_wf(s0, n0),
        is_stone(c),
        pseudo_legal(s0, n0, c, i),
        in_orbit(pnc_next(s0, n0, c, i), i, v),
        occupied(s0.update(i, c), v),
    ensures
        has_lib_spec(place_stones(s0, n0, c, i), pnc_next(s0, n0, c, i), v),
{
    let n = pnc_next(s0, n0, c, i);
    let opp = opp_byte(c);
    let s1 = s0.update(i, c);
    crate::moves::lemma_pnc_wf(s0, n0, c, i);
    crate::moves::lemma_pnc_orbits(s0, n0, c, i);
    let s2 = capture_step(s1, n, opp, north_of(i));
    let s3 = capture_step(s2, n, opp, east_of(i));
    let s4 = capture_step(s3, n, opp, south_of(i));
    let sf = capture_step(s4, n, opp, west_of(i));
    lemma_capture_step_facts(s1, n, opp, north_of(i));
    lemma_capture_step_facts(s2, n, opp, east_of(i));
    lemma_capture_step_facts(s3, n, opp, south_of(i));
    lemma_capture_step_facts(s4, n, opp, west_of(i));
    assert(forall|x: int| 0 <= x < 368 ==> #[trigger] sf[x] == s1[x] || sf[x] == 0);
    assert(in_orbit(n, i, i)) by {
        assert(crate::group::iter_next(n, i, 0) == i);
    }
    lemma_orbit_sym(s1, n, i, v);
    // any cell that becomes or stays empty next to the new stone serves
    if s0[north_of(i)] == 0 || s0[east_of(i)] == 0 || s0[south_of(i)] == 0 || s0[west_of(i)]
        == 0 || sf[north_of(i)] == 0 || sf[east_of(i)] == 0 || sf[south_of(i)] == 0 || sf[west_of(
        i,
    )] == 0 {
        let e = if s0[north_of(i)] == 0 || sf[north_of(i)] == 0 {
            north_of(i)
        } else if s0[east_of(i)] == 0 || sf[east_of(i)] == 0 {
            east_of(i)
        } else if s0[south_of(i)] == 0 || sf[south_of(i)] == 0 {
            south_of(i)
        } else {
            west_of(i)
        };
        assert(0 <= e < 361) by {
            if s0[e] == 0 {
            } else {
                assert(sf[e] == 0);
                if e == 361 {
                    assert(s1[e] == 0xff);
                    assert(sf[e] == 0xff || sf[e] == 0);
                    assert(sf[e] == 0);
                    assert(s1[e] != opp);
                    assert(s2[e] == s1[e] && s3[e] == s2[e] && s4[e] == s3[e] && sf[e] == s4[e]);
                    assert(false);
                }
            }
        }
        assert(sf[e] == 0) by {
            if s0[e] == 0 {
                assert(e != i);
                assert(s1[e] == 0);
            }
        }
        assert(group_adjacent(n, v, e)) by {
            assert(in_orbit(n, v, i) && adjacent(i, e));
        }
        assert(is_liberty_of(sf, n, v, e));
    } else {
        // no neighbour of the stone ends empty: pseudo-legality leaves a
        // friendly group that kept a second liberty elsewhere
        assert(!(s1[north_of(i)] == 0 || s1[east_of(i)] == 0 || s1[south_of(i)] == 0 || s1[west_of(
            i,
        )] == 0)) by {
            assert(north_of(i) != i && east_of(i) != i && south_of(i) != i && west_of(i) != i);
        }
        // a capture would have emptied a neighbour cell, so none fired;
        // every stage is s1 itself
        assert(s2 == s1 && s3 == s2 && s4 == s3 && sf == s4) by {
            if s2 != s1 {
                assert(s1[north_of(i)] == opp && !has_lib_spec(s1, n, north_of(i)));
                assert(in_orbit(n, north_of(i), north_of(i))) by {
                    assert(crate::group::iter_next(n, north_of(i), 0) == north_of(i));
                }
                assert(s2[north_of(i)] == 0);
                assert(sf[north_of(i)] == 0);
                assert(false);
            }
            if s3 != s2 {
                assert(s2[east_of(i)] == opp && !has_lib_spec(s2, n, east_of(i)));
                assert(in_orbit(n, east_of(i), east_of(i))) by {
                    assert(crate::group::iter_next(n, east_of(i), 0) == east_of(i));
                }
                assert(s3[east_of(i)] == 0);
                assert(sf[east_of(i)] == 0);
                assert(false);
            }
            if s4 != s3 {
                assert(s3[south_of(i)] == opp && !has_lib_spec(s3, n, south_of(i)));
                assert(in_orbit(n, south_of(i), south_of(i))) by {
                    assert(crate::group::iter_next(n, south_of(i), 0) == south_of(i));
                }
                assert(s4[south_of(i)] == 0);
                assert(sf[south_of(i)] == 0);
                assert(false);
            }
            if sf != s4 {
                assert(s4[west_of(i)] == opp && !has_lib_spec(s4, n, west_of(i)));
                assert(in_orbit(n, west_of(i), west_of(i))) by {
                    assert(crate::group::iter_next(n, west_of(i), 0) == west_of(i));
                }
                assert(sf[west_of(i)] == 0);
                assert(false);
            }
        }
        // the pseudo-legal disjunct in force is a friendly neighbour with
        // two liberties: an opponent neighbour in atari would have been
        // captured, emptying its cell
        let d = if dir_saves(s0, n0, c, north_of(i)) && s0[north_of(i)] == c {
            north_of(i)
        } else if dir_saves(s0, n0, c, east_of(i)) && s0[east_of(i)] == c {
            east_of(i)
        } else if dir_saves(s0, n0, c, south_of(i)) && s0[south_of(i)] == c {
            south_of(i)
        } else if dir_saves(s0, n0, c, west_of(i)) && s0[west_of(i)] == c {
            west_of(i)
        } else {
            west_of(i)
        };
        assert(s0[d] == c && has_two_spec(s0, n0, d)) by {
            if !(dir_saves(s0, n0, c, north_of(i)) && s0[north_of(i)] == c) && !(dir_saves(
                s0,
                n0,
                c,
                east_of(i),
            ) && s0[east_of(i)] == c) && !(dir_saves(s0, n0, c, south_of(i)) && s0[south_of(i)]
                == c) && !(dir_saves(s0, n0, c, west_of(i)) && s0[west_of(i)] == c) {
                // then some opponent neighbour had a single liberty: that
                // liberty is the played vertex, so its capture fires
                let a = if dir_saves(s0, n0, c, north_of(i)) {
                    north_of(i)
                } else if dir_saves(s0, n0, c, east_of(i)) {
                    east_of(i)
                } else if dir_saves(s0, n0, c, south_of(i)) {
                    south_of(i)
                } else {
                    west_of(i)
                };
                assert(dir_saves(s0, n0, c, a));
                assert(s0[a] == opp && !has_two_spec(s0, n0, a)) by {
                    assert(s0[a] != 0xff && s0[a] != 0);
                }
                assert(0 <= a < 361 && occupied(s0, a) && adjacent(i, a));
                // its cycle stands apart from the merged one: the colors differ
                assert(!in_orbit(n, i, a)) by {
                    if crate::moves::merged_members(s0, n0, c, i, a) {
                        if s0[north_of(i)] == c && in_orbit(n0, north_of(i), a) {
                            lemma_orbit_color(s0, n0, north_of(i), a);
                        }
                        if s0[east_of(i)] == c && in_orbit(n0, east_of(i), a) {
                            lemma_orbit_color(s0, n0, east_of(i), a);
                        }
                        if s0[south_of(i)] == c && in_orbit(n0, south_of(i), a) {
                            lemma_orbit_color(s0, n0, south_of(i), a);
                        }
                        if s0[west_of(i)] == c && in_orbit(n0, west_of(i), a) {
                            lemma_orbit_color(s0, n0, west_of(i), a);
                        }
                        assert(false);
                    }
                }
                assert(forall|w: int| in_orbit(n, a, w) <==> #[trigger] in_orbit(n0, a, w));
                // the played vertex was its single liberty
                lemma_adjacent_sym_board(i, a);
                assert(is_liberty_of(s0, n0, a, i)) by {
                    assert(in_orbit(n0, a, a)) by {
                        assert(crate::group::iter_next(n0, a, 0) == a);
                    }
                    assert(adjacent(a, i));
                }
                assert forall|j: int| #[trigger] is_liberty_of(s0, n0, a, j) implies j == i by {
                    if j != i {
                        assert(has_two_spec(s0, n0, a));
                    }
                }
                // after the placement it has none at all
                assert(!has_lib_spec(s1, n, a)) by {
                    if has_lib_spec(s1, n, a) {
                        let j = choose|j: int| #[trigger] is_liberty_of(s1, n, a, j);
                        let w = choose|w: int| #[trigger] in_orbit(n, a, w) && adjacent(w, j);
                        assert(s1[j] == 0);
                        assert(j != i && s0[j] == 0);
                        assert(in_orbit(n0, a, w));
                        assert(is_liberty_of(s0, n0, a, j));
                        assert(false);
                    }
                }
                // so its own direction's step fires, and a stage changes
                if a == north_of(i) {
                    assert(s2 == zero_orbit(s1, n, a));
                    assert(in_orbit(n, a, a)) by {
                        assert(crate::group::iter_next(n, a, 0) == a);
                    }
                    assert(s2[a] == 0);
                    assert(s2[a] == s1[a]);
                    assert(false);
                } else if a == east_of(i) {
                    assert(s3 == zero_orbit(s2, n, a));
                    assert(in_orbit(n, a, a)) by {
                        assert(crate::group::iter_next(n, a, 0) == a);
                    }
                    assert(s3[a] == 0);
                    assert(s3[a] == s1[a]);
                    assert(false);
                } else if a == south_of(i) {
                    assert(s4 == zero_orbit(s3, n, a));
                    assert(in_orbit(n, a, a)) by {
                        assert(crate::group::iter_next(n, a, 0) == a);
                    }
                    assert(s4[a] == 0);
                    assert(s4[a] == s1[a]);
                    assert(false);
                } else {
                    assert(a == west_of(i));
                    assert(sf == zero_orbit(s4, n, a));
                    assert(in_orbit(n, a, a)) by {
                        assert(crate::group::iter_next(n, a, 0) == a);
                    }
                    assert(sf[a] == 0);
                    assert(sf[a] == s1[a]);
                    assert(false);
                }
            }
        }
        assert(0 <= d < 361 && occupied(s0, d));
        let (j1, j2) = choose|j1: int, j2: int|
            j1 != j2 && #[trigger] is_liberty_of(s0, n0, d, j1) && #[trigger] is_liberty_of(
                s0,
                n0,
                d,
                j2,
            );
        let j = if j1 != i {
            j1
        } else {
            j2
        };
        assert(is_liberty_of(s0, n0, d, j) && j != i);
        let w0 = choose|w0: int| #[trigger] in_orbit(n0, d, w0) && adjacent(w0, j);
        assert(in_orbit(n, i, w0)) by {
            assert(crate::moves::merged_members(s0, n0, c, i, w0));
        }
        assert(s1[j] == 0);
        assert(sf[j] == 0);
        assert(group_adjacent(n, v, j)) by {
            lemma_orbit_same(s1, n, i, v);
            assert(in_orbit(n, v, w0));
        }
        assert(is_liberty_of(sf, n, v, j));
    }
}

/// Adjacency of the played vertex and a neighbour, in both directions.
proof fn lemma_adjacent_sym_board(i: int, a: int)
    requires
        0 <= i < 361,
        0 <= a < 361,
        adjacent(i, a),
    ensures
        adjacent(a, i),
{
    crate::geometry::lemma_adjacent_sym(i, a);
}

/// Every group that stands outside the merged one still has a liberty
/// after the capture pass of any placement on an all-alive position.
#[verifier::rlimit(100)]
proof fn lemma_outsider_has_lib(s0: Seq<u8>, n0: Seq<u16>, c: u8, i: int, v: int)
    requires
        stones_wf(s0),
        links_wf(s0, n0),
        is_stone(c),
        0 <= i < 361,
        s0[i] == 0,
        no_dead(s0, n0),
        !in_orbit(pnc_next(s0, n0, c, i), i, v),
        occupied(place_stones(s0, n0, c, i), v),
    ensures
        has_lib_spec(place_stones(s0, n0, c, i), pnc_next(s0, n0, c, i), v),
{
    let n = pnc_next(s0, n0, c, i);
    let opp = opp_byte(c);
    let s1 = s0.update(i, c);
    crate::moves::lemma_pnc_wf(s0, n0, c, i);
    crate::moves::lemma_pnc_orbits(s0, n0, c, i);
    let s2 = capture_step(s1, n, opp, north_of(i));
    let s3 = capture_step(s2, n, opp, east_of(i));
    let s4 = capture_step(s3, n, opp, south_of(i));
    let sf = capture_step(s4, n, opp, west_of(i));
    lemma_capture_step_facts(s1, n, opp, north_of(i));
    lemma_capture_step_facts(s2, n, opp, east_of(i));
    lemma_capture_step_facts(s3, n, opp, south_of(i));
    lemma_capture_step_facts(s4, n, opp, west_of(i));
    assert(occupied(s4, v) && occupied(s3, v) && occupied(s2, v) && occupied(s1, v));
    assert(v != i) by {
        assert(in_orbit(n, i, i)) by {
            assert(crate::group::iter_next(n, i, 0) == i);
        }
    }
    assert(occupied(s0, v));
    assert(forall|w: int| in_orbit(n, v, w) <==> #[trigger] in_orbit(n0, v, w));
    assert(has_lib_spec(s0, n0, v));
    if exists|j: int| #[trigger] is_liberty_of(s0, n0, v, j) && j != i {
        let j = choose|j: int| #[trigger] is_liberty_of(s0, n0, v, j) && j != i;
        let w0 = choose|w0: int| #[trigger] in_orbit(n0, v, w0) && adjacent(w0, j);
        assert(s1[j] == 0);
        assert(sf[j] == 0) by {
            assert(forall|x: int| 0 <= x < 368 ==> #[trigger] sf[x] == s1[x] || sf[x] == 0);
        }
        assert(in_orbit(n, v, w0));
        assert(is_liberty_of(sf, n, v, j));
    } else {
        // the group's only liberty in the old position was the played
        // vertex: its member next to that vertex is an opponent stone, and
        // its group is either captured (it is not: `v` still stands) or it
        // was saved by an earlier capture emptying one of its neighbours
        let j0 = choose|j0: int| #[trigger] is_liberty_of(s0, n0, v, j0);
        assert(j0 == i);
        let w1 = choose|w1: int| #[trigger] in_orbit(n0, v, w1) && adjacent(w1, i);
        lemma_orbit_color(s0, n0, v, w1);
        lemma_adjacent_sym_board(w1, i);
        assert(adjacent(i, w1));
        assert(w1 == north_of(i) || w1 == east_of(i) || w1 == south_of(i) || w1 == west_of(i));
        assert(s0[v] != c) by {
            if s0[v] == c {
                assert(s0[w1] == c);
                lemma_orbit_sym(s0, n0, v, w1);
                assert(in_orbit(n0, w1, v));
                assert(crate::moves::merged_members(s0, n0, c, i, v));
                assert(in_orbit(n, i, v));
                assert(false);
            }
        }
        assert(s0[v] == opp);
        assert(s0[w1] == opp);
        // w1's own group is v's group; walk the four capture stages
        lemma_orbit_sym(s0, n0, v, w1);
        lemma_orbit_same(s0, n0, v, w1);
        assert(in_orbit(n0, w1, v));
        assert(forall|u: int| in_orbit(n0, w1, u) <==> #[trigger] in_orbit(n0, v, u));
        assert(!in_orbit(n, i, w1)) by {
            if crate::moves::merged_members(s0, n0, c, i, w1) {
                if s0[north_of(i)] == c && in_orbit(n0, north_of(i), w1) {
                    lemma_orbit_color(s0, n0, north_of(i), w1);
                }
                if s0[east_of(i)] == c && in_orbit(n0, east_of(i), w1) {
                    lemma_orbit_color(s0, n0, east_of(i), w1);
                }
                if s0[south_of(i)] == c && in_orbit(n0, south_of(i), w1) {
                    lemma_orbit_color(s0, n0, south_of(i), w1);
                }
                if s0[west_of(i)] == c && in_orbit(n0, west_of(i), w1) {
                    lemma_orbit_color(s0, n0, west_of(i), w1);
                }
                assert(false);
            }
        }
        assert(forall|u: int| in_orbit(n, w1, u) <==> #[trigger] in_orbit(n0, w1, u));
        assert(in_orbit(n, w1, v) && in_orbit(n, v, w1));
        // the stage before w1's own capture direction
        let sx = if w1 == north_of(i) {
            s1
        } else if w1 == east_of(i) {
            s2
        } else if w1 == south_of(i) {
            s3
        } else {
            s4
        };
        assert(sx[w1] == opp) by {
            assert(s1[w1] == opp);
            assert(s2[w1] == s1[w1] || s2[w1] == 0);
            assert(s3[w1] == s2[w1] || s3[w1] == 0);
            assert(s4[w1] == s3[w1] || s4[w1] == 0);
            if w1 != north_of(i) && s2[w1] == 0 {
                lemma_group_zeroed(s1, s2, n, opp, north_of(i), w1, v);
                assert(s2[v] == 0);
                assert(false);
            }
            if w1 != north_of(i) && w1 != east_of(i) && s3[w1] == 0 {
                lemma_group_zeroed(s2, s3, n, opp, east_of(i), w1, v);
                assert(s3[v] == 0);
                assert(false);
            }
            if w1 == west_of(i) && s4[w1] == 0 {
                lemma_group_zeroed(s3, s4, n, opp, south_of(i), w1, v);
                assert(s4[v] == 0);
                assert(false);
            }
        }
        // at that stage the step must not capture it, since `v` survives
        assert(has_lib_spec(sx, n, w1)) by {
            if !has_lib_spec(sx, n, w1) {
                if w1 == north_of(i) {
                    assert(s2 == zero_orbit(s1, n, w1));
                    assert(s2[v] == 0);
                } else if w1 == east_of(i) {
                    assert(s3 == zero_orbit(s2, n, w1));
                    assert(s3[v] == 0);
                } else if w1 == south_of(i) {
                    assert(s4 == zero_orbit(s3, n, w1));
                    assert(s4[v] == 0);
                } else {
                    assert(sf == zero_orbit(s4, n, w1));
                    assert(sf[v] == 0);
                }
                assert(false);
            }
        }
        let j2 = choose|j2: int| #[trigger] is_liberty_of(sx, n, w1, j2);
        assert(sx[j2] == 0);
        assert(sf[j2] == 0) by {
            assert(s2[j2] == s1[j2] || s2[j2] == 0);
            assert(s3[j2] == s2[j2] || s3[j2] == 0);
            assert(s4[j2] == s3[j2] || s4[j2] == 0);
            assert(sf[j2] == s4[j2] || sf[j2] == 0);
        }
        let w2 = choose|w2: int| #[trigger] in_orbit(n, w1, w2) && adjacent(w2, j2);
        assert(in_orbit(n, v, w2)) by {
            lemma_orbit_same(s1, n, v, w1);
        }
        assert(is_liberty_of(sf, n, v, j2));
    }
}

/// If one direction of the capture pass empties any stone of a group, it
/// empties the whole group.
proof fn lemma_group_zeroed(
    sx: Seq<u8>,
    sy: Seq<u8>,
    n: Seq<u16>,
    opp: u8,
    d: int,
    w1: int,
    v: int,
)
    requires
        stones_wf(sx),
        links_wf(sx, n),
        is_stone(opp),
        sy == capture_step(sx, n, opp, d),
        occupied(sx, w1),
        sy[w1] == 0,
        in_orbit(n, w1, v),
        0 <= d <= 361,
    ensures
        sy[v] == 0,
{
    lemma_capture_step_facts(sx, n, opp, d);
    if sx[d] == opp && !has_lib_spec(sx, n, d) {
        assert(d != 361);
        assert(sy == zero_orbit(sx, n, d));
        assert(in_orbit(n, d, w1)) by {
            if !in_orbit(n, d, w1) {
                assert(sy[w1] == sx[w1]);
            }
        }
        lemma_orbit_same(sx, n, d, w1);
        assert(in_orbit(n, d, v));
    } else {
        assert(sy == sx);
        assert(occupied(sx, w1) && sx[w1] != 0);
        assert(false);
    }
}

/// Every occupied vertex lies on a cycle of `next_vertex` that returns to
/// it in at most 361 steps and passes only through stones of its color.
pub proof fn lemma_groups_are_cycles(b: Board, v: int)
    requires
        b.wf(),
        occupied(b.vertices@, v),
    ensures
        exists|p: nat| 1 <= p <= 361 && iter_next(b.next_vertex@, v, p) == v,
        forall|k: nat|
            occupied(b.vertices@, #[trigger] iter_next(b.next_vertex@, v, k)) && b.vertices@[iter_next(
                b.next_vertex@,
                v,
                k,
            )] == b.vertices@[v],
{
    lemma_orbit_returns(b.vertices@, b.next_vertex@, v);
    assert forall|k: nat|
        occupied(b.vertices@, #[trigger] iter_next(b.next_vertex@, v, k)) && b.vertices@[iter_next(
            b.next_vertex@,
            v,
            k,
        )] == b.vertices@[v] by {
        lemma_iter_in_orbit(b.vertices@, b.next_vertex@, v, k);
    }
}

/// The seven sentinel cells hold the off-board marker on every well-formed
/// board, hence throughout any board's lifetime.
pub proof fn lemma_sentinels_off_board(b: Board)
    requires
        b.wf(),
    ensures
        forall|i: int| 361 <= i < 368 ==> b.vertices@[i] == 0xff,
{
}

} // verus!
