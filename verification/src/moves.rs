//! Move generator: the four slide moves as bit transforms on a packed state.
//!
//! Every move follows one parameterized transform, driven by a direction
//! descriptor: a boundary predicate over the blank's position and a position
//! delta (+-1 for Left/Right, +-3 for Up/Down). A tile code travels
//! `3 * delta` bit positions; a negative travel is performed as a rotate
//! right by the modulo-32 normalized amount, which is sound because the
//! packed representation is at most 32 bits wide. An illegal move returns
//! the state unchanged: it is a no-op, not a failure.

use crate::codec::{
    get_blank_pos, get_mask, lemma_packed_unique, spec_blank_pos, spec_tile, to_pos, valid_state,
    wrap_around,
};
use vstd::prelude::*;

verus! {

#[derive(Clone, Copy, PartialEq, Eq, Structural, Debug)]
pub enum Direction {
    Up,
    Down,
    Left,
    Right,
}

impl Direction {
    /// Change of the blank's slot index when sliding in this direction.
    pub open spec fn delta(self) -> int {
        match self {
            Direction::Up => -3,
            Direction::Down => 3,
            Direction::Left => -1,
            Direction::Right => 1,
        }
    }

    /// Boundary predicate: the move is legal iff the blank does not sit on
    /// the edge the move would cross.
    pub open spec fn spec_legal(self, pos: u32) -> bool {
        match self {
            Direction::Up => pos >= 3,
            Direction::Down => pos <= 5,
            Direction::Left => pos % 3 != 0,
            Direction::Right => pos % 3 != 2,
        }
    }

    /// The direction that undoes this one.
    pub open spec fn inverse(self) -> Direction {
        match self {
            Direction::Up => Direction::Down,
            Direction::Down => Direction::Up,
            Direction::Left => Direction::Right,
            Direction::Right => Direction::Left,
        }
    }

    /// Executable form of the boundary predicate.
    pub fn in_bounds(self, pos: u32) -> (r: bool)
        ensures
            r == self.spec_legal(pos),
    {
        match self {
            Direction::Up => pos >= 3,
            Direction::Down => pos <= 5,
            Direction::Left => pos % 3 != 0,
            Direction::Right => pos % 3 != 2,
        }
    }

    /// Executable form of the position delta.
    pub fn delta_pos(self) -> (r: i32)
        ensures
            r as int == self.delta(),
    {
        match self {
            Direction::Up => -3,
            Direction::Down => 3,
            Direction::Left => -1,
            Direction::Right => 1,
        }
    }
}

/// The slide transform on a packed state. If the boundary predicate fails
/// the state comes back unchanged; otherwise the tile code at the blank's
/// target slot travels `3 * delta` bit positions into the vacated slot, the
/// target slot's bits are cleared, and the blank position field is set to
/// the target slot.
pub open spec fn spec_move(field: u32, d: Direction) -> u32 {
    let p = spec_blank_pos(field);
    if !d.spec_legal(p) {
        field
    } else {
        let p2 = (p + d.delta()) as u32;
        let mask = 7u32 << ((3 * p2) as u32);
        let tile = field & mask;
        let moved = if d.delta() > 0 {
            tile >> ((3 * d.delta()) as u32)
        } else {
            tile << ((0 - 3 * d.delta()) as u32)
        };
        (((field & !mask) | moved) & 0x07FF_FFFFu32) | (p2 << 27u32)
    }
}

/// An illegal move is a no-op: the state comes back unchanged.
pub proof fn lemma_illegal_move_noop(field: u32, d: Direction)
    requires
        !d.spec_legal(spec_blank_pos(field)),
    ensures
        spec_move(field, d) == field,
{
}

proof fn bv_up(f: u32, p: u32, m: u32)
    by (bit_vector)
    requires
        p == spec_blank_pos(f),
        3 <= p < 9,
        spec_tile(f, p) == 0,
        m == (((f & !(7u32 << ((3 * ((p - 3) as u32)) as u32))) | ((f & (7u32 << ((3 * ((p
            - 3) as u32)) as u32))) << 9u32)) & 0x07FF_FFFFu32) | (((p - 3) as u32) << 27u32),
    ensures
        spec_blank_pos(m) == (p - 3) as u32,
        spec_tile(m, p) == spec_tile(f, (p - 3) as u32),
        spec_tile(m, (p - 3) as u32) == 0,
        forall|j: u32|
            j < 9 && j != p && j != (p - 3) as u32 ==> #[trigger] spec_tile(m, j) == spec_tile(
                f,
                j,
            ),
{
}

proof fn bv_down(f: u32, p: u32, m: u32)
    by (bit_vector)
    requires
        p == spec_blank_pos(f),
        p <= 5,
        spec_tile(f, p) == 0,
        m == (((f & !(7u32 << ((3 * ((p + 3) as u32)) as u32))) | ((f & (7u32 << ((3 * ((p
            + 3) as u32)) as u32))) >> 9u32)) & 0x07FF_FFFFu32) | (((p + 3) as u32) << 27u32),
    ensures
        spec_blank_pos(m) == (p + 3) as u32,
        spec_tile(m, p) == spec_tile(f, (p + 3) as u32),
        spec_tile(m, (p + 3) as u32) == 0,
        forall|j: u32|
            j < 9 && j != p && j != (p + 3) as u32 ==> #[trigger] spec_tile(m, j) == spec_tile(
                f,
                j,
            ),
{
}

proof fn bv_left(f: u32, p: u32, m: u32)
    by (bit_vector)
    requires
        p == spec_blank_pos(f),
        p < 9,
        p % 3 != 0,
        spec_tile(f, p) == 0,
        m == (((f & !(7u32 << ((3 * ((p - 1) as u32)) as u32))) | ((f & (7u32 << ((3 * ((p
            - 1) as u32)) as u32))) << 3u32)) & 0x07FF_FFFFu32) | (((p - 1) as u32) << 27u32),
    ensures
        spec_blank_pos(m) == (p - 1) as u32,
        spec_tile(m, p) == spec_tile(f, (p - 1) as u32),
        spec_tile(m, (p - 1) as u32) == 0,
        forall|j: u32|
            j < 9 && j != p && j != (p - 1) as u32 ==> #[trigger] spec_tile(m, j) == spec_tile(
                f,
                j,
            ),
{
}

proof fn bv_right(f: u32, p: u32, m: u32)
    by (bit_vector)
    requires
        p == spec_blank_pos(f),
        p < 9,
        p % 3 != 2,
        spec_tile(f, p) == 0,
        m == (((f & !(7u32 << ((3 * ((p + 1) as u32)) as u32))) | ((f & (7u32 << ((3 * ((p
            + 1) as u32)) as u32))) >> 3u32)) & 0x07FF_FFFFu32) | (((p + 1) as u32) << 27u32),
    ensures
        spec_blank_pos(m) == (p + 1) as u32,
        spec_tile(m, p) == spec_tile(f, (p + 1) as u32),
        spec_tile(m, (p + 1) as u32) == 0,
        forall|j: u32|
            j < 9 && j != p && j != (p + 1) as u32 ==> #[trigger] spec_tile(m, j) == spec_tile(
                f,
                j,
            ),
{
}

/// How a legal move rearranges the decoded view: the blank travels by the
/// direction's delta, the displaced tile lands in the vacated slot, and
/// every other slot is untouched. Well-formedness is preserved.
pub proof fn lemma_move_view(field: u32, d: Direction)
    requires
        valid_state(field),
        d.spec_legal(spec_blank_pos(field)),
    ensures
        ({
            let p = spec_blank_pos(field);
            let p2 = (p + d.delta()) as u32;
            let m = spec_move(field, d);
            &&& spec_blank_pos(m) == p2
            &&& p2 < 9
            &&& spec_tile(m, p) == spec_tile(field, p2)
            &&& spec_tile(m, p2) == 0
            &&& forall|j: u32|
                j < 9 && j != p && j != p2 ==> #[trigger] spec_tile(m, j) == spec_tile(field, j)
            &&& valid_state(m)
        }),
{
    let p = spec_blank_pos(field);
    let m = spec_move(field, d);
    match d {
        Direction::Up => {
            bv_up(field, p, m);
        },
        Direction::Down => {
            bv_down(field, p, m);
        },
        Direction::Left => {
            bv_left(field, p, m);
        },
        Direction::Right => {
            bv_right(field, p, m);
        },
    }
}

/// A legal move followed by its inverse restores the state exactly.
pub proof fn lemma_move_inverse(field: u32, d: Direction)
    requires
        valid_state(field),
        d.spec_legal(spec_blank_pos(field)),
    ensures
        spec_move(spec_move(field, d), d.inverse()) == field,
{
    let p = spec_blank_pos(field);
    let p2 = (p + d.delta()) as u32;
    let m1 = spec_move(field, d);
    lemma_move_view(field, d);
    match d {
        Direction::Up => {
            assert(p2 <= 5);
        },
        Direction::Down => {
            assert(p2 >= 3);
        },
        Direction::Left => {
            assert(p2 % 3 != 2) by (bit_vector)
                requires
                    p < 9,
                    p % 3 != 0,
                    p2 == (p - 1) as u32,
            ;
        },
        Direction::Right => {
            assert(p2 % 3 != 0) by (bit_vector)
                requires
                    p < 9,
                    p % 3 != 2,
                    p2 == (p + 1) as u32,
            ;
        },
    }
    assert(d.inverse().spec_legal(spec_blank_pos(m1)));
    lemma_move_view(m1, d.inverse());
    let m2 = spec_move(m1, d.inverse());
    assert(spec_blank_pos(m2) == p);
    assert forall|j: u32| j < 9 implies #[trigger] spec_tile(m2, j) == spec_tile(field, j) by {
        if j == p {
            assert(spec_tile(m2, p) == 0 && spec_tile(field, p) == 0);
        } else if j == p2 {
            assert(spec_tile(m2, p2) == spec_tile(m1, p));
        }
    }
    lemma_packed_unique(m2, field);
}

/// The state after playing a sequence of moves, first move first.
pub open spec fn apply_moves(field: u32, ms: Seq<Direction>) -> u32
    decreases ms.len(),
{
    if ms.len() == 0 {
        field
    } else {
        apply_moves(spec_move(field, ms[0]), ms.skip(1))
    }
}

/// `to` can be reached from `from` by some sequence of moves.
pub open spec fn reachable(from: u32, to: u32) -> bool {
    exists|ms: Seq<Direction>| apply_moves(from, ms) == to
}

pub proof fn lemma_reachable_refl(field: u32)
    ensures
        reachable(field, field),
{
    let ms = Seq::<Direction>::empty();
    assert(apply_moves(field, ms) == field);
}

/// Prepending the move that leads from `parent` into an already reachable
/// chain keeps the target reachable.
pub proof fn lemma_reachable_prepend(parent: u32, d: Direction, target: u32)
    requires
        reachable(spec_move(parent, d), target),
    ensures
        reachable(parent, target),
{
    let ms = choose|ms: Seq<Direction>| apply_moves(spec_move(parent, d), ms) == target;
    let ms2 = seq![d] + ms;
    assert(ms2.skip(1) =~= ms);
    assert(ms2[0] == d);
    assert(apply_moves(parent, ms2) == target);
}

/// Moves cannot leave a set that is closed under every move: whatever state
/// a move sequence reaches from a member is again a member.
pub proof fn lemma_closed_set_reach(s: Set<u32>, from: u32, ms: Seq<Direction>)
    requires
        s.contains(from),
        forall|u: u32, d: Direction| s.contains(u) ==> s.contains(#[trigger] spec_move(u, d)),
    ensures
        s.contains(apply_moves(from, ms)),
    decreases ms.len(),
{
    if ms.len() != 0 {
        lemma_closed_set_reach(s, spec_move(from, ms[0]), ms.skip(1));
    }
}

/// A move keeps a packed state well formed, legal or not.
pub proof fn lemma_move_preserves_valid(field: u32, d: Direction)
    requires
        valid_state(field),
    ensures
        valid_state(spec_move(field, d)),
{
    if d.spec_legal(spec_blank_pos(field)) {
        lemma_move_view(field, d);
    }
}

proof fn lemma_apply_moves_append(field: u32, ms1: Seq<Direction>, ms2: Seq<Direction>)
    ensures
        apply_moves(field, ms1 + ms2) == apply_moves(apply_moves(field, ms1), ms2),
    decreases ms1.len(),
{
    if ms1.len() == 0 {
        assert(ms1 + ms2 =~= ms2);
    } else {
        assert((ms1 + ms2).skip(1) =~= ms1.skip(1) + ms2);
        assert((ms1 + ms2)[0] == ms1[0]);
        lemma_apply_moves_append(spec_move(field, ms1[0]), ms1.skip(1), ms2);
    }
}

/// Chaining two move sequences chains reachability.
pub proof fn lemma_reachable_trans(a: u32, b: u32, c: u32)
    requires
        reachable(a, b),
        reachable(b, c),
    ensures
        reachable(a, c),
{
    let ms1 = choose|ms: Seq<Direction>| apply_moves(a, ms) == b;
    let ms2 = choose|ms: Seq<Direction>| apply_moves(b, ms) == c;
    lemma_apply_moves_append(a, ms1, ms2);
    assert(apply_moves(a, ms1 + ms2) == c);
}

proof fn lemma_reachable_back(a: u32, ms: Seq<Direction>)
    requires
        valid_state(a),
    ensures
        reachable(apply_moves(a, ms), a),
    decreases ms.len(),
{
    if ms.len() == 0 {
        lemma_reachable_refl(a);
    } else {
        let d = ms[0];
        let a2 = spec_move(a, d);
        lemma_move_preserves_valid(a, d);
        lemma_reachable_back(a2, ms.skip(1));
        if d.spec_legal(spec_blank_pos(a)) {
            lemma_move_inverse(a, d);
            let back = seq![d.inverse()];
            assert(back.skip(1) =~= Seq::<Direction>::empty());
            assert(back[0] == d.inverse());
            assert(apply_moves(spec_move(a2, d.inverse()), back.skip(1)) == spec_move(
                a2,
                d.inverse(),
            ));
            assert(apply_moves(a2, back) == a);
            assert(reachable(a2, a));
        } else {
            lemma_reachable_refl(a);
            assert(reachable(a2, a));
        }
        lemma_reachable_trans(apply_moves(a, ms), a2, a);
    }
}

/// Every move is undone by its inverse, so whatever a well-formed state
/// reaches can reach it back: a backward search from the goal covers the
/// same graph as a forward search from the start.
pub proof fn lemma_reachable_symmetric(a: u32, b: u32)
    requires
        valid_state(a),
        reachable(a, b),
    ensures
        reachable(b, a),
{
    let ms = choose|ms: Seq<Direction>| apply_moves(a, ms) == b;
    lemma_reachable_back(a, ms);
}

/// Rotate a 32-bit word right by `n` places: the bits move right and the
/// `n` truncated low bits wrap around to the high end of the word.
fn rotate_right_u32(x: u32, n: u32) -> (r: u32)
    requires
        0 < n < 32,
    ensures
        r == (x >> n) | (x << ((32 - n) as u32)),
{
    (x >> n) | (x << (32 - n))
}

/// Apply the slide transform for direction `d` to a packed state. An illegal
/// move returns the state unchanged.
pub fn make_move(field: u32, d: Direction) -> (r: u32)
    requires
        valid_state(field),
    ensures
        r == spec_move(field, d),
        valid_state(r),
        !d.spec_legal(spec_blank_pos(field)) ==> r == field,
{
    // extract the blank's position from the field
    let blank_pos: u32 = get_blank_pos(field);

    if !d.in_bounds(blank_pos) {
        return field;
    }
    let delta_pos: i32 = d.delta_pos();

    // the blank's new position
    let new_pos: u32 = ((blank_pos as i32) + delta_pos) as u32;
    proof {
        assert(new_pos == (spec_blank_pos(field) + d.delta()) as u32);
        lemma_move_view(field, d);
    }

    // mask over the slot whose tile will move into the vacated blank slot
    let mask: u32 = get_mask(new_pos);

    // the displaced tile's code, still in place
    let masked: u32 = field & mask;

    // each slot is three bits wide, so the code travels three bit positions
    // per step of the blank
    let shift: i32 = delta_pos * 3;

    // move the code into the old blank slot; a negative shift wraps around,
    // so that a left travel becomes a rotate right by `32 + shift`
    let digit_new: u32 = rotate_right_u32(masked, wrap_around(shift));
    proof {
        let f = field;
        let q = new_pos;
        match d {
            Direction::Up => {
                assert((masked >> 23u32) | (masked << 9u32) == masked << 9u32) by (bit_vector)
                    requires
                        masked == f & (7u32 << ((3 * q) as u32)),
                        q < 6,
                ;
            },
            Direction::Down => {
                assert((masked >> 9u32) | (masked << 23u32) == masked >> 9u32) by (bit_vector)
                    requires
                        masked == f & (7u32 << ((3 * q) as u32)),
                        3 <= q < 9,
                ;
            },
            Direction::Left => {
                assert((masked >> 29u32) | (masked << 3u32) == masked << 3u32) by (bit_vector)
                    requires
                        masked == f & (7u32 << ((3 * q) as u32)),
                        q < 8,
                ;
            },
            Direction::Right => {
                assert((masked >> 3u32) | (masked << 29u32) == masked >> 3u32) by (bit_vector)
                    requires
                        masked == f & (7u32 << ((3 * q) as u32)),
                        1 <= q < 9,
                ;
            },
        }
    }

    // clear the target slot's bits
    let mut out: u32 = field & !mask;

    // land the displaced code in the vacated slot
    out = out | digit_new;

    // update the blank position field to the new position
    out = (out & 0x07FF_FFFF) | to_pos(new_pos);

    proof {
        assert(out == spec_move(field, d));
    }
    out
}

/// Slide the tile above the blank down into it (the blank moves up).
pub fn up(field: u32) -> (r: u32)
    requires
        valid_state(field),
    ensures
        r == spec_move(field, Direction::Up),
        valid_state(r),
{
    make_move(field, Direction::Up)
}

/// Slide the tile below the blank up into it (the blank moves down).
pub fn down(field: u32) -> (r: u32)
    requires
        valid_state(field),
    ensures
        r == spec_move(field, Direction::Down),
        valid_state(r),
{
    make_move(field, Direction::Down)
}

/// Slide the tile left of the blank right into it (the blank moves left).
pub fn left(field: u32) -> (r: u32)
    requires
        valid_state(field),
    ensures
        r == spec_move(field, Direction::Left),
        valid_state(r),
{
    make_move(field, Direction::Left)
}

/// Slide the tile right of the blank left into it (the blank moves right).
pub fn right(field: u32) -> (r: u32)
    requires
        valid_state(field),
    ensures
        r == spec_move(field, Direction::Right),
        valid_state(r),
{
    make_move(field, Direction::Right)
}

} // verus!
