//! State codec: packing a 3x3 board into one `u32` and reading it back.
//!
//! A board is a length-9 sequence of symbols `0..9`, each occurring once,
//! where `0` marks the blank slot. Slot `i` (row-major, `0..9`) stores the
//! 3-bit code `symbol - 1` in bits `[3*i, 3*i + 3)`; the blank slot's three
//! bits stay zero. Bits `27..32` hold the blank slot's position, so locating
//! the blank is a single shift instead of a scan.

use vstd::prelude::*;

verus! {

/// Position of the blank slot, read from the 5 high bits.
pub open spec fn spec_blank_pos(field: u32) -> u32 {
    field >> 27
}

/// The 3-bit tile code stored at slot `i`.
pub open spec fn spec_tile(field: u32, i: u32) -> u32 {
    (field >> ((3 * i) as u32)) & 7
}

/// A packed state is well formed when the blank position field names a real
/// slot and that slot's three code bits are zero.
pub open spec fn valid_state(field: u32) -> bool {
    &&& spec_blank_pos(field) < 9
    &&& spec_tile(field, spec_blank_pos(field)) == 0
}

/// A board: nine symbols below 9, pairwise distinct, with the blank symbol 0
/// present. (Nine distinct values below 9 always contain 0; stating the
/// presence outright keeps every use of `blank_index` self-contained.)
pub open spec fn valid_board(b: Seq<u32>) -> bool {
    &&& b.len() == 9
    &&& forall|i: int| 0 <= i < 9 ==> b[i] < 9
    &&& forall|i: int, j: int| 0 <= i < j < 9 ==> b[i] != b[j]
    &&& exists|i: int| 0 <= i < 9 && b[i] == 0
}

/// The slot holding the blank symbol.
pub open spec fn blank_index(b: Seq<u32>) -> int {
    choose|i: int| 0 <= i < 9 && b[i] == 0
}

/// What `pack` promises: the blank position field names the blank slot, the
/// blank slot's code bits are zero, and every other slot stores its symbol's
/// 0-based code.
pub open spec fn packs_to(b: Seq<u32>, field: u32) -> bool {
    &&& spec_blank_pos(field) == blank_index(b)
    &&& forall|i: int| 0 <= i < 9 && b[i] == 0 ==> spec_tile(field, i as u32) == 0
    &&& forall|i: int| 0 <= i < 9 && b[i] != 0 ==> spec_tile(field, i as u32) == b[i] - 1
}

/// The unique packed value of a board (see `lemma_packs_to_unique`).
pub open spec fn pack_val(b: Seq<u32>) -> u32 {
    choose|v: u32| valid_state(v) && packs_to(b, v)
}

/// The board a packed state denotes: 0 at the blank slot, `code + 1` elsewhere.
pub open spec fn spec_decode(field: u32) -> Seq<u32> {
    Seq::new(
        9,
        |i: int|
            if i == spec_blank_pos(field) {
                0u32
            } else {
                (spec_tile(field, i as u32) + 1) as u32
            },
    )
}

pub proof fn lemma_blank_index(b: Seq<u32>)
    requires
        valid_board(b),
    ensures
        0 <= blank_index(b) < 9,
        b[blank_index(b)] == 0,
        forall|i: int| 0 <= i < 9 && b[i] == 0 ==> i == blank_index(b),
{
    let k = blank_index(b);
    assert(0 <= k < 9 && b[k] == 0);
    assert forall|i: int| 0 <= i < 9 && b[i] == 0 implies i == k by {
        if i < k {
            assert(b[i] != b[k]);
        } else if k < i {
            assert(b[k] != b[i]);
        }
    }
}

/// ORing a 3-bit code into a zero slot writes that slot and disturbs nothing
/// else.
proof fn lemma_or_tile_sets(p: u32, c: u32, i: u32)
    by (bit_vector)
    requires
        i < 9,
        c < 8,
        spec_tile(p, i) == 0,
    ensures
        spec_tile(p | (c << ((3 * i) as u32)), i) == c,
        forall|j: u32|
            j < 9 && j != i ==> #[trigger] spec_tile(p | (c << ((3 * i) as u32)), j) == spec_tile(
                p,
                j,
            ),
        spec_blank_pos(p | (c << ((3 * i) as u32))) == spec_blank_pos(p),
{
}

/// ORing a position into a clear high field writes the blank position and
/// leaves every tile slot alone.
proof fn lemma_or_blank_sets(p: u32, i: u32)
    by (bit_vector)
    requires
        i < 9,
        p >> 27 == 0,
    ensures
        spec_blank_pos(p | (i << 27)) == i,
        forall|j: u32| j < 9 ==> #[trigger] spec_tile(p | (i << 27), j) == spec_tile(p, j),
{
}

/// A well-formed packed state is determined by its blank position and its
/// nine tile codes: together they account for all 32 bits.
pub proof fn lemma_packed_unique(v: u32, w: u32)
    requires
        spec_blank_pos(v) == spec_blank_pos(w),
        forall|i: u32| i < 9 ==> #[trigger] spec_tile(v, i) == spec_tile(w, i),
    ensures
        v == w,
{
    assert(v == w) by (bit_vector)
        requires
            v >> 27 == w >> 27,
            spec_tile(v, 0) == spec_tile(w, 0),
            spec_tile(v, 1) == spec_tile(w, 1),
            spec_tile(v, 2) == spec_tile(w, 2),
            spec_tile(v, 3) == spec_tile(w, 3),
            spec_tile(v, 4) == spec_tile(w, 4),
            spec_tile(v, 5) == spec_tile(w, 5),
            spec_tile(v, 6) == spec_tile(w, 6),
            spec_tile(v, 7) == spec_tile(w, 7),
            spec_tile(v, 8) == spec_tile(w, 8),
    ;
}

/// Each board has at most one packed form: `pack` is injective on values.
pub proof fn lemma_packs_to_unique(b: Seq<u32>, v: u32, w: u32)
    requires
        packs_to(b, v),
        packs_to(b, w),
    ensures
        v == w,
{
    assert forall|i: u32| i < 9 implies #[trigger] spec_tile(v, i) == spec_tile(w, i) by {
        if b[i as int] == 0 {
            assert(spec_tile(v, i) == 0 && spec_tile(w, i) == 0);
        } else {
            assert(spec_tile(v, i) == b[i as int] - 1 && spec_tile(w, i) == b[i as int] - 1);
        }
    }
    lemma_packed_unique(v, w);
}

/// Round trip: decoding a packed board gives the board back.
pub proof fn lemma_pack_round_trip(b: Seq<u32>, field: u32)
    requires
        valid_board(b),
        packs_to(b, field),
    ensures
        spec_decode(field) == b,
{
    lemma_blank_index(b);
    assert forall|i: int| 0 <= i < 9 implies spec_decode(field)[i] == b[i] by {
        if b[i] == 0 {
            assert(i == blank_index(b));
        } else {
            assert(i != blank_index(b));
            assert(spec_tile(field, i as u32) == b[i] - 1);
        }
    }
    assert(spec_decode(field) =~= b);
}

/// Blank slot position, in O(1): the field's 5 high bits.
pub fn get_blank_pos(field: u32) -> (r: u32)
    ensures
        r == spec_blank_pos(field),
{
    field >> 27
}

/// Mask covering the three code bits of slot `x`.
pub fn get_mask(x: u32) -> (r: u32)
    requires
        x < 9,
    ensures
        r == (7u32 << ((3 * x) as u32)),
{
    0b111u32 << (x * 3)
}

/// The 3-bit tile code at slot `i`, by mask and shift.
pub fn get_tile(field: u32, i: u32) -> (r: u32)
    requires
        i < 9,
    ensures
        r == spec_tile(field, i),
        r < 8,
{
    let mask: u32 = get_mask(i);
    let r: u32 = (field & mask) >> (i * 3);
    proof {
        assert((field & (7u32 << ((3 * i) as u32))) >> ((3 * i) as u32) == spec_tile(field, i)
            && spec_tile(field, i) < 8) by (bit_vector)
            requires
                i < 9,
        ;
    }
    r
}

/// Lift a slot position into the blank position field (bits 27 and up).
pub fn to_pos(x: u32) -> (r: u32)
    ensures
        r == (x << 27),
{
    x << 27
}

/// Normalize a signed shift distance to a rotate-right amount modulo the
/// 32-bit word width.
pub fn wrap_around(x: i32) -> (r: u32)
    requires
        -32 < x < 32,
    ensures
        r == (32 + x) % 32,
        r < 32,
{
    ((32 + x) % 32) as u32
}

/// Pack a board into a single integer: each slot's 0-based code in its three
/// bits, zeros at the blank slot, and the blank position in the high bits.
pub fn pack(input: &Vec<u32>) -> (r: u32)
    requires
        valid_board(input@),
    ensures
        valid_state(r),
        packs_to(input@, r),
        r == pack_val(input@),
{
    proof {
        lemma_blank_index(input@);
    }
    let mut packed: u32 = 0;
    let mut i: usize = 0;
    proof {
        assert(forall|j: u32| j < 9 ==> #[trigger] spec_tile(0u32, j) == 0) by (bit_vector);
        assert(spec_blank_pos(0u32) == 0) by (bit_vector);
    }
    while i < 9
        invariant
            valid_board(input@),
            i <= 9,
            forall|j: int|
                0 <= j < i && input@[j] != 0 ==> #[trigger] spec_tile(packed, j as u32) == input@[j]
                    - 1,
            forall|j: int|
                0 <= j < 9 && (j >= i || input@[j] == 0) ==> #[trigger] spec_tile(packed, j as u32)
                    == 0,
            (exists|j: int| 0 <= j < i && input@[j] == 0) ==> spec_blank_pos(packed) == blank_index(
                input@,
            ),
            !(exists|j: int| 0 <= j < i && input@[j] == 0) ==> spec_blank_pos(packed) == 0,
        decreases 9 - i,
    {
        proof {
            lemma_blank_index(input@);
        }
        let tile: u32 = input[i];
        let iu: u32 = i as u32;
        if tile == 0 {
            proof {
                assert(blank_index(input@) == i as int);
                lemma_or_blank_sets(packed, iu);
            }
            packed = packed | to_pos(iu);
        } else {
            let code: u32 = tile - 1;
            proof {
                lemma_or_tile_sets(packed, code, iu);
            }
            packed = packed | (code << (iu * 3));
        }
        i = i + 1;
    }
    proof {
        lemma_blank_index(input@);
        assert(spec_tile(packed, blank_index(input@) as u32) == 0);
        let v = pack_val(input@);
        assert(valid_state(packed) && packs_to(input@, packed));
        assert(valid_state(v) && packs_to(input@, v));
        lemma_packs_to_unique(input@, v, packed);
    }
    packed
}

/// Decode a packed state back into a board: 0 at the blank slot, `code + 1`
/// everywhere else.
pub fn decode(field: u32) -> (r: Vec<u32>)
    requires
        valid_state(field),
    ensures
        r@ == spec_decode(field),
{
    let blank: u32 = get_blank_pos(field);
    let mut out: Vec<u32> = Vec::new();
    let mut i: u32 = 0;
    while i < 9
        invariant
            valid_state(field),
            blank == spec_blank_pos(field),
            i <= 9,
            out@.len() == i,
            forall|j: int| 0 <= j < i ==> out@[j] == spec_decode(field)[j],
        decreases 9 - i,
    {
        if i == blank {
            out.push(0);
        } else {
            out.push(get_tile(field, i) + 1);
        }
        i = i + 1;
    }
    proof {
        assert(out@ =~= spec_decode(field));
    }
    out
}

} // verus!
