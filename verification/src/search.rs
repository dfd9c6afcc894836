//! Search engine: validation, the solvability pre-check, and a breadth-first
//! search over the implicit move graph.
//!
//! The search runs backward from the goal state: every move is undone by its
//! inverse, so the backward search covers the same graph, and the predecessor
//! map then yields the trace in start-to-goal order directly. The predecessor
//! map doubles as the visited set: the first discoverer of a state wins, and
//! entries are never removed. The frontier is a strict FIFO queue. If the
//! frontier empties before the start state is dequeued, the search fails with
//! `Unsolvable` instead of looping or panicking on an empty pop.

use crate::codec::{pack, pack_val, valid_board, valid_state};
use crate::factoriadic::{fact_nat, lemma_fact_bounds, lemma_fact_mono};
use crate::moves::{
    apply_moves, lemma_closed_set_reach, lemma_reachable_prepend, lemma_reachable_refl, make_move,
    reachable, spec_move, Direction,
};
use std::collections::HashMap;
use std::collections::VecDeque;
use vstd::prelude::*;
use vstd::set_lib::{lemma_int_range, lemma_len_subset, set_int_range};

verus! {

broadcast use vstd::std_specs::hash::group_hash_axioms, vstd::std_specs::vecdeque::group_vec_dequeue_axioms;

/// A typed failure of the solver.
#[derive(Clone, Copy, Debug, PartialEq, Eq, Structural)]
pub enum SolveError {
    /// An input sequence does not hold exactly 9 elements.
    SizeMismatch,
    /// An input sequence is not a permutation of the 9-symbol alphabet.
    AlphabetMismatch,
    /// The start fails the inversion-parity pre-check relative to the goal,
    /// or (defensively) the frontier emptied before the start was found.
    Unsolvable,
}

/// The reconstructed sequence of packed states, from start to goal.
#[derive(Debug)]
pub struct Trace {
    pub trace: Vec<u32>,
}

/// One backward-search edge: `child` arises from `parent` by one legal move.
pub open spec fn step_ok(parent: u32, child: u32) -> bool {
    &&& child != parent
    &&& exists|d: Direction| child == #[trigger] spec_move(parent, d)
}

/// A well-formed trace from `from` to `to`: nonempty, every state well
/// formed, and each state arises from its successor by one legal move.
pub open spec fn valid_trace(tr: Seq<u32>, from: u32, to: u32) -> bool {
    &&& tr.len() >= 1
    &&& tr[0] == from
    &&& tr[tr.len() - 1] == to
    &&& forall|i: int| 0 <= i < tr.len() ==> valid_state(#[trigger] tr[i])
    &&& forall|i: int| 0 <= i < tr.len() - 1 ==> #[trigger] step_ok(tr[i + 1], tr[i])
}

/// The trace is a shortest one: no move sequence leads from `to` to `from`
/// in fewer slides than the trace holds.
pub open spec fn minimal_trace(tr: Seq<u32>, from: u32, to: u32) -> bool {
    forall|ms: Seq<Direction>| #[trigger] apply_moves(to, ms) == from ==> tr.len() <= ms.len() + 1
}

/// While the search runs, no shortcut into the discovered set exists: a state
/// that a move sequence reaches from a discovered state is, if itself
/// discovered, at most the sequence's length deeper. Each discovered state is
/// either expanded (every successor discovered at most one deeper) or still
/// queued, and nothing discovered sits more than one depth above any queued
/// state.
proof fn lemma_path_depth(depth: Map<u32, nat>, queue: Seq<u32>, from: u32, ms: Seq<Direction>)
    requires
        depth.contains_key(from),
        forall|v: u32|
            #[trigger] depth.contains_key(v) ==> queue.contains(v) || (forall|d: Direction|
                depth.contains_key(#[trigger] spec_move(v, d)) && depth[spec_move(v, d)] <= depth[v]
                    + 1),
        forall|v: u32, j: int|
            #![trigger depth.contains_key(v), queue[j]]
            depth.contains_key(v) && 0 <= j < queue.len() ==> depth[v] <= depth[queue[j]] + 1,
    ensures
        depth.contains_key(apply_moves(from, ms)) ==> depth[apply_moves(from, ms)] <= depth[from]
            + ms.len(),
    decreases ms.len(),
{
    let target = apply_moves(from, ms);
    if ms.len() > 0 && depth.contains_key(target) {
        if queue.contains(from) {
            let j = choose|j: int| 0 <= j < queue.len() && queue[j] == from;
            assert(depth[target] <= depth[queue[j]] + 1);
        } else {
            let v1 = spec_move(from, ms[0]);
            assert(depth.contains_key(v1) && depth[v1] <= depth[from] + 1);
            lemma_path_depth(depth, queue, v1, ms.skip(1));
        }
    }
}

proof fn lemma_fact_12()
    ensures
        fact_nat(12) == 479001600,
{
    reveal_with_fuel(fact_nat, 14);
}

/// Factorial, used to pre-size the search structures to the state count.
pub fn fact(x: usize) -> (r: usize)
    requires
        x <= 12,
    ensures
        r == fact_nat(x as nat),
{
    let ghost x0 = x;
    let mut x: usize = x;
    let mut ret: usize = 1;
    proof {
        lemma_fact_12();
        lemma_fact_mono(x0 as nat, 12);
    }
    while x > 1
        invariant
            ret * fact_nat(x as nat) == fact_nat(x0 as nat),
            fact_nat(x0 as nat) <= 479001600,
        decreases x,
    {
        proof {
            lemma_fact_bounds(x as nat);
            let f = fact_nat(x as nat);
            assert(ret * x <= ret * f && ret * 1 <= ret * f) by (nonlinear_arith)
                requires
                    1 <= x <= f,
                    ret >= 0,
            ;
            let f1 = fact_nat((x - 1) as nat);
            assert(fact_nat(x as nat) == x * f1);
            assert((ret * x) * f1 == ret * (x * f1)) by (nonlinear_arith);
        }
        ret = ret * x;
        x = x - 1;
    }
    proof {
        reveal_with_fuel(fact_nat, 3);
        assert(fact_nat(x as nat) == 1);
    }
    ret
}

/// Whether the pair of slots `(i, k)` is an inversion: a tile at a lower
/// slot with a greater symbol than a non-blank tile at a higher slot.
pub open spec fn inv_pair(s: Seq<u32>, i: int, k: int) -> nat {
    if s[k] != 0 && s[i] > s[k] {
        1
    } else {
        0
    }
}

/// Inversions of slot `i` against slots `k..len`.
pub open spec fn inv_tail(s: Seq<u32>, i: int, k: int) -> nat
    decreases s.len() - k,
{
    if 0 <= k < s.len() {
        inv_pair(s, i, k) + inv_tail(s, i, k + 1)
    } else {
        0
    }
}

/// Inversions with first slot at `i` or later.
pub open spec fn inv_from(s: Seq<u32>, i: int) -> nat
    decreases s.len() - i,
{
    if 0 <= i < s.len() {
        inv_tail(s, i, i + 1) + inv_from(s, i + 1)
    } else {
        0
    }
}

/// The inversion count of a board: the number of slot pairs `(i, k)`,
/// `i < k`, where the symbol at `i` exceeds the non-blank symbol at `k`.
pub open spec fn inversions(s: Seq<u32>) -> nat {
    inv_from(s, 0)
}

proof fn lemma_inv_tail_le(s: Seq<u32>, i: int, k: int)
    requires
        0 <= k <= s.len(),
    ensures
        inv_tail(s, i, k) <= s.len() - k,
    decreases s.len() - k,
{
    if k < s.len() {
        lemma_inv_tail_le(s, i, k + 1);
    }
}

proof fn lemma_inv_from_le(s: Seq<u32>, i: int)
    requires
        0 <= i <= s.len(),
    ensures
        inv_from(s, i) <= (s.len() - i) * s.len(),
    decreases s.len() - i,
{
    if i < s.len() {
        lemma_inv_from_le(s, i + 1);
        lemma_inv_tail_le(s, i, i + 1);
        assert((s.len() - i - 1) * s.len() + s.len() == (s.len() - i) * s.len())
            by (nonlinear_arith);
    }
}

/// Count the inversions of a 9-slot board.
pub fn count_inversions(input: &Vec<u32>) -> (n: u32)
    requires
        input@.len() == 9,
    ensures
        n == inversions(input@),
{
    proof {
        lemma_inv_from_le(input@, 0);
        let slen = input@.len() as int;
        assert((slen - 0) * slen == 81) by (nonlinear_arith)
            requires
                slen == 9,
        ;
    }
    let mut n: u32 = 0;
    let mut i: usize = 0;
    while i < 9
        invariant
            input@.len() == 9,
            i <= 9,
            n + inv_from(input@, i as int) == inversions(input@),
            inversions(input@) <= 81,
        decreases 9 - i,
    {
        let mut k: usize = i + 1;
        while k < 9
            invariant
                input@.len() == 9,
                i < 9,
                i + 1 <= k <= 9,
                n + inv_tail(input@, i as int, k as int) + inv_from(input@, i as int + 1)
                    == inversions(input@),
                inversions(input@) <= 81,
            decreases 9 - k,
        {
            if input[k] != 0 && input[i] > input[k] {
                n = n + 1;
            }
            k = k + 1;
        }
        i = i + 1;
    }
    n
}

/// Relies on fool's `BoolExt::ok_or` for `bool`: `Ok(())` when the condition
/// holds, `Err(error)` when it does not.
#[verifier::external_body]
fn require_or(cond: bool, error: SolveError) -> (r: Result<(), SolveError>)
    ensures
        r == (if cond {
            Ok::<(), SolveError>(())
        } else {
            Err::<(), SolveError>(error)
        }),
{
    fool::BoolExt::ok_or(cond, error)
}

/// The inversion-parity solvability pre-check against the canonical goal:
/// on a 3x3 board, a position reaches the canonical goal iff its inversion
/// count is even.
pub fn check_solvability(input: &Vec<u32>) -> (r: Result<(), SolveError>)
    requires
        input@.len() == 9,
    ensures
        r == Ok::<(), SolveError>(()) <==> inversions(input@) % 2 == 0,
        r is Err ==> r == Err::<(), SolveError>(SolveError::Unsolvable),
{
    let inversion_count: u32 = count_inversions(input);
    require_or(inversion_count % 2 == 0, SolveError::Unsolvable)
}

/// Validate one 9-element input sequence: every symbol below 9, no symbol
/// repeated, and the blank symbol 0 present.
pub fn validate_input(input: &Vec<u32>) -> (r: Result<(), SolveError>)
    requires
        input@.len() == 9,
    ensures
        r == Ok::<(), SolveError>(()) <==> valid_board(input@),
        r is Err ==> r == Err::<(), SolveError>(SolveError::AlphabetMismatch),
{
    let mut small: bool = true;
    let mut i: usize = 0;
    while i < 9
        invariant
            input@.len() == 9,
            i <= 9,
            small <==> (forall|a: int| 0 <= a < i ==> input@[a] < 9),
        decreases 9 - i,
    {
        if input[i] >= 9 {
            small = false;
        }
        i = i + 1;
    }

    let mut distinct: bool = true;
    i = 0;
    while i < 9
        invariant
            input@.len() == 9,
            i <= 9,
            distinct <==> (forall|a: int, b: int|
                0 <= a < i && a < b < 9 ==> input@[a] != input@[b]),
        decreases 9 - i,
    {
        let mut k: usize = i + 1;
        while k < 9
            invariant
                input@.len() == 9,
                i < 9,
                i + 1 <= k <= 9,
                distinct <==> ((forall|a: int, b: int|
                    0 <= a < i && a < b < 9 ==> input@[a] != input@[b]) && (forall|b: int|
                    i < b < k ==> input@[i as int] != input@[b])),
            decreases 9 - k,
        {
            if input[k] == input[i] {
                distinct = false;
            }
            k = k + 1;
        }
        i = i + 1;
    }

    // nine distinct symbols below 9 always include 0; scanning for it keeps
    // the blank's presence a checked fact rather than a counting argument
    let mut has_zero: bool = false;
    i = 0;
    while i < 9
        invariant
            input@.len() == 9,
            i <= 9,
            has_zero <==> (exists|a: int| 0 <= a < i && input@[a] == 0),
        decreases 9 - i,
    {
        if input[i] == 0 {
            has_zero = true;
        }
        i = i + 1;
    }

    require_or(small && distinct && has_zero, SolveError::AlphabetMismatch)
}

proof fn lemma_u32_map_int_len(s: Set<u32>)
    requires
        s.finite(),
    ensures
        s.map(|x: u32| x as int).finite(),
        s.map(|x: u32| x as int).len() == s.len(),
    decreases s.len(),
{
    let f = |x: u32| x as int;
    if s.len() == 0 {
        s.lemma_len0_is_empty();
        assert(s.map(f) =~= Set::<int>::empty());
    } else {
        if !(exists|x: u32| s.contains(x)) {
            assert(s =~= Set::<u32>::empty());
        }
        let x = choose|x: u32| s.contains(x);
        let s2 = s.remove(x);
        lemma_u32_map_int_len(s2);
        assert(!s2.map(f).contains(f(x))) by {
            if s2.map(f).contains(f(x)) {
                let a = choose|a: u32| s2.contains(a) && f(a) == f(x);
                assert(a == x);
            }
        }
        assert forall|b: int| s.map(f).contains(b) implies s2.map(f).insert(f(x)).contains(b) by {
            let a = choose|a: u32| s.contains(a) && f(a) == b;
            if a != x {
                assert(s2.contains(a));
                assert(s2.map(f).contains(b));
            }
        }
        assert forall|b: int| s2.map(f).insert(f(x)).contains(b) implies s.map(f).contains(b) by {
            if b == f(x) {
                assert(s.contains(x) && f(x) == b);
            } else {
                let a = choose|a: u32| s2.contains(a) && f(a) == b;
                assert(s.contains(a));
            }
        }
        assert(s.map(f) =~= s2.map(f).insert(f(x)));
    }
}

/// A finite set of `u32` keys can hold at most `2^32` elements; this bounds
/// the search and lets the main loop carry a decreasing measure.
proof fn lemma_u32_set_len(s: Set<u32>)
    requires
        s.finite(),
    ensures
        s.len() <= 0x1_0000_0000,
{
    let f = |x: u32| x as int;
    lemma_u32_map_int_len(s);
    let m = s.map(f);
    assert forall|b: int| m.contains(b) implies set_int_range(0, 0x1_0000_0000).contains(b) by {
        let a = choose|a: u32| s.contains(a) && f(a) == b;
        assert(0 <= (a as int) < 0x1_0000_0000);
    }
    lemma_int_range(0, 0x1_0000_0000);
    lemma_len_subset(m, set_int_range(0, 0x1_0000_0000));
}

/// When the frontier has emptied, the discovered set is closed under every
/// move, so nothing outside it — in particular the start — is reachable
/// from the root.
proof fn lemma_exhausted_unreachable(tree: Map<u32, u32>, output: u32, input: u32)
    requires
        tree.contains_key(output),
        forall|v: u32, d: Direction|
            tree.contains_key(v) ==> tree.contains_key(#[trigger] spec_move(v, d)),
        !tree.contains_key(input),
    ensures
        !reachable(output, input),
{
    let s = tree.dom();
    assert forall|u: u32, d: Direction| s.contains(u) implies s.contains(
        #[trigger] spec_move(u, d),
    ) by {
        assert(tree.contains_key(u));
    }
    if reachable(output, input) {
        let ms = choose|ms: Seq<Direction>| apply_moves(output, ms) == input;
        lemma_closed_set_reach(s, output, ms);
        assert(tree.contains_key(input));
    }
}

/// Walk the predecessor map from the found start state back to the
/// self-mapped root, collecting the trace in start-to-goal order. Each
/// parent link sits exactly one depth lower, so the trace's length equals
/// the start's discovery depth plus one — and by `lemma_path_depth` over the
/// frontier as it stood when the start was dequeued, that depth is minimal.
#[verifier::rlimit(100)]
fn reconstruct(
    tree: &HashMap<u32, u32>,
    input: u32,
    output: u32,
    Ghost(depth): Ghost<Map<u32, nat>>,
    Ghost(q0): Ghost<Seq<u32>>,
) -> (r: Vec<u32>)
    requires
        tree@.contains_key(output),
        tree@[output] == output,
        depth.dom() == tree@.dom(),
        depth[output] == 0,
        tree@.contains_key(input),
        forall|v: u32| #[trigger] tree@.contains_key(v) ==> valid_state(v),
        forall|v: u32|
            #[trigger] tree@.contains_key(v) && v != output ==> tree@.contains_key(tree@[v])
                && step_ok(tree@[v], v) && depth[v] == depth[tree@[v]] + 1,
        forall|v: u32|
            #[trigger] tree@.contains_key(v) ==> q0.contains(v) || (forall|d: Direction|
                tree@.contains_key(#[trigger] spec_move(v, d)) && depth[spec_move(v, d)] <= depth[v]
                    + 1),
        forall|v: u32, j: int|
            #![trigger tree@.contains_key(v), q0[j]]
            tree@.contains_key(v) && 0 <= j < q0.len() ==> depth[v] <= depth[q0[j]] + 1,
    ensures
        valid_trace(r@, input, output),
        minimal_trace(r@, input, output),
        reachable(output, input),
{
    let mut trace_vec: Vec<u32> = Vec::new();
    trace_vec.push(input);
    let mut cur: u32 = input;
    proof {
        lemma_reachable_refl(cur);
        assert(trace_vec@[0] == input);
    }
    while *tree.get(&cur).unwrap() != cur
        invariant
            tree@.contains_key(output),
            tree@[output] == output,
            depth.dom() == tree@.dom(),
            forall|v: u32| #[trigger] tree@.contains_key(v) ==> valid_state(v),
            forall|v: u32|
                #[trigger] tree@.contains_key(v) && v != output ==> tree@.contains_key(tree@[v])
                    && step_ok(tree@[v], v) && depth[v] == depth[tree@[v]] + 1,
            tree@.contains_key(cur),
            valid_trace(trace_vec@, input, cur),
            trace_vec@.len() + depth[cur] == depth[input] + 1,
            reachable(cur, input),
        decreases depth[cur],
    {
        let parent: u32 = *tree.get(&cur).unwrap();
        proof {
            assert(parent == tree@[cur]);
            assert(cur != output);
            assert(step_ok(parent, cur));
            let d = choose|d: Direction| cur == spec_move(parent, d);
            assert(spec_move(parent, d) == cur);
            lemma_reachable_prepend(parent, d, input);
        }
        let ghost t0 = trace_vec@;
        let ghost cur0 = cur;
        cur = parent;
        trace_vec.push(cur);
        proof {
            assert(trace_vec@ == t0.push(cur));
            assert(trace_vec@[trace_vec@.len() - 1] == cur);
            assert forall|i: int| 0 <= i < trace_vec@.len() implies valid_state(
                #[trigger] trace_vec@[i],
            ) by {
                if i < t0.len() {
                    assert(trace_vec@[i] == t0[i]);
                }
            }
            assert forall|i: int| 0 <= i < trace_vec@.len() - 1 implies #[trigger] step_ok(
                trace_vec@[i + 1],
                trace_vec@[i],
            ) by {
                if i < t0.len() - 1 {
                    assert(trace_vec@[i] == t0[i]);
                    assert(trace_vec@[i + 1] == t0[i + 1]);
                    assert(step_ok(t0[i + 1], t0[i]));
                } else {
                    assert(i == t0.len() - 1);
                    assert(trace_vec@[i] == t0[i] && t0[i] == cur0);
                    assert(trace_vec@[i + 1] == cur);
                    assert(step_ok(parent, cur0));
                }
            }
        }
    }
    proof {
        assert(tree@[cur] == cur);
        if cur != output {
            assert(step_ok(tree@[cur], cur));
        }
        assert(cur == output);
        assert(trace_vec@.len() == depth[input] + 1);
        // minimality: no move sequence from the root reaches the start in
        // fewer slides than the start's discovery depth
        assert forall|ms: Seq<Direction>| #[trigger] apply_moves(output, ms)
            == input implies trace_vec@.len() <= ms.len() + 1 by {
            lemma_path_depth(depth, q0, output, ms);
        }
    }
    trace_vec
}

/// Breadth-first search from `output` backward until `input` is dequeued.
///
/// Returns `Ok` with a shortest trace from `input` to `output` exactly when
/// `input` is reachable from `output` in the move graph; returns
/// `Unsolvable` when the frontier is exhausted, which proves there is no
/// such path.
#[verifier::rlimit(100)]
pub fn bfs(input: u32, output: u32) -> (r: Result<Trace, SolveError>)
    requires
        valid_state(input),
        valid_state(output),
    ensures
        match r {
            Ok(t) => reachable(output, input) && valid_trace(t.trace@, input, output)
                && minimal_trace(t.trace@, input, output),
            Err(e) => e == SolveError::Unsolvable && !reachable(output, input),
        },
{
    let max_capacity: usize = fact(9);

    let mut tree: HashMap<u32, u32> = HashMap::<u32, u32>::with_capacity(max_capacity);
    let mut moves: VecDeque<u32> = VecDeque::<u32>::with_capacity(max_capacity);
    let dirs: Vec<Direction> = vec![
        Direction::Up,
        Direction::Down,
        Direction::Left,
        Direction::Right,
    ];

    tree.insert(output, output);
    moves.push_back(output);
    let ghost mut depth: Map<u32, nat> = Map::<u32, nat>::empty().insert(output, 0nat);
    proof {
        assert(moves@[0] == output);
        assert(depth.dom() =~= tree@.dom());
        lemma_u32_set_len(tree@.dom());
    }

    loop
        invariant
            valid_state(input),
            valid_state(output),
            dirs@.len() == 4,
            dirs@[0] == Direction::Up,
            dirs@[1] == Direction::Down,
            dirs@[2] == Direction::Left,
            dirs@[3] == Direction::Right,
            tree@.contains_key(output),
            tree@[output] == output,
            depth.dom() == tree@.dom(),
            depth[output] == 0,
            forall|v: u32| #[trigger] tree@.contains_key(v) ==> valid_state(v),
            forall|v: u32|
                #[trigger] tree@.contains_key(v) && v != output ==> tree@.contains_key(tree@[v])
                    && step_ok(tree@[v], v) && depth[v] == depth[tree@[v]] + 1,
            forall|i: int| 0 <= i < moves@.len() ==> tree@.contains_key(#[trigger] moves@[i]),
            forall|v: u32|
                #[trigger] tree@.contains_key(v) ==> moves@.contains(v) || (forall|d: Direction|
                    tree@.contains_key(#[trigger] spec_move(v, d)) && depth[spec_move(v, d)]
                        <= depth[v] + 1),
            forall|v: u32, j: int|
                #![trigger tree@.contains_key(v), moves@[j]]
                tree@.contains_key(v) && 0 <= j < moves@.len() ==> depth[v] <= depth[moves@[j]]
                    + 1,
            forall|i: int, j: int|
                #![trigger moves@[i], moves@[j]]
                0 <= i <= j < moves@.len() ==> depth[moves@[i]] <= depth[moves@[j]],
            tree@.contains_key(input) ==> moves@.contains(input),
            tree@.dom().len() <= 0x1_0000_0000,
        decreases 5 * (0x1_0000_0000 - tree@.dom().len()) + moves@.len(),
    {
        let ghost q0 = moves@;
        let ghost measure0 = 5 * (0x1_0000_0000 - tree@.dom().len()) + moves@.len();

        let popped: Option<u32> = moves.pop_front();
        if popped.is_none() {
            proof {
                assert forall|v: u32, d: Direction|
                    tree@.contains_key(v) implies tree@.contains_key(
                    #[trigger] spec_move(v, d),
                ) by {
                    assert(!moves@.contains(v));
                }
                assert(!tree@.contains_key(input));
                lemma_exhausted_unreachable(tree@, output, input);
            }
            return Err(SolveError::Unsolvable);
        }
        let current: u32 = popped.unwrap();
        proof {
            assert(q0[0] == current);
            assert(tree@.contains_key(current));
            assert forall|u: u32| q0.contains(u) && u != current implies moves@.contains(u) by {
                let i = choose|i: int| 0 <= i < q0.len() && q0[i] == u;
                assert(moves@[i - 1] == q0[i]);
            }
        }

        if current == input {
            let trace_vec: Vec<u32> = reconstruct(&tree, current, output, Ghost(depth), Ghost(q0));
            return Ok(Trace { trace: trace_vec });
        }

        // Expanding: compute the four successors; record and enqueue each
        // state not yet in the predecessor map (first discoverer wins).
        proof {
            // after the pop, every queued state sits at the popped depth or
            // one above it, and nothing discovered sits above that band
            assert forall|j: int| 0 <= j < moves@.len() implies depth[current] <= depth[
                #[trigger] moves@[j]
            ] && depth[moves@[j]] <= depth[current] + 1 by {
                assert(moves@[j] == q0[j + 1]);
                assert(depth[q0[0]] <= depth[q0[j + 1]]);
                assert(tree@.contains_key(q0[j + 1]));
                assert(depth[q0[j + 1]] <= depth[q0[0]] + 1);
            }
            assert forall|v: u32| #[trigger] tree@.contains_key(v) implies depth[v] <= depth[
                current
            ] + 1 by {
                assert(depth[v] <= depth[q0[0]] + 1);
            }
            assert forall|i: int, j: int|
                0 <= i <= j < moves@.len() implies depth[#[trigger] moves@[i]] <= depth[
                #[trigger] moves@[j]
            ] by {
                assert(moves@[i] == q0[i + 1] && moves@[j] == q0[j + 1]);
            }
        }
        let mut di: usize = 0;
        while di < 4
            invariant
                valid_state(input),
                dirs@.len() == 4,
                dirs@[0] == Direction::Up,
                dirs@[1] == Direction::Down,
                dirs@[2] == Direction::Left,
                dirs@[3] == Direction::Right,
                di <= 4,
                current != input,
                tree@.contains_key(current),
                tree@.contains_key(output),
                tree@[output] == output,
                depth.dom() == tree@.dom(),
                depth[output] == 0,
                forall|v: u32| #[trigger] tree@.contains_key(v) ==> valid_state(v),
                forall|v: u32|
                    #[trigger] tree@.contains_key(v) && v != output ==> tree@.contains_key(
                        tree@[v],
                    ) && step_ok(tree@[v], v) && depth[v] == depth[tree@[v]] + 1,
                forall|i: int| 0 <= i < moves@.len() ==> tree@.contains_key(#[trigger] moves@[i]),
                forall|v: u32|
                    #[trigger] tree@.contains_key(v) && v != current ==> moves@.contains(v) || (
                    forall|d: Direction|
                        tree@.contains_key(#[trigger] spec_move(v, d)) && depth[spec_move(v, d)]
                            <= depth[v] + 1),
                forall|k: int|
                    0 <= k < di ==> tree@.contains_key(#[trigger] spec_move(current, dirs@[k]))
                        && depth[spec_move(current, dirs@[k])] <= depth[current] + 1,
                forall|j: int|
                    0 <= j < moves@.len() ==> depth[current] <= depth[#[trigger] moves@[j]]
                        && depth[moves@[j]] <= depth[current] + 1,
                forall|v: u32| #[trigger] tree@.contains_key(v) ==> depth[v] <= depth[current] + 1,
                forall|i: int, j: int|
                    #![trigger moves@[i], moves@[j]]
                    0 <= i <= j < moves@.len() ==> depth[moves@[i]] <= depth[moves@[j]],
                tree@.contains_key(input) ==> moves@.contains(input),
                tree@.dom().len() <= 0x1_0000_0000,
                5 * (0x1_0000_0000 - tree@.dom().len()) + moves@.len() <= measure0 - 1,
            decreases 4 - di,
        {
            let dir: Direction = dirs[di];
            let value: u32 = make_move(current, dir);
            let ghost q1 = moves@;
            if !tree.contains_key(&value) {
                tree.insert(value, current);
                moves.push_back(value);
                proof {
                    depth = depth.insert(value, depth[current] + 1);
                    assert(depth.dom() =~= tree@.dom());
                    assert forall|u: u32| q1.contains(u) implies moves@.contains(u) by {
                        let i = choose|i: int| 0 <= i < q1.len() && q1[i] == u;
                        assert(moves@[i] == u);
                    }
                    assert(moves@[moves@.len() - 1] == value);
                    assert(moves@.contains(value));
                    assert(value != current);
                    assert(step_ok(current, value));
                    lemma_u32_set_len(tree@.dom());
                }
            }
            di = di + 1;
        }
        proof {
            assert forall|d: Direction|
                tree@.contains_key(#[trigger] spec_move(current, d)) && depth[spec_move(current, d)]
                    <= depth[current] + 1 by {
                if d is Up {
                    assert(d == dirs@[0]);
                } else if d is Down {
                    assert(d == dirs@[1]);
                } else if d is Left {
                    assert(d == dirs@[2]);
                } else {
                    assert(d == dirs@[3]);
                }
            }
            assert forall|v: u32, j: int|
                #![trigger tree@.contains_key(v), moves@[j]]
                tree@.contains_key(v) && 0 <= j < moves@.len() implies depth[v] <= depth[moves@[j]]
                    + 1 by {
                assert(depth[v] <= depth[current] + 1);
                assert(depth[current] <= depth[moves@[j]]);
            }
        }
    }
}

/// Solve the puzzle: find a slide sequence from `start` to `goal`.
///
/// Both inputs must hold exactly 9 symbols (`SizeMismatch` otherwise), each
/// a permutation of `0..9` with 0 the blank (`AlphabetMismatch` otherwise).
/// A parity mismatch of the two inversion counts fails fast with
/// `Unsolvable`; with matching parity, the search succeeds exactly when the
/// packed start is reachable from the packed goal, and returns a shortest
/// trace from start to goal.
pub fn solve(start: &Vec<u32>, goal: &Vec<u32>) -> (r: Result<Trace, SolveError>)
    ensures
        r == Err::<Trace, SolveError>(SolveError::SizeMismatch) <==> !(start@.len() == 9
            && goal@.len() == 9),
        r == Err::<Trace, SolveError>(SolveError::AlphabetMismatch) <==> (start@.len() == 9
            && goal@.len() == 9 && !(valid_board(start@) && valid_board(goal@))),
        start@.len() == 9 && goal@.len() == 9 && valid_board(start@) && valid_board(goal@) ==> {
            &&& (inversions(start@) % 2 != inversions(goal@) % 2 ==> r == Err::<
                Trace,
                SolveError,
            >(SolveError::Unsolvable))
            &&& (inversions(start@) % 2 == inversions(goal@) % 2 ==> {
                &&& (r is Ok <==> reachable(pack_val(goal@), pack_val(start@)))
                &&& (r is Err ==> r == Err::<Trace, SolveError>(SolveError::Unsolvable))
            })
        },
        r matches Ok(t) ==> valid_trace(t.trace@, pack_val(start@), pack_val(goal@))
            && minimal_trace(t.trace@, pack_val(start@), pack_val(goal@)),
{
    if start.len() != 9 || goal.len() != 9 {
        return Err(SolveError::SizeMismatch);
    }
    let start_check: Result<(), SolveError> = validate_input(start);
    match start_check {
        Err(e) => {
            return Err(e);
        },
        Ok(u) => {
            proof {
                assert(start_check == Ok::<(), SolveError>(u));
                assert(valid_board(start@));
            }
        },
    }
    let goal_check: Result<(), SolveError> = validate_input(goal);
    match goal_check {
        Err(e) => {
            return Err(e);
        },
        Ok(u) => {
            proof {
                assert(goal_check == Ok::<(), SolveError>(u));
                assert(valid_board(goal@));
            }
        },
    }

    // solvability pre-check: start and goal are mutually reachable iff their
    // inversion counts agree in parity
    let start_inversions: u32 = count_inversions(start);
    let goal_inversions: u32 = count_inversions(goal);
    if start_inversions % 2 != goal_inversions % 2 {
        return Err(SolveError::Unsolvable);
    }

    let input: u32 = pack(start);
    let output: u32 = pack(goal);

    bfs(input, output)
}

} // verus!


