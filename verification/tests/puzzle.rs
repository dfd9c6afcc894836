use eight_puzzle::codec::{decode, get_blank_pos, get_mask, get_tile, pack, to_pos, wrap_around};
use eight_puzzle::moves::{down, left, make_move, right, up, Direction};
use eight_puzzle::search::{
    bfs, check_solvability, count_inversions, fact, solve, validate_input, SolveError,
};

// the canonical solved board 1..8 with the blank in the bottom-right slot
fn goal_board() -> Vec<u32> {
    vec![1, 2, 3, 4, 5, 6, 7, 8, 0]
}

// the packed form of the canonical solved board, written out bit by bit:
// tile codes 0..7 in the 27 low bits, blank position 8 in the high bits
const GOAL_PACKED: u32 = 0b01000000111110101100011010001000;

#[test]
fn pack_canonical_goal_exact_bits() {
    assert_eq!(pack(&goal_board()), GOAL_PACKED);
}

#[test]
fn blank_pos_and_tiles_of_goal() {
    assert_eq!(get_blank_pos(GOAL_PACKED), 8);
    for i in 0..8u32 {
        // slot i holds tile i + 1, stored as code i
        assert_eq!(get_tile(GOAL_PACKED, i), i);
    }
}

#[test]
fn round_trip_canonical() {
    let board = goal_board();
    assert_eq!(decode(pack(&board)), board);
}

#[test]
fn round_trip_sample_boards() {
    let boards: Vec<Vec<u32>> = vec![
        vec![1, 2, 3, 4, 5, 0, 6, 7, 8],
        vec![0, 1, 2, 3, 4, 5, 6, 7, 8],
        vec![8, 7, 6, 5, 4, 3, 2, 1, 0],
        vec![3, 1, 4, 0, 5, 8, 2, 6, 7],
    ];
    for board in boards {
        assert_eq!(decode(pack(&board)), board);
    }
}

#[test]
fn codec_helpers_exact_values() {
    assert_eq!(get_mask(0), 0b111);
    assert_eq!(get_mask(2), 0b111 << 6);
    assert_eq!(get_mask(8), 0b111 << 24);
    assert_eq!(to_pos(5), 5 << 27);
    assert_eq!(wrap_around(9), 9);
    assert_eq!(wrap_around(-9), 23);
    assert_eq!(wrap_around(3), 3);
    assert_eq!(wrap_around(-3), 29);
}

#[test]
fn legal_moves_rearrange_the_board() {
    // blank in the middle of the right column
    let state = pack(&vec![1, 2, 3, 4, 5, 0, 6, 7, 8]);
    // up: the tile above the blank (slot 2) slides down
    assert_eq!(decode(up(state)), vec![1, 2, 0, 4, 5, 3, 6, 7, 8]);
    // down: the tile below the blank (slot 8) slides up
    assert_eq!(decode(down(state)), vec![1, 2, 3, 4, 5, 8, 6, 7, 0]);
    // left: the tile left of the blank (slot 4) slides right
    assert_eq!(decode(left(state)), vec![1, 2, 3, 4, 0, 5, 6, 7, 8]);
}

#[test]
fn illegal_moves_are_no_ops() {
    // blank on the right column: right is illegal
    let state = pack(&vec![1, 2, 3, 4, 5, 0, 6, 7, 8]);
    assert_eq!(right(state), state);
    // blank in the bottom-right corner: down and right are illegal
    let corner = pack(&goal_board());
    assert_eq!(down(corner), corner);
    assert_eq!(right(corner), corner);
    // blank in the top-left corner: up and left are illegal
    let top = pack(&vec![0, 1, 2, 3, 4, 5, 6, 7, 8]);
    assert_eq!(up(top), top);
    assert_eq!(left(top), top);
}

#[test]
fn moves_undo_their_inverses() {
    let state = pack(&vec![1, 2, 3, 4, 0, 5, 6, 7, 8]);
    assert_eq!(down(up(state)), state);
    assert_eq!(up(down(state)), state);
    assert_eq!(right(left(state)), state);
    assert_eq!(left(right(state)), state);
}

#[test]
fn inversion_counts_exact() {
    assert_eq!(count_inversions(&goal_board()), 0);
    // one adjacent pair swapped: exactly one inversion
    assert_eq!(count_inversions(&vec![2, 1, 3, 4, 5, 6, 7, 8, 0]), 1);
    // fully descending tiles: 8 choose 2 inversions
    assert_eq!(count_inversions(&vec![8, 7, 6, 5, 4, 3, 2, 1, 0]), 28);
}

#[test]
fn solvability_pre_check() {
    // even parity: solvable
    assert!(check_solvability(&goal_board()).is_ok());
    assert!(check_solvability(&vec![8, 7, 6, 5, 4, 3, 2, 1, 0]).is_ok());
    // odd parity: unsolvable
    assert_eq!(
        check_solvability(&vec![2, 1, 3, 4, 5, 6, 7, 8, 0]),
        Err(SolveError::Unsolvable)
    );
}

#[test]
fn validate_input_accepts_permutations_only() {
    assert!(validate_input(&goal_board()).is_ok());
    // a repeated symbol
    assert_eq!(
        validate_input(&vec![1, 1, 3, 4, 5, 6, 7, 8, 0]),
        Err(SolveError::AlphabetMismatch)
    );
    // a symbol out of the alphabet
    assert_eq!(
        validate_input(&vec![1, 2, 3, 4, 5, 6, 7, 8, 9]),
        Err(SolveError::AlphabetMismatch)
    );
}

#[test]
fn fact_exact_values() {
    assert_eq!(fact(0), 1);
    assert_eq!(fact(1), 1);
    assert_eq!(fact(9), 362880);
    assert_eq!(fact(12), 479001600);
}

// every consecutive pair of a trace must differ by exactly one legal slide:
// the earlier state arises from the later one by one of the four moves
fn assert_trace_steps(trace: &[u32]) {
    for i in 0..trace.len() - 1 {
        let parent = trace[i + 1];
        let child = trace[i];
        assert_ne!(parent, child);
        let successors = [up(parent), down(parent), left(parent), right(parent)];
        assert!(successors.contains(&child));
    }
}

#[test]
fn solve_thirteen_move_instance() {
    let start: Vec<u32> = vec![1, 2, 3, 4, 5, 0, 6, 7, 8];
    let goal = goal_board();
    let result = solve(&start, &goal).unwrap();
    // the shortest solution of this instance takes 13 moves: 14 states
    assert_eq!(result.trace.len(), 14);
    assert_eq!(result.trace[0], pack(&start));
    assert_eq!(result.trace[result.trace.len() - 1], pack(&goal));
    assert_eq!(decode(result.trace[0]), start);
    assert_eq!(decode(result.trace[13]), goal);
    assert_trace_steps(&result.trace);
}

#[test]
fn solve_two_move_instance() {
    // undoing the construction start = left(up(goal)) takes two slides,
    // and fewer cannot do: the blank starts two slots from its goal
    let start: Vec<u32> = vec![1, 2, 3, 4, 0, 5, 7, 8, 6];
    let goal = goal_board();
    let result = solve(&start, &goal).unwrap();
    assert_eq!(result.trace.len(), 3);
    assert_eq!(result.trace[0], pack(&start));
    assert_eq!(result.trace[2], pack(&goal));
    assert_eq!(decode(result.trace[0]), start);
    assert_eq!(decode(result.trace[2]), goal);
    assert_trace_steps(&result.trace);
}

#[test]
fn solve_trivial_instance() {
    let goal = goal_board();
    let result = solve(&goal, &goal).unwrap();
    assert_eq!(result.trace.len(), 1);
    assert_eq!(result.trace[0], pack(&goal));
}

#[test]
fn solve_long_instance() {
    let start: Vec<u32> = vec![8, 7, 6, 5, 4, 3, 2, 1, 0];
    let goal = goal_board();
    let result = solve(&start, &goal).unwrap();
    assert!(result.trace.len() > 1);
    assert_eq!(result.trace[0], pack(&start));
    assert_eq!(result.trace[result.trace.len() - 1], pack(&goal));
    assert_trace_steps(&result.trace);
}

#[test]
fn solve_rejects_odd_parity() {
    // a single adjacent swap away from the goal: odd inversion count
    let start: Vec<u32> = vec![2, 1, 3, 4, 5, 6, 7, 8, 0];
    assert!(matches!(solve(&start, &goal_board()), Err(SolveError::Unsolvable)));
}

#[test]
fn solve_rejects_size_mismatch() {
    let short: Vec<u32> = vec![1, 2, 3, 4, 5, 6, 7, 0];
    assert!(matches!(solve(&short, &goal_board()), Err(SolveError::SizeMismatch)));
    let long: Vec<u32> = vec![1, 2, 3, 4, 5, 6, 7, 8, 0, 9];
    assert!(matches!(solve(&goal_board(), &long), Err(SolveError::SizeMismatch)));
}

#[test]
fn solve_rejects_alphabet_mismatch() {
    // start uses the symbols a..i, goal replaces i with an x that start
    // does not hold; symbols map to codes by their distance from a, with
    // a as the blank
    let start: Vec<u32> = "abcdefghi".chars().map(|c| c as u32 - 'a' as u32).collect();
    let goal: Vec<u32> = "abcdefghx".chars().map(|c| c as u32 - 'a' as u32).collect();
    assert!(matches!(solve(&start, &goal), Err(SolveError::AlphabetMismatch)));
}

#[test]
fn make_move_matches_named_directions() {
    let state = pack(&vec![1, 2, 3, 4, 0, 5, 6, 7, 8]);
    assert_eq!(make_move(state, Direction::Up), up(state));
    assert_eq!(make_move(state, Direction::Down), down(state));
    assert_eq!(make_move(state, Direction::Left), left(state));
    assert_eq!(make_move(state, Direction::Right), right(state));
}

#[test]
fn bfs_connects_packed_states() {
    let start = pack(&vec![1, 2, 3, 4, 0, 5, 7, 8, 6]);
    let goal = pack(&goal_board());
    let trace = bfs(start, goal).unwrap().trace;
    assert_eq!(trace[0], start);
    assert_eq!(trace[trace.len() - 1], goal);
    assert_trace_steps(&trace);
}
