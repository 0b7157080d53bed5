use vstd::prelude::*;

use std::collections::HashMap;

use crate::board::{
    back_pawn_count, lemma_piece_count_bounds, occupied_count, side_king_count, side_pawn_count,
    Board, Player, Square,
};
use crate::movegen::{has_move, movement_legal};
use crate::moves::{apply_move, lemma_move_ok_wf, lemma_round_trip, move_ok, Movement};
use crate::zobrist::BOARD_LEN;

verus! {

/// Scores stay one step inside the representable range so that negating a
/// score can never overflow.
pub const MAX: i32 = i32::MAX - 1;
pub const MIN: i32 = i32::MIN + 1;

/// Every score this module's searches return is a static evaluation or a
/// negated child score, so all of them stay within the evaluation range.
pub const EVAL_LIMIT: i32 = 400;

/// Add one to a counter, stopping at the top instead of overflowing.
pub(crate) fn bump(c: &mut u32)
    ensures
        *final(c) == if *old(c) < u32::MAX {
            *old(c) + 1
        } else {
            *old(c) as int
        },
{
    if *c < u32::MAX {
        *c = *c + 1;
    }
}

/// The material balance `evaluate` computes: pawns weigh two, kings five,
/// and while more than sixteen pieces remain each uncrowned piece guarding
/// either home row adds one.
pub open spec fn eval_material(s: Seq<Square>, player: Player) -> int {
    let you = player.spec_other();
    let pawns = side_pawn_count(s, player, BOARD_LEN as int) - side_pawn_count(
        s,
        you,
        BOARD_LEN as int,
    );
    let kings = side_king_count(s, player, BOARD_LEN as int) - side_king_count(
        s,
        you,
        BOARD_LEN as int,
    );
    let back = if occupied_count(s, BOARD_LEN as int) > 16 {
        back_pawn_count(s, player, BOARD_LEN as int) - back_pawn_count(s, you, BOARD_LEN as int)
    } else {
        0
    };
    2 * pawns + 5 * kings + back
}


/// The side to move cannot force more than `v` from this position within
/// `d` further plies: at a leaf (no depth left, or no legal move) the static
/// material evaluation is at most `v`; at an interior node every legal
/// movement leads to a position whose own side-to-move value exceeds `-v-1`,
/// that is, is at least `-v`, so the mover's negated gain is at most `v`.
/// This is the depth-limited negamax game value, characterized as an upper
/// bound; `value_ge` is its dual, and a score satisfying both is the value.
pub open spec fn value_le(s: Seq<Square>, player: Player, d: int, v: int) -> bool
    decreases d,
{
    if d <= 0 || !has_move(s, player) {
        eval_material(s, player) <= v
    } else {
        forall|m: Movement| #[trigger] movement_legal(s, player, m) ==> !value_le(
            apply_move(s, m),
            player.spec_other(),
            d - 1,
            -v - 1,
        )
    }
}

/// The side to move can force at least `v` within `d` further plies.
pub open spec fn value_ge(s: Seq<Square>, player: Player, d: int, v: int) -> bool {
    !value_le(s, player, d, v - 1)
}

/// Weakening: an upper bound on the game value holds at any larger bound.
pub proof fn lemma_value_le_mono(s: Seq<Square>, player: Player, d: int, v: int, w: int)
    requires
        value_le(s, player, d, v),
        v <= w,
    ensures
        value_le(s, player, d, w),
    decreases d,
{
    if d <= 0 || !has_move(s, player) {
    } else {
        assert forall|m: Movement| #[trigger] movement_legal(s, player, m) implies !value_le(
            apply_move(s, m),
            player.spec_other(),
            d - 1,
            -w - 1,
        ) by {
            if value_le(apply_move(s, m), player.spec_other(), d - 1, -w - 1) {
                lemma_value_le_mono(apply_move(s, m), player.spec_other(), d - 1, -w - 1, -v - 1);
            }
        }
    }
}

/// Unpack an upper bound at an interior node into the bound on one child.
proof fn lemma_value_le_elim(s: Seq<Square>, player: Player, d: int, v: int, m: Movement)
    requires
        d >= 1,
        has_move(s, player),
        value_le(s, player, d, v),
        movement_legal(s, player, m),
    ensures
        !value_le(apply_move(s, m), player.spec_other(), d - 1, -v - 1),
{
}

/// Strengthening downward: a lower bound on the game value holds at any
/// smaller bound.
pub proof fn lemma_value_ge_mono(s: Seq<Square>, player: Player, d: int, v: int, w: int)
    requires
        value_ge(s, player, d, v),
        w <= v,
    ensures
        value_ge(s, player, d, w),
{
    if value_le(s, player, d, w - 1) {
        lemma_value_le_mono(s, player, d, w - 1, v - 1);
    }
}

/// A score that is both an upper and a lower bound is unique: it is the
/// depth-limited game value of the position.
pub proof fn lemma_value_unique(s: Seq<Square>, player: Player, d: int, v: int, w: int)
    requires
        value_le(s, player, d, v),
        value_ge(s, player, d, v),
        value_le(s, player, d, w),
        value_ge(s, player, d, w),
    ensures
        v == w,
{
    if v < w {
        lemma_value_le_mono(s, player, d, v, w - 1);
    }
    if w < v {
        lemma_value_le_mono(s, player, d, w, v - 1);
    }
}

/// The material balance is antisymmetric between the two sides.
pub proof fn lemma_eval_material_antisym(s: Seq<Square>, player: Player)
    ensures
        eval_material(s, player.spec_other()) == -eval_material(s, player),
{
}

/// Static material evaluation, from `player`'s point of view.
#[verifier::loop_isolation(false)]
fn evaluate(player: Player, board: &Board) -> (r: i32)
    requires
        board.wf(),
    ensures
        r == eval_material(board.sqs(), player),
        -EVAL_LIMIT <= r <= EVAL_LIMIT,
{
    let ghost s = board.sqs();
    let you = player.other();
    let mut pawns: i32 = 0;
    let mut kings: i32 = 0;
    let mut back_row: i32 = 0;
    let mut total: i32 = 0;
    let mut id: usize = 0;
    while id < BOARD_LEN
        invariant
            id <= BOARD_LEN,
            pawns == side_pawn_count(s, player, id as int) - side_pawn_count(s, you, id as int),
            kings == side_king_count(s, player, id as int) - side_king_count(s, you, id as int),
            total == occupied_count(s, id as int),
            -(id as int) <= pawns <= id as int,
            -(id as int) <= kings <= id as int,
            0 <= total <= id as int,
        decreases BOARD_LEN - id,
    {
        proof {
            lemma_piece_count_bounds(s, player, id as int);
            lemma_piece_count_bounds(s, you, id as int);
        }
        match board.get(id) {
            Square::Taken(piece) => {
                total = total + 1;
                if piece.get_player() == player {
                    if piece.is_king() {
                        kings = kings + 1;
                    } else {
                        pawns = pawns + 1;
                    }
                } else if piece.is_king() {
                    kings = kings - 1;
                } else {
                    pawns = pawns - 1;
                }
            },
            _ => {},
        }
        id += 1;
    }
    if total > 16 {
        let mut q: usize = 0;
        while q < BOARD_LEN
            invariant
                q <= BOARD_LEN,
                back_row == back_pawn_count(s, player, q as int) - back_pawn_count(
                    s,
                    you,
                    q as int,
                ),
                -(q as int) <= back_row <= q as int,
            decreases BOARD_LEN - q,
        {
            if (q >= 5 && q <= 8) || (q >= 37 && q <= 40) {
                match board.get(q) {
                    Square::Taken(piece) => {
                        if !piece.is_king() {
                            if piece.get_player() == player {
                                back_row = back_row + 1;
                            } else {
                                back_row = back_row - 1;
                            }
                        }
                    },
                    _ => {},
                }
            }
            q += 1;
        }
    }
    (2 * pawns) + (5 * kings) + back_row
}

enum Flag {
    ExactValue,
    LowerBound,
    UpperBound,
}

/// One memoized search result, keyed in the table by the full board, with
/// the depth it was computed at and whether the score is exact or only a
/// bound left over from a pruning cutoff.
pub struct TTEntry {
    score: i32,
    depth: u8,
    flag: Flag,
}

impl TTEntry {
    /// Every stored score stays strictly inside the representable range, so
    /// a score read back from the table can be negated safely.
    #[verifier::type_invariant]
    pub closed spec fn score_in_range(self) -> bool {
        -EVAL_LIMIT <= self.score <= EVAL_LIMIT
    }
}

/// Negamax with alpha-beta pruning and a transposition table keyed by the
/// full board (exact keys: a cache hit can never come from a colliding
/// position). Returns a score for `player`; the board is left exactly as it
/// was, squares and fingerprint alike. Without a table and with a sensible
/// window, the score is fail-soft correct against the depth-limited game
/// value: exact strictly inside the window, a sound lower bound of the value
/// when it fails high, and a sound upper bound when it fails low — so
/// pruning never changes the score a full-window search returns.
#[verifier::loop_isolation(false)]
#[verifier::rlimit(100)]
fn negamax(
    player: Player,
    board: &mut Board,
    table: &mut Option<HashMap<Board, TTEntry>>,
    stats: &mut Stats,
    depth: u8,
    alpha: i32,
    beta: i32,
) -> (r: i32)
    requires
        old(board).wf(),
        MIN <= alpha,
        MIN <= beta,
    ensures
        final(board).wf(),
        final(board).sqs() == old(board).sqs(),
        final(board).rnd() == old(board).rnd(),
        final(board).hash_val() == old(board).hash_val(),
        -EVAL_LIMIT <= r <= EVAL_LIMIT,
        (*old(table)) is None ==> (*final(table)) is None,
        (*old(table)) is None && alpha < beta && alpha < r && r < beta ==> value_le(
            old(board).sqs(),
            player,
            depth as int,
            r as int,
        ) && value_ge(old(board).sqs(), player, depth as int, r as int),
        (*old(table)) is None && alpha < beta && r >= beta ==> value_ge(
            old(board).sqs(),
            player,
            depth as int,
            r as int,
        ),
        (*old(table)) is None && alpha < beta && r <= alpha ==> value_le(
            old(board).sqs(),
            player,
            depth as int,
            r as int,
        ),
        (*old(table)) is None && (depth == 0 || !has_move(old(board).sqs(), player))
            ==> r as int == eval_material(old(board).sqs(), player),
        final(stats).moves == old(stats).moves,
        final(stats).explored >= old(stats).explored,
        final(stats).entry_hits >= old(stats).entry_hits,
        final(stats).table_used >= old(stats).table_used,
    decreases depth,
{
    let mut alpha = alpha;
    let mut beta = beta;
    let old_alpha = alpha;
    let ghost beta0 = beta;
    let ghost win_ok = (*old(table)) is None && alpha < beta;

    match table {
        Some(table) => {
            match table.get(&*board) {
                Some(entry) => {
                    proof {
                        use_type_invariant(&*entry);
                    }
                    bump(&mut stats.entry_hits);
                    if entry.depth >= depth {
                        match entry.flag {
                            Flag::ExactValue => {
                                bump(&mut stats.table_used);
                                return entry.score;
                            },
                            Flag::LowerBound => {
                                if alpha < entry.score {
                                    alpha = entry.score;
                                }
                            },
                            Flag::UpperBound => {
                                if beta > entry.score {
                                    beta = entry.score;
                                }
                            },
                        }
                        if alpha >= beta {
                            bump(&mut stats.table_used);
                            return entry.score;
                        }
                    }
                },
                None => {},
            }
        },
        None => {},
    }

    let ghost s0 = board.sqs();
    let ghost r0 = board.rnd();
    let ghost h0 = board.hash_val();

    let movements = board.movements(player);

    if depth == 0 || movements.len() == 0 {
        // a leaf, by exhausted depth or by the side to move having no legal
        // move, scores as the static evaluation of the position
        proof {
            if movements@.len() == 0 {
                assert(!has_move(s0, player));
            }
        }
        return evaluate(player, board);
    }

    let mut value = MIN;
    let mut cut = false;
    let mut i: usize = 0;
    while i < movements.len() && !cut
        invariant
            i <= movements@.len(),
            board.wf(),
            board.sqs() == s0,
            board.rnd() == r0,
            board.hash_val() == h0,
            value == MIN || -EVAL_LIMIT <= value <= EVAL_LIMIT,
            i > 0 || cut ==> value != MIN,
            i == 0 ==> value == MIN && !cut,
            MIN <= alpha,
            MIN <= beta,
            (*old(table)) is None ==> (*table) is None,
            win_ok ==> beta == beta0,
            win_ok ==> alpha as int == if value == MIN {
                old_alpha as int
            } else if value > old_alpha {
                value as int
            } else {
                old_alpha as int
            },
            win_ok && !cut ==> alpha < beta0,
            win_ok && cut ==> value >= beta0,
            win_ok && !cut ==> forall|j: int| #![trigger movements@[j]] 0 <= j < i
                ==> value_ge(
                apply_move(s0, movements@[j]),
                player.spec_other(),
                depth - 1,
                -(value as int),
            ),
            win_ok && value != MIN && value > old_alpha ==> exists|j: int| 0 <= j < i
                && value_le(
                apply_move(s0, #[trigger] movements@[j]),
                player.spec_other(),
                depth - 1,
                -(value as int),
            ),
            stats.moves == old(stats).moves,
            stats.explored >= old(stats).explored,
            stats.entry_hits >= old(stats).entry_hits,
            stats.table_used >= old(stats).table_used,
        decreases movements@.len() - i,
    {
        let m = &movements[i];
        bump(&mut stats.explored);
        board.do_movement(m);
        let ghost alpha_i = alpha as int;
        let score = negamax(player.other(), board, table, stats, depth - 1, -beta, -alpha);
        proof {
            lemma_move_ok_wf(s0, movements@[i as int]);
        }
        board.undo_movement(m);
        proof {
            lemma_round_trip(s0, r0, h0, movements@[i as int]);
        }
        let ghost old_value = value;
        if value < -score {
            value = -score;
        }
        if alpha < value {
            alpha = value;
        }
        if alpha >= beta {
            cut = true;
        }
        proof {
            if win_ok {
                let ghost child_s = apply_move(s0, movements@[i as int]);
                let ghost you = player.spec_other();
                let ghost ri = score as int;
                let ghost sc = -(score as int);
                // classify the child result against the child window
                // (-beta0, -alpha_i); the child search ran without a table
                if sc >= beta0 {
                    // the child failed low: its score upper-bounds its value,
                    // so ours lower-bounds the game value; a cutoff follows
                    assert(value_le(child_s, you, depth - 1, ri));
                    assert(value == sc && cut);
                    assert(value_le(child_s, you, depth - 1, -(value as int)));
                } else {
                    if sc > alpha_i {
                        // exact child score
                        assert(value_le(child_s, you, depth - 1, ri));
                        assert(value_ge(child_s, you, depth - 1, ri));
                    } else {
                        // the child failed high: its score lower-bounds its
                        // value, so ours upper-bounds this line
                        assert(value_ge(child_s, you, depth - 1, ri));
                    }
                    assert(!cut);
                    lemma_value_ge_mono(child_s, you, depth - 1, ri, -(value as int));
                    assert forall|j: int| #![trigger movements@[j]] 0 <= j < i + 1
                        implies value_ge(
                        apply_move(s0, movements@[j]),
                        you,
                        depth - 1,
                        -(value as int),
                    ) by {
                        if j < i {
                            lemma_value_ge_mono(apply_move(s0, movements@[j]), you, depth - 1,
                                -(old_value as int), -(value as int));
                        }
                    }
                    if value != MIN && value > old_alpha && old_value < value {
                        assert(sc > alpha_i);
                        assert(value_le(child_s, you, depth - 1, -(value as int)));
                    }
                }
            }
        }
        i += 1;
    }
    proof {
        if win_ok {
            let ghost you = player.spec_other();
            if cut {
                // fail high: the cutoff line witnesses the value bound
                let j = choose|j: int| 0 <= j < movements@.len() && value_le(
                    apply_move(s0, movements@[j]),
                    you,
                    depth - 1,
                    -(value as int),
                );
                if value_le(s0, player, depth as int, value as int - 1) {
                    lemma_value_le_elim(s0, player, depth as int, value as int - 1,
                        movements@[j]);
                    assert(false);
                }
            } else {
                assert forall|m: Movement| #[trigger] movement_legal(s0, player, m) implies
                    !value_le(apply_move(s0, m), you, depth - 1, -(value as int) - 1) by {
                    assert(movements@.contains(m));
                    let j = choose|j: int| 0 <= j < movements@.len() && movements@[j] == m;
                    assert(value_ge(apply_move(s0, movements@[j]), you, depth - 1,
                        -(value as int)));
                }
                assert(value_le(s0, player, depth as int, value as int));
                if value > old_alpha {
                    let j = choose|j: int| 0 <= j < movements@.len() && value_le(
                        apply_move(s0, movements@[j]),
                        you,
                        depth - 1,
                        -(value as int),
                    );
                    if value_le(s0, player, depth as int, value as int - 1) {
                        lemma_value_le_elim(s0, player, depth as int, value as int - 1,
                            movements@[j]);
                        assert(false);
                    }
                }
            }
        }
    }

    match table {
        Some(table) => {
            let flag = if value <= old_alpha {
                Flag::UpperBound
            } else if value >= beta {
                Flag::LowerBound
            } else {
                Flag::ExactValue
            };
            table.insert((*board).clone(), TTEntry { score: value, depth, flag });
        },
        None => {},
    }

    value
}

/// Plain minimax without pruning, used as the reference the pruned search is
/// compared against. Returns exactly the depth-limited game value of the
/// position, stated for the maximizing player: when maximizing, `r` is the
/// side-to-move value; when minimizing, `-r` is. The board is left exactly
/// as it was.
#[verifier::loop_isolation(false)]
#[verifier::rlimit(60)]
fn minimax(player: Player, board: &mut Board, depth: u8, maximizing: bool, stats: &mut Stats) -> (r:
    i32)
    requires
        old(board).wf(),
    ensures
        final(board).wf(),
        final(board).sqs() == old(board).sqs(),
        final(board).rnd() == old(board).rnd(),
        final(board).hash_val() == old(board).hash_val(),
        -EVAL_LIMIT <= r <= EVAL_LIMIT,
        maximizing ==> value_le(old(board).sqs(), player, depth as int, r as int) && value_ge(
            old(board).sqs(),
            player,
            depth as int,
            r as int,
        ),
        !maximizing ==> value_le(old(board).sqs(), player, depth as int, -(r as int))
            && value_ge(old(board).sqs(), player, depth as int, -(r as int)),
        final(stats).moves == old(stats).moves,
        final(stats).explored >= old(stats).explored,
        final(stats).entry_hits >= old(stats).entry_hits,
        final(stats).table_used >= old(stats).table_used,
    decreases depth,
{
    let maximizing_player = if maximizing {
        player
    } else {
        player.other()
    };
    if depth == 0 {
        proof {
            lemma_eval_material_antisym(board.sqs(), player);
        }
        return evaluate(maximizing_player, board);
    }
    let ghost s0 = board.sqs();
    let ghost r0 = board.rnd();
    let ghost h0 = board.hash_val();
    if maximizing {
        let movements = board.movements(player);
        if movements.len() == 0 {
            // no legal move: score as the static evaluation
            return evaluate(maximizing_player, board);
        }
        let mut value = MIN;
        let mut i: usize = 0;
        while i < movements.len()
            invariant
                i <= movements@.len(),
                board.wf(),
                board.sqs() == s0,
                board.rnd() == r0,
                board.hash_val() == h0,
                value == MIN || -EVAL_LIMIT <= value <= EVAL_LIMIT,
                i > 0 ==> value != MIN,
                i == 0 ==> value == MIN,
                forall|j: int| #![trigger movements@[j]] 0 <= j < i ==> value_ge(
                    apply_move(s0, movements@[j]),
                    player.spec_other(),
                    depth - 1,
                    -(value as int),
                ),
                i > 0 ==> exists|j: int| 0 <= j < i && value_le(
                    apply_move(s0, #[trigger] movements@[j]),
                    player.spec_other(),
                    depth - 1,
                    -(value as int),
                ),
                stats.moves == old(stats).moves,
                stats.explored >= old(stats).explored,
                stats.entry_hits >= old(stats).entry_hits,
                stats.table_used >= old(stats).table_used,
            decreases movements@.len() - i,
        {
            let m = &movements[i];
            bump(&mut stats.explored);
            board.do_movement(m);
            let score = minimax(player.other(), board, depth - 1, false, stats);
            proof {
                lemma_move_ok_wf(s0, movements@[i as int]);
            }
            board.undo_movement(m);
            proof {
                lemma_round_trip(s0, r0, h0, movements@[i as int]);
            }
            let ghost old_value = value;
            if value < score {
                value = score;
            }
            proof {
                assert forall|j: int| #![trigger movements@[j]] 0 <= j < i + 1 implies value_ge(
                    apply_move(s0, movements@[j]),
                    player.spec_other(),
                    depth - 1,
                    -(value as int),
                ) by {
                    if j < i {
                        lemma_value_ge_mono(apply_move(s0, movements@[j]), player.spec_other(),
                            depth - 1, -(old_value as int), -(value as int));
                    } else {
                        lemma_value_ge_mono(apply_move(s0, movements@[j]), player.spec_other(),
                            depth - 1, -(score as int), -(value as int));
                    }
                }
                if old_value < score {
                    assert(value_le(apply_move(s0, movements@[i as int]), player.spec_other(),
                        depth - 1, -(value as int)));
                }
            }
            i += 1;
        }
        proof {
            assert forall|m: Movement| #[trigger] movement_legal(s0, player, m) implies
                !value_le(apply_move(s0, m), player.spec_other(), depth - 1,
                -(value as int) - 1) by {
                assert(movements@.contains(m));
                let j = choose|j: int| 0 <= j < movements@.len() && movements@[j] == m;
                assert(value_ge(apply_move(s0, movements@[j]), player.spec_other(), depth - 1,
                    -(value as int)));
            }
            assert(value_le(s0, player, depth as int, value as int));
            let j = choose|j: int| 0 <= j < movements@.len() && value_le(
                apply_move(s0, movements@[j]),
                player.spec_other(),
                depth - 1,
                -(value as int),
            );
            if value_le(s0, player, depth as int, value as int - 1) {
                lemma_value_le_elim(s0, player, depth as int, value as int - 1, movements@[j]);
                assert(false);
            }
        }
        value
    } else {
        let movements = board.movements(player);
        if movements.len() == 0 {
            // no legal move: score as the static evaluation
            proof {
                lemma_eval_material_antisym(s0, player);
            }
            return evaluate(maximizing_player, board);
        }
        let mut value = MAX;
        let mut i: usize = 0;
        while i < movements.len()
            invariant
                i <= movements@.len(),
                board.wf(),
                board.sqs() == s0,
                board.rnd() == r0,
                board.hash_val() == h0,
                value == MAX || -EVAL_LIMIT <= value <= EVAL_LIMIT,
                i > 0 ==> value != MAX,
                i == 0 ==> value == MAX,
                forall|j: int| #![trigger movements@[j]] 0 <= j < i ==> value_ge(
                    apply_move(s0, movements@[j]),
                    player.spec_other(),
                    depth - 1,
                    value as int,
                ),
                i > 0 ==> exists|j: int| 0 <= j < i && value_le(
                    apply_move(s0, #[trigger] movements@[j]),
                    player.spec_other(),
                    depth - 1,
                    value as int,
                ),
                stats.moves == old(stats).moves,
                stats.explored >= old(stats).explored,
                stats.entry_hits >= old(stats).entry_hits,
                stats.table_used >= old(stats).table_used,
            decreases movements@.len() - i,
        {
            let m = &movements[i];
            bump(&mut stats.explored);
            board.do_movement(m);
            let score = minimax(player.other(), board, depth - 1, true, stats);
            proof {
                lemma_move_ok_wf(s0, movements@[i as int]);
            }
            board.undo_movement(m);
            proof {
                lemma_round_trip(s0, r0, h0, movements@[i as int]);
            }
            let ghost old_value = value;
            if value > score {
                value = score;
            }
            proof {
                assert forall|j: int| #![trigger movements@[j]] 0 <= j < i + 1 implies value_ge(
                    apply_move(s0, movements@[j]),
                    player.spec_other(),
                    depth - 1,
                    value as int,
                ) by {
                    if j < i {
                        lemma_value_ge_mono(apply_move(s0, movements@[j]), player.spec_other(),
                            depth - 1, old_value as int, value as int);
                    } else {
                        lemma_value_ge_mono(apply_move(s0, movements@[j]), player.spec_other(),
                            depth - 1, score as int, value as int);
                    }
                }
                if old_value > score {
                    assert(value_le(apply_move(s0, movements@[i as int]), player.spec_other(),
                        depth - 1, value as int));
                }
            }
            i += 1;
        }
        proof {
            assert forall|m: Movement| #[trigger] movement_legal(s0, player, m) implies
                !value_le(apply_move(s0, m), player.spec_other(), depth - 1,
                value as int - 1) by {
                assert(movements@.contains(m));
                let j = choose|j: int| 0 <= j < movements@.len() && movements@[j] == m;
                assert(value_ge(apply_move(s0, movements@[j]), player.spec_other(), depth - 1,
                    value as int));
            }
            assert(value_le(s0, player, depth as int, -(value as int)));
            let j = choose|j: int| 0 <= j < movements@.len() && value_le(
                apply_move(s0, movements@[j]),
                player.spec_other(),
                depth - 1,
                value as int,
            );
            if value_le(s0, player, depth as int, -(value as int) - 1) {
                lemma_value_le_elim(s0, player, depth as int, -(value as int) - 1,
                    movements@[j]);
                assert(false);
            }
        }
        value
    }
}

/// Pick a movement for `player` by one-ply expansion over the legal moves,
/// scoring each with either pruned negamax or plain minimax. Returns no
/// movement exactly when `player` has no legal move (the losing condition),
/// and otherwise a legal movement that maximizes the depth-limited game
/// value over the legal moves (stated whenever no transposition table is in
/// play: with plain minimax always, and with pruning, whose full-window
/// scores are exact, whenever the table is absent). The board is left
/// exactly as it was.
#[verifier::loop_isolation(false)]
pub fn search(
    player: Player,
    board: &mut Board,
    alpha_beta: bool,
    table: &mut Option<HashMap<Board, TTEntry>>,
    depth: u8,
    stats: &mut Stats,
) -> (r: Option<Movement>)
    requires
        old(board).wf(),
    ensures
        final(board).wf(),
        final(board).sqs() == old(board).sqs(),
        final(board).rnd() == old(board).rnd(),
        final(board).hash_val() == old(board).hash_val(),
        r is Some <==> has_move(old(board).sqs(), player),
        match r {
            Some(m) => movement_legal(old(board).sqs(), player, m) && move_ok(
                old(board).sqs(),
                m,
            ),
            None => true,
        },
        (*old(table)) is None ==> (*final(table)) is None,
        (!alpha_beta || (*old(table)) is None) && r is Some ==> exists|v: int|
            #![trigger value_le(apply_move(old(board).sqs(), r.unwrap()), player.spec_other(), depth as int, -v)]
            value_le(
                apply_move(old(board).sqs(), r.unwrap()),
                player.spec_other(),
                depth as int,
                -v,
            ) && value_ge(
                apply_move(old(board).sqs(), r.unwrap()),
                player.spec_other(),
                depth as int,
                -v,
            ) && forall|m2: Movement| #[trigger] movement_legal(old(board).sqs(), player, m2)
                ==> value_ge(
                apply_move(old(board).sqs(), m2),
                player.spec_other(),
                depth as int,
                -v,
            ),
        final(stats).moves == old(stats).moves,
        final(stats).explored >= old(stats).explored,
        final(stats).entry_hits >= old(stats).entry_hits,
        final(stats).table_used >= old(stats).table_used,
{
    let ghost s0 = board.sqs();
    let ghost r0 = board.rnd();
    let ghost h0 = board.hash_val();
    let movements = board.movements(player);

    if movements.len() == 0 {
        return None;
    }

    let mut value = MIN - 1;
    let mut movement: Option<Movement> = None;
    let ghost exact = !alpha_beta || (*old(table)) is None;

    let mut i: usize = 0;
    while i < movements.len()
        invariant
            i <= movements@.len(),
            board.wf(),
            board.sqs() == s0,
            board.rnd() == r0,
            board.hash_val() == h0,
            i > 0 ==> movement is Some,
            movement is None ==> value == MIN - 1,
            movement is Some ==> -EVAL_LIMIT <= value <= EVAL_LIMIT,
            (*old(table)) is None ==> (*table) is None,
            stats.moves == old(stats).moves,
            stats.explored >= old(stats).explored,
            stats.entry_hits >= old(stats).entry_hits,
            stats.table_used >= old(stats).table_used,
            match movement {
                Some(m) => movement_legal(s0, player, m) && move_ok(s0, m),
                None => true,
            },
            exact ==> match movement {
                Some(m) => value_le(apply_move(s0, m), player.spec_other(), depth as int,
                    -(value as int)) && value_ge(apply_move(s0, m), player.spec_other(),
                    depth as int, -(value as int)),
                None => true,
            },
            exact ==> forall|j: int| #![trigger movements@[j]] 0 <= j < i ==> value_ge(
                apply_move(s0, movements@[j]),
                player.spec_other(),
                depth as int,
                -(value as int),
            ),
        decreases movements@.len() - i,
    {
        let m = &movements[i];
        bump(&mut stats.explored);
        board.do_movement(m);
        let v = if alpha_beta {
            -negamax(player.other(), board, table, stats, depth, MIN, MAX)
        } else {
            minimax(player.other(), board, depth, false, stats)
        };
        proof {
            lemma_move_ok_wf(s0, movements@[i as int]);
        }
        board.undo_movement(m);
        proof {
            lemma_round_trip(s0, r0, h0, movements@[i as int]);
        }
        let ghost old_value = value;
        if v > value {
            movement = Some(movements[i].duplicate());
            value = v;
        }
        proof {
            if exact {
                let ghost you = player.spec_other();
                let ghost child_s = apply_move(s0, movements@[i as int]);
                // the child score is exact: plain minimax by its contract,
                // and pruned negamax because at the full window every score
                // lies strictly inside it
                assert(value_le(child_s, you, depth as int, -(v as int)));
                assert(value_ge(child_s, you, depth as int, -(v as int)));
                lemma_value_ge_mono(child_s, you, depth as int, -(v as int), -(value as int));
                assert forall|j: int| #![trigger movements@[j]] 0 <= j < i + 1 implies value_ge(
                    apply_move(s0, movements@[j]),
                    you,
                    depth as int,
                    -(value as int),
                ) by {
                    if j < i && old_value >= MIN {
                        lemma_value_ge_mono(apply_move(s0, movements@[j]), you, depth as int,
                            -(old_value as int), -(value as int));
                    }
                }
            }
        }
        i += 1;
    }
    proof {
        if exact && movement is Some {
            let ghost you = player.spec_other();
            assert forall|m2: Movement| #[trigger] movement_legal(s0, player, m2)
                implies value_ge(apply_move(s0, m2), you, depth as int, -(value as int)) by {
                assert(movements@.contains(m2));
                let j = choose|j: int| 0 <= j < movements@.len() && movements@[j] == m2;
                assert(value_ge(apply_move(s0, movements@[j]), you, depth as int,
                    -(value as int)));
            }
            assert(value_le(apply_move(s0, movement.unwrap()), you, depth as int,
                -(value as int)));
        }
    }

    movement
}

/// Counters describing how much work one search did.
#[derive(Debug)]
pub struct Stats {
    pub explored: u32,
    pub entry_hits: u32,
    pub table_used: u32,
    pub moves: u32,
}

impl Stats {
    pub fn new() -> (r: Stats)
        ensures
            r == (Stats { explored: 0, entry_hits: 0, table_used: 0, moves: 0 }),
    {
        Stats { explored: 0, entry_hits: 0, table_used: 0, moves: 0 }
    }

    pub fn reset(&mut self)
        ensures
            *final(self) == (Stats { explored: 0, entry_hits: 0, table_used: 0, moves: 0 }),
    {
        self.explored = 0;
        self.entry_hits = 0;
        self.table_used = 0;
        self.moves = 0;
    }
}

} // verus!
