use vstd::prelude::*;

use std::collections::HashMap;

use crate::ai::{MAX, MIN};
use crate::board::{
    is_playable, lemma_occ_positive,
    lemma_occupied_count_bounds, lemma_piece_count_bounds, lemma_side_count_bounds, occupied_count,
    side_count, side_king_count, side_pawn_count, Board, Piece, Player, Square,
};
use crate::movegen::{has_capture, has_move, movement_legal, simple_move_at, simple_ok_at};
use crate::moves::{apply_move, lemma_move_ok_wf, lemma_round_trip, Movement};
use crate::zobrist::BOARD_LEN;

verus! {

/// Every evaluation keeps its score well inside the representable range, so
/// that scores can be negated and compared freely during search.
pub const EVAL_BOUND: i32 = 250000000;

/// The six central squares of the playable board.
pub open spec fn is_center(q: int) -> bool {
    q == 15 || q == 16 || q == 20 || q == 21 || q == 24 || q == 25
}

/// The home row of a side: where its pieces start and defend.
pub open spec fn is_home_row(q: int, player: Player) -> bool {
    match player {
        Player::Player1 => 5 <= q <= 8,
        Player::Player2 => 37 <= q <= 40,
    }
}

/// The advanced half of the board for a side: the squares past the middle,
/// counted for tempo.
pub open spec fn is_advanced(q: int, player: Player) -> bool {
    match player {
        Player::Player1 => q >= 28,
        Player::Player2 => q <= 17,
    }
}

/// How many crowned pieces of `player` stand on central squares among 0 .. n.
pub open spec fn center_king_count(s: Seq<Square>, player: Player, n: int) -> int
    decreases n,
{
    if n <= 0 {
        0
    } else {
        center_king_count(s, player, n - 1) + match s[n - 1] {
            Square::Taken(p) => if p.player == player && p.king && is_center(n - 1) {
                1int
            } else {
                0int
            },
            _ => 0int,
        }
    }
}

/// How many uncrowned pieces of `player` guard their own home row among
/// squares 0 .. n.
pub open spec fn home_pawn_count(s: Seq<Square>, player: Player, n: int) -> int
    decreases n,
{
    if n <= 0 {
        0
    } else {
        home_pawn_count(s, player, n - 1) + match s[n - 1] {
            Square::Taken(p) => if p.player == player && !p.king && is_home_row(n - 1, player) {
                1int
            } else {
                0int
            },
            _ => 0int,
        }
    }
}

/// How many uncrowned pieces of `player` have crossed into the advanced half
/// among squares 0 .. n.
pub open spec fn advanced_pawn_count(s: Seq<Square>, player: Player, n: int) -> int
    decreases n,
{
    if n <= 0 {
        0
    } else {
        advanced_pawn_count(s, player, n - 1) + match s[n - 1] {
            Square::Taken(p) => if p.player == player && !p.king && is_advanced(n - 1, player) {
                1int
            } else {
                0int
            },
            _ => 0int,
        }
    }
}

pub proof fn lemma_zone_count_bounds(s: Seq<Square>, player: Player, n: int)
    requires
        n >= 0,
    ensures
        0 <= center_king_count(s, player, n) <= n,
        0 <= home_pawn_count(s, player, n) <= n,
        0 <= advanced_pawn_count(s, player, n) <= n,
    decreases n,
{
    if n > 0 {
        lemma_zone_count_bounds(s, player, n - 1);
    }
}

/// Both sides' pieces together are the occupied squares.
pub proof fn lemma_sides_make_occupied(s: Seq<Square>, n: int)
    requires
        n >= 0,
    ensures
        side_count(s, Player::Player1, n) + side_count(s, Player::Player2, n) == occupied_count(
            s,
            n,
        ),
    decreases n,
{
    if n > 0 {
        lemma_sides_make_occupied(s, n - 1);
    }
}

/// The material balance `evaluation1` computes: each pawn is worth one and
/// each king three, counted for the side and against its opponent.
pub open spec fn eval_basic(s: Seq<Square>, player: Player) -> int {
    let you = player.spec_other();
    let pawn = side_pawn_count(s, player, BOARD_LEN as int) - side_pawn_count(
        s,
        you,
        BOARD_LEN as int,
    );
    let king = side_king_count(s, player, BOARD_LEN as int) - side_king_count(
        s,
        you,
        BOARD_LEN as int,
    );
    pawn + 3 * king
}

/// The structural cramp term: a fixed pair of facing squares on each flank
/// where one side pins the other.
pub open spec fn cramp_of(s: Seq<Square>, player: Player) -> int {
    let first = match s[23] {
        Square::Taken(p1) => if p1.player == Player::Player1 {
            match s[28] {
                Square::Taken(p2) => if p2.player != Player::Player1 {
                    if player == Player::Player1 {
                        1int
                    } else {
                        -1int
                    }
                } else {
                    0int
                },
                _ => 0int,
            }
        } else {
            0int
        },
        _ => 0int,
    };
    let second = match s[22] {
        Square::Taken(p1) => if p1.player == Player::Player2 {
            match s[17] {
                Square::Taken(p2) => if p2.player != Player::Player2 {
                    if player == Player::Player1 {
                        -1int
                    } else {
                        1int
                    }
                } else {
                    0int
                },
                _ => 0int,
            }
        } else {
            0int
        },
        _ => 0int,
    };
    first + second
}

/// The piece-ratio term, with the truncating division the evaluation uses:
/// two hundred fifty times the piece difference over the piece total.
pub open spec fn ratio_of(me: int, you: int) -> int {
    if me >= you {
        (250 * (me - you)) / (me + you)
    } else {
        -((250 * (you - me)) / (me + you))
    }
}

/// The positional balance `evaluation2` computes: weighted pawn and king
/// differences, home-row defense and tempo terms whose weights shift as the
/// board empties, the piece ratio, central kings, and the cramp pattern.
pub open spec fn eval_positional(s: Seq<Square>, player: Player) -> int {
    let you = player.spec_other();
    let me = side_count(s, player, BOARD_LEN as int);
    let you_n = side_count(s, you, BOARD_LEN as int);
    let pawns = side_pawn_count(s, player, BOARD_LEN as int) - side_pawn_count(
        s,
        you,
        BOARD_LEN as int,
    );
    let kings = side_king_count(s, player, BOARD_LEN as int) - side_king_count(
        s,
        you,
        BOARD_LEN as int,
    );
    let defense = home_pawn_count(s, player, BOARD_LEN as int) - home_pawn_count(
        s,
        you,
        BOARD_LEN as int,
    );
    let tempo = advanced_pawn_count(s, player, BOARD_LEN as int) - advanced_pawn_count(
        s,
        you,
        BOARD_LEN as int,
    );
    let kcent = center_king_count(s, player, BOARD_LEN as int) - center_king_count(
        s,
        you,
        BOARD_LEN as int,
    );
    let total = occupied_count(s, BOARD_LEN as int);
    let d = if total <= 12 {
        -10int
    } else {
        15int
    };
    let t = if total <= 16 {
        10int
    } else {
        40int
    };
    105 * pawns + 125 * kings + d * defense + t * tempo + ratio_of(me, you_n) + (me - you_n) + 30
        * kcent + 10 * cramp_of(s, player)
}


/// The four diagonal offsets, in the order the evaluation scans them.
pub open spec fn off_at(i: int) -> int {
    if i == 0 {
        -5
    } else if i == 1 {
        -4
    } else if i == 2 {
        4
    } else {
        5
    }
}

/// How many pieces of `player` stand diagonally next to `land` (scanning the
/// first n offsets): pieces that could answer a capture landing there.
pub open spec fn defend_count(s: Seq<Square>, player: Player, land: int, n: int) -> int
    decreases n,
{
    if n <= 0 {
        0
    } else {
        defend_count(s, player, land, n - 1) + match s[land + off_at(n - 1)] {
            Square::Taken(p) => if p.player == player {
                1int
            } else {
                0int
            },
            _ => 0int,
        }
    }
}

/// Denial-of-occupancy weight of the empty target square `t` (scanning the
/// first n offsets): for each opposing neighbour that could capture a piece
/// moved to `t`, one point per friendly piece able to recapture on the
/// landing square.
pub open spec fn deny_at(s: Seq<Square>, player: Player, t: int, n: int) -> int
    decreases n,
{
    if n <= 0 {
        0
    } else {
        deny_at(s, player, t, n - 1) + {
            let off = off_at(n - 1);
            match s[t + off] {
                Square::Taken(p) => if p.player != player && s[t - off] is Empty {
                    defend_count(s, player, t - off, 4)
                } else {
                    0int
                },
                _ => 0int,
            }
        }
    }
}

/// How many captures the piece `p` would threaten after stepping onto the
/// empty square `t` (scanning its first n directions).
pub open spec fn threat_at(s: Seq<Square>, p: Piece, t: int, n: int) -> int
    decreases n,
{
    if n <= 0 {
        0
    } else {
        threat_at(s, p, t, n - 1) + {
            let d = p.spec_dirs()[n - 1];
            match s[t + d] {
                Square::Taken(q) => if q.player != p.player && s[t + 2 * d] is Empty {
                    1int
                } else {
                    0int
                },
                _ => 0int,
            }
        }
    }
}

/// How many empty step targets the piece `p` on square `q` has (scanning its
/// first n directions).
pub open spec fn mob_dirs(s: Seq<Square>, p: Piece, q: int, n: int) -> int
    decreases n,
{
    if n <= 0 {
        0
    } else {
        mob_dirs(s, p, q, n - 1) + if s[q + p.spec_dirs()[n - 1]] is Empty {
            1int
        } else {
            0int
        }
    }
}

/// Denial weight of the piece on square `q` summed over its first n empty
/// step targets.
pub open spec fn deny_dirs(s: Seq<Square>, player: Player, p: Piece, q: int, n: int) -> int
    decreases n,
{
    if n <= 0 {
        0
    } else {
        deny_dirs(s, player, p, q, n - 1) + if s[q + p.spec_dirs()[n - 1]] is Empty {
            deny_at(s, player, q + p.spec_dirs()[n - 1], 4)
        } else {
            0int
        }
    }
}

/// Threats of the piece on square `q` summed over its first n empty step
/// targets.
pub open spec fn threat_dirs(s: Seq<Square>, p: Piece, q: int, n: int) -> int
    decreases n,
{
    if n <= 0 {
        0
    } else {
        threat_dirs(s, p, q, n - 1) + if s[q + p.spec_dirs()[n - 1]] is Empty {
            threat_at(s, p, q + p.spec_dirs()[n - 1], p.spec_dirs().len() as int)
        } else {
            0int
        }
    }
}

/// Total mobility of `player` over squares 0 .. n: empty step targets of its
/// pieces.
pub open spec fn mob_total(s: Seq<Square>, player: Player, n: int) -> int
    decreases n,
{
    if n <= 0 {
        0
    } else {
        mob_total(s, player, n - 1) + match s[n - 1] {
            Square::Taken(p) => if p.player == player {
                mob_dirs(s, p, n - 1, p.spec_dirs().len() as int)
            } else {
                0int
            },
            _ => 0int,
        }
    }
}

/// Total denial weight over squares 0 .. n, accumulated over every piece's
/// empty step targets (either side's, as the evaluation scans them).
pub open spec fn deny_total(s: Seq<Square>, player: Player, n: int) -> int
    decreases n,
{
    if n <= 0 {
        0
    } else {
        deny_total(s, player, n - 1) + match s[n - 1] {
            Square::Taken(p) => deny_dirs(s, player, p, n - 1, p.spec_dirs().len() as int),
            _ => 0int,
        }
    }
}

/// Total threatened captures of `player` over squares 0 .. n.
pub open spec fn threat_total(s: Seq<Square>, player: Player, n: int) -> int
    decreases n,
{
    if n <= 0 {
        0
    } else {
        threat_total(s, player, n - 1) + match s[n - 1] {
            Square::Taken(p) => if p.player == player {
                threat_dirs(s, p, n - 1, p.spec_dirs().len() as int)
            } else {
                0int
            },
            _ => 0int,
        }
    }
}

/// Rows three and four, seen from the second side's edge.
pub open spec fn is_rows34(q: int) -> bool {
    14 <= q <= 22 && q != 18
}

/// Rows five and six, seen from the second side's edge.
pub open spec fn is_rows56(q: int) -> bool {
    23 <= q <= 31 && q != 27
}

/// The advancement balance over squares 0 .. n: pieces standing in the two
/// middle band zones, credited to the side advancing through each zone.
pub open spec fn adv_score(s: Seq<Square>, player: Player, n: int) -> int
    decreases n,
{
    if n <= 0 {
        0
    } else {
        adv_score(s, player, n - 1) + match s[n - 1] {
            Square::Taken(p) => if is_rows34(n - 1) {
                if p.player == Player::Player2 {
                    if player == Player::Player2 {
                        1int
                    } else {
                        -1int
                    }
                } else if player == Player::Player1 {
                    -1int
                } else {
                    1int
                }
            } else if is_rows56(n - 1) {
                if p.player == Player::Player1 {
                    if player == Player::Player1 {
                        1int
                    } else {
                        -1int
                    }
                } else if player == Player::Player2 {
                    -1int
                } else {
                    1int
                }
            } else {
                0int
            },
            _ => 0int,
        }
    }
}

/// The move-system squares: the columns used to count parity for the move
/// term.
pub open spec fn is_move_system(q: int) -> bool {
    (5 <= q <= 8) || (14 <= q <= 17) || (23 <= q <= 26) || (32 <= q <= 35)
}

/// How many move-system squares among 0 .. n are occupied.
pub open spec fn move_system_count(s: Seq<Square>, n: int) -> int
    decreases n,
{
    if n <= 0 {
        0
    } else {
        move_system_count(s, n - 1) + if is_move_system(n - 1) && s[n - 1] is Taken {
            1int
        } else {
            0int
        }
    }
}

/// Occupied central squares among 0 .. n, either side's.
pub open spec fn center_count(s: Seq<Square>, n: int) -> int
    decreases n,
{
    if n <= 0 {
        0
    } else {
        center_count(s, n - 1) + if is_center(n - 1) && s[n - 1] is Taken {
            1int
        } else {
            0int
        }
    }
}

/// Crowned pieces on central squares among 0 .. n, either side's.
pub open spec fn center_king_total(s: Seq<Square>, n: int) -> int
    decreases n,
{
    if n <= 0 {
        0
    } else {
        center_king_total(s, n - 1) + match s[n - 1] {
            Square::Taken(p) => if p.king && is_center(n - 1) {
                1int
            } else {
                0int
            },
            _ => 0int,
        }
    }
}

proof fn lemma_defend_bounds(s: Seq<Square>, player: Player, q: int, n: int)
    requires
        n >= 0,
    ensures
        0 <= defend_count(s, player, q, n) <= n,
    decreases n,
{
    if n > 0 {
        lemma_defend_bounds(s, player, q, n - 1);
    }
}

proof fn lemma_deny_at_bounds(s: Seq<Square>, player: Player, t: int, n: int)
    requires
        n >= 0,
    ensures
        0 <= deny_at(s, player, t, n) <= 4 * n,
    decreases n,
{
    if n > 0 {
        lemma_deny_at_bounds(s, player, t, n - 1);
        lemma_defend_bounds(s, player, t - off_at(n - 1), 4);
    }
}

proof fn lemma_threat_at_bounds(s: Seq<Square>, p: Piece, t: int, n: int)
    requires
        n >= 0,
    ensures
        0 <= threat_at(s, p, t, n) <= n,
    decreases n,
{
    if n > 0 {
        lemma_threat_at_bounds(s, p, t, n - 1);
    }
}

proof fn lemma_mob_dirs_bounds(s: Seq<Square>, p: Piece, q: int, n: int)
    requires
        n >= 0,
    ensures
        0 <= mob_dirs(s, p, q, n) <= n,
    decreases n,
{
    if n > 0 {
        lemma_mob_dirs_bounds(s, p, q, n - 1);
    }
}

proof fn lemma_deny_dirs_bounds(s: Seq<Square>, player: Player, p: Piece, q: int, n: int)
    requires
        n >= 0,
    ensures
        0 <= deny_dirs(s, player, p, q, n) <= 16 * n,
    decreases n,
{
    if n > 0 {
        lemma_deny_dirs_bounds(s, player, p, q, n - 1);
        lemma_deny_at_bounds(s, player, q + p.spec_dirs()[n - 1], 4);
    }
}

proof fn lemma_threat_dirs_bounds(s: Seq<Square>, p: Piece, q: int, n: int)
    requires
        n >= 0,
    ensures
        0 <= threat_dirs(s, p, q, n) <= 4 * n,
    decreases n,
{
    if n > 0 {
        lemma_threat_dirs_bounds(s, p, q, n - 1);
        lemma_threat_at_bounds(s, p, q + p.spec_dirs()[n - 1], p.spec_dirs().len() as int);
    }
}

pub proof fn lemma_samuel_total_bounds(s: Seq<Square>, player: Player, n: int)
    requires
        n >= 0,
    ensures
        0 <= mob_total(s, player, n) <= 4 * n,
        0 <= deny_total(s, player, n) <= 64 * n,
        0 <= threat_total(s, player, n) <= 16 * n,
        -n <= adv_score(s, player, n) <= n,
        0 <= move_system_count(s, n) <= n,
        0 <= center_count(s, n) <= n,
        0 <= center_king_total(s, n) <= n,
    decreases n,
{
    if n > 0 {
        lemma_samuel_total_bounds(s, player, n - 1);
        match s[n - 1] {
            Square::Taken(p) => {
                lemma_mob_dirs_bounds(s, p, n - 1, p.spec_dirs().len() as int);
                lemma_deny_dirs_bounds(s, player, p, n - 1, p.spec_dirs().len() as int);
                lemma_threat_dirs_bounds(s, p, n - 1, p.spec_dirs().len() as int);
                assert(p.spec_dirs().len() <= 4);
            },
            _ => {},
        }
    }
}

/// The Samuel-style balance `evaluation3` computes, assembled from mobility,
/// denial of occupancy, threats, advancement, the move term, the back-row
/// bridge, and centre control, each at its fixed binary weight.
pub open spec fn eval_samuel(s: Seq<Square>, player: Player) -> int {
    let you = player.spec_other();
    let me_pawns = side_pawn_count(s, player, BOARD_LEN as int);
    let me_kings = side_king_count(s, player, BOARD_LEN as int);
    let you_pawns = side_pawn_count(s, you, BOARD_LEN as int);
    let you_kings = side_king_count(s, you, BOARD_LEN as int);
    let mob = mob_total(s, player, BOARD_LEN as int);
    let deny = deny_total(s, player, BOARD_LEN as int);
    let thret = threat_total(s, player, BOARD_LEN as int);
    let me = 2 * me_pawns + 3 * me_kings;
    let you_w = 2 * you_pawns + 3 * you_kings;
    let mov: int = if me < 25 && me == you_w && move_system_count(s, BOARD_LEN as int) % 2 == 0 {
        1
    } else {
        0
    };
    let adv = adv_score(s, player, BOARD_LEN as int);
    let back: int = if me_kings == 0 && ((player == Player::Player1 && s[6] is Taken
        && s[8] is Taken) || (player == Player::Player2 && s[37] is Taken && s[39] is Taken)) {
        1
    } else {
        0
    };
    let center = center_count(s, BOARD_LEN as int);
    let king_center = center_king_total(s, BOARD_LEN as int);
    let mobil = mob - deny;
    let undenied = mobil > 0;
    let total_mobility = mob > 0;
    let denial = deny > 0;
    let control = center > 0;
    let demmo: int = if denial && !total_mobility {
        1
    } else {
        0
    };
    let mode_2: int = if undenied && !denial {
        1
    } else {
        0
    };
    let mode_3: int = if !undenied && denial {
        1
    } else {
        0
    };
    let moc_2: int = if !undenied && control {
        1
    } else {
        0
    };
    let moc_3: int = if undenied && !control {
        1
    } else {
        0
    };
    let moc_4: int = if !undenied && !control {
        1
    } else {
        0
    };
    (-moc_2 * 262144) + (king_center * 65536) + (-moc_4 * 16384) + (-mode_3 * 8192) + (-demmo
        * 2048) + (mov * 256) + (-adv * 256) + (-mode_2 * 256) + (-back * 64) + (center * 32) + (
    thret * 32) + (moc_3 * 16) + ((me - you_w) * 1048576)
}

/// Material evaluation: pawns worth one, kings worth three.
#[verifier::loop_isolation(false)]
pub fn evaluation1(board: &Board, player: Player) -> (r: i32)
    requires
        board.wf(),
    ensures
        r == eval_basic(board.sqs(), player),
        -200 <= r <= 200,
{
    let ghost s = board.sqs();
    let you = player.other();
    let mut pawn: i32 = 0;
    let mut king: i32 = 0;
    let mut id: usize = 0;
    while id < BOARD_LEN
        invariant
            id <= BOARD_LEN,
            pawn == side_pawn_count(s, player, id as int) - side_pawn_count(s, you, id as int),
            king == side_king_count(s, player, id as int) - side_king_count(s, you, id as int),
            -(id as int) <= pawn <= id as int,
            -(id as int) <= king <= id as int,
        decreases BOARD_LEN - id,
    {
        match board.get(id) {
            Square::Taken(piece) => {
                if piece.get_player() == player {
                    if piece.is_king() {
                        king = king + 1;
                    } else {
                        pawn = pawn + 1;
                    }
                } else if piece.is_king() {
                    king = king - 1;
                } else {
                    pawn = pawn - 1;
                }
            },
            _ => {},
        }
        id += 1;
    }
    pawn + (3 * king)
}

/// Positional evaluation: weighted material, defense, tempo, piece ratio,
/// central kings, and the cramp pattern. The ratio term divides by the piece
/// total, so the board must hold at least one piece.
#[verifier::loop_isolation(false)]
#[verifier::rlimit(60)]
pub fn evaluation2(board: &Board, player: Player) -> (r: i32)
    requires
        board.wf(),
        occupied_count(board.sqs(), BOARD_LEN as int) > 0,
    ensures
        r == eval_positional(board.sqs(), player),
        -30000 <= r <= 30000,
{
    let ghost s = board.sqs();
    let you = player.other();
    let mut me: i32 = 0;
    let mut you_n: i32 = 0;
    let mut tempo: i32 = 0;
    let mut defense: i32 = 0;
    let mut pawns: i32 = 0;
    let mut kings: i32 = 0;
    let mut total: i32 = 0;
    let mut kcent: i32 = 0;
    let mut cramp: i32 = 0;
    let mut id: usize = 0;
    while id < BOARD_LEN
        invariant
            id <= BOARD_LEN,
            me == side_count(s, player, id as int),
            you_n == side_count(s, you, id as int),
            pawns == side_pawn_count(s, player, id as int) - side_pawn_count(s, you, id as int),
            kings == side_king_count(s, player, id as int) - side_king_count(s, you, id as int),
            defense == home_pawn_count(s, player, id as int) - home_pawn_count(s, you, id as int),
            tempo == advanced_pawn_count(s, player, id as int) - advanced_pawn_count(
                s,
                you,
                id as int,
            ),
            kcent == center_king_count(s, player, id as int) - center_king_count(
                s,
                you,
                id as int,
            ),
            total == occupied_count(s, id as int),
            0 <= me <= id as int,
            0 <= you_n <= id as int,
            -(id as int) <= pawns <= id as int,
            -(id as int) <= kings <= id as int,
            -(id as int) <= defense <= id as int,
            -(id as int) <= tempo <= id as int,
            -(id as int) <= kcent <= id as int,
            0 <= total <= id as int,
        decreases BOARD_LEN - id,
    {
        proof {
            lemma_side_count_bounds(s, player, id as int);
            lemma_side_count_bounds(s, you, id as int);
        }
        match board.get(id) {
            Square::Taken(piece) => {
                total = total + 1;
                if piece.get_player() == player {
                    me = me + 1;
                    if piece.is_king() {
                        kings = kings + 1;
                        if id == 15 || id == 16 || id == 20 || id == 21 || id == 24 || id == 25 {
                            kcent = kcent + 1;
                        }
                    } else {
                        pawns = pawns + 1;
                        let in_home = match player {
                            Player::Player1 => id >= 5 && id <= 8,
                            Player::Player2 => id >= 37 && id <= 40,
                        };
                        if in_home {
                            defense = defense + 1;
                        }
                        let in_advance = match player {
                            Player::Player1 => id >= 28,
                            Player::Player2 => id <= 17,
                        };
                        if in_advance {
                            tempo = tempo + 1;
                        }
                    }
                } else {
                    you_n = you_n + 1;
                    if piece.is_king() {
                        kings = kings - 1;
                        if id == 15 || id == 16 || id == 20 || id == 21 || id == 24 || id == 25 {
                            kcent = kcent - 1;
                        }
                    } else {
                        pawns = pawns - 1;
                        let in_home = match you {
                            Player::Player1 => id >= 5 && id <= 8,
                            Player::Player2 => id >= 37 && id <= 40,
                        };
                        if in_home {
                            defense = defense - 1;
                        }
                        let in_advance = match you {
                            Player::Player1 => id >= 28,
                            Player::Player2 => id <= 17,
                        };
                        if in_advance {
                            tempo = tempo - 1;
                        }
                    }
                }
            },
            _ => {},
        }
        id += 1;
    }

    match board.get(23) {
        Square::Taken(piece1) => {
            if piece1.get_player() == Player::Player1 {
                match board.get(28) {
                    Square::Taken(piece2) => {
                        if piece2.get_player() != Player::Player1 {
                            if player == Player::Player1 {
                                cramp = cramp + 1;
                            } else {
                                cramp = cramp - 1;
                            }
                        }
                    },
                    _ => {},
                }
            }
        },
        _ => {},
    }

    match board.get(22) {
        Square::Taken(piece1) => {
            if piece1.get_player() == Player::Player2 {
                match board.get(17) {
                    Square::Taken(piece2) => {
                        if piece2.get_player() != Player::Player2 {
                            if player == Player::Player1 {
                                cramp = cramp - 1;
                            } else {
                                cramp = cramp + 1;
                            }
                        }
                    },
                    _ => {},
                }
            }
        },
        _ => {},
    }

    let d: i32 = if total <= 12 {
        -10
    } else {
        15
    };
    let t: i32 = if total <= 16 {
        10
    } else {
        40
    };

    proof {
        lemma_sides_make_occupied(s, BOARD_LEN as int);
    }
    let diff = me - you_n;
    let sum = me + you_n;
    let ratio: i32 = if diff >= 0 {
        proof {
            assert(0 <= (250 * (me - you_n)) / (me + you_n) <= 250) by (nonlinear_arith)
                requires
                    me + you_n >= 1,
                    0 <= me - you_n <= me + you_n,
            ;
        }
        (250 * diff) / sum
    } else {
        proof {
            assert(0 <= (250 * (you_n - me)) / (me + you_n) <= 250) by (nonlinear_arith)
                requires
                    me + you_n >= 1,
                    0 <= you_n - me <= me + you_n,
            ;
        }
        -((250 * (-diff)) / sum)
    };

    (105 * pawns) + (125 * kings) + (d * defense) + (t * tempo) + ratio + diff + (30 * kcent) + (10
        * cramp)
}


/// How many pieces of `player` stand diagonally next to `land`.
#[verifier::loop_isolation(false)]
fn count_defenders(board: &Board, player: Player, land: usize) -> (r: i32)
    requires
        board.wf(),
        is_playable(land as int),
    ensures
        r == defend_count(board.sqs(), player, land as int, 4),
        0 <= r <= 4,
{
    let ghost s = board.sqs();
    let offs: Vec<i32> = vec![-5, -4, 4, 5];
    proof {
        assert(offs@[0] as int == off_at(0));
        assert(offs@[1] as int == off_at(1));
        assert(offs@[2] as int == off_at(2));
        assert(offs@[3] as int == off_at(3));
    }
    let mut r: i32 = 0;
    let mut ji: usize = 0;
    while ji < 4
        invariant
            ji <= 4,
            r == defend_count(s, player, land as int, ji as int),
            0 <= r <= ji as int,
        decreases 4 - ji,
    {
        let id_defend = ((land as i32) + offs[ji]) as usize;
        proof {
            assert(id_defend as int == land as int + off_at(ji as int));
        }
        match board.get(id_defend) {
            Square::Taken(defender) => {
                if defender.get_player() == player {
                    r = r + 1;
                }
            },
            _ => {},
        }
        ji += 1;
    }
    r
}

/// The denial-of-occupancy weight of the empty square `t`: how strongly a
/// piece stepping there could be captured and recaptured.
#[verifier::loop_isolation(false)]
fn deny_for_target(board: &Board, player: Player, t: usize) -> (r: i32)
    requires
        board.wf(),
        is_playable(t as int),
    ensures
        r == deny_at(board.sqs(), player, t as int, 4),
        0 <= r <= 16,
{
    let ghost s = board.sqs();
    let offs: Vec<i32> = vec![-5, -4, 4, 5];
    proof {
        assert(offs@[0] as int == off_at(0));
        assert(offs@[1] as int == off_at(1));
        assert(offs@[2] as int == off_at(2));
        assert(offs@[3] as int == off_at(3));
    }
    let mut r: i32 = 0;
    let mut si: usize = 0;
    while si < 4
        invariant
            si <= 4,
            r == deny_at(s, player, t as int, si as int),
            0 <= r <= 4 * si as int,
        decreases 4 - si,
    {
        let s_off = offs[si];
        let id_surround = ((t as i32) + s_off) as usize;
        proof {
            assert(id_surround as int == t as int + off_at(si as int));
        }
        match board.get(id_surround) {
            Square::Taken(surround_piece) => {
                if surround_piece.get_player() != player {
                    let id_jump_land = ((t as i32) - s_off) as usize;
                    proof {
                        assert(id_jump_land as int == t as int - off_at(si as int));
                    }
                    match board.get(id_jump_land) {
                        Square::Empty => {
                            proof {
                                if !is_playable(t as int - off_at(si as int)) {
                                    assert(s[t as int - off_at(si as int)] is Invalid);
                                }
                            }
                            let defenders = count_defenders(board, player, id_jump_land);
                            r = r + defenders;
                        },
                        _ => {},
                    }
                }
            },
            _ => {},
        }
        si += 1;
    }
    r
}

/// How many captures piece `p` would threaten after stepping onto the empty
/// square `t`.
#[verifier::loop_isolation(false)]
fn threats_from(board: &Board, piece: Piece, t: usize) -> (r: i32)
    requires
        board.wf(),
        is_playable(t as int),
    ensures
        r == threat_at(board.sqs(), piece, t as int, piece.spec_dirs().len() as int),
        0 <= r <= 4,
{
    let ghost s = board.sqs();
    let dirs = piece.movements();
    proof {
        crate::board::lemma_dirs_bounds(piece);
    }
    let mut r: i32 = 0;
    let mut tj: usize = 0;
    while tj < dirs.len()
        invariant
            tj <= dirs@.len(),
            r == threat_at(s, piece, t as int, tj as int),
            0 <= r <= tj as int,
        decreases dirs@.len() - tj,
    {
        let dj = dirs[tj];
        let id_jump = ((t as i32) + dj) as usize;
        let ghost jmp_i = t as int + piece.spec_dirs()[tj as int];
        proof {
            assert(id_jump as int == jmp_i);
        }
        match board.get(id_jump) {
            Square::Taken(jumped_piece) => {
                if jumped_piece.get_player() != piece.get_player() {
                    proof {
                        if !is_playable(jmp_i) {
                            assert(s[jmp_i] is Invalid);
                        }
                    }
                    let id_land = ((id_jump as i32) + dj) as usize;
                    proof {
                        assert(id_land as int == t as int + 2 * piece.spec_dirs()[tj as int]);
                    }
                    match board.get(id_land) {
                        Square::Empty => {
                            r = r + 1;
                        },
                        _ => {},
                    }
                }
            },
            _ => {},
        }
        tj += 1;
    }
    r
}

/// Scan the board for `player`: pawn and king counts of both sides, total
/// mobility, denial of occupancy, and threatened captures.
#[verifier::loop_isolation(false)]
#[verifier::rlimit(100)]
fn scan_activity(board: &Board, player: Player) -> (r: (i32, i32, i32, i32, i32, i32, i32))
    requires
        board.wf(),
    ensures
        r.0 == side_pawn_count(board.sqs(), player, BOARD_LEN as int),
        r.1 == side_king_count(board.sqs(), player, BOARD_LEN as int),
        r.2 == side_pawn_count(board.sqs(), player.spec_other(), BOARD_LEN as int),
        r.3 == side_king_count(board.sqs(), player.spec_other(), BOARD_LEN as int),
        r.4 == mob_total(board.sqs(), player, BOARD_LEN as int),
        r.5 == deny_total(board.sqs(), player, BOARD_LEN as int),
        r.6 == threat_total(board.sqs(), player, BOARD_LEN as int),
        0 <= r.0 <= 46 && 0 <= r.1 <= 46 && 0 <= r.2 <= 46 && 0 <= r.3 <= 46,
        0 <= r.4 <= 184 && 0 <= r.5 <= 2944 && 0 <= r.6 <= 736,
{
    let ghost s = board.sqs();
    let you = player.other();
    let mut mob: i32 = 0;
    let mut deny: i32 = 0;
    let mut thret: i32 = 0;
    let mut me_kings: i32 = 0;
    let mut me_pawns: i32 = 0;
    let mut you_kings: i32 = 0;
    let mut you_pawns: i32 = 0;

    let mut id: usize = 0;
    while id < BOARD_LEN
        invariant
            id <= BOARD_LEN,
            me_pawns == side_pawn_count(s, player, id as int),
            me_kings == side_king_count(s, player, id as int),
            you_pawns == side_pawn_count(s, you, id as int),
            you_kings == side_king_count(s, you, id as int),
            mob == mob_total(s, player, id as int),
            deny == deny_total(s, player, id as int),
            thret == threat_total(s, player, id as int),
        decreases BOARD_LEN - id,
    {
        proof {
            lemma_piece_count_bounds(s, player, id as int);
            lemma_piece_count_bounds(s, you, id as int);
            lemma_samuel_total_bounds(s, player, id as int);
        }
        match board.get(id) {
            Square::Taken(piece) => {
                proof {
                    if !is_playable(id as int) {
                        assert(s[id as int] is Invalid);
                    }
                    crate::board::lemma_dirs_bounds(piece);
                }
                if piece.get_player() == player {
                    if piece.is_king() {
                        me_kings = me_kings + 1;
                    } else {
                        me_pawns = me_pawns + 1;
                    }
                } else if piece.is_king() {
                    you_kings = you_kings + 1;
                } else {
                    you_pawns = you_pawns + 1;
                }
                let own = piece.get_player() == player;
                let dirs = piece.movements();
                let mut k: usize = 0;
                while k < dirs.len()
                    invariant
                        k <= dirs@.len(),
                        mob == mob_total(s, player, id as int) + if own {
                            mob_dirs(s, piece, id as int, k as int)
                        } else {
                            0int
                        },
                        deny == deny_total(s, player, id as int) + deny_dirs(
                            s,
                            player,
                            piece,
                            id as int,
                            k as int,
                        ),
                        thret == threat_total(s, player, id as int) + if own {
                            threat_dirs(s, piece, id as int, k as int)
                        } else {
                            0int
                        },
                    decreases dirs@.len() - k,
                {
                    proof {
                        lemma_mob_dirs_bounds(s, piece, id as int, k as int);
                        lemma_deny_dirs_bounds(s, player, piece, id as int, k as int);
                        lemma_threat_dirs_bounds(s, piece, id as int, k as int);
                    }
                    let d = dirs[k];
                    let ghost dd = piece.spec_dirs()[k as int];
                    let id_to = ((id as i32) + d) as usize;
                    let ghost t_i = id as int + dd;
                    proof {
                        assert(id_to as int == t_i);
                    }
                    let target_empty = match board.get(id_to) {
                        Square::Empty => true,
                        _ => false,
                    };
                    if target_empty {
                        proof {
                            if !is_playable(t_i) {
                                assert(s[t_i] is Invalid);
                            }
                        }
                        if own {
                            mob = mob + 1;
                        }
                        let dn = deny_for_target(board, player, id_to);
                        deny = deny + dn;
                        if own {
                            let th = threats_from(board, piece, id_to);
                            thret = thret + th;
                        }
                    }
                    k += 1;
                }
            },
            _ => {},
        }
        id += 1;
    }
    proof {
        lemma_samuel_total_bounds(s, player, BOARD_LEN as int);
        lemma_piece_count_bounds(s, player, BOARD_LEN as int);
        lemma_piece_count_bounds(s, you, BOARD_LEN as int);
    }
    (me_pawns, me_kings, you_pawns, you_kings, mob, deny, thret)
}

/// Samuel-style evaluation: mobility, denial of occupancy, threats,
/// advancement, move parity, the back-row bridge and centre control, each at
/// its fixed binary weight.
#[verifier::loop_isolation(false)]
#[verifier::rlimit(100)]
pub fn evaluation3(board: &Board, player: Player) -> (r: i32)
    requires
        board.wf(),
    ensures
        r == eval_samuel(board.sqs(), player),
        -EVAL_BOUND <= r <= EVAL_BOUND,
{
    let ghost s = board.sqs();
    let activity = scan_activity(board, player);
    let me_pawns = activity.0;
    let me_kings = activity.1;
    let you_pawns = activity.2;
    let you_kings = activity.3;
    let mob = activity.4;
    let deny = activity.5;
    let thret = activity.6;

    let me = (2 * me_pawns) + (3 * me_kings);
    let you_w = (2 * you_pawns) + (3 * you_kings);

    let mut mov: i32 = 0;
    let mut adv: i32 = 0;
    let mut back: i32 = 0;
    let mut center: i32 = 0;
    let mut king_center: i32 = 0;

    if me < 25 && me == you_w {
        let mut count: i32 = 0;
        let mut q: usize = 0;
        while q < BOARD_LEN
            invariant
                q <= BOARD_LEN,
                count == move_system_count(s, q as int),
                0 <= count <= q as int,
            decreases BOARD_LEN - q,
        {
            if (q >= 5 && q <= 8) || (q >= 14 && q <= 17) || (q >= 23 && q <= 26) || (q >= 32 && q
                <= 35) {
                match board.get(q) {
                    Square::Taken(_) => {
                        count = count + 1;
                    },
                    _ => {},
                }
            }
            q += 1;
        }
        if count % 2 == 0 {
            mov = 1;
        }
    }

    let mut q: usize = 0;
    while q < BOARD_LEN
        invariant
            q <= BOARD_LEN,
            adv == adv_score(s, player, q as int),
            -(q as int) <= adv <= q as int,
            center == center_count(s, q as int),
            king_center == center_king_total(s, q as int),
            0 <= center <= q as int,
            0 <= king_center <= q as int,
        decreases BOARD_LEN - q,
    {
        match board.get(q) {
            Square::Taken(piece) => {
                if q >= 14 && q <= 22 && q != 18 {
                    if piece.get_player() == Player::Player2 {
                        if player == Player::Player2 {
                            adv = adv + 1;
                        } else {
                            adv = adv - 1;
                        }
                    } else if player == Player::Player1 {
                        adv = adv - 1;
                    } else {
                        adv = adv + 1;
                    }
                } else if q >= 23 && q <= 31 && q != 27 {
                    if piece.get_player() == Player::Player1 {
                        if player == Player::Player1 {
                            adv = adv + 1;
                        } else {
                            adv = adv - 1;
                        }
                    } else if player == Player::Player2 {
                        adv = adv - 1;
                    } else {
                        adv = adv + 1;
                    }
                }
                if q == 15 || q == 16 || q == 20 || q == 21 || q == 24 || q == 25 {
                    center = center + 1;
                    if piece.is_king() {
                        king_center = king_center + 1;
                    }
                }
            },
            _ => {},
        }
        q += 1;
    }

    if me_kings == 0 {
        let six_taken = match board.get(6) {
            Square::Taken(_) => true,
            _ => false,
        };
        let eight_taken = match board.get(8) {
            Square::Taken(_) => true,
            _ => false,
        };
        if six_taken && eight_taken && player == Player::Player1 {
            back = 1;
        }
        let t7_taken = match board.get(37) {
            Square::Taken(_) => true,
            _ => false,
        };
        let t9_taken = match board.get(39) {
            Square::Taken(_) => true,
            _ => false,
        };
        if t7_taken && t9_taken && player == Player::Player2 {
            back = 1;
        }
    }

    let mobil = mob - deny;
    let undenied_mobility = mobil > 0;
    let total_mobility = mob > 0;
    let denial_of_occupancy = deny > 0;
    let control = center > 0;

    let demmo: i32 = if denial_of_occupancy && !total_mobility {
        1
    } else {
        0
    };
    let mode_2: i32 = if undenied_mobility && !denial_of_occupancy {
        1
    } else {
        0
    };
    let mode_3: i32 = if !undenied_mobility && denial_of_occupancy {
        1
    } else {
        0
    };
    let moc_2: i32 = if !undenied_mobility && control {
        1
    } else {
        0
    };
    let moc_3: i32 = if undenied_mobility && !control {
        1
    } else {
        0
    };
    let moc_4: i32 = if !undenied_mobility && !control {
        1
    } else {
        0
    };

    (-moc_2 * 262144) + (king_center * 65536) + (-moc_4 * 16384) + (-mode_3 * 8192) + (-demmo
        * 2048) + (mov * 256) + (-adv * 256) + (-mode_2 * 256) + (-back * 64) + (center * 32) + (
    thret * 32) + (moc_3 * 16) + ((me - you_w) * 1048576)
}


/// The side to move cannot force more than `v` from this position within
/// `d` further plies, scoring leaves with the configured heuristic: the
/// engine's depth-limited game value, characterized as an upper bound (the
/// same shape as the material-only characterization beside the plain
/// searches, with the heuristic as leaf score).
pub open spec fn search_value_le(
    s: Seq<Square>,
    player: Player,
    kind: EvalKind,
    d: int,
    v: int,
) -> bool
    decreases d,
{
    if d <= 0 || !has_move(s, player) {
        eval_spec(kind, s, player) <= v
    } else {
        forall|m: Movement| #[trigger] movement_legal(s, player, m) ==> !search_value_le(
            apply_move(s, m),
            player.spec_other(),
            kind,
            d - 1,
            -v - 1,
        )
    }
}

/// The side to move can force at least `v` within `d` further plies.
pub open spec fn search_value_ge(
    s: Seq<Square>,
    player: Player,
    kind: EvalKind,
    d: int,
    v: int,
) -> bool {
    !search_value_le(s, player, kind, d, v - 1)
}

/// Weakening: an upper bound on the game value holds at any larger bound.
pub proof fn lemma_search_value_le_mono(
    s: Seq<Square>,
    player: Player,
    kind: EvalKind,
    d: int,
    v: int,
    w: int,
)
    requires
        search_value_le(s, player, kind, d, v),
        v <= w,
    ensures
        search_value_le(s, player, kind, d, w),
    decreases d,
{
    if d <= 0 || !has_move(s, player) {
    } else {
        assert forall|m: Movement| #[trigger] movement_legal(s, player, m)
            implies !search_value_le(apply_move(s, m), player.spec_other(), kind, d - 1,
            -w - 1) by {
            if search_value_le(apply_move(s, m), player.spec_other(), kind, d - 1, -w - 1) {
                lemma_search_value_le_mono(apply_move(s, m), player.spec_other(), kind, d - 1,
                    -w - 1, -v - 1);
            }
        }
    }
}

/// Strengthening downward: a lower bound holds at any smaller bound.
pub proof fn lemma_search_value_ge_mono(
    s: Seq<Square>,
    player: Player,
    kind: EvalKind,
    d: int,
    v: int,
    w: int,
)
    requires
        search_value_ge(s, player, kind, d, v),
        w <= v,
    ensures
        search_value_ge(s, player, kind, d, w),
{
    if search_value_le(s, player, kind, d, w - 1) {
        lemma_search_value_le_mono(s, player, kind, d, w - 1, v - 1);
    }
}

/// Unpack an upper bound at an interior node into the bound on one child.
proof fn lemma_search_value_le_elim(
    s: Seq<Square>,
    player: Player,
    kind: EvalKind,
    d: int,
    v: int,
    m: Movement,
)
    requires
        d >= 1,
        has_move(s, player),
        search_value_le(s, player, kind, d, v),
        movement_legal(s, player, m),
    ensures
        !search_value_le(apply_move(s, m), player.spec_other(), kind, d - 1, -v - 1),
{
}

/// A score that is both an upper and a lower bound is unique: it is the
/// engine's depth-limited game value of the position.
pub proof fn lemma_search_value_unique(
    s: Seq<Square>,
    player: Player,
    kind: EvalKind,
    d: int,
    v: int,
    w: int,
)
    requires
        search_value_le(s, player, kind, d, v),
        search_value_ge(s, player, kind, d, v),
        search_value_le(s, player, kind, d, w),
        search_value_ge(s, player, kind, d, w),
    ensures
        v == w,
{
    if v < w {
        lemma_search_value_le_mono(s, player, kind, d, v, w - 1);
    }
    if w < v {
        lemma_search_value_le_mono(s, player, kind, d, w, v - 1);
    }
}

/// Counters describing how much work the searches did.
#[derive(Debug)]
pub struct Stats {
    pub moves: u32,
    pub explored: u32,
    pub beta_cuts: u32,
    pub tt_exact: u32,
    pub tt_cuts: u32,
    pub max_depth: u32,
}

impl Stats {
    pub fn new() -> (r: Stats)
        ensures
            r == (Stats {
                moves: 0,
                explored: 0,
                beta_cuts: 0,
                tt_exact: 0,
                tt_cuts: 0,
                max_depth: 0,
            }),
    {
        Stats { moves: 0, explored: 0, beta_cuts: 0, tt_exact: 0, tt_cuts: 0, max_depth: 0 }
    }
}

/// Whether a memoized score is the true value or only a bound left over from
/// a pruning cutoff.
enum Flag {
    Exact,
    Lowerbound,
    Upperbound,
}

/// One transposition-table entry: the movement and score found for a
/// position, the depth the search reached, and the precision of the score.
/// The table is keyed by the position fingerprint, a compact key that
/// accepts a negligible chance of collision for cache purposes.
pub struct TTEntry {
    movement: Movement,
    score: i32,
    depth: u32,
    flag: Flag,
}

impl TTEntry {
    /// Every stored score stays within the evaluation range, so a score read
    /// back from the table can be negated and compared safely.
    #[verifier::type_invariant]
    pub closed spec fn score_in_range(self) -> bool {
        -EVAL_BOUND <= self.score <= EVAL_BOUND
    }
}

struct MinimaxResult {
    score: i32,
    movement: Option<Movement>,
}

/// The evaluation heuristics the search can be configured with.
#[derive(Debug, Clone, Copy, PartialEq, Eq, Structural)]
pub enum EvalKind {
    Material,
    Positional,
    Samuel,
}

/// What the configured heuristic computes.
pub open spec fn eval_spec(kind: EvalKind, s: Seq<Square>, player: Player) -> int {
    match kind {
        EvalKind::Material => eval_basic(s, player),
        EvalKind::Positional => eval_positional(s, player),
        EvalKind::Samuel => eval_samuel(s, player),
    }
}

/// Score the position with the configured heuristic. The positional
/// heuristic divides by the piece total, so it asks for a non-empty board.
fn evaluate_with(kind: EvalKind, board: &Board, player: Player) -> (r: i32)
    requires
        board.wf(),
        kind == EvalKind::Positional ==> occupied_count(board.sqs(), BOARD_LEN as int) > 0,
    ensures
        r == eval_spec(kind, board.sqs(), player),
        -EVAL_BOUND <= r <= EVAL_BOUND,
{
    match kind {
        EvalKind::Material => evaluation1(board, player),
        EvalKind::Positional => evaluation2(board, player),
        EvalKind::Samuel => evaluation3(board, player),
    }
}

/// The search configuration: transposition table, fixed depth, alpha-beta
/// pruning, quiescence extension, iterative deepening with a time budget,
/// verbosity, and the evaluation heuristic.
#[derive(Clone, Copy)]
pub struct MinimaxContext {
    pub table: bool,
    pub depth: u32,
    pub alpha_beta: bool,
    pub quiescence: bool,
    pub iterative: bool,
    pub verbose: bool,
    pub heuristic: EvalKind,
}

/// Add one to a counter, stopping at the top instead of overflowing.
fn bump(c: &mut u32)
    ensures
        *final(c) == if *old(c) < u32::MAX {
            *old(c) + 1
        } else {
            *old(c) as int
        },
{
    if *c < u32::MAX {
        *c = *c + 1;
    }
}

/// Negamax with optional alpha-beta pruning, transposition table and
/// quiescence extension. Returns a score for `player` in the evaluation
/// range and, at positive depth with moves available, a movement; a leaf
/// (exhausted depth without a pending capture to extend into, or no legal
/// move) scores as the configured heuristic with no movement. Without the
/// table the returned movement is drawn from the legal moves, and with
/// pruning, quiescence and table all off the score and movement are exactly
/// the depth-limited game value and a movement attaining it. The board is
/// left exactly as it was, squares and fingerprint alike. Termination rests
/// on the pair (pieces on the board, remaining depth): a quiescence
/// extension happens only on forced-capture lines, and every capture
/// removes a piece.
#[verifier::loop_isolation(false)]
#[verifier::rlimit(60)]
fn minimax(
    stats: &mut Stats,
    ctx: &MinimaxContext,
    max_depth: u32,
    board: &mut Board,
    player: Player,
    table: &mut HashMap<u128, TTEntry>,
    depth: u32,
    alpha: i32,
    beta: i32,
) -> (r: MinimaxResult)
    requires
        old(board).wf(),
        MIN <= alpha,
        MIN <= beta,
        ctx.heuristic == EvalKind::Positional ==> occupied_count(
            old(board).sqs(),
            BOARD_LEN as int,
        ) >= 1,
    ensures
        final(board).wf(),
        final(board).sqs() == old(board).sqs(),
        final(board).rnd() == old(board).rnd(),
        final(board).hash_val() == old(board).hash_val(),
        -EVAL_BOUND <= r.score <= EVAL_BOUND,
        has_move(old(board).sqs(), player) && depth >= 1 ==> r.movement is Some,
        has_move(old(board).sqs(), player) && depth == 0 && ctx.quiescence && has_capture(
            old(board).sqs(),
            player,
        ) ==> r.movement is Some,
        ((depth == 0 && !(ctx.quiescence && has_capture(old(board).sqs(), player))) || !has_move(
            old(board).sqs(),
            player,
        )) ==> r.score == eval_spec(ctx.heuristic, old(board).sqs(), player) && r.movement
            is None,
        !ctx.table && r.movement is Some ==> movement_legal(
            old(board).sqs(),
            player,
            r.movement.unwrap(),
        ) && crate::moves::move_ok(old(board).sqs(), r.movement.unwrap()),
        !ctx.table && !ctx.alpha_beta && !ctx.quiescence ==> search_value_le(
            old(board).sqs(),
            player,
            ctx.heuristic,
            depth as int,
            r.score as int,
        ) && search_value_ge(old(board).sqs(), player, ctx.heuristic, depth as int,
            r.score as int),
        !ctx.table && !ctx.alpha_beta && !ctx.quiescence && r.movement is Some
            ==> search_value_le(
            apply_move(old(board).sqs(), r.movement.unwrap()),
            player.spec_other(),
            ctx.heuristic,
            depth as int - 1,
            -(r.score as int),
        ) && search_value_ge(
            apply_move(old(board).sqs(), r.movement.unwrap()),
            player.spec_other(),
            ctx.heuristic,
            depth as int - 1,
            -(r.score as int),
        ),
        final(stats).moves == old(stats).moves,
        final(stats).explored >= old(stats).explored,
        final(stats).beta_cuts >= old(stats).beta_cuts,
        final(stats).tt_exact >= old(stats).tt_exact,
        final(stats).tt_cuts >= old(stats).tt_cuts,
        final(stats).max_depth >= old(stats).max_depth,
    decreases occupied_count(board.sqs(), BOARD_LEN as int), depth,
{
    let ghost s0 = board.sqs();
    let ghost r0 = board.rnd();
    let ghost h0 = board.hash_val();
    proof {
        lemma_occupied_count_bounds(s0, BOARD_LEN as int);
    }
    let alpha_orig = alpha;
    let mut alpha = alpha;
    let mut beta = beta;
    let mut best_move: Option<Movement> = None;
    let movements = board.movements(player);

    let d: u32 = if depth == 0 && ctx.quiescence && movements.len() > 0 && movements[0].is_jump() {
        1
    } else {
        depth
    };
    proof {
        // the first generated move is a capture exactly when a capture is
        // available: captures are mandatory, so the list then holds captures
        // only, and a simple step can head the list only when none exists
        if movements@.len() > 0 && movements@[0].jumped is Some {
            if !has_capture(s0, player) {
                assert(movement_legal(s0, player, movements@[0]));
                let (id2, k2) = choose|id2: int, k2: int|
                    simple_ok_at(s0, player, id2, k2) && movements@[0] == simple_move_at(
                        s0,
                        id2,
                        k2,
                    );
                assert(simple_move_at(s0, id2, k2).jumped is None);
            }
            assert(has_capture(s0, player));
        }
        if has_capture(s0, player) {
            assert(has_move(s0, player));
            assert(movements@.len() > 0);
            assert(movements@[0].jumped is Some);
        }
    }

    if d == 0 || movements.len() == 0 {
        let score = evaluate_with(ctx.heuristic, board, player);
        return MinimaxResult { score, movement: None };
    }

    let new_md = if max_depth < u32::MAX {
        max_depth + 1
    } else {
        max_depth
    };
    if stats.max_depth < new_md {
        stats.max_depth = new_md;
    }

    if ctx.table {
        let h = board.hash();
        match table.get(&h) {
            Some(entry) => {
                proof {
                    use_type_invariant(&*entry);
                }
                if entry.depth >= d {
                    match entry.flag {
                        Flag::Exact => {
                            bump(&mut stats.tt_exact);
                            return MinimaxResult {
                                score: entry.score,
                                movement: Some(entry.movement.clone()),
                            };
                        },
                        Flag::Lowerbound => {
                            if alpha < entry.score {
                                alpha = entry.score;
                            }
                        },
                        Flag::Upperbound => {
                            if beta > entry.score {
                                beta = entry.score;
                            }
                        },
                    }
                    if alpha >= beta {
                        bump(&mut stats.tt_cuts);
                        return MinimaxResult {
                            score: entry.score,
                            movement: Some(entry.movement.clone()),
                        };
                    }
                }
            },
            None => {},
        }
    }

    let ghost all_jumps = d != depth;
    let ghost plain = !ctx.table && !ctx.alpha_beta && !ctx.quiescence;
    let ghost kind = ctx.heuristic;
    let ghost you = player.spec_other();

    let mut value = MIN;
    let mut cut = false;
    let mut i: usize = 0;
    while i < movements.len() && !cut
        invariant
            i <= movements@.len(),
            board.wf(),
            board.sqs() == s0,
            board.rnd() == r0,
            board.hash_val() == h0,
            MIN <= alpha,
            best_move is None <==> value == MIN,
            value == MIN || -EVAL_BOUND <= value <= EVAL_BOUND,
            i > 0 || cut ==> best_move is Some,
            match best_move {
                Some(m) => movement_legal(s0, player, m) && crate::moves::move_ok(s0, m),
                None => true,
            },
            i == 0 ==> value == MIN && !cut,
            plain ==> !cut,
            plain ==> forall|j: int| #![trigger movements@[j]] 0 <= j < i ==> search_value_ge(
                apply_move(s0, movements@[j]),
                you,
                kind,
                depth as int - 1,
                -(value as int),
            ),
            plain && value != MIN ==> exists|j: int| 0 <= j < i && search_value_le(
                apply_move(s0, #[trigger] movements@[j]),
                you,
                kind,
                depth as int - 1,
                -(value as int),
            ),
            plain ==> match best_move {
                Some(m) => search_value_le(apply_move(s0, m), you, kind, depth as int - 1,
                    -(value as int)) && search_value_ge(apply_move(s0, m), you, kind,
                    depth as int - 1, -(value as int)),
                None => true,
            },
            stats.moves == old(stats).moves,
            stats.explored >= old(stats).explored,
            stats.beta_cuts >= old(stats).beta_cuts,
            stats.tt_exact >= old(stats).tt_exact,
            stats.tt_cuts >= old(stats).tt_cuts,
            stats.max_depth >= old(stats).max_depth,
        decreases movements@.len() - i,
    {
        let m = &movements[i];
        bump(&mut stats.explored);
        board.do_movement(m);
        proof {
            crate::moves::lemma_apply_move(s0, r0, movements@[i as int]);
            lemma_occ_positive(
                board.sqs(),
                crate::moves::final_to(movements@[i as int]),
                BOARD_LEN as int,
            );
            if all_jumps {
                assert(movements@[i as int].jumped is Some);
            }
        }
        let child = minimax(stats, ctx, new_md, board, player.other(), table, d - 1, -beta,
            -alpha);
        let score = -child.score;
        proof {
            lemma_move_ok_wf(s0, movements@[i as int]);
        }
        board.undo_movement(m);
        proof {
            lemma_round_trip(s0, r0, h0, movements@[i as int]);
        }
        let ghost old_value = value;
        if value < score {
            value = score;
            best_move = Some(movements[i].duplicate());
            if value >= beta && ctx.alpha_beta {
                bump(&mut stats.beta_cuts);
                cut = true;
            }
        }
        if alpha < value {
            alpha = value;
        }
        proof {
            if plain {
                let ghost child_s = apply_move(s0, movements@[i as int]);
                assert(d == depth);
                assert(search_value_le(child_s, you, kind, depth as int - 1,
                    child.score as int));
                assert(search_value_ge(child_s, you, kind, depth as int - 1,
                    child.score as int));
                lemma_search_value_ge_mono(child_s, you, kind, depth as int - 1,
                    child.score as int, -(value as int));
                assert forall|j: int| #![trigger movements@[j]] 0 <= j < i + 1
                    implies search_value_ge(
                    apply_move(s0, movements@[j]),
                    you,
                    kind,
                    depth as int - 1,
                    -(value as int),
                ) by {
                    if j < i && old_value != MIN {
                        lemma_search_value_ge_mono(apply_move(s0, movements@[j]), you, kind,
                            depth as int - 1, -(old_value as int), -(value as int));
                    }
                }
                if old_value < score {
                    assert(search_value_le(child_s, you, kind, depth as int - 1,
                        -(value as int)));
                    assert(search_value_ge(child_s, you, kind, depth as int - 1,
                        -(value as int)));
                }
            }
        }
        i += 1;
    }
    proof {
        if plain {
            assert forall|m: Movement| #[trigger] movement_legal(s0, player, m)
                implies !search_value_le(apply_move(s0, m), you, kind, depth as int - 1,
                -(value as int) - 1) by {
                assert(movements@.contains(m));
                let j = choose|j: int| 0 <= j < movements@.len() && movements@[j] == m;
                assert(search_value_ge(apply_move(s0, movements@[j]), you, kind,
                    depth as int - 1, -(value as int)));
            }
            assert(search_value_le(s0, player, kind, depth as int, value as int));
            let j = choose|j: int| 0 <= j < movements@.len() && search_value_le(
                apply_move(s0, movements@[j]),
                you,
                kind,
                depth as int - 1,
                -(value as int),
            );
            if search_value_le(s0, player, kind, depth as int, value as int - 1) {
                lemma_search_value_le_elim(s0, player, kind, depth as int, value as int - 1,
                    movements@[j]);
                assert(false);
            }
        }
    }

    if ctx.table {
        match &best_move {
            Some(m) => {
                let flag = if value <= alpha_orig {
                    Flag::Upperbound
                } else if value >= beta {
                    Flag::Lowerbound
                } else {
                    Flag::Exact
                };
                let h = board.hash();
                table.insert(h, TTEntry { movement: m.duplicate(), score: value, depth: d, flag });
            },
            None => {},
        }
    }

    MinimaxResult { score: value, movement: best_move }
}

/// The deepest a deepening search will go, and its wall-clock budget.
pub const MAX_DEPTH: u32 = 20;
pub const MAX_TIME_MS: u128 = 50;

/// Relies on std::time::Instant::now, for the start of the time budget.
#[verifier::external_type_specification]
#[verifier::external_body]
pub struct ExInstant(std::time::Instant);

/// Relies on std::time::Instant::now: an opaque reading of the clock.
#[verifier::external_body]
fn time_now() -> std::time::Instant {
    std::time::Instant::now()
}

/// Relies on Instant::elapsed and Duration::as_millis: the milliseconds
/// since `start`. The result depends on the clock, so nothing is promised
/// of it.
#[verifier::external_body]
fn millis_since(start: &std::time::Instant) -> u128 {
    start.elapsed().as_millis()
}

/// Select a movement for `player`: with iterative deepening, repeat the
/// search at increasing depth while the time budget lasts and keep the last
/// completed depth's movement; otherwise search once at the configured
/// depth. Returns nothing exactly when `player` has no legal move (the
/// terminal, losing condition) or when a fixed depth of zero asks for no
/// search; a fixed depth of at least one always yields a movement when one
/// exists (under iterative deepening the clock may expire before the first
/// depth completes, and nothing is promised of the clock). Without the
/// table the returned movement is legal for the current board, and in the
/// plain configuration it attains the exact game value: at the configured
/// depth when fixed, and at some completed depth of the deepening ladder
/// otherwise. The board is left exactly as it was.
#[verifier::loop_isolation(false)]
pub fn get_movement(
    stats: &mut Stats,
    ctx: &MinimaxContext,
    board: &mut Board,
    player: Player,
    table: &mut HashMap<u128, TTEntry>,
) -> (r: Option<Movement>)
    requires
        old(board).wf(),
        ctx.heuristic == EvalKind::Positional ==> occupied_count(
            old(board).sqs(),
            BOARD_LEN as int,
        ) >= 1,
    ensures
        final(board).wf(),
        final(board).sqs() == old(board).sqs(),
        final(board).rnd() == old(board).rnd(),
        final(board).hash_val() == old(board).hash_val(),
        !has_move(old(board).sqs(), player) ==> r is None,
        r is Some ==> has_move(old(board).sqs(), player),
        has_move(old(board).sqs(), player) && !ctx.iterative && ctx.depth >= 1 ==> r is Some,
        !ctx.table && r is Some ==> movement_legal(old(board).sqs(), player, r.unwrap())
            && crate::moves::move_ok(old(board).sqs(), r.unwrap()),
        !ctx.table && !ctx.alpha_beta && !ctx.quiescence && !ctx.iterative && r is Some
            ==> exists|v: int|
            #![trigger search_value_ge(old(board).sqs(), player, ctx.heuristic, ctx.depth as int, v)]
            search_value_le(old(board).sqs(), player, ctx.heuristic, ctx.depth as int, v)
                && search_value_ge(old(board).sqs(), player, ctx.heuristic, ctx.depth as int, v)
                && search_value_le(
                apply_move(old(board).sqs(), r.unwrap()),
                player.spec_other(),
                ctx.heuristic,
                ctx.depth as int - 1,
                -v,
            ) && search_value_ge(
                apply_move(old(board).sqs(), r.unwrap()),
                player.spec_other(),
                ctx.heuristic,
                ctx.depth as int - 1,
                -v,
            ),
        !ctx.table && !ctx.alpha_beta && !ctx.quiescence && ctx.iterative && r is Some
            ==> exists|dd: int, v: int|
            #![trigger search_value_ge(old(board).sqs(), player, ctx.heuristic, dd, v)]
            1 <= dd <= MAX_DEPTH && search_value_le(
                old(board).sqs(),
                player,
                ctx.heuristic,
                dd,
                v,
            ) && search_value_ge(old(board).sqs(), player, ctx.heuristic, dd, v)
                && search_value_le(
                apply_move(old(board).sqs(), r.unwrap()),
                player.spec_other(),
                ctx.heuristic,
                dd - 1,
                -v,
            ) && search_value_ge(
                apply_move(old(board).sqs(), r.unwrap()),
                player.spec_other(),
                ctx.heuristic,
                dd - 1,
                -v,
            ),
        final(stats).moves == if r is Some && old(stats).moves < u32::MAX {
            old(stats).moves + 1
        } else {
            old(stats).moves as int
        },
{
    let ghost s0 = board.sqs();
    let ghost r0 = board.rnd();
    let ghost h0 = board.hash_val();
    let movements = board.movements(player);

    if movements.len() == 0 {
        return None;
    }

    let mut best_movement: Option<Movement> = None;

    if ctx.iterative {
        let timer = time_now();
        let mut dep: u32 = 1;
        while dep <= MAX_DEPTH
            invariant
                board.wf(),
                board.sqs() == s0,
                board.rnd() == r0,
                board.hash_val() == h0,
                stats.moves == old(stats).moves,
                match best_movement {
                    Some(m) => !ctx.table ==> movement_legal(s0, player, m)
                        && crate::moves::move_ok(s0, m),
                    None => true,
                },
                !ctx.table && !ctx.alpha_beta && !ctx.quiescence ==> match best_movement {
                    Some(m) => exists|dd: int, v: int|
                        #![trigger search_value_ge(s0, player, ctx.heuristic, dd, v)]
                        1 <= dd <= MAX_DEPTH && search_value_le(s0, player, ctx.heuristic, dd, v)
                            && search_value_ge(s0, player, ctx.heuristic, dd, v)
                            && search_value_le(
                            apply_move(s0, m),
                            player.spec_other(),
                            ctx.heuristic,
                            dd - 1,
                            -v,
                        ) && search_value_ge(
                            apply_move(s0, m),
                            player.spec_other(),
                            ctx.heuristic,
                            dd - 1,
                            -v,
                        ),
                    None => true,
                },
            decreases MAX_DEPTH + 1 - dep,
        {
            if millis_since(&timer) > MAX_TIME_MS {
                break;
            }
            let result = minimax(stats, ctx, 0, board, player, table, dep, MIN, MAX);
            match result.movement {
                Some(m) => {
                    proof {
                        if !ctx.table && !ctx.alpha_beta && !ctx.quiescence {
                            assert(1 <= dep as int <= MAX_DEPTH && search_value_ge(s0, player,
                                ctx.heuristic, dep as int, result.score as int));
                        }
                    }
                    best_movement = Some(m);
                },
                None => {},
            }
            dep += 1;
        }
    } else {
        let result = minimax(stats, ctx, 0, board, player, table, ctx.depth, MIN, MAX);
        match result.movement {
            Some(m) => {
                best_movement = Some(m);
            },
            None => {},
        }
    }

    if best_movement.is_some() {
        bump(&mut stats.moves);
    }

    best_movement
}

} // verus!
