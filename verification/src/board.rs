use vstd::prelude::*;

use crate::zobrist::{
    board_hash, square_term, lemma_hash_upto_empty, lemma_hash_upto_update, lemma_xor_zero,
    ZobristHash, BOARD_LEN, TABLE_LEN,
};

verus! {

/// One of the two competing sides.
#[derive(Debug, PartialEq, Eq, Clone, Copy, Hash, Structural)]
pub enum Player {
    Player1,
    Player2,
}

impl Player {
    /// The opposing side; applying it twice gives back the original side.
    pub fn other(&self) -> (r: Player)
        ensures
            r == self.spec_other(),
    {
        match self {
            Self::Player1 => Self::Player2,
            Self::Player2 => Self::Player1,
        }
    }

    pub open spec fn spec_other(self) -> Player {
        match self {
            Player::Player1 => Player::Player2,
            Player::Player2 => Player::Player1,
        }
    }
}

/// Swapping sides is an involution.
pub proof fn lemma_other_involutive(p: Player)
    ensures
        p.spec_other().spec_other() == p,
        p.spec_other() != p,
{
}

/// A piece on the board: its owner, and whether it has been crowned king.
#[derive(Debug, Clone, Copy, PartialEq, Eq, Hash, Structural)]
pub struct Piece {
    pub player: Player,
    pub king: bool,
}

impl Piece {
    pub(crate) fn new(player: Player, king: bool) -> (r: Piece)
        ensures
            r == (Piece { player, king }),
    {
        Piece { player, king }
    }

    pub fn player1_pawn() -> (r: Piece)
        ensures
            r == (Piece { player: Player::Player1, king: false }),
    {
        Piece::new(Player::Player1, false)
    }

    pub fn player1_king() -> (r: Piece)
        ensures
            r == (Piece { player: Player::Player1, king: true }),
    {
        Piece::new(Player::Player1, true)
    }

    pub fn player2_pawn() -> (r: Piece)
        ensures
            r == (Piece { player: Player::Player2, king: false }),
    {
        Piece::new(Player::Player2, false)
    }

    pub fn player2_king() -> (r: Piece)
        ensures
            r == (Piece { player: Player::Player2, king: true }),
    {
        Piece::new(Player::Player2, true)
    }

    /// The index of this piece's kind in the random fingerprint table.
    pub open spec fn spec_id(self) -> int {
        match self.player {
            Player::Player1 => if self.king { 1 } else { 0 },
            Player::Player2 => if self.king { 3 } else { 2 },
        }
    }

    pub fn id(&self) -> (r: usize)
        ensures
            r == self.spec_id(),
            r < 4,
    {
        match self.player {
            Player::Player1 => if self.king { 1 } else { 0 },
            Player::Player2 => if self.king { 3 } else { 2 },
        }
    }

    /// The diagonal offsets this piece may step along: kings move in all four
    /// directions, pawns only toward the opposing edge.
    pub open spec fn spec_dirs(self) -> Seq<int> {
        if self.king {
            seq![-4, -5, 4, 5]
        } else {
            match self.player {
                Player::Player1 => seq![4, 5],
                Player::Player2 => seq![-4, -5],
            }
        }
    }

    pub fn movements(&self) -> (r: Vec<i32>)
        ensures
            r@.len() == self.spec_dirs().len(),
            forall|k: int| 0 <= k < r@.len() ==> r@[k] as int == self.spec_dirs()[k],
    {
        if self.king {
            return vec![-4, -5, 4, 5];
        }
        match self.player {
            Player::Player1 => vec![4, 5],
            Player::Player2 => vec![-4, -5],
        }
    }

    /// How many step directions this piece has.
    pub fn dir_count(&self) -> (r: usize)
        ensures
            r == self.spec_dirs().len(),
    {
        if self.king {
            4
        } else {
            2
        }
    }

    /// The piece's step direction at index `k`, without building the list.
    pub fn dir_at(&self, k: usize) -> (r: i32)
        requires
            k < self.spec_dirs().len(),
        ensures
            r as int == self.spec_dirs()[k as int],
    {
        if self.king {
            if k == 0 {
                -4
            } else if k == 1 {
                -5
            } else if k == 2 {
                4
            } else {
                5
            }
        } else {
            match self.player {
                Player::Player1 => if k == 0 {
                    4
                } else {
                    5
                },
                Player::Player2 => if k == 0 {
                    -4
                } else {
                    -5
                },
            }
        }
    }

    pub fn get_player(&self) -> (r: Player)
        ensures
            r == self.player,
    {
        self.player
    }

    pub fn is_king(&self) -> (r: bool)
        ensures
            r == self.king,
    {
        self.king
    }
}

/// Every direction offset is one of the four diagonals.
pub proof fn lemma_dirs_bounds(p: Piece)
    ensures
        forall|k: int| 0 <= k < p.spec_dirs().len() ==> {
            let d = #[trigger] p.spec_dirs()[k];
            d == -5 || d == -4 || d == 4 || d == 5
        },
{
}

/// The state of one slot of the padded board array.
#[derive(Debug, Clone, Copy, PartialEq, Eq, Hash, Structural)]
pub enum Square {
    /// Padding: not part of the playable board, never occupied.
    Invalid,
    /// Playable and unoccupied.
    Empty,
    /// Occupied by the given piece.
    Taken(Piece),
}

/// The playable squares of the padded 46-slot array: eight rows of four, with
/// one padding slot between consecutive rows and five on each end.
pub open spec fn is_playable(q: int) -> bool {
    5 <= q <= 40 && q != 9 && q != 18 && q != 27 && q != 36
}

/// Where the pieces of each side stand before the first move.
pub open spec fn start_square(q: int) -> Square {
    if !is_playable(q) {
        Square::Invalid
    } else if q <= 17 {
        Square::Taken(Piece { player: Player::Player1, king: false })
    } else if q >= 28 {
        Square::Taken(Piece { player: Player::Player2, king: false })
    } else {
        Square::Empty
    }
}

/// The promotion zone: the four squares of the opposing home row.
pub open spec fn is_promotion_square(q: int, player: Player) -> bool {
    match player {
        Player::Player1 => 37 <= q <= 40,
        Player::Player2 => 5 <= q <= 8,
    }
}

/// How one square changes when eligible pieces are crowned.
pub open spec fn promoted_square(sq: Square, q: int) -> Square {
    match sq {
        Square::Taken(p) => if is_promotion_square(q, p.player) && !p.king {
            Square::Taken(Piece { player: p.player, king: true })
        } else {
            sq
        },
        _ => sq,
    }
}

/// The whole board after crowning every eligible piece.
pub open spec fn promote_all(s: Seq<Square>) -> Seq<Square> {
    Seq::new(s.len(), |q: int| promoted_square(s[q], q))
}

/// How many pieces crowning would promote among squares 0 .. n.
pub open spec fn promo_count(s: Seq<Square>, n: int) -> int
    decreases n,
{
    if n <= 0 {
        0
    } else {
        promo_count(s, n - 1) + if promoted_square(s[n - 1], n - 1) != s[n - 1] {
            1int
        } else {
            0int
        }
    }
}

/// How many pieces of `player` stand among squares 0 .. n.
pub open spec fn side_count(s: Seq<Square>, player: Player, n: int) -> int
    decreases n,
{
    if n <= 0 {
        0
    } else {
        side_count(s, player, n - 1) + match s[n - 1] {
            Square::Taken(p) => if p.player == player {
                1int
            } else {
                0int
            },
            _ => 0int,
        }
    }
}

/// How many squares among 0 .. n are occupied at all.
pub open spec fn occupied_count(s: Seq<Square>, n: int) -> int
    decreases n,
{
    if n <= 0 {
        0
    } else {
        occupied_count(s, n - 1) + if s[n - 1] is Taken {
            1int
        } else {
            0int
        }
    }
}

pub proof fn lemma_occupied_count_bounds(s: Seq<Square>, n: int)
    requires
        n >= 0,
    ensures
        0 <= occupied_count(s, n) <= n,
    decreases n,
{
    if n > 0 {
        lemma_occupied_count_bounds(s, n - 1);
    }
}

impl Default for Board {
    /// The default board is the standard starting position.
    fn default() -> (b: Board)
        ensures
            b.wf(),
            b.hash_consistent(),
            b.sqs() =~= Seq::new(BOARD_LEN as nat, |q: int| start_square(q)),
    {
        Board::new()
    }
}

/// A board with a piece on some square has a positive occupancy count.
pub proof fn lemma_occ_positive(s: Seq<Square>, i: int, n: int)
    requires
        0 <= i < n,
        s[i] is Taken,
    ensures
        occupied_count(s, n) >= 1,
    decreases n,
{
    lemma_occupied_count_bounds(s, i);
    if n - 1 > i {
        lemma_occ_positive(s, i, n - 1);
    }
}

/// Overwriting one square changes the occupancy count by the difference of
/// the two slots' occupancy.
pub proof fn lemma_occ_update(s: Seq<Square>, i: int, sq: Square, n: int)
    requires
        0 <= i < s.len(),
        0 <= n <= s.len(),
    ensures
        occupied_count(s.update(i, sq), n) == occupied_count(s, n) - (if i < n && s[i] is Taken {
            1int
        } else {
            0int
        }) + (if i < n && sq is Taken {
            1int
        } else {
            0int
        }),
    decreases n,
{
    if n > 0 {
        lemma_occ_update(s, i, sq, n - 1);
    }
}

/// How many uncrowned pieces of `player` stand among squares 0 .. n.
pub open spec fn side_pawn_count(s: Seq<Square>, player: Player, n: int) -> int
    decreases n,
{
    if n <= 0 {
        0
    } else {
        side_pawn_count(s, player, n - 1) + match s[n - 1] {
            Square::Taken(p) => if p.player == player && !p.king {
                1int
            } else {
                0int
            },
            _ => 0int,
        }
    }
}

/// How many crowned pieces of `player` stand among squares 0 .. n.
pub open spec fn side_king_count(s: Seq<Square>, player: Player, n: int) -> int
    decreases n,
{
    if n <= 0 {
        0
    } else {
        side_king_count(s, player, n - 1) + match s[n - 1] {
            Square::Taken(p) => if p.player == player && p.king {
                1int
            } else {
                0int
            },
            _ => 0int,
        }
    }
}

/// The eight home-row squares of the two sides together.
pub open spec fn is_back_row(q: int) -> bool {
    (5 <= q <= 8) || (37 <= q <= 40)
}

/// How many uncrowned pieces of `player` stand on either home row among
/// squares 0 .. n.
pub open spec fn back_pawn_count(s: Seq<Square>, player: Player, n: int) -> int
    decreases n,
{
    if n <= 0 {
        0
    } else {
        back_pawn_count(s, player, n - 1) + match s[n - 1] {
            Square::Taken(p) => if is_back_row(n - 1) && p.player == player && !p.king {
                1int
            } else {
                0int
            },
            _ => 0int,
        }
    }
}

pub proof fn lemma_piece_count_bounds(s: Seq<Square>, player: Player, n: int)
    requires
        n >= 0,
    ensures
        0 <= side_pawn_count(s, player, n) <= n,
        0 <= side_king_count(s, player, n) <= n,
        0 <= back_pawn_count(s, player, n) <= n,
    decreases n,
{
    if n > 0 {
        lemma_piece_count_bounds(s, player, n - 1);
    }
}

pub proof fn lemma_side_count_bounds(s: Seq<Square>, player: Player, n: int)
    requires
        n >= 0,
    ensures
        0 <= side_count(s, player, n) <= n,
    decreases n,
{
    if n > 0 {
        lemma_side_count_bounds(s, player, n - 1);
    }
}

/// The board: the padded square array plus its incrementally maintained
/// fingerprint state.
#[derive(Debug, PartialEq, Eq, Hash, Clone)]
pub struct Board {
    pub squares: Vec<Square>,
    pub zobrist: ZobristHash,
}

impl Board {
    /// The square array, as a mathematical sequence.
    pub open spec fn sqs(self) -> Seq<Square> {
        self.squares@
    }

    /// The random fingerprint table.
    pub open spec fn rnd(self) -> Seq<u128> {
        self.zobrist.randoms@
    }

    /// The current fingerprint value.
    pub open spec fn hash_val(self) -> u128 {
        self.zobrist.hash
    }

    /// Well-formed: full padded array, full random table, and no piece on a
    /// padding square.
    pub open spec fn wf(self) -> bool {
        &&& self.squares@.len() == BOARD_LEN
        &&& self.zobrist.randoms@.len() == TABLE_LEN
        &&& forall|q: int| 0 <= q < BOARD_LEN && !is_playable(q) ==> self.squares@[q] is Invalid
    }

    /// The fingerprint matches the square array under this board's table.
    pub open spec fn hash_consistent(self) -> bool {
        self.zobrist.hash == board_hash(self.zobrist.randoms@, self.squares@)
    }

    /// The standard starting position, with a fresh random fingerprint table.
    pub fn new() -> (b: Board)
        ensures
            b.wf(),
            b.hash_consistent(),
            b.sqs() =~= Seq::new(BOARD_LEN as nat, |q: int| start_square(q)),
    {
        let mut zobrist = ZobristHash::new();
        let mut squares: Vec<Square> = Vec::new();
        let mut id: usize = 0;
        while id < BOARD_LEN
            invariant
                squares@.len() == id,
                id <= BOARD_LEN,
                forall|q: int| 0 <= q < id ==> squares@[q] == start_square(q),
            decreases BOARD_LEN - id,
        {
            if id < 5 || id > 40 || id == 9 || id == 18 || id == 27 || id == 36 {
                squares.push(Square::Invalid);
            } else if id <= 17 {
                squares.push(Square::Taken(Piece::player1_pawn()));
            } else if id >= 28 {
                squares.push(Square::Taken(Piece::player2_pawn()));
            } else {
                squares.push(Square::Empty);
            }
            id += 1;
        }
        let mut pos: usize = 0;
        proof {
            assert(zobrist.hash == crate::zobrist::hash_upto(zobrist.randoms@, squares@, 0));
        }
        while pos < BOARD_LEN
            invariant
                squares@.len() == BOARD_LEN,
                zobrist.randoms@.len() == TABLE_LEN,
                pos <= BOARD_LEN,
                forall|q: int| 0 <= q < BOARD_LEN ==> squares@[q] == start_square(q),
                zobrist.hash == crate::zobrist::hash_upto(zobrist.randoms@, squares@, pos as int),
            decreases BOARD_LEN - pos,
        {
            let ghost old_hash = zobrist.hash;
            match squares[pos] {
                Square::Taken(p) => {
                    zobrist.flip(pos, p.id());
                    proof {
                        assert(square_term(zobrist.randoms@, squares@[pos as int], pos as int)
                            == zobrist.randoms@[pos as int * 4 + p.spec_id()]);
                    }
                },
                _ => {
                    proof {
                        lemma_xor_zero(old_hash);
                        assert(square_term(zobrist.randoms@, squares@[pos as int], pos as int) == 0);
                    }
                },
            }
            pos += 1;
        }
        proof {
            assert forall|q: int| 0 <= q < BOARD_LEN && !is_playable(q) implies squares@[q]
                is Invalid by {
                assert(squares@[q] == start_square(q));
            }
        }
        Board { squares, zobrist }
    }

    /// The current fingerprint of this board.
    pub fn hash(&self) -> (r: u128)
        ensures
            r == self.hash_val(),
    {
        self.zobrist.hash
    }

    /// A board with every playable square empty, for building scenarios.
    pub fn empty() -> (b: Board)
        ensures
            b.wf(),
            b.hash_consistent(),
            forall|q: int| 0 <= q < BOARD_LEN ==> b.sqs()[q]
                == if is_playable(q) { Square::Empty } else { Square::Invalid },
    {
        let zobrist = ZobristHash::new();
        let mut squares: Vec<Square> = Vec::new();
        let mut id: usize = 0;
        while id < BOARD_LEN
            invariant
                squares@.len() == id,
                id <= BOARD_LEN,
                forall|q: int| 0 <= q < id ==> squares@[q]
                    == if is_playable(q) { Square::Empty } else { Square::Invalid },
            decreases BOARD_LEN - id,
        {
            if id < 5 || id > 40 || id == 9 || id == 18 || id == 27 || id == 36 {
                squares.push(Square::Invalid);
            } else {
                squares.push(Square::Empty);
            }
            id += 1;
        }
        proof {
            lemma_hash_upto_empty(zobrist.randoms@, squares@, BOARD_LEN as int);
        }
        Board { squares, zobrist }
    }

    pub fn get(&self, id: usize) -> (r: Square)
        requires
            id < BOARD_LEN,
            self.wf(),
        ensures
            r == self.sqs()[id as int],
    {
        self.squares[id]
    }

    /// Overwrite one playable square, for building scenarios. The fingerprint
    /// is left untouched, exactly as move application would not have done;
    /// scenario construction trades fingerprint consistency for directness.
    pub fn set(&mut self, id: usize, square: Square)
        requires
            old(self).wf(),
            is_playable(id as int),
        ensures
            final(self).wf(),
            final(self).sqs() == old(self).sqs().update(id as int, square),
            final(self).rnd() == old(self).rnd(),
            final(self).hash_val() == old(self).hash_val(),
    {
        self.squares.set(id, square);
    }

    /// Count the pieces of each side: (side one, side two).
    pub fn piece_count(&self) -> (r: (u8, u8))
        requires
            self.wf(),
        ensures
            r.0 == side_count(self.sqs(), Player::Player1, BOARD_LEN as int),
            r.1 == side_count(self.sqs(), Player::Player2, BOARD_LEN as int),
    {
        let mut p1: u8 = 0;
        let mut p2: u8 = 0;
        let mut id: usize = 0;
        while id < BOARD_LEN
            invariant
                self.wf(),
                id <= BOARD_LEN,
                p1 == side_count(self.sqs(), Player::Player1, id as int),
                p2 == side_count(self.sqs(), Player::Player2, id as int),
            decreases BOARD_LEN - id,
        {
            proof {
                lemma_side_count_bounds(self.sqs(), Player::Player1, id as int);
                lemma_side_count_bounds(self.sqs(), Player::Player2, id as int);
            }
            match self.squares[id] {
                Square::Taken(piece) => {
                    match piece.player {
                        Player::Player1 => { p1 = p1 + 1; },
                        Player::Player2 => { p2 = p2 + 1; },
                    }
                },
                _ => {},
            }
            id += 1;
        }
        (p1, p2)
    }

    /// Crown every uncrowned piece standing in its own promotion zone and
    /// report how many were crowned. Promotion is the caller's move-end step;
    /// it does not touch the fingerprint, which move application keeps
    /// symmetric for do and undo.
    pub fn mark_kings(&mut self) -> (r: u32)
        requires
            old(self).wf(),
        ensures
            final(self).wf(),
            final(self).sqs() =~= promote_all(old(self).sqs()),
            final(self).rnd() == old(self).rnd(),
            final(self).hash_val() == old(self).hash_val(),
            r == promo_count(old(self).sqs(), BOARD_LEN as int),
    {
        let ghost s0 = self.squares@;
        let mut kings: u32 = 0;
        let mut id: usize = 0;
        while id < BOARD_LEN
            invariant
                self.squares@.len() == BOARD_LEN,
                self.zobrist.randoms@.len() == TABLE_LEN,
                self.zobrist == old(self).zobrist,
                id <= BOARD_LEN,
                s0 == old(self).sqs(),
                forall|q: int| 0 <= q < id ==> self.squares@[q] == promoted_square(s0[q], q),
                forall|q: int| id <= q < BOARD_LEN ==> self.squares@[q] == s0[q],
                kings == promo_count(s0, id as int),
            decreases BOARD_LEN - id,
        {
            proof {
                lemma_promo_count_bounds(s0, id as int);
            }
            match self.squares[id] {
                Square::Taken(piece) => {
                    let promote = match piece.player {
                        Player::Player1 => id >= 37 && id <= 40 && !piece.king,
                        Player::Player2 => id >= 5 && id <= 8 && !piece.king,
                    };
                    if promote {
                        self.squares.set(id, Square::Taken(Piece::new(piece.player, true)));
                        kings = kings + 1;
                    }
                },
                _ => {},
            }
            id += 1;
        }
        proof {
            assert forall|q: int| 0 <= q < BOARD_LEN && !is_playable(q) implies self.squares@[q]
                is Invalid by {
                assert(self.squares@[q] == promoted_square(s0[q], q));
            }
        }
        kings
    }
}

pub proof fn lemma_promo_count_bounds(s: Seq<Square>, n: int)
    requires
        n >= 0,
    ensures
        0 <= promo_count(s, n) <= n,
    decreases n,
{
    if n > 0 {
        lemma_promo_count_bounds(s, n - 1);
    }
}

/// Within one fingerprint table, the fingerprint is a function of the square
/// array alone: two consistent boards sharing a table and holding equal
/// squares carry equal fingerprints, however each was reached.
pub proof fn lemma_fingerprint_deterministic(b1: Board, b2: Board)
    requires
        b1.hash_consistent(),
        b2.hash_consistent(),
        b1.rnd() == b2.rnd(),
        b1.sqs() == b2.sqs(),
    ensures
        b1.hash_val() == b2.hash_val(),
{
}

/// Crowning is exhaustive: right after it, no piece is left to crown, so a
/// second pass promotes nothing.
pub proof fn lemma_promotion_exhaustive(s: Seq<Square>, n: int)
    requires
        0 <= n <= s.len(),
    ensures
        promo_count(promote_all(s), n) == 0,
    decreases n,
{
    if n > 0 {
        lemma_promotion_exhaustive(s, n - 1);
        assert(promoted_square(promote_all(s)[n - 1], n - 1) == promote_all(s)[n - 1]);
    }
}

} // verus!
