use vstd::prelude::*;

use crate::board::{is_playable, occupied_count, Board, Piece, Square};
use crate::zobrist::{board_hash, entry_of, lemma_hash_upto_update, lemma_xor_zero, square_term,
    BOARD_LEN};

verus! {

/// A snapshot of one board slot at the time a movement was built: the slot's
/// index and the piece that stood there (if any). The snapshot is what makes
/// exact reversal possible: after a capture the board no longer remembers the
/// captured piece.
#[derive(Debug, PartialEq, Eq, Clone, Copy)]
pub struct SquareState {
    pub id: usize,
    pub piece: Option<Piece>,
}

impl SquareState {
    /// Snapshot of a slot holding `piece`.
    pub fn piece(id: usize, piece: Piece) -> (r: SquareState)
        ensures
            r == (SquareState { id, piece: Some(piece) }),
    {
        SquareState { id, piece: Some(piece) }
    }

    /// Snapshot of an empty slot.
    pub fn empty(id: usize) -> (r: SquareState)
        ensures
            r == (SquareState { id, piece: None }),
    {
        SquareState { id, piece: None }
    }
}

/// One movement of a piece: a simple step, a single jump, or a chain of jumps
/// linked through `next`. Each leg carries snapshots of its origin and of the
/// captured square so that the movement can be undone exactly.
#[derive(Debug, PartialEq)]
pub struct Movement {
    pub from: SquareState,
    pub to: SquareState,
    pub jumped: Option<SquareState>,
    pub next: Option<Box<Movement>>,
}

impl Clone for Movement {
    /// Structural copy of the whole chain.
    fn clone(&self) -> (r: Movement)
        ensures
            r == *self,
    {
        self.duplicate()
    }
}

impl Movement {
    pub fn simple(from: SquareState, to: SquareState) -> (r: Movement)
        ensures
            r == (Movement { from, to, jumped: None, next: None }),
    {
        Movement { from, to, jumped: None, next: None }
    }

    pub fn jump(from: SquareState, to: SquareState, jumped: SquareState) -> (r: Movement)
        ensures
            r == (Movement { from, to, jumped: Some(jumped), next: None }),
    {
        Movement { from, to, jumped: Some(jumped), next: None }
    }

    pub fn multi_jump(from: SquareState, to: SquareState, jumped: SquareState, next: Box<Movement>)
        -> (r: Movement)
        ensures
            r == (Movement { from, to, jumped: Some(jumped), next: Some(next) }),
    {
        Movement { from, to, jumped: Some(jumped), next: Some(next) }
    }

    /// An exact structural copy, with a contract (the derived clone has none).
    pub fn duplicate(&self) -> (r: Movement)
        ensures
            r == *self,
        decreases *self,
    {
        Movement {
            from: self.from,
            to: self.to,
            jumped: self.jumped,
            next: match &self.next {
                Some(b) => Some(Box::new(b.duplicate())),
                None => None,
            },
        }
    }

    /// Append `movement` as the continuation of this leg.
    pub fn set_next(&mut self, movement: &Movement)
        ensures
            final(self).from == old(self).from,
            final(self).to == old(self).to,
            final(self).jumped == old(self).jumped,
            final(self).next == Some(Box::new(*movement)),
    {
        self.next = Some(Box::new(movement.duplicate()));
    }

    pub fn is_jump(&self) -> (r: bool)
        ensures
            r == (self.jumped is Some),
    {
        self.jumped.is_some()
    }

    pub fn from(&self) -> (r: SquareState)
        ensures
            r == self.from,
    {
        self.from
    }
}

/// Where the moving piece finally lands, at the end of the chain.
pub open spec fn final_to(m: Movement) -> int
    decreases m,
{
    match m.next {
        Some(b) => final_to(*b),
        None => m.to.id as int,
    }
}

/// The board after one leg of `m`: the moving piece copied to the landing
/// square, the origin cleared, and the captured square (if any) cleared.
pub open spec fn apply_leg(s: Seq<Square>, m: Movement) -> Seq<Square> {
    let s1 = s.update(m.to.id as int, s[m.from.id as int]).update(m.from.id as int, Square::Empty);
    match m.jumped {
        Some(j) => s1.update(j.id as int, Square::Empty),
        None => s1,
    }
}

/// The board after the whole movement chain is applied.
pub open spec fn apply_move(s: Seq<Square>, m: Movement) -> Seq<Square>
    decreases m,
{
    match m.next {
        Some(b) => apply_move(apply_leg(s, m), *b),
        None => apply_leg(s, m),
    }
}

/// The board after the whole movement chain is undone: deepest leg first,
/// then the origin restored from its snapshot, the landing square cleared,
/// and the captured piece restored from its snapshot.
pub open spec fn undo_move(s: Seq<Square>, m: Movement) -> Seq<Square>
    decreases m,
{
    let s0 = match m.next {
        Some(b) => undo_move(s, *b),
        None => s,
    };
    let s1 = s0.update(m.from.id as int, s0[m.to.id as int]).update(m.to.id as int, Square::Empty);
    match m.jumped {
        Some(j) => s1.update(j.id as int, Square::Taken(j.piece.unwrap())),
        None => s1,
    }
}

/// The movement is consistent with board `s`: every snapshot matches the
/// square it names, every leg starts where the previous one landed, landing
/// squares are empty when reached, and all the slots touched are playable.
/// Movements drawn from the legal-move generator satisfy this; applying a
/// movement that does not is the caller's error.
pub open spec fn move_ok(s: Seq<Square>, m: Movement) -> bool
    decreases m,
{
    let from = m.from.id as int;
    let to = m.to.id as int;
    &&& is_playable(from)
    &&& is_playable(to)
    &&& from != to
    &&& m.from.piece is Some
    &&& s[from] == Square::Taken(m.from.piece.unwrap())
    &&& s[to] is Empty
    &&& match m.jumped {
        Some(j) => {
            &&& is_playable(j.id as int)
            &&& j.id as int != from
            &&& j.id as int != to
            &&& j.piece is Some
            &&& s[j.id as int] == Square::Taken(j.piece.unwrap())
        },
        None => true,
    }
    &&& match m.next {
        Some(b) => {
            &&& m.jumped is Some
            &&& b.from.id == m.to.id
            &&& b.from.piece == m.from.piece
            &&& move_ok(apply_leg(s, m), *b)
        },
        None => true,
    }
}

/// Shape well-formedness of a movement on its own: every slot it names is
/// playable and every snapshot that will be restored or charged to the
/// fingerprint holds a piece. Undoing only needs this; it trusts the
/// snapshots, as it must, because the board alone cannot recall a captured
/// piece.
pub open spec fn wf_move(m: Movement) -> bool
    decreases m,
{
    &&& is_playable(m.from.id as int)
    &&& is_playable(m.to.id as int)
    &&& m.from.piece is Some
    &&& match m.jumped {
        Some(j) => is_playable(j.id as int) && j.piece is Some,
        None => true,
    }
    &&& match m.next {
        Some(b) => wf_move(*b),
        None => true,
    }
}

/// A movement consistent with some board is well formed in shape.
pub proof fn lemma_move_ok_wf(s: Seq<Square>, m: Movement)
    requires
        move_ok(s, m),
    ensures
        wf_move(m),
    decreases m,
{
    match m.next {
        Some(b) => lemma_move_ok_wf(apply_leg(s, m), *b),
        None => {},
    }
}

/// Undoing a well-formed movement touches only playable squares.
pub proof fn lemma_undo_frame(s: Seq<Square>, m: Movement)
    requires
        s.len() == BOARD_LEN,
        wf_move(m),
    ensures
        undo_move(s, m).len() == BOARD_LEN,
        forall|q: int| 0 <= q < BOARD_LEN && !is_playable(q) ==> undo_move(s, m)[q] == s[q],
    decreases m,
{
    match m.next {
        Some(b) => lemma_undo_frame(s, *b),
        None => {},
    }
}

/// What applying (or undoing) `m` toggles into the running fingerprint, in
/// the order the flips are made: landing entry, origin entry, captured entry,
/// then the continuation's flips.
pub open spec fn move_delta(r: Seq<u128>, m: Movement) -> u128
    decreases m,
{
    let p = m.from.piece.unwrap();
    let leg = match m.jumped {
        Some(j) => (entry_of(r, m.to.id as int, p) ^ entry_of(r, m.from.id as int, p))
            ^ entry_of(r, j.id as int, j.piece.unwrap()),
        None => entry_of(r, m.to.id as int, p) ^ entry_of(r, m.from.id as int, p),
    };
    match m.next {
        Some(b) => leg ^ move_delta(r, *b),
        None => leg,
    }
}

proof fn lemma_xor_regroup(h: u128, a: u128, b: u128, c: u128)
    ensures
        (h ^ a) ^ b == h ^ (a ^ b),
        ((h ^ a) ^ b) ^ c == h ^ ((a ^ b) ^ c),
{
    assert((h ^ a) ^ b == h ^ (a ^ b) && ((h ^ a) ^ b) ^ c == h ^ ((a ^ b) ^ c))
        by (bit_vector);
}

proof fn lemma_xor_undo_leg(h: u128, a: u128, b: u128, c: u128, d: u128)
    ensures
        (((h ^ d) ^ b) ^ a) ^ c == h ^ (((a ^ b) ^ c) ^ d),
        ((h ^ d) ^ b) ^ a == h ^ ((a ^ b) ^ d),
        ((h ^ b) ^ a) ^ c == h ^ ((a ^ b) ^ c),
        (h ^ b) ^ a == h ^ (a ^ b),
{
    assert((((h ^ d) ^ b) ^ a) ^ c == h ^ (((a ^ b) ^ c) ^ d)
        && ((h ^ d) ^ b) ^ a == h ^ ((a ^ b) ^ d)
        && ((h ^ b) ^ a) ^ c == h ^ ((a ^ b) ^ c)
        && (h ^ b) ^ a == h ^ (a ^ b)) by (bit_vector);
}

/// Applying a consistent movement leaves the board well formed, moves the
/// piece to its final landing square, toggles exactly `move_delta` in the
/// fingerprint, and removes one occupied square per captured piece.
pub proof fn lemma_apply_move(s: Seq<Square>, r: Seq<u128>, m: Movement)
    requires
        s.len() == BOARD_LEN,
        move_ok(s, m),
    ensures
        apply_move(s, m).len() == BOARD_LEN,
        forall|q: int| 0 <= q < BOARD_LEN && !is_playable(q) ==> apply_move(s, m)[q] == s[q],
        board_hash(r, apply_move(s, m)) == board_hash(r, s) ^ move_delta(r, m),
        occupied_count(apply_move(s, m), BOARD_LEN as int) <= occupied_count(
            s,
            BOARD_LEN as int,
        ) - (if m.jumped is Some { 1int } else { 0int }),
        apply_move(s, m)[final_to(m)] is Taken,
        is_playable(final_to(m)),
    decreases m,
{
    let from = m.from.id as int;
    let to = m.to.id as int;
    let p = m.from.piece.unwrap();
    let s1 = s.update(to, s[from]);
    let s2 = s1.update(from, Square::Empty);
    let a = entry_of(r, to, p);
    let b = entry_of(r, from, p);
    let h = board_hash(r, s);
    lemma_hash_upto_update(r, s, to, s[from], BOARD_LEN as int);
    assert(square_term(r, s[to], to) == 0);
    lemma_xor_zero(h);
    assert(board_hash(r, s1) == h ^ a);
    lemma_hash_upto_update(r, s1, from, Square::Empty, BOARD_LEN as int);
    assert(square_term(r, s1[from], from) == b);
    assert(square_term(r, Square::Empty, from) == 0);
    lemma_xor_zero((h ^ a) ^ b);
    assert(board_hash(r, s2) == (h ^ a) ^ b);
    crate::board::lemma_occ_update(s, to, s[from], BOARD_LEN as int);
    crate::board::lemma_occ_update(s1, from, Square::Empty, BOARD_LEN as int);
    match m.jumped {
        Some(j) => {
            let ji = j.id as int;
            let jp = j.piece.unwrap();
            let c = entry_of(r, ji, jp);
            let s3 = s2.update(ji, Square::Empty);
            lemma_hash_upto_update(r, s2, ji, Square::Empty, BOARD_LEN as int);
            assert(square_term(r, s2[ji], ji) == c);
            lemma_xor_zero(((h ^ a) ^ b) ^ c);
            assert(board_hash(r, s3) == ((h ^ a) ^ b) ^ c);
            crate::board::lemma_occ_update(s2, ji, Square::Empty, BOARD_LEN as int);
            assert(apply_leg(s, m) == s3);
            match m.next {
                Some(b2) => {
                    lemma_apply_move(s3, r, *b2);
                    lemma_xor_regroup(h, a, b, c);
                    lemma_xor_regroup(h, (a ^ b) ^ c, move_delta(r, *b2), 0);
                },
                None => {
                    lemma_xor_regroup(h, a, b, c);
                    assert(s3[to] == s[from]);
                    assert(is_playable(to));
                },
            }
        },
        None => {
            assert(apply_leg(s, m) == s2);
            match m.next {
                Some(b2) => {
                    lemma_apply_move(s2, r, *b2);
                    lemma_xor_regroup(h, a, b, 0);
                    lemma_xor_regroup(h, a ^ b, move_delta(r, *b2), 0);
                },
                None => {
                    lemma_xor_regroup(h, a, b, 0);
                    assert(s2[to] == s[from]);
                    assert(is_playable(to));
                },
            }
        },
    }
}

/// Undoing right after applying restores the square array exactly.
pub proof fn lemma_apply_undo(s: Seq<Square>, m: Movement)
    requires
        s.len() == BOARD_LEN,
        move_ok(s, m),
    ensures
        undo_move(apply_move(s, m), m) == s,
    decreases m,
{
    let from = m.from.id as int;
    let to = m.to.id as int;
    let sl = apply_leg(s, m);
    match m.next {
        Some(b) => {
            lemma_apply_undo(sl, *b);
            assert(undo_move(apply_move(s, m), *b) == sl);
        },
        None => {},
    }
    let s0 = sl;
    let s1 = s0.update(from, s0[to]).update(to, Square::Empty);
    match m.jumped {
        Some(j) => {
            assert(undo_move(apply_move(s, m), m) =~= s) by {
                assert(s0[to] == s[from]);
            }
        },
        None => {
            assert(undo_move(apply_move(s, m), m) =~= s) by {
                assert(s0[to] == s[from]);
            }
        },
    }
}

/// Round trip: undoing a movement drawn from the current board right after
/// applying it restores the square array exactly, and since apply and undo
/// toggle the same fingerprint entries, the fingerprint cancels back too.
pub proof fn lemma_round_trip(s: Seq<Square>, r: Seq<u128>, h: u128, m: Movement)
    requires
        s.len() == BOARD_LEN,
        move_ok(s, m),
    ensures
        undo_move(apply_move(s, m), m) == s,
        (h ^ move_delta(r, m)) ^ move_delta(r, m) == h,
{
    lemma_apply_undo(s, m);
    crate::zobrist::lemma_xor_cancel(h, move_delta(r, m));
}

impl Board {
    /// Apply `movement` to the board: move the piece along the whole chain,
    /// clear each captured square, and keep the fingerprint in step.
    pub fn do_movement(&mut self, movement: &Movement)
        requires
            old(self).wf(),
            move_ok(old(self).sqs(), *movement),
        ensures
            final(self).wf(),
            final(self).sqs() == apply_move(old(self).sqs(), *movement),
            final(self).rnd() == old(self).rnd(),
            final(self).hash_val() == old(self).hash_val() ^ move_delta(
                old(self).rnd(),
                *movement,
            ),
            old(self).hash_consistent() ==> final(self).hash_consistent(),
        decreases *movement,
    {
        proof {
            lemma_apply_move(self.squares@, self.zobrist.randoms@, *movement);
        }
        let ghost s = self.squares@;
        let ghost h = self.zobrist.hash;
        let from_piece = movement.from.piece.unwrap();
        let moving = self.squares[movement.from.id];
        self.squares.set(movement.to.id, moving);
        self.zobrist.flip(movement.to.id, from_piece.id());
        self.squares.set(movement.from.id, Square::Empty);
        self.zobrist.flip(movement.from.id, from_piece.id());
        match &movement.jumped {
            Some(jumped_state) => {
                let jumped_piece = jumped_state.piece.unwrap();
                self.squares.set(jumped_state.id, Square::Empty);
                self.zobrist.flip(jumped_state.id, jumped_piece.id());
                match &movement.next {
                    Some(next_movement) => {
                        proof {
                            assert(self.squares@ == apply_leg(s, *movement));
                        }
                        self.do_movement(next_movement);
                        proof {
                            let a = entry_of(self.zobrist.randoms@, movement.to.id as int,
                                from_piece);
                            let b = entry_of(self.zobrist.randoms@, movement.from.id as int,
                                from_piece);
                            let c = entry_of(self.zobrist.randoms@,
                                jumped_state.id as int, jumped_piece);
                            let d = move_delta(self.zobrist.randoms@, **next_movement);
                            lemma_xor_regroup(h, a, b, c);
                            lemma_xor_regroup(h, (a ^ b) ^ c, d, 0);
                        }
                    },
                    None => {
                        proof {
                            let a = entry_of(self.zobrist.randoms@, movement.to.id as int,
                                from_piece);
                            let b = entry_of(self.zobrist.randoms@, movement.from.id as int,
                                from_piece);
                            let c = entry_of(self.zobrist.randoms@,
                                jumped_state.id as int, jumped_piece);
                            lemma_xor_regroup(h, a, b, c);
                        }
                    },
                }
            },
            None => {
                proof {
                    let a = entry_of(self.zobrist.randoms@, movement.to.id as int, from_piece);
                    let b = entry_of(self.zobrist.randoms@, movement.from.id as int, from_piece);
                    lemma_xor_regroup(h, a, b, 0);
                }
            },
        }
    }

    /// Undo `movement`: put the moving piece back on its origin, restore each
    /// captured piece from its snapshot, and toggle the same fingerprint
    /// entries out again, deepest leg first.
    pub fn undo_movement(&mut self, movement: &Movement)
        requires
            old(self).wf(),
            wf_move(*movement),
        ensures
            final(self).wf(),
            final(self).sqs() == undo_move(old(self).sqs(), *movement),
            final(self).rnd() == old(self).rnd(),
            final(self).hash_val() == old(self).hash_val() ^ move_delta(
                old(self).rnd(),
                *movement,
            ),
        decreases *movement,
    {
        proof {
            lemma_undo_frame(self.squares@, *movement);
        }
        let ghost h = self.zobrist.hash;
        let ghost r = self.zobrist.randoms@;
        match &movement.next {
            Some(next_movement) => {
                self.undo_movement(next_movement);
            },
            None => {},
        }
        let from_piece = movement.from.piece.unwrap();
        let landed = self.squares[movement.to.id];
        self.squares.set(movement.from.id, landed);
        self.zobrist.flip(movement.from.id, from_piece.id());
        self.squares.set(movement.to.id, Square::Empty);
        self.zobrist.flip(movement.to.id, from_piece.id());
        match &movement.jumped {
            Some(jumped_state) => {
                let jumped_piece = jumped_state.piece.unwrap();
                self.squares.set(jumped_state.id, Square::Taken(jumped_piece));
                self.zobrist.flip(jumped_state.id, jumped_piece.id());
            },
            None => {},
        }
        proof {
            let a = entry_of(r, movement.to.id as int, from_piece);
            let b = entry_of(r, movement.from.id as int, from_piece);
            let c = match &movement.jumped {
                Some(j) => entry_of(r, j.id as int, j.piece.unwrap()),
                None => 0,
            };
            let d = match &movement.next {
                Some(bx) => move_delta(r, **bx),
                None => 0,
            };
            lemma_xor_undo_leg(h, a, b, c, d);
        }
    }
}

} // verus!
