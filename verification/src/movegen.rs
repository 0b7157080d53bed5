use vstd::prelude::*;

use crate::board::{is_playable, Board, Piece, Player, Square};
use crate::moves::{apply_leg, move_ok, Movement, SquareState};
use crate::zobrist::BOARD_LEN;
use vstd::set_lib::{lemma_int_range, lemma_len_subset, set_int_range};

verus! {

/// The piece standing on square `id` (meaningful only when the square is
/// occupied).
pub open spec fn piece_at(s: Seq<Square>, id: int) -> Piece {
    match s[id] {
        Square::Taken(p) => p,
        _ => Piece { player: Player::Player1, king: false },
    }
}

/// The set of square indices already jumped over in the current chain.
pub open spec fn jset(v: Seq<usize>) -> Set<int> {
    Set::new(|q: int| exists|i: int| 0 <= i < v.len() && v[i] as int == q)
}

/// `d` is one of the diagonal offsets piece `p` may move along.
pub open spec fn dir_in(p: Piece, d: int) -> bool {
    if p.king {
        d == -4 || d == -5 || d == 4 || d == 5
    } else {
        match p.player {
            Player::Player1 => d == 4 || d == 5,
            Player::Player2 => d == -4 || d == -5,
        }
    }
}

/// The direction of the first leg of chain `m` out of square `c`.
pub open spec fn first_step_of(m: Movement, c: int) -> int {
    m.jumped.unwrap().id as int - c
}

/// Direction `k` of piece `p` gives a valid jump out of square `c`: the
/// adjacent square holds an opposing piece not yet jumped in this chain, and
/// the landing square two steps away is empty or is the chain's own start.
pub open spec fn jump_leg_ok(
    s: Seq<Square>,
    player: Player,
    p: Piece,
    c: int,
    start: int,
    visited: Set<int>,
    k: int,
) -> bool {
    let d = p.spec_dirs()[k];
    let j = c + d;
    let t = c + 2 * d;
    &&& 0 <= k < p.spec_dirs().len()
    &&& !visited.contains(j)
    &&& match s[j] {
        Square::Taken(q) => q.player != player,
        _ => false,
    }
    &&& (s[t] is Empty || t == start)
}

/// Some direction gives a valid jump out of square `c`.
pub open spec fn has_jump_from(
    s: Seq<Square>,
    player: Player,
    p: Piece,
    c: int,
    start: int,
    visited: Set<int>,
) -> bool {
    exists|k: int| jump_leg_ok(s, player, p, c, start, visited, k)
}

/// `m` is a maximal capture chain of piece `p` out of square `c`, where the
/// chain began at `start` and `visited` holds the squares already jumped
/// over: each leg jumps an opposing piece not yet jumped, lands two steps
/// beyond it on an empty square (or back on the chain's own start), the
/// snapshots record exactly what stands on the board, and the chain goes on
/// as long as any jump remains.
pub open spec fn jump_chain(
    s: Seq<Square>,
    player: Player,
    p: Piece,
    c: int,
    start: int,
    visited: Set<int>,
    m: Movement,
) -> bool
    decreases m,
{
    let d = first_step_of(m, c);
    let j = c + d;
    let t = c + 2 * d;
    &&& m.from.id as int == c
    &&& m.from.piece == Some(p)
    &&& m.jumped is Some
    &&& m.jumped.unwrap().piece == Some(piece_at(s, j))
    &&& m.to.id as int == t
    &&& m.to.piece is None
    &&& dir_in(p, d)
    &&& !visited.contains(j)
    &&& s[j] is Taken
    &&& piece_at(s, j).player != player
    &&& (s[t] is Empty || t == start)
    &&& match m.next {
        Some(b) => jump_chain(s, player, p, t, start, visited.insert(j), *b),
        None => !has_jump_from(s, player, p, t, start, visited.insert(j)),
    }
}

/// A direction of a piece is one of the four diagonal offsets.
proof fn lemma_dirs_values(p: Piece, k: int)
    requires
        0 <= k < p.spec_dirs().len(),
    ensures
        p.spec_dirs()[k] == -5 || p.spec_dirs()[k] == -4 || p.spec_dirs()[k] == 4
            || p.spec_dirs()[k] == 5,
        dir_in(p, p.spec_dirs()[k]),
{
}

/// A piece's direction list holds pairwise distinct offsets.
proof fn lemma_dirs_distinct(p: Piece, k1: int, k2: int)
    requires
        0 <= k1 < p.spec_dirs().len(),
        0 <= k2 < p.spec_dirs().len(),
        k1 != k2,
    ensures
        p.spec_dirs()[k1] != p.spec_dirs()[k2],
{
}

/// Every direction of a piece appears at some index of its direction list.
proof fn lemma_dir_index(p: Piece, d: int)
    requires
        dir_in(p, d),
    ensures
        exists|kk: int| 0 <= kk < p.spec_dirs().len() && p.spec_dirs()[kk] == d,
{
    if p.king {
        assert(p.spec_dirs()[0] == -4);
        assert(p.spec_dirs()[1] == -5);
        assert(p.spec_dirs()[2] == 4);
        assert(p.spec_dirs()[3] == 5);
    } else {
        match p.player {
            Player::Player1 => {
                assert(p.spec_dirs()[0] == 4);
                assert(p.spec_dirs()[1] == 5);
            },
            Player::Player2 => {
                assert(p.spec_dirs()[0] == -4);
                assert(p.spec_dirs()[1] == -5);
            },
        }
    }
}

/// The head of a capture chain sits where the chain starts, carries the
/// moving piece, and jumps along one of its directions.
proof fn lemma_chain_head(
    s: Seq<Square>,
    player: Player,
    p: Piece,
    c: int,
    start: int,
    visited: Set<int>,
    m: Movement,
)
    requires
        jump_chain(s, player, p, c, start, visited, m),
    ensures
        m.from.id as int == c,
        m.from.piece == Some(p),
        m.jumped is Some,
        dir_in(p, first_step_of(m, c)),
{
}

/// A capture chain out of `c` witnesses that a jump is available there.
proof fn lemma_chain_has_jump(
    s: Seq<Square>,
    player: Player,
    p: Piece,
    c: int,
    start: int,
    visited: Set<int>,
    m: Movement,
)
    requires
        jump_chain(s, player, p, c, start, visited, m),
    ensures
        has_jump_from(s, player, p, c, start, visited),
{
    let d = first_step_of(m, c);
    lemma_dir_index(p, d);
    let kk = choose|kk: int| 0 <= kk < p.spec_dirs().len() && p.spec_dirs()[kk] == d;
    assert(jump_leg_ok(s, player, p, c, start, visited, kk));
}

/// A sequence of distinct playable square indices cannot exceed the size of
/// the board array.
proof fn lemma_distinct_playable_len(v: Seq<usize>)
    requires
        v.no_duplicates(),
        forall|i: int| 0 <= i < v.len() ==> is_playable(#[trigger] v[i] as int),
    ensures
        v.len() <= BOARD_LEN,
{
    let vi = Seq::new(v.len(), |i: int| v[i] as int);
    assert(vi.no_duplicates());
    vi.unique_seq_to_set();
    assert forall|x: int| vi.to_set().contains(x) implies set_int_range(0, BOARD_LEN as int)
        .contains(x) by {
        let i = choose|i: int| 0 <= i < vi.len() && vi[i] == x;
        assert(is_playable(v[i] as int));
    }
    lemma_int_range(0, BOARD_LEN as int);
    lemma_len_subset(vi.to_set(), set_int_range(0, BOARD_LEN as int));
}

/// Pushing one index onto the visited list inserts it into the visited set.
proof fn lemma_jset_push(v: Seq<usize>, x: usize)
    ensures
        jset(v.push(x)) == jset(v).insert(x as int),
{
    assert forall|q: int| jset(v.push(x)).contains(q) implies jset(v).insert(x as int).contains(
        q,
    ) by {
        let i = choose|i: int| 0 <= i < v.push(x).len() && v.push(x)[i] as int == q;
        if i < v.len() {
            assert(v[i] as int == q);
        }
    }
    assert forall|q: int| jset(v).insert(x as int).contains(q) implies jset(v.push(x)).contains(
        q,
    ) by {
        if q == x as int {
            assert(v.push(x)[v.len() as int] as int == q);
        } else {
            let i = choose|i: int| 0 <= i < v.len() && v[i] as int == q;
            assert(v.push(x)[i] as int == q);
        }
    }
    assert(jset(v.push(x)) =~= jset(v).insert(x as int));
}

/// The visited set holds exactly the indices on the visited list.
proof fn lemma_jset_contains(v: Seq<usize>, x: usize)
    ensures
        jset(v).contains(x as int) == v.contains(x),
{
    if v.contains(x) {
        let i = choose|i: int| 0 <= i < v.len() && v[i] == x;
        assert(v[i] as int == x as int);
    }
    if jset(v).contains(x as int) {
        let i = choose|i: int| 0 <= i < v.len() && v[i] as int == x as int;
        assert(v[i] == x);
    }
}

/// Does the list of visited squares contain `x`?
fn contains_usize(v: &Vec<usize>, x: usize) -> (r: bool)
    ensures
        r == v@.contains(x),
{
    let mut i: usize = 0;
    while i < v.len()
        invariant
            i <= v@.len(),
            forall|j: int| 0 <= j < i ==> v@[j] != x,
        decreases v@.len() - i,
    {
        if v[i] == x {
            return true;
        }
        i += 1;
    }
    false
}

/// The first leg of `m` goes along one of the directions at index below `k`
/// in the piece's direction list: the chains already generated.
pub open spec fn dir_seen(p: Piece, m: Movement, c: int, k: int) -> bool {
    exists|kk: int| 0 <= kk < k && p.spec_dirs()[kk] == first_step_of(m, c)
}

impl Board {
    /// Depth-first search for all maximal capture chains of `piece` from
    /// square `id`, where the chain began at `start` and `prev_jumped` lists
    /// the squares already jumped over. Returns every maximal chain, and
    /// returns something exactly when a jump is available.
    #[verifier::loop_isolation(false)]
    #[verifier::rlimit(100)]
    pub(crate) fn jump_moves_at(
        &self,
        player: Player,
        piece: Piece,
        id: usize,
        start: usize,
        prev_jumped: &mut Vec<usize>,
    ) -> (r: Vec<Movement>)
        requires
            self.wf(),
            is_playable(id as int),
            is_playable(start as int),
            old(prev_jumped)@.no_duplicates(),
            forall|i: int| 0 <= i < old(prev_jumped)@.len() ==> is_playable(
                #[trigger] old(prev_jumped)@[i] as int,
            ),
        ensures
            final(prev_jumped)@ == old(prev_jumped)@,
            forall|i: int| 0 <= i < r@.len() ==> jump_chain(
                self.sqs(),
                player,
                piece,
                id as int,
                start as int,
                jset(old(prev_jumped)@),
                #[trigger] r@[i],
            ),
            forall|m: Movement| #[trigger] jump_chain(
                self.sqs(),
                player,
                piece,
                id as int,
                start as int,
                jset(old(prev_jumped)@),
                m,
            ) ==> r@.contains(m),
            r@.len() > 0 <==> has_jump_from(
                self.sqs(),
                player,
                piece,
                id as int,
                start as int,
                jset(old(prev_jumped)@),
            ),
            r@.no_duplicates(),
        decreases BOARD_LEN - prev_jumped@.len(),
    {
        proof {
            lemma_distinct_playable_len(prev_jumped@);
        }
        let ghost s = self.sqs();
        let ghost visited = jset(prev_jumped@);
        let mut movements: Vec<Movement> = Vec::new();
        let nd = piece.dir_count();
        let ghost dirs_len = piece.spec_dirs().len() as int;
        let mut k: usize = 0;
        while k < nd
            invariant
                prev_jumped@ == old(prev_jumped)@,
                k <= dirs_len,
                forall|i: int| 0 <= i < movements@.len() ==> jump_chain(
                    s,
                    player,
                    piece,
                    id as int,
                    start as int,
                    visited,
                    #[trigger] movements@[i],
                ),
                forall|m: Movement| #[trigger] jump_chain(
                    s,
                    player,
                    piece,
                    id as int,
                    start as int,
                    visited,
                    m,
                ) && dir_seen(piece, m, id as int, k as int) ==> movements@.contains(m),
                movements@.len() > 0 <==> exists|kk: int| 0 <= kk < k && jump_leg_ok(
                    s,
                    player,
                    piece,
                    id as int,
                    start as int,
                    visited,
                    kk,
                ),
                movements@.no_duplicates(),
                forall|j: int| 0 <= j < movements@.len() ==> dir_seen(
                    piece,
                    #[trigger] movements@[j],
                    id as int,
                    k as int,
                ),
            decreases dirs_len - k,
        {
            let ghost mv_before = movements@;
            let d = piece.dir_at(k);
            proof {
                lemma_dirs_values(piece, k as int);
                lemma_jset_contains(prev_jumped@, (((id as i32) + d) as usize));
            }
            let j = ((id as i32) + d) as usize;
            let ghost dd = piece.spec_dirs()[k as int];
            let ghost ji = id as int + dd;
            let ghost ti = id as int + 2 * dd;
            proof {
                assert(j as int == ji);
            }
            let contained = contains_usize(prev_jumped, j);
            let mut leg_taken = false;
            if !contained {
                match self.get(j) {
                    Square::Taken(jumped_piece) => {
                        if jumped_piece.get_player() != player {
                            proof {
                                // the jumped square is occupied, hence
                                // playable, so the landing index stays
                                // inside the array
                                if !is_playable(ji) {
                                    assert(self.sqs()[ji] is Invalid);
                                }
                            }
                            let t = ((j as i32) + d) as usize;
                            proof {
                                assert(t as int == ti);
                            }
                            let landing = self.get(t);
                            let landing_open = match landing {
                                Square::Empty => true,
                                _ => t == start,
                            };
                            if landing_open {
                                proof {
                                    assert(jump_leg_ok(s, player, piece, id as int, start as int,
                                        visited, k as int));
                                }
                                leg_taken = true;
                                let from = SquareState::piece(id, piece);
                                let to = SquareState::empty(t);
                                let jumped = SquareState::piece(j, jumped_piece);
                                proof {
                                    assert(prev_jumped@.push(j).no_duplicates());
                                    lemma_jset_push(prev_jumped@, j);
                                }
                                prev_jumped.push(j);
                                let ghost pushed = prev_jumped@;
                                proof {
                                    assert(forall|ii: int| 0 <= ii < prev_jumped@.len()
                                        ==> is_playable(#[trigger] prev_jumped@[ii] as int));
                                    lemma_distinct_playable_len(prev_jumped@);
                                    assert(jset(pushed) == visited.insert(ji));
                                }
                                let multi_jumps = self.jump_moves_at(player, piece, t, start,
                                    prev_jumped);
                                prev_jumped.pop();
                                proof {
                                    assert(prev_jumped@ =~= old(prev_jumped)@);
                                }
                                if multi_jumps.len() == 0 {
                                    let movement = Movement::jump(from, to, jumped);
                                    proof {
                                        // new direction, so a new movement: every
                                        // earlier chain's first leg went elsewhere
                                        assert forall|j: int| 0 <= j < mv_before.len() implies
                                            mv_before[j] != movement by {
                                            let kk = choose|kk: int|
                                                0 <= kk < k && piece.spec_dirs()[kk]
                                                    == first_step_of(mv_before[j], id as int);
                                            if mv_before[j] == movement {
                                                lemma_dirs_distinct(piece, kk, k as int);
                                            }
                                        }
                                    }
                                    movements.push(movement);
                                    proof {
                                        assert(first_step_of(movement, id as int) == dd);
                                        assert(dir_seen(piece, movement, id as int,
                                            k as int + 1)) by {
                                            assert(piece.spec_dirs()[k as int] == dd);
                                        }
                                        assert(movements@[movements@.len() - 1] == movement);
                                        assert(jump_chain(s, player, piece, id as int,
                                            start as int, visited, movement));
                                        assert forall|x: Movement| mv_before.contains(x)
                                            implies movements@.contains(x) by {
                                            let i = choose|i: int| 0 <= i < mv_before.len()
                                                && mv_before[i] == x;
                                            assert(movements@[i] == x);
                                        }
                                        assert forall|m: Movement| #[trigger] jump_chain(s,
                                            player, piece, id as int, start as int, visited, m)
                                            && first_step_of(m, id as int) == dd
                                            implies movements@.contains(m) by {
                                            match m.next {
                                                Some(b) => {
                                                    assert(jump_chain(s, player, piece,
                                                        t as int, start as int, jset(pushed),
                                                        *b));
                                                    lemma_chain_has_jump(s, player, piece,
                                                        t as int, start as int, jset(pushed),
                                                        *b);
                                                    assert(false);
                                                },
                                                None => {
                                                    assert(m.jumped.unwrap() == (SquareState {
                                                        id: j,
                                                        piece: Some(jumped_piece),
                                                    }));
                                                    assert(m == movement);
                                                    assert(movements@[movements@.len() - 1]
                                                        == m);
                                                },
                                            }
                                        }
                                    }
                                } else {
                                    let mut idx: usize = 0;
                                    while idx < multi_jumps.len()
                                        invariant
                                            idx <= multi_jumps@.len(),
                                            movements@.len() == mv_before.len() + idx,
                                            movements@.no_duplicates(),
                                            forall|i: int| 0 <= i < mv_before.len()
                                                ==> movements@[i] == mv_before[i],
                                            forall|i: int| 0 <= i < idx
                                                ==> movements@[mv_before.len() + i]
                                                == (Movement {
                                                from: SquareState { id, piece: Some(piece) },
                                                to: SquareState { id: t, piece: None },
                                                jumped: Some(
                                                    SquareState {
                                                        id: j,
                                                        piece: Some(jumped_piece),
                                                    },
                                                ),
                                                next: Some(Box::new(multi_jumps@[i])),
                                            }),
                                        decreases multi_jumps@.len() - idx,
                                    {
                                        let mj = multi_jumps[idx].duplicate();
                                        let movement = Movement::multi_jump(from, to, jumped,
                                            Box::new(mj));
                                        proof {
                                            // fresh: earlier chains of this square left
                                            // along another direction, and earlier
                                            // wrappers of this block continue with a
                                            // different continuation
                                            assert forall|j: int| 0 <= j < movements@.len()
                                                implies movements@[j] != movement by {
                                                if j < mv_before.len() {
                                                    let kk = choose|kk: int|
                                                        0 <= kk < k && piece.spec_dirs()[kk]
                                                            == first_step_of(mv_before[j],
                                                            id as int);
                                                    if movements@[j] == movement {
                                                        lemma_dirs_distinct(piece, kk,
                                                            k as int);
                                                    }
                                                } else {
                                                    if movements@[j] == movement {
                                                        assert(multi_jumps@[j
                                                            - mv_before.len()]
                                                            == multi_jumps@[idx as int]);
                                                    }
                                                }
                                            }
                                        }
                                        movements.push(movement);
                                        idx += 1;
                                    }
                                    proof {
                                        assert forall|x: Movement| mv_before.contains(x)
                                            implies movements@.contains(x) by {
                                            let i = choose|i: int| 0 <= i < mv_before.len()
                                                && mv_before[i] == x;
                                            assert(movements@[i] == x);
                                        }
                                        assert forall|i: int| mv_before.len() <= i
                                            < movements@.len() implies jump_chain(s, player,
                                            piece, id as int, start as int, visited,
                                            #[trigger] movements@[i]) && dir_seen(piece,
                                            movements@[i], id as int, k as int + 1) by {
                                            let sub = multi_jumps@[i - mv_before.len()];
                                            assert(jump_chain(s, player, piece, t as int,
                                                start as int, jset(pushed), sub));
                                            assert(first_step_of(movements@[i], id as int)
                                                == dd);
                                            assert(piece.spec_dirs()[k as int] == dd);
                                        }
                                        assert forall|m: Movement| #[trigger] jump_chain(s,
                                            player, piece, id as int, start as int, visited, m)
                                            && first_step_of(m, id as int) == dd
                                            implies movements@.contains(m) by {
                                            assert(m.jumped.unwrap() == (SquareState {
                                                id: j,
                                                piece: Some(jumped_piece),
                                            }));
                                            match m.next {
                                                Some(b) => {
                                                    assert(jump_chain(s, player, piece,
                                                        t as int, start as int, jset(pushed),
                                                        *b));
                                                    assert(multi_jumps@.contains(*b));
                                                    let bi = choose|bi: int| 0 <= bi
                                                        < multi_jumps@.len()
                                                        && multi_jumps@[bi] == *b;
                                                    assert(movements@[mv_before.len() + bi]
                                                        == m);
                                                },
                                                None => {
                                                    assert(has_jump_from(s, player, piece,
                                                        t as int, start as int,
                                                        jset(pushed)));
                                                    assert(false);
                                                },
                                            }
                                        }
                                    }
                                }
                            }
                        }
                    },
                    _ => {},
                }
            }
            proof {
                if !leg_taken {
                    assert(!jump_leg_ok(s, player, piece, id as int, start as int, visited,
                        k as int));
                    assert forall|m: Movement| #[trigger] jump_chain(s, player, piece,
                        id as int, start as int, visited, m) implies first_step_of(m,
                        id as int) != dd by {}
                    assert(movements@ == mv_before);
                }
                assert forall|m: Movement| #[trigger] jump_chain(s, player, piece, id as int,
                    start as int, visited, m) && dir_seen(piece, m, id as int, k as int + 1)
                    implies movements@.contains(m) by {
                    if dir_seen(piece, m, id as int, k as int) {
                    } else {
                        let kk = choose|kk: int| 0 <= kk < k as int + 1 && piece.spec_dirs()[kk]
                            == first_step_of(m, id as int);
                        assert(kk == k as int);
                        assert(first_step_of(m, id as int) == dd);
                    }
                }
                assert forall|j: int| 0 <= j < movements@.len() implies dir_seen(
                    piece,
                    #[trigger] movements@[j],
                    id as int,
                    k as int + 1,
                ) by {
                    if j < mv_before.len() {
                        let kk = choose|kk: int|
                            0 <= kk < k && piece.spec_dirs()[kk] == first_step_of(
                                mv_before[j],
                                id as int,
                            );
                        assert(0 <= kk < k as int + 1 && piece.spec_dirs()[kk]
                            == first_step_of(movements@[j], id as int));
                    }
                }
                assert forall|i: int| 0 <= i < movements@.len() implies jump_chain(s, player,
                    piece, id as int, start as int, visited, #[trigger] movements@[i]) by {
                    if i < mv_before.len() {
                        assert(movements@[i] == mv_before[i]);
                    }
                }
            }
            k += 1;
        }
        proof {
            if has_jump_from(s, player, piece, id as int, start as int, visited) {
                let kk = choose|kk: int| jump_leg_ok(s, player, piece, id as int, start as int,
                    visited, kk);
                assert(0 <= kk < dirs_len);
            }
            assert forall|m: Movement| #[trigger] jump_chain(s, player, piece, id as int,
                start as int, visited, m) implies movements@.contains(m) by {
                lemma_chain_head(s, player, piece, id as int, start as int, visited, m);
                lemma_dir_index(piece, first_step_of(m, id as int));
                assert(dir_seen(piece, m, id as int, dirs_len));
            }
        }
        movements
    }
}

/// Direction `k` of the piece on square `id` is a valid simple step for
/// `player`: the square holds that side's piece and the diagonal neighbour is
/// empty.
pub open spec fn simple_ok_at(s: Seq<Square>, player: Player, id: int, k: int) -> bool {
    &&& is_playable(id)
    &&& s[id] is Taken
    &&& piece_at(s, id).player == player
    &&& 0 <= k < piece_at(s, id).spec_dirs().len()
    &&& s[id + piece_at(s, id).spec_dirs()[k]] is Empty
}

/// The simple step of the piece on `id` along its direction `k`.
pub open spec fn simple_move_at(s: Seq<Square>, id: int, k: int) -> Movement {
    let p = piece_at(s, id);
    Movement {
        from: SquareState { id: id as usize, piece: Some(p) },
        to: SquareState { id: (id + p.spec_dirs()[k]) as usize, piece: None },
        jumped: None,
        next: None,
    }
}

/// `m` is a legal simple step for `player`.
pub open spec fn simple_legal(s: Seq<Square>, player: Player, m: Movement) -> bool {
    exists|id: int, k: int| simple_ok_at(s, player, id, k) && m == simple_move_at(s, id, k)
}

/// `m` is a legal (maximal) capture chain for `player`: it starts on a square
/// holding that side's piece and is a maximal chain of jumps from there.
pub open spec fn capture_legal(s: Seq<Square>, player: Player, m: Movement) -> bool {
    &&& is_playable(m.from.id as int)
    &&& s[m.from.id as int] is Taken
    &&& piece_at(s, m.from.id as int).player == player
    &&& jump_chain(
        s,
        player,
        piece_at(s, m.from.id as int),
        m.from.id as int,
        m.from.id as int,
        Set::empty(),
        m,
    )
}

/// Some capture is available to `player`.
pub open spec fn has_capture(s: Seq<Square>, player: Player) -> bool {
    exists|c: int|
        0 <= c < BOARD_LEN && #[trigger] s[c] is Taken && piece_at(s, c).player == player
            && has_jump_from(s, player, piece_at(s, c), c, c, Set::empty())
}

/// Some simple step is available to `player`.
pub open spec fn has_simple(s: Seq<Square>, player: Player) -> bool {
    exists|id: int, k: int| simple_ok_at(s, player, id, k)
}

/// `player` has at least one legal movement.
pub open spec fn has_move(s: Seq<Square>, player: Player) -> bool {
    has_capture(s, player) || has_simple(s, player)
}

/// `m` is a legal movement for `player`: capturing is mandatory, so while any
/// capture exists only capture chains are legal, and simple steps are legal
/// only when no capture exists.
pub open spec fn movement_legal(s: Seq<Square>, player: Player, m: Movement) -> bool {
    if has_capture(s, player) {
        capture_legal(s, player, m)
    } else {
        simple_legal(s, player, m)
    }
}

/// Capturing is mandatory: while any capture is available, the legal
/// movements are exactly the capture chains, never simple steps.
pub proof fn lemma_mandatory_capture(s: Seq<Square>, player: Player, m: Movement)
    requires
        has_capture(s, player),
    ensures
        movement_legal(s, player, m) <==> capture_legal(s, player, m),
{
}

/// A legal simple step can be applied to the board it was drawn from.
proof fn lemma_simple_move_ok(s: Seq<Square>, player: Player, id: int, k: int)
    requires
        s.len() == BOARD_LEN,
        forall|q: int| 0 <= q < BOARD_LEN && !is_playable(q) ==> s[q] is Invalid,
        simple_ok_at(s, player, id, k),
    ensures
        move_ok(s, simple_move_at(s, id, k)),
{
    let p = piece_at(s, id);
    lemma_dirs_values(p, k);
    let d = p.spec_dirs()[k];
    assert(s[id + d] is Empty);
    assert(is_playable(id + d));
}

/// A maximal capture chain can be applied to the board it was generated
/// from: the board seen while applying a prefix of the chain differs from
/// the generation-time board only at the start square, at the piece's
/// current square, and at the squares already jumped over, and that is
/// enough for each successive leg to find what its snapshots promise.
proof fn lemma_chain_move_ok_rec(
    s: Seq<Square>,
    scur: Seq<Square>,
    player: Player,
    p: Piece,
    c: int,
    start: int,
    visited: Set<int>,
    m: Movement,
)
    requires
        s.len() == BOARD_LEN,
        scur.len() == BOARD_LEN,
        forall|q: int| 0 <= q < BOARD_LEN && !is_playable(q) ==> s[q] is Invalid,
        jump_chain(s, player, p, c, start, visited, m),
        is_playable(c),
        is_playable(start),
        p.player == player,
        s[start] == Square::Taken(p),
        scur[c] == Square::Taken(p),
        c == start || s[c] is Empty,
        start == c || scur[start] is Empty,
        forall|x: int| #[trigger] visited.contains(x) ==> 0 <= x < BOARD_LEN && s[x] is Taken
            && piece_at(s, x).player != player && scur[x] is Empty,
        forall|q: int| 0 <= q < BOARD_LEN && q != c && q != start && !visited.contains(q)
            ==> scur[q] == s[q],
    ensures
        move_ok(scur, m),
    decreases m,
{
    let d = first_step_of(m, c);
    let j = c + d;
    let t = c + 2 * d;
    let q = piece_at(s, j);
    assert(is_playable(j));
    assert(is_playable(t)) by {
        if t != start {
            assert(s[t] is Empty);
        }
    }
    assert(j != start) by {
        if j == start {
            assert(piece_at(s, j) == p);
        }
    }
    assert(scur[t] is Empty) by {
        if t == start {
            assert(t != c);
        } else {
            assert(!visited.contains(t));
            assert(scur[t] == s[t]);
        }
    }
    assert(scur[j] == Square::Taken(q)) by {
        assert(!visited.contains(j));
        assert(j != c) by {
            if j == c {
                assert(scur[c] == Square::Taken(p));
            }
        }
        assert(scur[j] == s[j]);
    }
    match m.next {
        Some(b) => {
            let scur2 = apply_leg(scur, m);
            let visited2 = visited.insert(j);
            assert(scur2.len() == BOARD_LEN);
            assert(scur2[t] == Square::Taken(p));
            assert(t == start || s[t] is Empty);
            assert(start == t || scur2[start] is Empty) by {
                if start != t {
                    if start == c {
                        assert(scur2[start] is Empty);
                    } else {
                        assert(scur2[start] == scur[start]);
                    }
                }
            }
            assert forall|x: int| #[trigger] visited2.contains(x) implies 0 <= x < BOARD_LEN
                && s[x] is Taken && piece_at(s, x).player != player && scur2[x] is Empty by {
                if x == j {
                    assert(scur2[j] is Empty);
                } else {
                    assert(visited.contains(x));
                    assert(x != t) by {
                        if t == start {
                            assert(piece_at(s, start) == p);
                        } else {
                            assert(s[t] is Empty);
                        }
                    }
                    assert(x != c) by {
                        if c == start {
                            assert(piece_at(s, start) == p);
                        } else {
                            assert(s[c] is Empty);
                        }
                    }
                    assert(scur2[x] == scur[x]);
                }
            }
            assert forall|qq: int| 0 <= qq < BOARD_LEN && qq != t && qq != start
                && !visited2.contains(qq) implies scur2[qq] == s[qq] by {
                if qq == c {
                    assert(c != start);
                    assert(s[c] is Empty);
                    assert(scur2[c] is Empty);
                } else {
                    assert(scur2[qq] == scur[qq]);
                }
            }
            assert(jump_chain(s, player, p, t, start, visited2, *b));
            lemma_chain_move_ok_rec(s, scur2, player, p, t, start, visited2, *b);
            lemma_chain_head(s, player, p, t, start, visited2, *b);
        },
        None => {},
    }
}

/// A legal capture chain can be applied to the board it was drawn from.
pub proof fn lemma_capture_move_ok(s: Seq<Square>, player: Player, m: Movement)
    requires
        s.len() == BOARD_LEN,
        forall|q: int| 0 <= q < BOARD_LEN && !is_playable(q) ==> s[q] is Invalid,
        capture_legal(s, player, m),
    ensures
        move_ok(s, m),
        m.jumped is Some,
{
    let c = m.from.id as int;
    lemma_chain_move_ok_rec(s, s, player, piece_at(s, c), c, c, Set::empty(), m);
    lemma_chain_head(s, player, piece_at(s, c), c, c, Set::empty(), m);
}

/// Round trip over the legal moves: any movement legal for `player` on a
/// well-formed board can be applied, and undoing it right afterwards
/// restores the square array exactly — and with it, by `lemma_round_trip`,
/// the fingerprint.
pub proof fn lemma_legal_move_round_trip(s: Seq<Square>, player: Player, m: Movement)
    requires
        s.len() == BOARD_LEN,
        forall|q: int| 0 <= q < BOARD_LEN && !is_playable(q) ==> s[q] is Invalid,
        movement_legal(s, player, m),
    ensures
        move_ok(s, m),
        crate::moves::undo_move(crate::moves::apply_move(s, m), m) == s,
{
    if has_capture(s, player) {
        lemma_capture_move_ok(s, player, m);
    } else {
        let (id, k) = choose|id: int, k: int|
            simple_ok_at(s, player, id, k) && m == simple_move_at(s, id, k);
        lemma_simple_move_ok(s, player, id, k);
    }
    crate::moves::lemma_apply_undo(s, m);
}

impl Board {
    /// All legal simple steps of `player` on this board, in square order.
    #[verifier::loop_isolation(false)]
    pub fn simple_moves(&self, player: Player) -> (r: Vec<Movement>)
        requires
            self.wf(),
        ensures
            forall|i: int| 0 <= i < r@.len() ==> simple_legal(self.sqs(), player, #[trigger] r@[i]),
            forall|id: int, k: int| simple_ok_at(self.sqs(), player, id, k) ==> r@.contains(
                simple_move_at(self.sqs(), id, k),
            ),
            r@.len() > 0 <==> has_simple(self.sqs(), player),
            forall|i: int| 0 <= i < r@.len() ==> move_ok(self.sqs(), #[trigger] r@[i])
                && r@[i].jumped is None,
            r@.no_duplicates(),
    {
        let ghost s = self.sqs();
        let mut movements: Vec<Movement> = Vec::new();
        let mut id: usize = 0;
        while id < BOARD_LEN
            invariant
                id <= BOARD_LEN,
                forall|i: int| 0 <= i < movements@.len() ==> simple_legal(s, player,
                    #[trigger] movements@[i]),
                forall|id2: int, k2: int| id2 < id && #[trigger] simple_ok_at(s, player, id2, k2)
                    ==> movements@.contains(simple_move_at(s, id2, k2)),
                movements@.no_duplicates(),
                forall|j: int| 0 <= j < movements@.len() ==> (#[trigger] movements@[j]).from.id
                    < id,
            decreases BOARD_LEN - id,
        {
            match self.get(id) {
                Square::Taken(piece) => {
                    if piece.get_player() == player {
                        proof {
                            if !is_playable(id as int) {
                                assert(s[id as int] is Invalid);
                            }
                        }
                        let nd = piece.dir_count();
                        let ghost dirs_len = piece.spec_dirs().len() as int;
                        let mut k: usize = 0;
                        while k < nd
                            invariant
                                k <= dirs_len,
                                forall|i: int| 0 <= i < movements@.len() ==> simple_legal(s,
                                    player, #[trigger] movements@[i]),
                                forall|id2: int, k2: int| id2 < id && #[trigger] simple_ok_at(s,
                                    player, id2, k2) ==> movements@.contains(
                                    simple_move_at(s, id2, k2),
                                ),
                                forall|k2: int| k2 < k && #[trigger] simple_ok_at(s, player,
                                    id as int, k2) ==> movements@.contains(
                                    simple_move_at(s, id as int, k2),
                                ),
                                movements@.no_duplicates(),
                                forall|j: int| 0 <= j < movements@.len()
                                    ==> (#[trigger] movements@[j]).from.id <= id,
                                forall|j: int| 0 <= j < movements@.len()
                                    && (#[trigger] movements@[j]).from.id == id ==> exists|
                                    k2: int,
                                |
                                    0 <= k2 < k && movements@[j].to.id as int == id
                                        + piece.spec_dirs()[k2],
                            decreases dirs_len - k,
                        {
                            let ghost mv_prev = movements@;
                            let d = piece.dir_at(k);
                            proof {
                                lemma_dirs_values(piece, k as int);
                            }
                            let id_to = ((id as i32) + d) as usize;
                            let target_empty = match self.get(id_to) {
                                Square::Empty => true,
                                _ => false,
                            };
                            if target_empty {
                                let from = SquareState::piece(id, piece);
                                let to = SquareState::empty(id_to);
                                let movement = Movement::simple(from, to);
                                proof {
                                    assert(simple_ok_at(s, player, id as int, k as int));
                                    assert(movement == simple_move_at(s, id as int, k as int));
                                }
                                proof {
                                    // the step is new: earlier squares differ in the
                                    // origin, earlier directions of this square in the
                                    // landing square
                                    assert forall|j: int| 0 <= j < mv_prev.len() implies
                                        mv_prev[j] != movement by {
                                        if mv_prev[j].from.id == id {
                                            let k2 = choose|k2: int|
                                                0 <= k2 < k && mv_prev[j].to.id as int == id
                                                    + piece.spec_dirs()[k2];
                                            lemma_dirs_distinct(piece, k2, k as int);
                                        }
                                    }
                                }
                                movements.push(movement);
                                proof {
                                    assert(movements@[movements@.len() - 1] == movement);
                                    assert forall|x: Movement| mv_prev.contains(x)
                                        implies movements@.contains(x) by {
                                        let i = choose|i: int| 0 <= i < mv_prev.len()
                                            && mv_prev[i] == x;
                                        assert(movements@[i] == x);
                                    }
                                }
                            } else {
                                proof {
                                    assert(!simple_ok_at(s, player, id as int, k as int));
                                }
                            }
                            k += 1;
                        }
                        proof {
                            assert forall|k2: int| #[trigger] simple_ok_at(s, player, id as int,
                                k2) implies movements@.contains(
                                simple_move_at(s, id as int, k2),
                            ) by {
                                assert(0 <= k2 < dirs_len);
                            }
                        }
                    } else {
                        proof {
                            assert forall|k2: int| !(#[trigger] simple_ok_at(s, player,
                                id as int, k2)) by {}
                        }
                    }
                },
                _ => {
                    proof {
                        assert forall|k2: int| !(#[trigger] simple_ok_at(s, player, id as int,
                            k2)) by {}
                    }
                },
            }
            id += 1;
        }
        proof {
            if has_simple(s, player) {
                let (id2, k2) = choose|id2: int, k2: int| simple_ok_at(s, player, id2, k2);
                assert(simple_ok_at(s, player, id2, k2));
                assert(movements@.contains(simple_move_at(s, id2, k2)));
            }
            if movements@.len() > 0 {
                let m0 = movements@[0];
                let (id2, k2) = choose|id2: int, k2: int|
                    simple_ok_at(s, player, id2, k2) && m0 == simple_move_at(s, id2, k2);
                assert(simple_ok_at(s, player, id2, k2));
            }
            assert forall|i: int| 0 <= i < movements@.len() implies move_ok(s,
                #[trigger] movements@[i]) && movements@[i].jumped is None by {
                let (id2, k2) = choose|id2: int, k2: int| simple_ok_at(s, player, id2, k2)
                    && movements@[i] == simple_move_at(s, id2, k2);
                lemma_simple_move_ok(s, player, id2, k2);
            }
        }
        movements
    }

    /// All legal capture chains of `player` on this board, grouped by
    /// starting square in square order.
    #[verifier::loop_isolation(false)]
    pub fn jump_moves(&self, player: Player) -> (r: Vec<Movement>)
        requires
            self.wf(),
        ensures
            forall|i: int| 0 <= i < r@.len() ==> capture_legal(self.sqs(), player,
                #[trigger] r@[i]),
            forall|m: Movement| capture_legal(self.sqs(), player, m) ==> r@.contains(m),
            r@.len() > 0 <==> has_capture(self.sqs(), player),
            r@.no_duplicates(),
    {
        let ghost s = self.sqs();
        let mut movements: Vec<Movement> = Vec::new();
        let mut prev_jumped: Vec<usize> = Vec::new();
        let mut id: usize = 0;
        while id < BOARD_LEN
            invariant
                id <= BOARD_LEN,
                prev_jumped@ == Seq::<usize>::empty(),
                movements@.no_duplicates(),
                forall|j: int| 0 <= j < movements@.len() ==> (#[trigger] movements@[j]).from.id
                    < id,
                forall|i: int| 0 <= i < movements@.len() ==> capture_legal(s, player,
                    #[trigger] movements@[i]),
                forall|m: Movement| capture_legal(s, player, m) && m.from.id < id
                    ==> movements@.contains(m),
                movements@.len() > 0 <==> exists|c: int|
                    0 <= c < id && #[trigger] s[c] is Taken && piece_at(s, c).player == player
                        && has_jump_from(s, player, piece_at(s, c), c, c, Set::empty()),
            decreases BOARD_LEN - id,
        {
            let ghost mv_before = movements@;
            match self.get(id) {
                Square::Taken(piece) => {
                    if piece.get_player() == player {
                        proof {
                            if !is_playable(id as int) {
                                assert(s[id as int] is Invalid);
                            }
                        }
                        proof {
                            assert(jset(prev_jumped@) =~= Set::<int>::empty());
                        }
                        let mut sub = self.jump_moves_at(player, piece, id, id,
                            &mut prev_jumped);
                        let ghost sub_view = sub@;
                        movements.append(&mut sub);
                        proof {
                            assert(movements@ == mv_before + sub_view);
                            assert forall|i1: int, i2: int| 0 <= i1 < movements@.len() && 0
                                <= i2 < movements@.len() && i1 != i2 implies movements@[i1]
                                != movements@[i2] by {
                                if i1 < mv_before.len() && i2 < mv_before.len() {
                                    assert(movements@[i1] == mv_before[i1]);
                                    assert(movements@[i2] == mv_before[i2]);
                                } else if i1 >= mv_before.len() && i2 >= mv_before.len() {
                                    assert(movements@[i1] == sub_view[i1 - mv_before.len()]);
                                    assert(movements@[i2] == sub_view[i2 - mv_before.len()]);
                                } else {
                                    // one chain from an earlier square, one from this
                                    // square: the origins differ
                                    let io: int = if i1 < mv_before.len() {
                                        i1
                                    } else {
                                        i2
                                    };
                                    let inw: int = if i1 < mv_before.len() {
                                        i2
                                    } else {
                                        i1
                                    };
                                    assert(movements@[io] == mv_before[io]);
                                    let mi = sub_view[inw - mv_before.len()];
                                    assert(movements@[inw] == mi);
                                    assert(jump_chain(s, player, piece, id as int, id as int,
                                        Set::empty(), mi));
                                    lemma_chain_head(s, player, piece, id as int, id as int,
                                        Set::empty(), mi);
                                }
                            }
                            assert(movements@.no_duplicates());
                            assert forall|j: int| 0 <= j < movements@.len() implies (
                            #[trigger] movements@[j]).from.id < id + 1 by {
                                if j >= mv_before.len() {
                                    let mi = sub_view[j - mv_before.len()];
                                    assert(movements@[j] == mi);
                                    assert(jump_chain(s, player, piece, id as int, id as int,
                                        Set::empty(), mi));
                                    lemma_chain_head(s, player, piece, id as int, id as int,
                                        Set::empty(), mi);
                                }
                            }
                            assert forall|i: int| 0 <= i < movements@.len() implies
                                capture_legal(s, player, #[trigger] movements@[i]) by {
                                if i < mv_before.len() {
                                    assert(movements@[i] == mv_before[i]);
                                } else {
                                    let mi = sub_view[i - mv_before.len()];
                                    assert(movements@[i] == mi);
                                    assert(jump_chain(s, player, piece, id as int, id as int,
                                        Set::empty(), mi));
                                    lemma_chain_head(s, player, piece, id as int, id as int,
                                        Set::empty(), mi);
                                }
                            }
                            assert forall|m: Movement| capture_legal(s, player, m)
                                && m.from.id < id + 1 implies movements@.contains(m) by {
                                if m.from.id < id {
                                    assert(mv_before.contains(m));
                                    let i = choose|i: int| 0 <= i < mv_before.len()
                                        && mv_before[i] == m;
                                    assert(movements@[i] == m);
                                } else {
                                    assert(m.from.id as int == id as int);
                                    assert(jump_chain(s, player, piece, id as int, id as int,
                                        Set::empty(), m));
                                    assert(sub_view.contains(m));
                                    let i = choose|i: int| 0 <= i < sub_view.len()
                                        && sub_view[i] == m;
                                    assert(movements@[mv_before.len() + i] == m);
                                }
                            }
                        }
                    } else {
                        proof {
                            assert forall|m: Movement| capture_legal(s, player, m)
                                && m.from.id < id + 1 implies movements@.contains(m) by {
                                if m.from.id < id {
                                } else {
                                    assert(m.from.id as int == id as int);
                                    assert(piece_at(s, id as int).player == player);
                                    assert(false);
                                }
                            }
                        }
                    }
                },
                _ => {
                    proof {
                        assert forall|m: Movement| capture_legal(s, player, m)
                            && m.from.id < id + 1 implies movements@.contains(m) by {
                            if m.from.id < id {
                            } else {
                                assert(m.from.id as int == id as int);
                                assert(s[id as int] is Taken);
                                assert(false);
                            }
                        }
                    }
                },
            }
            id += 1;
        }
        proof {
            if has_capture(s, player) {
                let c = choose|c: int|
                    0 <= c < BOARD_LEN && #[trigger] s[c] is Taken && piece_at(s,
                        c,
                    ).player == player && has_jump_from(s, player, piece_at(s, c), c, c,
                        Set::empty());
                assert(s[c] is Taken);
            }
        }
        movements
    }

    /// All legal movements of `player`: the capture chains when any capture
    /// exists (capturing is mandatory), the simple steps otherwise. Every
    /// returned movement can be applied to this board, and the list is empty
    /// exactly when `player` has no move (the terminal condition).
    pub fn movements(&self, player: Player) -> (r: Vec<Movement>)
        requires
            self.wf(),
        ensures
            forall|i: int| 0 <= i < r@.len() ==> movement_legal(self.sqs(), player,
                #[trigger] r@[i]),
            forall|m: Movement| movement_legal(self.sqs(), player, m) ==> r@.contains(m),
            r@.len() > 0 <==> has_move(self.sqs(), player),
            r@.no_duplicates(),
            forall|i: int| 0 <= i < r@.len() ==> move_ok(self.sqs(), #[trigger] r@[i]),
            has_capture(self.sqs(), player) ==> forall|i: int| 0 <= i < r@.len()
                ==> (#[trigger] r@[i]).jumped is Some,
    {
        let ghost s = self.sqs();
        let jumps = self.jump_moves(player);
        if jumps.len() > 0 {
            proof {
                assert forall|i: int| 0 <= i < jumps@.len() implies move_ok(s,
                    #[trigger] jumps@[i]) && jumps@[i].jumped is Some by {
                    lemma_capture_move_ok(s, player, jumps@[i]);
                }
            }
            return jumps;
        }
        self.simple_moves(player)
    }
}

} // verus!
