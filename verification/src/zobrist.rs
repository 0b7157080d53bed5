use vstd::prelude::*;

use crate::board::{Piece, Square};

verus! {

// The board lives in a padded array of 46 squares; each playable square can
// hold a piece of one of 4 kinds (two sides, pawn or king), so the random
// table holds 46 * 4 entries, laid out flat.
pub const BOARD_LEN: usize = 46;
pub const TABLE_LEN: usize = 184;

/// Relies on rand::random: draws a fresh value from the thread-local
/// generator; nothing can be promised of it.
#[verifier::external_body]
fn random_u128() -> u128 {
    rand::random::<u128>()
}

/// The random table entry charged to piece `p` sitting on square `pos`.
pub open spec fn entry_of(r: Seq<u128>, pos: int, p: Piece) -> u128 {
    r[pos * 4 + p.spec_id()]
}

/// What square `pos` holding `sq` contributes to the board fingerprint.
pub open spec fn square_term(r: Seq<u128>, sq: Square, pos: int) -> u128 {
    match sq {
        Square::Taken(p) => entry_of(r, pos, p),
        _ => 0,
    }
}

/// Exclusive-or of the contributions of squares 0 .. n.
pub open spec fn hash_upto(r: Seq<u128>, s: Seq<Square>, n: int) -> u128
    decreases n,
{
    if n <= 0 {
        0
    } else {
        hash_upto(r, s, n - 1) ^ square_term(r, s[n - 1], n - 1)
    }
}

/// The fingerprint of a whole board: the exclusive-or of one random table
/// entry per occupied square, which makes it order-independent and lets a
/// single entry be toggled in and out in O(1).
pub open spec fn board_hash(r: Seq<u128>, s: Seq<Square>) -> u128 {
    hash_upto(r, s, BOARD_LEN as int)
}

/// Incrementally maintained fingerprint state: the random table plus the
/// running exclusive-or for the current board.
#[derive(Debug, PartialEq, Eq, Hash, Clone)]
pub struct ZobristHash {
    pub randoms: Vec<u128>,
    pub hash: u128,
}

impl ZobristHash {
    /// A fresh table of independent random entries, with the fingerprint of
    /// the empty board.
    pub fn new() -> (z: ZobristHash)
        ensures
            z.randoms@.len() == TABLE_LEN,
            z.hash == 0,
    {
        let mut randoms: Vec<u128> = Vec::new();
        let mut i: usize = 0;
        while i < TABLE_LEN
            invariant
                randoms@.len() == i,
                i <= TABLE_LEN,
            decreases TABLE_LEN - i,
        {
            randoms.push(random_u128());
            i += 1;
        }
        ZobristHash { randoms, hash: 0 }
    }

    /// Toggle the entry for piece kind `piece` on square `pos` in or out of
    /// the running fingerprint.
    pub fn flip(&mut self, pos: usize, piece: usize)
        requires
            pos < BOARD_LEN,
            piece < 4,
            old(self).randoms@.len() == TABLE_LEN,
        ensures
            final(self).randoms@ == old(self).randoms@,
            final(self).hash == old(self).hash ^ old(self).randoms@[pos as int * 4 + piece as int],
    {
        let idx = pos * 4 + piece;
        self.hash = self.hash ^ self.randoms[idx];
    }
}

pub proof fn lemma_xor_zero(a: u128)
    ensures
        a ^ 0 == a,
        0 ^ a == a,
{
    assert(a ^ 0 == a && 0 ^ a == a) by (bit_vector);
}

pub proof fn lemma_xor_cancel(a: u128, b: u128)
    ensures
        (a ^ b) ^ b == a,
{
    assert((a ^ b) ^ b == a) by (bit_vector);
}

proof fn lemma_xor_shuffle(h: u128, a: u128, b: u128, c: u128)
    ensures
        ((h ^ a) ^ b) ^ c == ((h ^ c) ^ a) ^ b,
{
    assert(((h ^ a) ^ b) ^ c == ((h ^ c) ^ a) ^ b) by (bit_vector);
}

/// The prefix fingerprint only reads the first n squares.
pub proof fn lemma_hash_upto_agree(r: Seq<u128>, s1: Seq<Square>, s2: Seq<Square>, n: int)
    requires
        forall|k: int| 0 <= k < n ==> s1[k] == s2[k],
    ensures
        hash_upto(r, s1, n) == hash_upto(r, s2, n),
    decreases n,
{
    if n > 0 {
        lemma_hash_upto_agree(r, s1, s2, n - 1);
    }
}

/// Changing one square toggles exactly its old and new contributions.
pub proof fn lemma_hash_upto_update(r: Seq<u128>, s: Seq<Square>, i: int, sq: Square, n: int)
    requires
        0 <= i < s.len(),
        0 <= n <= s.len(),
    ensures
        hash_upto(r, s.update(i, sq), n) == if i < n {
            (hash_upto(r, s, n) ^ square_term(r, s[i], i)) ^ square_term(r, sq, i)
        } else {
            hash_upto(r, s, n)
        },
    decreases n,
{
    let s2 = s.update(i, sq);
    if n > 0 {
        lemma_hash_upto_update(r, s, i, sq, n - 1);
        let h = hash_upto(r, s, n - 1);
        let a = square_term(r, s[i], i);
        let b = square_term(r, sq, i);
        let c = square_term(r, s[n - 1], n - 1);
        if i < n - 1 {
            assert(hash_upto(r, s2, n) == ((h ^ a) ^ b) ^ c);
            lemma_xor_shuffle(h, a, b, c);
            assert((hash_upto(r, s, n) ^ a) ^ b == ((h ^ c) ^ a) ^ b);
        } else if i == n - 1 {
            lemma_hash_upto_agree(r, s2, s, n - 1);
            assert(hash_upto(r, s2, n) == h ^ b);
            assert(hash_upto(r, s, n) == h ^ a);
            lemma_xor_cancel(h, a);
            lemma_xor_shuffle(h, a, b, a);
            assert(((h ^ a) ^ b) ^ a == ((h ^ a) ^ a) ^ b);
        }
    }
}

/// A board without pieces has fingerprint zero.
pub proof fn lemma_hash_upto_empty(r: Seq<u128>, s: Seq<Square>, n: int)
    requires
        forall|k: int| 0 <= k < n ==> !(s[k] is Taken),
    ensures
        hash_upto(r, s, n) == 0,
    decreases n,
{
    if n > 0 {
        lemma_hash_upto_empty(r, s, n - 1);
        lemma_xor_zero(0);
    }
}

} // verus!
