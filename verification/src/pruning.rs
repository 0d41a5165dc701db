//! Retraction: the expansion of a token into the tokens that are in use,
//! and the test that decides whether a token is retracted.

use crate::word::Pair;
use vstd::prelude::*;

verus! {

/// Both parents of every merged token were there before it: the parents of
/// the token `atomic + k` have ids below `atomic + k`.
pub open spec fn parents_grounded(parents: Seq<Pair>, atomic: u32) -> bool {
    forall|k: int|
        0 <= k < parents.len() ==> (#[trigger] parents[k]).0 < atomic + k && parents[k].1 < atomic
            + k
}

/// Whether the expansion stops at `id`: it is atomic, or merged and in use.
pub open spec fn is_in_use(id: u32, active: Seq<u8>, atomic: u32) -> bool {
    id < atomic || (id - atomic < active.len() && active[id - atomic] == 1)
}

/// The expansion of a token: the token itself if it is atomic or in use,
/// else the expansions of its two parents in a row.
pub open spec fn expansion(token_id: u32, parents: Seq<Pair>, active: Seq<u8>, atomic: u32) -> Seq<
    usize,
>
    decreases token_id,
{
    if token_id < atomic || active[token_id - atomic] == 1 {
        seq![token_id as usize]
    } else {
        let (a, b) = parents[token_id - atomic];
        if a < token_id && b < token_id {
            expansion(a, parents, active, atomic) + expansion(b, parents, active, atomic)
        } else {
            seq![token_id as usize]
        }
    }
}

/// An expansion is not empty, and consists of token ids that are atomic or
/// in use.
pub proof fn lemma_expansion(token_id: u32, parents: Seq<Pair>, active: Seq<u8>, atomic: u32)
    requires
        parents_grounded(parents, atomic),
        active.len() == parents.len(),
        token_id < atomic + parents.len(),
    ensures
        expansion(token_id, parents, active, atomic).len() >= 1,
        forall|j: int|
            0 <= j < expansion(token_id, parents, active, atomic).len() ==> {
                let e = #[trigger] expansion(token_id, parents, active, atomic)[j];
                e <= u32::MAX && is_in_use(e as u32, active, atomic)
            },
    decreases token_id,
{
    if !(token_id < atomic || active[token_id - atomic] == 1) {
        let (a, b) = parents[token_id - atomic];
        lemma_expansion(a, parents, active, atomic);
        lemma_expansion(b, parents, active, atomic);
        let left = expansion(a, parents, active, atomic);
        let right = expansion(b, parents, active, atomic);
        let all = expansion(token_id, parents, active, atomic);
        assert(all == left + right);
        assert forall|j: int| 0 <= j < all.len() implies {
            let e = #[trigger] all[j];
            e <= u32::MAX && is_in_use(e as u32, active, atomic)
        } by {
            if j < left.len() {
                assert(all[j] == left[j]);
            } else {
                assert(all[j] == right[j - left.len()]);
            }
        }
    }
}

/// A threshold as a ratio of integers.
#[derive(Clone, Copy, Debug, PartialEq, Eq, Structural)]
pub struct Ratio {
    pub num: i64,
    pub den: u64,
}

/// Whether the share `priority / count` has reached the threshold. A share
/// with count zero is above every threshold; a threshold with denominator
/// zero is above every share.
pub open spec fn share_reaches(priority: i64, count: i64, tau: Ratio) -> bool {
    if tau.den == 0 {
        false
    } else if count > 0 {
        priority * tau.den >= tau.num * count
    } else if count == 0 {
        true
    } else {
        priority * tau.den <= tau.num * count
    }
}

/// Whether the share `priority / count` has reached the threshold.
pub fn reaches(priority: i64, count: i64, tau: Ratio) -> (r: bool)
    ensures
        r == share_reaches(priority, count, tau),
{
    if tau.den == 0 {
        return false;
    }
    if count == 0 {
        return true;
    }
    assert(-0x8000_0000_0000_0000 * 0xffff_ffff_ffff_ffff <= priority * tau.den
        <= 0x7fff_ffff_ffff_ffff * 0xffff_ffff_ffff_ffff) by (nonlinear_arith)
        requires
            -0x8000_0000_0000_0000 <= priority <= 0x7fff_ffff_ffff_ffff,
            0 <= tau.den <= 0xffff_ffff_ffff_ffff,
    ;
    assert(-0x8000_0000_0000_0000 * 0x7fff_ffff_ffff_ffff <= tau.num * count
        <= 0x8000_0000_0000_0000 * 0x8000_0000_0000_0000) by (nonlinear_arith)
        requires
            -0x8000_0000_0000_0000 <= tau.num <= 0x7fff_ffff_ffff_ffff,
            -0x8000_0000_0000_0000 <= count <= 0x7fff_ffff_ffff_ffff,
    ;
    let left: i128 = (priority as i128) * (tau.den as i128);
    let right: i128 = (tau.num as i128) * (count as i128);
    if count > 0 {
        left >= right
    } else {
        left <= right
    }
}

/// The expansion of a token.
pub fn split(token_id: u32, parents: &Vec<Pair>, id_active: &Vec<u8>, atomic_size: u32) -> (pieces: Vec<
    usize,
>)
    requires
        parents_grounded(parents@, atomic_size),
        id_active@.len() == parents@.len(),
        token_id < atomic_size + parents@.len(),
    ensures
        pieces@ == expansion(token_id, parents@, id_active@, atomic_size),
    decreases token_id,
{
    if token_id < atomic_size || id_active[(token_id - atomic_size) as usize] == 1 {
        let mut pieces: Vec<usize> = Vec::new();
        pieces.push(token_id as usize);
        assert(pieces@ =~= seq![token_id as usize]);
        pieces
    } else {
        let (token1, token2) = parents[(token_id - atomic_size) as usize];
        let mut pieces = split(token1, parents, id_active, atomic_size);
        let mut rest = split(token2, parents, id_active, atomic_size);
        pieces.append(&mut rest);
        pieces
    }
}

} // verus!
