//! Weighted random choice: a trusted source of randomness and the
//! verified bucket selection over it.

use vstd::prelude::*;

use crate::errors::MeritRankError;
use crate::node::Weight;

verus! {

/// The sum of the strictly positive weights in `ws`: the total transition
/// mass of a candidate set.  Non-positive weights contribute nothing.
pub open spec fn positive_mass(ws: Seq<Weight>) -> int
    decreases ws.len(),
{
    if ws.len() == 0 {
        0
    } else {
        positive_mass(ws.drop_last()) + (if ws.last() > 0 {
            ws.last() as int
        } else {
            0
        })
    }
}

/// The positive mass of a sequence never decreases as the sequence grows,
/// and is bounded by `len * i64::MAX`.
pub proof fn lemma_positive_mass_bounds(ws: Seq<Weight>)
    ensures
        0 <= positive_mass(ws) <= ws.len() * (i64::MAX as int),
    decreases ws.len(),
{
    if ws.len() == 0 {
    } else {
        lemma_positive_mass_bounds(ws.drop_last());
        assert((ws.len() - 1) * (i64::MAX as int) + (i64::MAX as int) == ws.len() * (
        i64::MAX as int)) by (nonlinear_arith);
    }
}

/// Taking one more element adds that element's positive contribution.
pub proof fn lemma_positive_mass_take_step(ws: Seq<Weight>, i: int)
    requires
        0 <= i < ws.len(),
    ensures
        positive_mass(ws.take(i + 1)) == positive_mass(ws.take(i)) + (if ws[i] > 0 {
            ws[i] as int
        } else {
            0
        }),
{
    assert(ws.take(i + 1).drop_last() =~= ws.take(i));
    assert(ws.take(i + 1).last() == ws[i]);
}

/// A strictly positive weight anywhere in the sequence gives the whole
/// sequence strictly positive mass.
pub proof fn lemma_positive_mass_from_element(ws: Seq<Weight>, j: int)
    requires
        0 <= j < ws.len(),
        ws[j] > 0,
    ensures
        positive_mass(ws) > 0,
    decreases ws.len(),
{
    lemma_positive_mass_bounds(ws.drop_last());
    if j < ws.len() - 1 {
        assert(ws.drop_last()[j] == ws[j]);
        lemma_positive_mass_from_element(ws.drop_last(), j);
    }
}

/// Numerator of the per-step restart probability.
const RESTART_NUM: u128 = 15;

/// Denominator of the per-step restart probability.
const RESTART_DEN: u128 = 100;

/// Draws the per-step restart decision: true — the walk hands control back
/// to the ego — with probability `RESTART_NUM / RESTART_DEN` on each
/// independent draw.  Nothing is promised of the outcome.
pub fn restart_fires() -> bool {
    random_u128() % RESTART_DEN < RESTART_NUM
}

/// Relies on rand::random: one uniformly distributed 128-bit draw from the
/// thread-local generator.  Nothing is promised of the value; callers state
/// what holds of every outcome.
#[verifier::external_body]
fn random_u128() -> u128 {
    rand::random::<u128>()
}

/// Selects the transition bucket that the draw `r` falls into: the weights
/// partition `[0, positive_mass)` into consecutive buckets, one per strictly
/// positive weight, each as wide as that weight; the draw is reduced modulo
/// the total mass and the owning bucket's index is returned.
///
/// This is the deterministic half of weighted random choice: it is total
/// over every weight vector and every draw, and fails exactly when the
/// candidate set is degenerate (no strictly positive weight), with
/// [`MeritRankError::RandomChoiceError`].
#[verifier::rlimit(30)]
pub fn pick_index(ws: &Vec<Weight>, r: u128) -> (picked: Result<usize, MeritRankError>)
    ensures
        match picked {
            Ok(i) => {
                let x = r as int % positive_mass(ws@);
                &&& positive_mass(ws@) > 0
                &&& 0 <= i < ws@.len()
                &&& ws@[i as int] > 0
                &&& positive_mass(ws@.take(i as int)) <= x < positive_mass(
                    ws@.take(i as int + 1),
                )
            },
            Err(e) => {
                &&& e == MeritRankError::RandomChoiceError
                &&& positive_mass(ws@) == 0
            },
        },
{
    let total = total_positive_mass(ws);
    if total == 0 {
        return Err(MeritRankError::RandomChoiceError);
    }
    let x = r % total;
    let ghost xg = r as int % positive_mass(ws@);
    assert(x as int == xg);
    let mut acc: u128 = 0;
    let mut i: usize = 0;
    while i < ws.len()
        invariant
            0 <= i <= ws@.len(),
            acc == positive_mass(ws@.take(i as int)),
            (x as int) >= positive_mass(ws@.take(i as int)),
            (x as int) < positive_mass(ws@),
            x as int == xg,
            xg == r as int % positive_mass(ws@),
            total == positive_mass(ws@),
        decreases ws@.len() - i,
    {
        let w = ws[i];
        proof {
            lemma_positive_mass_take_step(ws@, i as int);
            lemma_positive_mass_bounds(ws@);
            assert(ws@.take(ws@.len() as int) =~= ws@);
        }
        if w > 0 {
            proof {
                lemma_mass_take_le_whole(ws@, i as int + 1);
            }
            let acc2 = acc + (w as u128);
            if x < acc2 {
                proof {
                    assert(acc2 == positive_mass(ws@.take(i as int + 1)));
                }
                return Ok(i);
            }
            acc = acc2;
        }
        i = i + 1;
    }
    proof {
        assert(ws@.take(ws@.len() as int) =~= ws@);
    }
    // Unreachable: the draw is below the total mass, so some bucket owns it.
    assert(false);
    Err(MeritRankError::RandomChoiceError)
}

/// The mass of a prefix never exceeds the mass of the whole sequence.
proof fn lemma_mass_take_le_whole(ws: Seq<Weight>, i: int)
    requires
        0 <= i <= ws.len(),
    ensures
        positive_mass(ws.take(i)) <= positive_mass(ws),
    decreases ws.len() - i,
{
    if i == ws.len() {
        assert(ws.take(i) =~= ws);
    } else {
        lemma_positive_mass_take_step(ws, i);
        lemma_mass_take_le_whole(ws, i + 1);
    }
}

/// Sums the strictly positive weights into a `u128`, which cannot overflow:
/// at most `usize::MAX` summands, each below `2^63`.
fn total_positive_mass(ws: &Vec<Weight>) -> (total: u128)
    ensures
        total == positive_mass(ws@),
{
    let mut acc: u128 = 0;
    let mut i: usize = 0;
    while i < ws.len()
        invariant
            0 <= i <= ws@.len(),
            acc == positive_mass(ws@.take(i as int)),
        decreases ws@.len() - i,
    {
        let w = ws[i];
        proof {
            lemma_positive_mass_take_step(ws@, i as int);
            lemma_positive_mass_bounds(ws@.take(i as int));
            assert(ws@.take(i as int).len() * (i64::MAX as int) <= (usize::MAX as int) * (
            i64::MAX as int)) by (nonlinear_arith)
                requires
                    0 <= ws@.take(i as int).len() <= usize::MAX as int,
            ;
        }
        if w > 0 {
            acc = acc + (w as u128);
        }
        i = i + 1;
    }
    proof {
        assert(ws@.take(ws@.len() as int) =~= ws@);
    }
    acc
}

/// Weighted random choice over a candidate set: draws once from the
/// thread-local generator and hands the draw to [`pick_index`], which
/// reduces it modulo the total mass, so each positive weight is chosen
/// with probability proportional to it up to the negligible bias of
/// reducing a uniform 128-bit draw.
///
/// Of the stochastic outcome only this much holds of every draw: on success
/// the chosen index carries a strictly positive weight, and the call
/// succeeds if and only if the candidate set has positive transition mass.
pub fn weighted_choice(ws: &Vec<Weight>) -> (picked: Result<usize, MeritRankError>)
    ensures
        match picked {
            Ok(i) => {
                &&& positive_mass(ws@) > 0
                &&& 0 <= i < ws@.len()
                &&& ws@[i as int] > 0
            },
            Err(e) => {
                &&& e == MeritRankError::RandomChoiceError
                &&& positive_mass(ws@) == 0
            },
        },
{
    let r = random_u128();
    pick_index(ws, r)
}

} // verus!
