//! Arm selection: ranking candidates by order-preserving integer images of
//! their scores (the streaming top-k of the UCB and Thompson optimizers),
//! uniformly random arms without repetition, and the errors acquisition
//! optimizers report.

use rand::rngs::StdRng;
use rand::seq::SliceRandom;
use vstd::prelude::*;

pub use crate::pareto::{Objectives, ParetoAcquisition};

verus! {

#[verifier::external_type_specification]
#[verifier::external_body]
pub struct ExStdRng(StdRng);

/// Errors in acquisition optimization.
#[derive(Debug, Clone, PartialEq, Eq)]
pub enum AcquisitionError {
    /// Invalid parameter.
    InvalidParameter(String),
    /// Empty candidate set.
    NoCandidates,
}

impl AcquisitionError {
    /// The text of the error.
    pub open spec fn message(&self) -> Seq<char> {
        match self {
            AcquisitionError::InvalidParameter(m) => "Invalid parameter: "@ + m@,
            AcquisitionError::NoCandidates => "No candidates available"@,
        }
    }

    /// The text of the error.
    pub fn to_string(&self) -> (r: String)
        ensures
            r@ == self.message(),
    {
        match self {
            AcquisitionError::InvalidParameter(p) => {
                let mut m = String::from_str("Invalid parameter: ");
                m.append(p.as_str());
                m
            },
            AcquisitionError::NoCandidates => String::from_str("No candidates available"),
        }
    }
}

/// Shuffles `indices` in place with `rng` (`SliceRandom::shuffle`, a
/// Fisher-Yates shuffle). Only the order changes: the result holds the same
/// elements, each as often. Which order comes out is not stated. A slice of
/// at most one element is returned at once, without touching `rng`; a longer
/// one draws at least one word from `rng` (its second swap index comes from
/// `random_range`), which moves the generator's stream position, so the
/// generator's state differs afterwards. (The position could only come back
/// after the whole 2^68-word period of the ChaCha stream had been drawn.)
#[verifier::external_body]
pub(crate) fn shuffle_indices(indices: &mut Vec<usize>, rng: &mut StdRng)
    ensures
        final(indices)@.to_multiset() == old(indices)@.to_multiset(),
        old(indices)@.len() <= 1 ==> final(indices)@ == old(indices)@ && *final(rng) == *old(rng),
        old(indices)@.len() >= 2 ==> *final(rng) != *old(rng),
{
    indices.shuffle(rng);
}

/// The order that `f64::total_cmp` puts on IEEE-754 bit patterns: patterns
/// with the sign bit set come first, by descending magnitude; then the others,
/// by ascending magnitude.
pub open spec fn bits_before(a: u64, b: u64) -> bool {
    let sign: int = 0x8000_0000_0000_0000;
    if (a >= sign) != (b >= sign) {
        a >= sign
    } else if a < sign {
        a < b
    } else {
        a > b
    }
}

/// The integer that `order_key` gives the bit pattern `bits`.
pub open spec fn key_of(bits: u64) -> int {
    let sign: int = 0x8000_0000_0000_0000;
    if bits < sign {
        bits as int
    } else {
        sign - 1 - bits
    }
}

/// An integer image of the bit pattern of a float that orders patterns as
/// `bits_before` does, so that integer comparisons of keys rank scores as
/// `total_cmp` ranks the floats.
pub fn order_key(bits: u64) -> (k: i64)
    ensures
        k == key_of(bits),
{
    if bits < 0x8000_0000_0000_0000 {
        bits as i64
    } else {
        let magnitude = (bits - 0x8000_0000_0000_0000) as i64;
        -1 - magnitude
    }
}

/// Keys preserve the order of bit patterns exactly.
pub proof fn lemma_order_key_monotone(a: u64, b: u64)
    ensures
        bits_before(a, b) <==> key_of(a) < key_of(b),
        a == b <==> key_of(a) == key_of(b),
{
}

/// Candidate `a` ranks ahead of candidate `b`: it has the higher score, or
/// the same score and the smaller index.
pub open spec fn ranks_before(scores: Seq<i64>, a: int, b: int) -> bool {
    scores[a] > scores[b] || (scores[a] == scores[b] && a < b)
}

/// `arms` lists the best `min(k, scores.len())` candidates, best first, in
/// the order of `ranks_before`.
pub open spec fn is_top(scores: Seq<i64>, k: int, arms: Seq<usize>) -> bool {
    &&& arms.len() == if k < scores.len() {
        k
    } else {
        scores.len() as int
    }
    &&& forall|p: int| 0 <= p < arms.len() ==> #[trigger] arms[p] < scores.len()
    &&& forall|p: int, q: int|
        0 <= p < q < arms.len() ==> ranks_before(scores, #[trigger] arms[p] as int, #[trigger] arms[q] as int)
    &&& forall|j: usize, p: int|
        j < scores.len() && 0 <= p < arms.len() && !#[trigger] arms.contains(j) ==> ranks_before(
            scores,
            #[trigger] arms[p] as int,
            j as int,
        )
}

/// The first position of `chosen` whose candidate scores below `s`.
fn insert_position(scores: &[i64], chosen: &Vec<usize>, s: i64) -> (pos: usize)
    requires
        forall|p: int| 0 <= p < chosen@.len() ==> #[trigger] chosen@[p] < scores@.len(),
        forall|p: int, q: int|
            0 <= p < q < chosen@.len() ==> ranks_before(scores@, #[trigger] chosen@[p] as int, #[trigger] chosen@[q] as int),
    ensures
        pos <= chosen@.len(),
        forall|q: int| 0 <= q < pos ==> scores@[#[trigger] chosen@[q] as int] >= s,
        forall|q: int| pos <= q < chosen@.len() ==> scores@[#[trigger] chosen@[q] as int] < s,
{
    let mut pos: usize = 0;
    while pos < chosen.len() && scores[chosen[pos]] >= s
        invariant
            pos <= chosen@.len(),
            forall|p: int| 0 <= p < chosen@.len() ==> #[trigger] chosen@[p] < scores@.len(),
            forall|q: int| 0 <= q < pos ==> scores@[#[trigger] chosen@[q] as int] >= s,
        decreases chosen@.len() - pos,
    {
        pos = pos + 1;
    }
    proof {
        assert forall|q: int| pos <= q < chosen@.len() implies scores@[#[trigger] chosen@[q] as int] < s by {
            if q > pos {
                assert(ranks_before(scores@, chosen@[pos as int] as int, chosen@[q] as int));
            }
        }
    }
    pos
}

/// Inserting candidate `i` at `pos` keeps `chosen` ordered by `ranks_before`.
proof fn lemma_insert_keeps_order(scores: Seq<i64>, chosen: Seq<usize>, pos: int, i: usize)
    requires
        0 <= pos <= chosen.len(),
        i < scores.len(),
        forall|p: int| 0 <= p < chosen.len() ==> #[trigger] chosen[p] < i,
        forall|p: int, q: int|
            0 <= p < q < chosen.len() ==> ranks_before(scores, #[trigger] chosen[p] as int, #[trigger] chosen[q] as int),
        forall|q: int| 0 <= q < pos ==> scores[#[trigger] chosen[q] as int] >= scores[i as int],
        forall|q: int| pos <= q < chosen.len() ==> scores[#[trigger] chosen[q] as int] < scores[i as int],
    ensures
        forall|p: int, q: int|
            0 <= p < q < chosen.insert(pos, i).len() ==> ranks_before(
                scores,
                #[trigger] chosen.insert(pos, i)[p] as int,
                #[trigger] chosen.insert(pos, i)[q] as int,
            ),
{
    let c = chosen.insert(pos, i);
    assert forall|p: int, q: int| 0 <= p < q < c.len() implies ranks_before(
        scores,
        #[trigger] c[p] as int,
        #[trigger] c[q] as int,
    ) by {
        if q < pos {
            assert(ranks_before(scores, chosen[p] as int, chosen[q] as int));
        } else if q == pos {
            assert(scores[chosen[p] as int] >= scores[i as int]);
        } else if p < pos {
            assert(ranks_before(scores, chosen[p] as int, chosen[q - 1] as int));
        } else if p == pos {
            assert(scores[chosen[q - 1] as int] < scores[i as int]);
        } else {
            assert(ranks_before(scores, chosen[p - 1] as int, chosen[q - 1] as int));
        }
    }
}

/// The best `min(num_arms, scores.len())` candidates by score, best first;
/// equal scores keep the smaller index first. This is the streaming top-k
/// pass of the UCB and Thompson optimizers, run on order-preserving integer
/// images of their scores.
pub fn select_top(scores: &[i64], num_arms: usize) -> (r: Result<Vec<usize>, AcquisitionError>)
    ensures
        match r {
            Err(e) => scores@.len() == 0 && e == AcquisitionError::NoCandidates,
            Ok(arms) => scores@.len() > 0 && is_top(scores@, num_arms as int, arms@),
        },
{
    let n = scores.len();
    if n == 0 {
        return Err(AcquisitionError::NoCandidates);
    }
    if num_arms == 0 {
        return Ok(Vec::new());
    }
    let k = if num_arms < n {
        num_arms
    } else {
        n
    };
    let mut chosen: Vec<usize> = Vec::with_capacity(k);
    let mut i: usize = 0;
    while i < n
        invariant
            n == scores@.len(),
            0 < k <= n,
            k == num_arms || k == n,
            k <= num_arms,
            i <= n,
            chosen@.len() == if i < k {
                i as int
            } else {
                k as int
            },
            forall|p: int| 0 <= p < chosen@.len() ==> #[trigger] chosen@[p] < i,
            forall|p: int, q: int|
                0 <= p < q < chosen@.len() ==> ranks_before(scores@, #[trigger] chosen@[p] as int, #[trigger] chosen@[q] as int),
            forall|j: usize|
                j < i && !#[trigger] chosen@.contains(j) ==> chosen@.len() == k && ranks_before(
                    scores@,
                    chosen@[k - 1] as int,
                    j as int,
                ),
        decreases n - i,
    {
        let ghost before = chosen@;
        let s = scores[i];
        if chosen.len() < k {
            let pos = insert_position(scores, &chosen, s);
            proof {
                lemma_insert_keeps_order(scores@, before, pos as int, i);
            }
            chosen.insert(pos, i);
            proof {
                assert forall|j: usize| j < i + 1 && !#[trigger] chosen@.contains(j) implies chosen@.len()
                    == k && ranks_before(scores@, chosen@[k - 1] as int, j as int) by {
                    if j == i {
                        assert(chosen@[pos as int] == i);
                    } else {
                        assert(!before.contains(j)) by {
                            if before.contains(j) {
                                let w = choose|w: int| 0 <= w < before.len() && before[w] == j;
                                if w < pos {
                                    assert(chosen@[w] == j);
                                } else {
                                    assert(chosen@[w + 1] == j);
                                }
                            }
                        }
                    }
                }
            }
        } else {
            let last = chosen[k - 1];
            if s > scores[last] {
                chosen.pop();
                let ghost kept = chosen@;
                assert(kept =~= before.subrange(0, k - 1));
                let pos = insert_position(scores, &chosen, s);
                proof {
                    lemma_insert_keeps_order(scores@, kept, pos as int, i);
                }
                chosen.insert(pos, i);
                proof {
                    let tail = chosen@[k - 1];
                    assert(tail == i || tail == before[k - 2]) by {
                        if pos == k - 1 {
                            assert(tail == i);
                        } else {
                            assert(tail == kept[k - 2]);
                        }
                    }
                    assert(ranks_before(scores@, tail as int, last as int)) by {
                        if tail != i {
                            assert(ranks_before(scores@, before[k - 2] as int, before[k - 1] as int));
                        }
                    }
                    assert forall|j: usize| j < i + 1 && !#[trigger] chosen@.contains(j) implies chosen@.len()
                        == k && ranks_before(scores@, chosen@[k - 1] as int, j as int) by {
                        if j == last {
                        } else if j == i {
                            assert(chosen@[pos as int] == i);
                        } else {
                            assert(!before.contains(j)) by {
                                if before.contains(j) {
                                    let w = choose|w: int| 0 <= w < before.len() && before[w] == j;
                                    if w == k - 1 {
                                        assert(j == last);
                                    } else if w < pos {
                                        assert(chosen@[w] == j);
                                    } else {
                                        assert(chosen@[w + 1] == j);
                                    }
                                }
                            }
                        }
                    }
                }
            } else {
                proof {
                    assert forall|j: usize| j < i + 1 && !#[trigger] chosen@.contains(j) implies chosen@.len()
                        == k && ranks_before(scores@, chosen@[k - 1] as int, j as int) by {
                        if j == i {
                            assert(chosen@[k - 1] == last);
                        }
                    }
                }
            }
        }
        i = i + 1;
    }
    proof {
        assert forall|j: usize, p: int|
            j < scores@.len() && 0 <= p < chosen@.len() && !#[trigger] chosen@.contains(j) implies ranks_before(
            scores@,
            #[trigger] chosen@[p] as int,
            j as int,
        ) by {
            if p < k - 1 {
                assert(ranks_before(scores@, chosen@[p] as int, chosen@[k - 1] as int));
            }
        }
    }
    Ok(chosen)
}

/// Thompson sampling acquisition optimizer.
pub struct ThompsonAcquisition;

impl ThompsonAcquisition {
    /// Create new Thompson sampling acquisition optimizer.
    pub fn new() -> (r: Self) {
        Self
    }
}

impl Default for ThompsonAcquisition {
    fn default() -> (r: Self) {
        Self::new()
    }
}

/// Random acquisition optimizer (baseline).
pub struct RandomAcquisition;

/// `arms` is what a random pick of `num_arms` of `n` candidates gives with a
/// generator that was at `before` and is left at `after`: the first
/// `min(num_arms, n)` entries of a shuffle of `0..n`, so distinct candidates,
/// drawn with the generator whenever there are two or more to shuffle.
pub open spec fn random_pick(n: usize, num_arms: usize, before: StdRng, after: StdRng, arms: Seq<usize>) -> bool {
    &&& n > 0
    &&& arms.len() == if num_arms < n {
        num_arms
    } else {
        n
    }
    &&& arms.no_duplicates()
    &&& forall|i: int| 0 <= i < arms.len() ==> #[trigger] arms[i] < n
    &&& (n >= 2 <==> after != before)
    &&& n == 1 ==> arms =~= Seq::new(arms.len(), |i: int| 0usize)
}

/// A random pick takes every arm it can, each candidate at most once and
/// only existing candidates, and its choice comes from the generator: with
/// two or more candidates the generator has been drawn from (its state
/// moved), and with a single candidate nothing is drawn and that candidate
/// is the pick whenever an arm is asked for.
pub proof fn lemma_random_pick_draws(n: usize, num_arms: usize, before: StdRng, after: StdRng, arms: Seq<usize>)
    requires
        random_pick(n, num_arms, before, after, arms),
    ensures
        arms.len() == num_arms || arms.len() == n,
        arms.len() <= num_arms && arms.len() <= n,
        forall|i: int, j: int| 0 <= i < j < arms.len() ==> arms[i] != arms[j],
        forall|i: int| 0 <= i < arms.len() ==> #[trigger] arms[i] < n,
        n >= 2 ==> after != before,
        n == 1 ==> after == before && (num_arms > 0 ==> arms == seq![0usize]),
{
    if n == 1 && num_arms > 0 {
        assert(arms.len() == 1);
        assert(arms[0] == 0usize);
        assert(arms =~= seq![0usize]);
    }
}

impl RandomAcquisition {
    /// Create new random acquisition optimizer.
    pub fn new() -> (r: Self) {
        Self
    }

    /// Selects `min(num_arms, n_candidates)` distinct candidate indices in
    /// random order.
    pub fn select(&self, n_candidates: usize, num_arms: usize, rng: &mut StdRng) -> (r: Result<
        Vec<usize>,
        AcquisitionError,
    >)
        ensures
            match r {
                Err(e) => n_candidates == 0 && e == AcquisitionError::NoCandidates && *final(rng) == *old(rng),
                Ok(arms) => random_pick(n_candidates, num_arms, *old(rng), *final(rng), arms@),
            },
    {
        broadcast use vstd::seq_lib::group_to_multiset_ensures;

        if n_candidates == 0 {
            return Err(AcquisitionError::NoCandidates);
        }
        let mut indices: Vec<usize> = Vec::with_capacity(n_candidates);
        let mut i: usize = 0;
        while i < n_candidates
            invariant
                i <= n_candidates,
                indices@.len() == i,
                forall|j: int| 0 <= j < i ==> #[trigger] indices@[j] == j,
            decreases n_candidates - i,
        {
            indices.push(i);
            i = i + 1;
        }
        let ghost before = indices@;
        assert(before.no_duplicates());
        proof {
            before.lemma_multiset_has_no_duplicates();
        }
        shuffle_indices(&mut indices, rng);
        let ghost after = indices@;
        proof {
            after.lemma_multiset_has_no_duplicates_conv();
            assert forall|j: int| 0 <= j < after.len() implies #[trigger] after[j] < n_candidates by {
                assert(after.contains(after[j]));
                assert(before.to_multiset().count(after[j]) > 0);
                assert(before.contains(after[j]));
            }
        }
        let take = if num_arms < n_candidates {
            num_arms
        } else {
            n_candidates
        };
        assert(after.len() == n_candidates) by {
            assert(after.len() == after.to_multiset().len());
        }
        let mut arms: Vec<usize> = Vec::with_capacity(take);
        let mut k: usize = 0;
        while k < take
            invariant
                take <= n_candidates,
                indices@ == after,
                after.len() == n_candidates,
                k <= take,
                arms@ == after.subrange(0, k as int),
            decreases take - k,
        {
            arms.push(indices[k]);
            k = k + 1;
        }
        Ok(arms)
    }
}

impl Default for RandomAcquisition {
    fn default() -> (r: Self) {
        Self::new()
    }
}

} // verus!
