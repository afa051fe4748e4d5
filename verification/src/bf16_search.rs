//! Bookkeeping rules of the resident BF16 weight search: the parameter block
//! layout, the history and pending capacities, the shape of a told batch, the
//! choice of free model slots and the ledger of trials handed out and told.
//!
//! Single-precision values are handled by their IEEE-754 bit patterns.

use vstd::prelude::*;

use crate::dense::slot_count;
use crate::forward_program::{f32_bits_finite, f32_bits_positive};
use crate::text::{decimal, push_decimal};

verus! {

/// Most history rows a search keeps.
pub const MAX_HISTORY: usize = 128;

/// Most trials a search hands out before they are told.
pub const MAX_PENDING: usize = 32;

/// A block of weights: `len` weights from `offset`, keyed by `key`, with the
/// bit patterns of its perturbation scale and its weight in the distance.
#[derive(Debug, Clone, Copy, PartialEq, Eq, Structural)]
pub struct ParamBlock {
    pub key: u64,
    pub offset: usize,
    pub len: usize,
    pub scale_bits: u32,
    pub weight_bits: u32,
}

impl ParamBlock {
    /// A block with a positive length and a finite, positive scale and weight.
    pub fn new(key: u64, offset: usize, len: usize, scale_bits: u32, weight_bits: u32) -> (r: Result<
        Self,
        String,
    >)
        ensures
            match r {
                Ok(b) => {
                    &&& len > 0
                    &&& f32_bits_positive(scale_bits)
                    &&& f32_bits_positive(weight_bits)
                    &&& b == (ParamBlock { key, offset, len, scale_bits, weight_bits })
                },
                Err(e) => if len == 0 {
                    e@ == "BF16 block length must be positive"@
                } else {
                    (!f32_bits_positive(scale_bits) || !f32_bits_positive(weight_bits)) && e@
                        == "BF16 block scale and weight must be positive"@
                },
            },
    {
        if len == 0 {
            return Err(String::from_str("BF16 block length must be positive"));
        }
        if !(0 < scale_bits && scale_bits < 0x7f80_0000) || !(0 < weight_bits && weight_bits < 0x7f80_0000) {
            return Err(String::from_str("BF16 block scale and weight must be positive"));
        }
        Ok(ParamBlock { key, offset, len, scale_bits, weight_bits })
    }
}

/// The single-precision value with bit pattern `bits` is below zero: the sign
/// is set and the magnitude is not zero (negative zero is not below zero).
pub open spec fn f32_bits_negative(bits: u32) -> bool {
    bits > 0x8000_0000
}

/// Checking the blocks from index `i` on, `end` weights being covered before
/// it: the weight count they cover, or why they do not form a contiguous
/// layout.
pub open spec fn blocks_scan(blocks: Seq<ParamBlock>, i: int, end: int) -> Result<int, Seq<char>>
    decreases blocks.len() - i,
{
    if i < 0 || i >= blocks.len() {
        Ok(end)
    } else if blocks[i].offset != end {
        Err("BF16 blocks must form a contiguous layout"@)
    } else if end + blocks[i].len > usize::MAX {
        Err("BF16 block layout overflow"@)
    } else {
        blocks_scan(blocks, i + 1, end + blocks[i].len)
    }
}

/// Why a search over `len` weights with these settings cannot start, or the
/// weight count the blocks cover when it can.
pub open spec fn search_check(
    len: usize,
    value_bits: u32,
    variance_bits: u32,
    blocks: Seq<ParamBlock>,
    capacity: usize,
    pending_capacity: usize,
) -> Result<int, Seq<char>> {
    if !f32_bits_finite(value_bits) || !f32_bits_finite(variance_bits) || f32_bits_negative(variance_bits) {
        Err("BF16 base value and variance are invalid"@)
    } else if capacity == 0 || capacity > MAX_HISTORY {
        Err("BF16 history capacity must be in 1..="@ + decimal(MAX_HISTORY as nat))
    } else if pending_capacity == 0 || pending_capacity > MAX_PENDING {
        Err("BF16 pending capacity must be in 1..="@ + decimal(MAX_PENDING as nat))
    } else {
        match blocks_scan(blocks, 0, 0) {
            Err(m) => Err(m),
            Ok(end) => if end == 0 || end != len {
                Err("BF16 blocks cover "@ + decimal(end as nat) + " weights, expected "@ + decimal(len as nat))
            } else {
                Ok(end)
            },
        }
    }
}

/// Checks the settings of a new search: a finite base value, a finite and
/// non-negative base variance, capacities within their limits, and blocks that
/// lay out all `len` weights contiguously from offset zero. Returns the
/// number of weights.
pub fn check_search(
    len: usize,
    value_bits: u32,
    variance_bits: u32,
    blocks: &[ParamBlock],
    capacity: usize,
    pending_capacity: usize,
) -> (r: Result<usize, String>)
    ensures
        match r {
            Ok(n) => search_check(len, value_bits, variance_bits, blocks@, capacity, pending_capacity) == Ok::<
                int,
                Seq<char>,
            >(n as int),
            Err(e) => search_check(len, value_bits, variance_bits, blocks@, capacity, pending_capacity) == Err::<
                int,
                Seq<char>,
            >(e@),
        },
{
    if value_bits % 0x8000_0000 >= 0x7f80_0000 || variance_bits % 0x8000_0000 >= 0x7f80_0000
        || variance_bits > 0x8000_0000 {
        return Err(String::from_str("BF16 base value and variance are invalid"));
    }
    if capacity == 0 || capacity > MAX_HISTORY {
        let mut m = String::from_str("BF16 history capacity must be in 1..=");
        push_decimal(&mut m, MAX_HISTORY as u64);
        proof {
            reveal_strlit("BF16 history capacity must be in 1..=");
        }
        return Err(m);
    }
    if pending_capacity == 0 || pending_capacity > MAX_PENDING {
        let mut m = String::from_str("BF16 pending capacity must be in 1..=");
        push_decimal(&mut m, MAX_PENDING as u64);
        proof {
            reveal_strlit("BF16 pending capacity must be in 1..=");
        }
        return Err(m);
    }
    let mut expected: usize = 0;
    let mut i: usize = 0;
    while i < blocks.len()
        invariant
            i <= blocks@.len(),
            blocks_scan(blocks@, 0, 0) == blocks_scan(blocks@, i as int, expected as int),
            f32_bits_finite(value_bits),
            f32_bits_finite(variance_bits),
            !f32_bits_negative(variance_bits),
            0 < capacity <= MAX_HISTORY,
            0 < pending_capacity <= MAX_PENDING,
        decreases blocks@.len() - i,
    {
        let block = blocks[i];
        if block.offset != expected {
            return Err(String::from_str("BF16 blocks must form a contiguous layout"));
        }
        expected = match expected.checked_add(block.len) {
            Some(e) => e,
            None => return Err(String::from_str("BF16 block layout overflow")),
        };
        i = i + 1;
    }
    if expected == 0 || expected != len {
        let mut m = String::from_str("BF16 blocks cover ");
        push_decimal(&mut m, expected as u64);
        m.append(" weights, expected ");
        push_decimal(&mut m, len as u64);
        proof {
            reveal_strlit("BF16 blocks cover ");
            reveal_strlit(" weights, expected ");
            assert(m@ =~= "BF16 blocks cover "@ + decimal(expected as nat) + " weights, expected "@ + decimal(
                len as nat,
            ));
        }
        return Err(m);
    }
    Ok(expected)
}

/// Checks a told batch: as many values and variances as trials, at least one
/// trial, finite values and finite, non-negative variances.
pub fn check_tell(trials: usize, values: &[u32], variances: &[u32]) -> (r: Result<(), String>)
    ensures
        match r {
            Ok(()) => {
                &&& trials > 0
                &&& values@.len() == trials
                &&& variances@.len() == trials
                &&& forall|i: int| 0 <= i < trials ==> f32_bits_finite(#[trigger] values@[i])
                &&& forall|i: int|
                    0 <= i < trials ==> f32_bits_finite(#[trigger] variances@[i]) && !f32_bits_negative(
                        variances@[i],
                    )
            },
            Err(e) => if trials == 0 || values@.len() != trials || variances@.len() != trials {
                e@ == "BF16 trials, values, and variances must have equal non-zero length"@
            } else {
                &&& e@ == "BF16 values and variances must be finite"@
                &&& ((exists|i: int| 0 <= i < trials && !f32_bits_finite(#[trigger] values@[i])) || (exists|
                    i: int,
                | 0 <= i < trials && (!f32_bits_finite(#[trigger] variances@[i]) || f32_bits_negative(
                    variances@[i],
                ))))
            },
        },
{
    if trials == 0 || trials != values.len() || trials != variances.len() {
        return Err(String::from_str("BF16 trials, values, and variances must have equal non-zero length"));
    }
    let mut i: usize = 0;
    while i < values.len()
        invariant
            trials > 0,
            values@.len() == trials,
            variances@.len() == trials,
            i <= values@.len(),
            forall|j: int| 0 <= j < i ==> f32_bits_finite(#[trigger] values@[j]),
        decreases values@.len() - i,
    {
        if values[i] % 0x8000_0000 >= 0x7f80_0000 {
            assert(!f32_bits_finite(values@[i as int]));
            return Err(String::from_str("BF16 values and variances must be finite"));
        }
        i = i + 1;
    }
    let mut k: usize = 0;
    while k < variances.len()
        invariant
            trials > 0,
            values@.len() == trials,
            variances@.len() == trials,
            forall|j: int| 0 <= j < trials ==> f32_bits_finite(#[trigger] values@[j]),
            k <= variances@.len(),
            forall|j: int| 0 <= j < k ==> f32_bits_finite(#[trigger] variances@[j]) && !f32_bits_negative(variances@[j]),
        decreases variances@.len() - k,
    {
        if variances[k] % 0x8000_0000 >= 0x7f80_0000 || variances[k] > 0x8000_0000 {
            assert(!f32_bits_finite(variances@[k as int]) || f32_bits_negative(variances@[k as int]));
            return Err(String::from_str("BF16 values and variances must be finite"));
        }
        k = k + 1;
    }
    Ok(())
}

/// The model slots from `capacity + 1` below `end` that no pending trial holds,
/// in ascending order.
pub open spec fn free_from(capacity: usize, end: int, pending: Seq<usize>) -> Seq<usize>
    decreases end - capacity - 1,
{
    if end <= capacity + 1 {
        Seq::empty()
    } else {
        let rest = free_from(capacity, end - 1, pending);
        if pending.contains((end - 1) as usize) {
            rest
        } else {
            rest.push((end - 1) as usize)
        }
    }
}

/// The first `count` model slots after the history slots that no pending
/// trial holds (each narrowed to 32 bits), or why there are not that many.
pub fn free_slots(capacity: usize, pending_capacity: usize, pending: &[usize], count: usize) -> (r: Result<
    Vec<u32>,
    String,
>)
    ensures
        match r {
            Ok(slots) => {
                &&& capacity + pending_capacity + 1 <= usize::MAX
                &&& free_from(capacity, capacity + pending_capacity + 1, pending@).len() >= count
                &&& slots@.len() == count
                &&& forall|i: int|
                    0 <= i < count ==> #[trigger] slots@[i] == free_from(
                        capacity,
                        capacity + pending_capacity + 1,
                        pending@,
                    )[i] as u32
            },
            Err(e) => if capacity + pending_capacity + 1 > usize::MAX {
                e@ == "BF16 resident slot count overflow"@
            } else {
                free_from(capacity, capacity + pending_capacity + 1, pending@).len() < count && e@
                    == "not enough free BF16 model slots"@
            },
        },
{
    let end = match slot_count(capacity, pending_capacity) {
        Ok(n) => n,
        Err(e) => return Err(e),
    };
    let ghost all = free_from(capacity, end as int, pending@);
    let mut slots: Vec<u32> = Vec::new();
    let mut slot: usize = capacity + 1;
    while slot < end && slots.len() < count
        invariant
            end == capacity + pending_capacity + 1,
            capacity + 1 <= slot <= end || (slot == capacity + 1 && end <= capacity + 1),
            all == free_from(capacity, end as int, pending@),
            slots@.len() <= count,
            slots@.len() <= free_from(capacity, slot as int, pending@).len(),
            slots@.len() < count ==> slots@.len() == free_from(capacity, slot as int, pending@).len(),
            forall|i: int|
                0 <= i < slots@.len() ==> #[trigger] slots@[i] == free_from(capacity, slot as int, pending@)[i] as u32,
        decreases end - slot,
    {
        let mut held = false;
        let mut p: usize = 0;
        while p < pending.len()
            invariant
                p <= pending@.len(),
                held <==> pending@.subrange(0, p as int).contains(slot),
            decreases pending@.len() - p,
        {
            let ghost pre = pending@.subrange(0, p as int);
            if pending[p] == slot {
                held = true;
            }
            proof {
                let pre1 = pending@.subrange(0, p + 1);
                assert(pre1 =~= pre.push(pending@[p as int]));
                if pre.contains(slot) {
                    let w = choose|w: int| 0 <= w < pre.len() && pre[w] == slot;
                    assert(pre1[w] == slot);
                }
                if pre1.contains(slot) && pending@[p as int] != slot {
                    let w = choose|w: int| 0 <= w < pre1.len() && pre1[w] == slot;
                    assert(pre[w] == slot);
                }
                if pending@[p as int] == slot {
                    assert(pre1[p as int] == slot);
                }
            }
            p = p + 1;
        }
        assert(pending@.subrange(0, pending@.len() as int) =~= pending@);
        let ghost before = free_from(capacity, slot as int, pending@);
        assert(free_from(capacity, slot + 1, pending@) == if pending@.contains(slot) {
            before
        } else {
            before.push(slot)
        });
        if !held {
            slots.push(slot as u32);
        }
        slot = slot + 1;
        proof {
            let now = free_from(capacity, slot as int, pending@);
            assert forall|i: int| 0 <= i < slots@.len() implies #[trigger] slots@[i] == now[i] as u32 by {
                if i < before.len() {
                    assert(now[i] == before[i]);
                }
            }
        }
    }
    proof {
        lemma_free_from_prefix(capacity, slot as int, end as int, pending@);
        if slots@.len() < count {
            assert(slot >= end || end <= capacity + 1);
            if end > capacity + 1 {
                assert(slot == end);
            }
        }
    }
    if slots.len() != count {
        return Err(String::from_str("not enough free BF16 model slots"));
    }
    Ok(slots)
}

/// The free slots lie after the history slots and before `end`, are held by
/// no pending trial, and ascend strictly (so none repeats).
pub proof fn lemma_free_slots_valid(capacity: usize, end: int, pending: Seq<usize>)
    requires
        end <= usize::MAX + 1,
    ensures
        forall|i: int|
            0 <= i < free_from(capacity, end, pending).len() ==> {
                &&& capacity < #[trigger] free_from(capacity, end, pending)[i] < end
                &&& !pending.contains(free_from(capacity, end, pending)[i])
            },
        forall|i: int, j: int|
            0 <= i < j < free_from(capacity, end, pending).len() ==> #[trigger] free_from(capacity, end, pending)[i]
                < #[trigger] free_from(capacity, end, pending)[j],
    decreases end - capacity - 1,
{
    if end > capacity + 1 {
        lemma_free_slots_valid(capacity, end - 1, pending);
        let rest = free_from(capacity, end - 1, pending);
        let all = free_from(capacity, end, pending);
        if !pending.contains((end - 1) as usize) {
            assert(all == rest.push((end - 1) as usize));
            assert forall|i: int, j: int| 0 <= i < j < all.len() implies #[trigger] all[i] < #[trigger] all[j] by {
                if j < rest.len() {
                    assert(rest[i] < rest[j]);
                } else {
                    assert(rest[i] < end - 1);
                }
            }
            assert forall|i: int| 0 <= i < all.len() implies {
                &&& capacity < #[trigger] all[i] < end
                &&& !pending.contains(all[i])
            } by {
                if i < rest.len() {
                    assert(all[i] == rest[i]);
                }
            }
        }
    }
}

/// Extending the range of slots only appends to the free list.
proof fn lemma_free_from_prefix(capacity: usize, a: int, b: int, pending: Seq<usize>)
    requires
        a <= b,
    ensures
        free_from(capacity, a, pending).len() <= free_from(capacity, b, pending).len(),
        forall|i: int|
            0 <= i < free_from(capacity, a, pending).len() ==> #[trigger] free_from(capacity, b, pending)[i]
                == free_from(capacity, a, pending)[i],
    decreases b - a,
{
    if a < b {
        lemma_free_from_prefix(capacity, a, b - 1, pending);
    }
}

/// A trial handed out by an ask: its id and model slot, the candidate index
/// and seed it came from, and the bit patterns of the single-precision score
/// and trust-region length it was proposed with.
#[derive(Debug, Clone, Copy, PartialEq, Eq, Structural)]
pub struct Proposal {
    pub id: u64,
    pub slot: usize,
    pub index: usize,
    pub seed: u64,
    pub score_bits: u32,
    pub length_bits: u32,
}

/// The trials of one resident round.
#[derive(Debug, Clone, PartialEq, Eq)]
pub struct Proposals {
    pub trials: Vec<Proposal>,
}

impl Proposals {
    /// The number of arms in the round.
    pub fn arms(&self) -> (r: usize)
        ensures
            r == self.trials@.len(),
    {
        self.trials.len()
    }
}

/// The id of the `i`-th trial handed out after `next_id`, counting modulo
/// 2^64.
pub open spec fn trial_id(next_id: u64, i: int) -> u64 {
    ((next_id + i) % 0x1_0000_0000_0000_0000int) as u64
}

/// The trials of a resident round over `slots`, numbered from `next_id`; a
/// round carries no candidate index, seed, score or length.
pub open spec fn round_trials(next_id: u64, slots: Seq<u32>) -> Seq<Proposal> {
    Seq::new(
        slots.len(),
        |i: int|
            Proposal {
                id: trial_id(next_id, i),
                slot: slots[i] as usize,
                index: 0,
                seed: 0,
                score_bits: 0,
                length_bits: 0,
            },
    )
}

/// The trials of an ask over `slots`, numbered from `next_id`: trial `i`
/// takes the candidate index and score bits of `picks[i]` and the seed at that
/// index, for as many trials as there are both slots and picks.
pub open spec fn ask_trials(
    next_id: u64,
    slots: Seq<u32>,
    seeds: Seq<u64>,
    picks: Seq<(usize, u32)>,
    length_bits: u32,
) -> Seq<Proposal> {
    Seq::new(
        if slots.len() <= picks.len() {
            slots.len()
        } else {
            picks.len()
        },
        |i: int|
            Proposal {
                id: trial_id(next_id, i),
                slot: slots[i] as usize,
                index: picks[i].0,
                seed: seeds[picks[i].0 as int],
                score_bits: picks[i].1,
                length_bits,
            },
    )
}

/// The trials of `batch` carry the consecutive ids that follow `next_id`.
pub open spec fn numbered(batch: Seq<Proposal>, next_id: u64) -> bool {
    forall|i: int| 0 <= i < batch.len() ==> (#[trigger] batch[i]).id == trial_id(next_id, i)
}

/// Adding one more step to a count modulo 2^64 is a wrapping increment.
proof fn lemma_trial_id_step(next_id: u64, i: int)
    requires
        i >= 0,
    ensures
        trial_id(next_id, i + 1) == vstd::wrapping::u64_specs::wrapping_add(trial_id(next_id, i), 1),
        trial_id(next_id, 0) == next_id,
{
    let m = 0x1_0000_0000_0000_0000int;
    let a = next_id + i;
    assert(a >= 0);
    assert((a + 1) % m == if a % m + 1 == m {
        0
    } else {
        a % m + 1
    }) by (nonlinear_arith)
        requires
            a >= 0,
            m == 0x1_0000_0000_0000_0000int,
    ;
}

/// The trials that a resident search has handed out and not yet had told:
/// the model capacity and pending capacity it was made with, the outstanding
/// trials, the id of the next trial and the size of a round whose values are
/// queued on the device.
#[derive(Debug)]
pub struct PendingTrials {
    pub capacity: usize,
    pub pending_capacity: usize,
    pub pending: Vec<Proposal>,
    pub next_id: u64,
    pub queued: Option<usize>,
}

impl PendingTrials {
    /// No outstanding trial, ids from zero, nothing queued.
    pub fn new(capacity: usize, pending_capacity: usize) -> (r: Self)
        ensures
            r.capacity == capacity,
            r.pending_capacity == pending_capacity,
            r.pending@.len() == 0,
            r.next_id == 0,
            r.queued is None,
    {
        PendingTrials { capacity, pending_capacity, pending: Vec::new(), next_id: 0, queued: None }
    }

    /// Hands out one trial with the next id and records it as outstanding.
    fn issue(&mut self, slot: u32, index: usize, seed: u64, score_bits: u32, length_bits: u32) -> (t: Proposal)
        ensures
            t == (Proposal { id: old(self).next_id, slot: slot as usize, index, seed, score_bits, length_bits }),
            final(self).next_id == vstd::wrapping::u64_specs::wrapping_add(old(self).next_id, 1),
            final(self).pending@ == old(self).pending@.push(t),
            final(self).capacity == old(self).capacity,
            final(self).pending_capacity == old(self).pending_capacity,
            final(self).queued == old(self).queued,
    {
        let t = Proposal { id: self.next_id, slot: slot as usize, index, seed, score_bits, length_bits };
        self.next_id = self.next_id.wrapping_add(1);
        self.pending.push(t);
        t
    }

    /// Hands out the trials of a resident round, one per slot in order, and
    /// records them as outstanding.
    pub fn record_round(&mut self, slots: &[u32]) -> (round: Proposals)
        ensures
            round.trials@ == round_trials(old(self).next_id, slots@),
            final(self).pending@ == old(self).pending@ + round.trials@,
            final(self).next_id == trial_id(old(self).next_id, slots@.len() as int),
            final(self).capacity == old(self).capacity,
            final(self).pending_capacity == old(self).pending_capacity,
            final(self).queued == old(self).queued,
    {
        let ghost start = self.next_id;
        let ghost before = self.pending@;
        let mut trials: Vec<Proposal> = Vec::new();
        let mut i: usize = 0;
        proof {
            lemma_trial_id_step(start, 0);
        }
        while i < slots.len()
            invariant
                i <= slots@.len(),
                trials@ == round_trials(start, slots@).subrange(0, i as int),
                self.pending@ == before + trials@,
                self.next_id == trial_id(start, i as int),
                self.capacity == old(self).capacity,
                self.pending_capacity == old(self).pending_capacity,
                self.queued == old(self).queued,
            decreases slots@.len() - i,
        {
            proof {
                lemma_trial_id_step(start, i as int);
            }
            let t = self.issue(slots[i], 0, 0, 0, 0);
            trials.push(t);
            i = i + 1;
            assert(trials@ =~= round_trials(start, slots@).subrange(0, i as int));
            assert(self.pending@ =~= before + trials@);
        }
        assert(round_trials(start, slots@).subrange(0, i as int) =~= round_trials(start, slots@));
        Proposals { trials }
    }

    /// Hands out the trials of an ask, one per slot and pick in order (as many
    /// as there are both), each with the candidate index and score of its pick
    /// and the seed at that index, and records them as outstanding.
    pub fn record_ask(&mut self, slots: &[u32], seeds: &[u64], picks: &[(usize, u32)], length_bits: u32) -> (trials:
        Vec<Proposal>)
        requires
            forall|i: int|
                0 <= i < slots@.len() && 0 <= i < picks@.len() ==> (#[trigger] picks@[i]).0 < seeds@.len(),
        ensures
            trials@ == ask_trials(old(self).next_id, slots@, seeds@, picks@, length_bits),
            final(self).pending@ == old(self).pending@ + trials@,
            final(self).next_id == trial_id(old(self).next_id, trials@.len() as int),
            final(self).capacity == old(self).capacity,
            final(self).pending_capacity == old(self).pending_capacity,
            final(self).queued == old(self).queued,
    {
        let ghost start = self.next_id;
        let ghost before = self.pending@;
        let ghost all = ask_trials(start, slots@, seeds@, picks@, length_bits);
        let n = if slots.len() <= picks.len() {
            slots.len()
        } else {
            picks.len()
        };
        let mut trials: Vec<Proposal> = Vec::new();
        let mut i: usize = 0;
        proof {
            lemma_trial_id_step(start, 0);
        }
        while i < n
            invariant
                n == all.len(),
                n <= slots@.len(),
                n <= picks@.len(),
                all == ask_trials(start, slots@, seeds@, picks@, length_bits),
                forall|j: int| 0 <= j < n ==> (#[trigger] picks@[j]).0 < seeds@.len(),
                i <= n,
                trials@ == all.subrange(0, i as int),
                self.pending@ == before + trials@,
                self.next_id == trial_id(start, i as int),
                self.capacity == old(self).capacity,
                self.pending_capacity == old(self).pending_capacity,
                self.queued == old(self).queued,
            decreases n - i,
        {
            proof {
                lemma_trial_id_step(start, i as int);
            }
            let (index, score_bits) = picks[i];
            assert(picks@[i as int].0 < seeds@.len());
            let t = self.issue(slots[i], index, seeds[index], score_bits, length_bits);
            trials.push(t);
            i = i + 1;
            assert(trials@ =~= all.subrange(0, i as int));
            assert(self.pending@ =~= before + trials@);
        }
        assert(all.subrange(0, i as int) =~= all);
        trials
    }
}

/// Why a batch of trials cannot be told, looking from trial `i` on: a trial
/// that repeats an earlier one of the batch, or one that no outstanding ask
/// handed out.
pub open spec fn trials_scan(pending: Seq<Proposal>, trials: Seq<Proposal>, i: int) -> Result<(), Seq<char>>
    decreases trials.len() - i,
{
    if i < 0 || i >= trials.len() {
        Ok(())
    } else if trials.subrange(0, i).contains(trials[i]) {
        Err("BF16 tell batch contains a duplicate trial"@)
    } else if !pending.contains(trials[i]) {
        Err("BF16 trial does not match an outstanding ask"@)
    } else {
        trials_scan(pending, trials, i + 1)
    }
}

/// No trial of `trials` repeats and each is outstanding.
pub open spec fn tellable(pending: Seq<Proposal>, trials: Seq<Proposal>) -> bool {
    &&& forall|i: int, j: int| 0 <= i < j < trials.len() ==> trials[i] != trials[j]
    &&& forall|i: int| 0 <= i < trials.len() ==> pending.contains(#[trigger] trials[i])
}

/// The scan from `i` succeeds exactly when the trials from `i` on repeat no
/// earlier trial and are outstanding.
proof fn lemma_trials_scan_ok(pending: Seq<Proposal>, trials: Seq<Proposal>, i: int)
    requires
        0 <= i <= trials.len(),
    ensures
        trials_scan(pending, trials, i) is Ok <==> {
            &&& forall|a: int, b: int| 0 <= a < b < trials.len() && i <= b ==> trials[a] != trials[b]
            &&& forall|a: int| i <= a < trials.len() ==> pending.contains(#[trigger] trials[a])
        },
    decreases trials.len() - i,
{
    if i < trials.len() {
        lemma_trials_scan_ok(pending, trials, i + 1);
        let pre = trials.subrange(0, i);
        if pre.contains(trials[i]) {
            let a = choose|a: int| 0 <= a < pre.len() && pre[a] == trials[i];
            assert(trials[a] == trials[i]);
        } else {
            assert forall|a: int| 0 <= a < i implies trials[a] != trials[i] by {
                assert(pre[a] == trials[a]);
            }
        }
    }
}

/// The outstanding trials left once `trials` are told: those whose id no told
/// trial carries, in order.
pub open spec fn untold(pending: Seq<Proposal>, trials: Seq<Proposal>) -> Seq<Proposal>
    decreases pending.len(),
{
    if pending.len() == 0 {
        Seq::empty()
    } else {
        let rest = untold(pending.drop_last(), trials);
        if carries_id(trials, pending.last().id) {
            rest
        } else {
            rest.push(pending.last())
        }
    }
}

/// Some trial of `trials` carries id `id`.
pub open spec fn carries_id(trials: Seq<Proposal>, id: u64) -> bool {
    exists|i: int| 0 <= i < trials.len() && (#[trigger] trials[i]).id == id
}

impl PendingTrials {
    /// The outstanding trial equal to `trial`, or the refusal of one that no
    /// outstanding ask handed out.
    pub fn pending_for(&self, trial: Proposal) -> (r: Result<Proposal, String>)
        ensures
            match r {
                Ok(p) => p == trial && self.pending@.contains(trial),
                Err(e) => !self.pending@.contains(trial) && e@ == "BF16 trial does not match an outstanding ask"@,
            },
    {
        let mut k: usize = 0;
        while k < self.pending.len()
            invariant
                k <= self.pending@.len(),
                forall|j: int| 0 <= j < k ==> self.pending@[j] != trial,
            decreases self.pending@.len() - k,
        {
            let p = self.pending[k];
            if p.id == trial.id && p == trial {
                return Ok(p);
            }
            k = k + 1;
        }
        Err(String::from_str("BF16 trial does not match an outstanding ask"))
    }

    /// Checks that a batch of trials can be told: no trial repeats an earlier
    /// one and each was handed out by an outstanding ask; the first trial that
    /// fails decides the error.
    pub fn check_trials(&self, trials: &[Proposal]) -> (r: Result<(), String>)
        ensures
            match r {
                Ok(()) => trials_scan(self.pending@, trials@, 0) is Ok,
                Err(e) => trials_scan(self.pending@, trials@, 0) == Err::<(), Seq<char>>(e@),
            },
            r is Ok <==> tellable(self.pending@, trials@),
    {
        proof {
            lemma_trials_scan_ok(self.pending@, trials@, 0);
        }
        let mut i: usize = 0;
        while i < trials.len()
            invariant
                i <= trials@.len(),
                trials_scan(self.pending@, trials@, 0) == trials_scan(self.pending@, trials@, i as int),
            decreases trials@.len() - i,
        {
            let t = trials[i];
            let mut j: usize = 0;
            let mut seen = false;
            while j < i
                invariant
                    i < trials@.len(),
                    j <= i,
                    seen <==> trials@.subrange(0, j as int).contains(t),
                    t == trials@[i as int],
                decreases i - j,
            {
                proof {
                    let pre = trials@.subrange(0, j as int);
                    let pre1 = trials@.subrange(0, j + 1);
                    assert(pre1 =~= pre.push(trials@[j as int]));
                    if pre.contains(t) {
                        let w = choose|w: int| 0 <= w < pre.len() && pre[w] == t;
                        assert(pre1[w] == t);
                    }
                    if pre1.contains(t) && trials@[j as int] != t {
                        let w = choose|w: int| 0 <= w < pre1.len() && pre1[w] == t;
                        assert(pre[w] == t);
                    }
                    if trials@[j as int] == t {
                        assert(pre1[j as int] == t);
                    }
                }
                if trials[j] == t {
                    seen = true;
                }
                j = j + 1;
            }
            if seen {
                return Err(String::from_str("BF16 tell batch contains a duplicate trial"));
            }
            match self.pending_for(t) {
                Ok(_) => {},
                Err(e) => {
                    return Err(e);
                },
            }
            i = i + 1;
        }
        Ok(())
    }

    /// Forgets the outstanding trials whose id a told trial carries.
    pub fn finish_tell(&mut self, trials: &[Proposal])
        ensures
            final(self).pending@ == untold(old(self).pending@, trials@),
            final(self).next_id == old(self).next_id,
            final(self).capacity == old(self).capacity,
            final(self).pending_capacity == old(self).pending_capacity,
            final(self).queued == old(self).queued,
    {
        let ghost old_pending = self.pending@;
        let mut kept: Vec<Proposal> = Vec::new();
        let mut k: usize = 0;
        while k < self.pending.len()
            invariant
                self.pending@ == old_pending,
                k <= old_pending.len(),
                kept@ == untold(old_pending.subrange(0, k as int), trials@),
            decreases old_pending.len() - k,
        {
            let p = self.pending[k];
            let mut told = false;
            let mut j: usize = 0;
            while j < trials.len()
                invariant
                    j <= trials@.len(),
                    told <==> exists|a: int| 0 <= a < j && (#[trigger] trials@[a]).id == p.id,
                decreases trials@.len() - j,
            {
                if trials[j].id == p.id {
                    told = true;
                }
                j = j + 1;
            }
            proof {
                let pre1 = old_pending.subrange(0, k + 1);
                assert(pre1.drop_last() =~= old_pending.subrange(0, k as int));
                assert(pre1.last() == p);
            }
            if !told {
                kept.push(p);
            }
            k = k + 1;
        }
        assert(old_pending.subrange(0, k as int) =~= old_pending);
        self.pending = kept;
    }

    /// Records that the values of a round of `arms` trials are queued on the
    /// device: no trial is outstanding any more.
    pub fn queue_round(&mut self, arms: usize)
        ensures
            final(self).pending@.len() == 0,
            final(self).queued == Some(arms),
            final(self).next_id == old(self).next_id,
            final(self).capacity == old(self).capacity,
            final(self).pending_capacity == old(self).pending_capacity,
    {
        self.pending.clear();
        self.queued = Some(arms);
    }
}

/// A told trial is refused by any later tell: no outstanding trial is left
/// that equals it.
pub proof fn lemma_told_trial_refused(pending: Seq<Proposal>, trials: Seq<Proposal>, t: Proposal)
    requires
        trials.contains(t),
    ensures
        !untold(pending, trials).contains(t),
        trials_scan(untold(pending, trials), seq![t], 0) == Err::<(), Seq<char>>(
            "BF16 trial does not match an outstanding ask"@,
        ),
    decreases pending.len(),
{
    let w = choose|w: int| 0 <= w < trials.len() && trials[w] == t;
    assert(trials[w].id == t.id);
    lemma_untold_forgets(pending, trials);
    assert(seq![t].subrange(0, 0) =~= Seq::<Proposal>::empty());
}

/// Every trial left outstanding carries an id that no told trial carries, and
/// was outstanding before.
proof fn lemma_untold_forgets(pending: Seq<Proposal>, trials: Seq<Proposal>)
    ensures
        forall|p: Proposal| #[trigger] untold(pending, trials).contains(p) ==> !carries_id(trials, p.id) && pending.contains(p),
    decreases pending.len(),
{
    if pending.len() > 0 {
        lemma_untold_forgets(pending.drop_last(), trials);
        let rest = untold(pending.drop_last(), trials);
        assert forall|p: Proposal| #[trigger] untold(pending, trials).contains(p) implies !carries_id(trials, p.id)
            && pending.contains(p) by {
            let u = untold(pending, trials);
            let w = choose|w: int| 0 <= w < u.len() && u[w] == p;
            if w < rest.len() {
                assert(rest[w] == p);
                assert(rest.contains(p));
                let v = choose|v: int| 0 <= v < pending.drop_last().len() && pending.drop_last()[v] == p;
                assert(pending[v] == p);
            } else {
                assert(p == pending.last());
                assert(pending[pending.len() - 1] == p);
            }
        }
    }
}

/// Trials numbered consecutively, as an ask or a round hands them out, can be
/// told together once they are outstanding: none repeats another.
pub proof fn lemma_numbered_tellable(pending: Seq<Proposal>, batch: Seq<Proposal>, next_id: u64)
    requires
        numbered(batch, next_id),
        batch.len() <= usize::MAX,
    ensures
        tellable(pending + batch, batch),
        trials_scan(pending + batch, batch, 0) is Ok,
{
    assert forall|i: int, j: int| 0 <= i < j < batch.len() implies batch[i] != batch[j] by {
        assert(batch[i].id == trial_id(next_id, i));
        assert(batch[j].id == trial_id(next_id, j));
        let m = 0x1_0000_0000_0000_0000int;
        assert((next_id + i) % m != (next_id + j) % m) by (nonlinear_arith)
            requires
                0 <= i < j,
                j - i < m,
                next_id >= 0,
                m == 0x1_0000_0000_0000_0000int,
        ;
    }
    assert forall|i: int| 0 <= i < batch.len() implies (pending + batch).contains(#[trigger] batch[i]) by {
        assert((pending + batch)[pending.len() + i] == batch[i]);
    }
    lemma_trials_scan_ok(pending + batch, batch, 0);
}

/// With no trial outstanding, the free slots are all slots from
/// `capacity + 1` below `end`.
proof fn lemma_free_from_none(capacity: usize, end: int)
    requires
        end <= usize::MAX + 1,
    ensures
        free_from(capacity, end, Seq::empty()).len() == if end > capacity + 1 {
            end - capacity - 1
        } else {
            0
        },
        forall|i: int|
            0 <= i < free_from(capacity, end, Seq::empty()).len() ==> #[trigger] free_from(
                capacity,
                end,
                Seq::empty(),
            )[i] == capacity + 1 + i,
    decreases end - capacity - 1,
{
    if end > capacity + 1 {
        lemma_free_from_none(capacity, end - 1);
        assert(!Seq::<usize>::empty().contains((end - 1) as usize));
    }
}

/// The slots that an ask or a round of `arms` trials takes when no trial is
/// outstanding: the `arms` slots after the history slots, each narrowed to 32
/// bits.
pub open spec fn first_slots(capacity: usize, arms: int) -> Seq<u32> {
    Seq::new(arms as nat, |i: int| (capacity + 1 + i) as u32)
}

impl PendingTrials {
    /// The free slots for `arms` trials when none is outstanding.
    fn fresh_slots(&self, arms: usize) -> (r: Result<Vec<u32>, String>)
        requires
            0 < arms <= self.pending_capacity,
        ensures
            match r {
                Ok(slots) => self.capacity + self.pending_capacity + 1 <= usize::MAX && slots@ == first_slots(
                    self.capacity,
                    arms as int,
                ),
                Err(e) => self.capacity + self.pending_capacity + 1 > usize::MAX && e@
                    == "BF16 resident slot count overflow"@,
            },
    {
        let none: Vec<usize> = Vec::new();
        let r = free_slots(self.capacity, self.pending_capacity, none.as_slice(), arms);
        proof {
            if self.capacity + self.pending_capacity + 1 <= usize::MAX {
                lemma_free_from_none(self.capacity, self.capacity + self.pending_capacity + 1);
                assert(none@ =~= Seq::<usize>::empty());
            }
        }
        match r {
            Ok(slots) => {
                assert(slots@ =~= first_slots(self.capacity, arms as int));
                Ok(slots)
            },
            Err(e) => Err(e),
        }
    }

    /// Checks an ask of `arms` trials over `seeds` before it runs: no trial
    /// may be outstanding, and `arms` must be positive, within the pending
    /// capacity, and divide the non-empty seeds. Gives the candidates per arm
    /// and the slots the trials take.
    pub fn start_ask(&self, seeds: &[u64], arms: usize) -> (r: Result<(usize, Vec<u32>), String>)
        ensures
            match r {
                Ok((candidates, slots)) => {
                    &&& self.pending@.len() == 0
                    &&& 0 < arms <= self.pending_capacity
                    &&& seeds@.len() > 0
                    &&& seeds@.len() % (arms as nat) == 0
                    &&& candidates == seeds@.len() / (arms as nat)
                    &&& self.capacity + self.pending_capacity + 1 <= usize::MAX
                    &&& slots@ == first_slots(self.capacity, arms as int)
                },
                Err(e) => if self.pending@.len() > 0 {
                    e@ == "tell must finish outstanding BF16 trials before ask"@
                } else if arms == 0 || arms > self.pending_capacity || seeds@.len() == 0 || seeds@.len() % (arms as nat)
                    != 0 {
                    e@ == "BF16 batch shape exceeds pending capacity"@
                } else {
                    self.capacity + self.pending_capacity + 1 > usize::MAX && e@
                        == "BF16 resident slot count overflow"@
                },
            },
    {
        if self.pending.len() > 0 {
            return Err(String::from_str("tell must finish outstanding BF16 trials before ask"));
        }
        if arms == 0 || arms > self.pending_capacity || seeds.len() == 0 || seeds.len() % arms != 0 {
            return Err(String::from_str("BF16 batch shape exceeds pending capacity"));
        }
        let candidates = seeds.len() / arms;
        match self.fresh_slots(arms) {
            Ok(slots) => Ok((candidates, slots)),
            Err(e) => Err(e),
        }
    }

    /// Checks a resident round of `arms` trials over `candidates` candidates
    /// each before it runs: no trial may be outstanding, `arms` must be
    /// positive and within the pending capacity, `candidates` positive and the
    /// product must fit. Gives the slots the trials take.
    pub fn start_round(&self, arms: usize, candidates: usize) -> (r: Result<Vec<u32>, String>)
        ensures
            match r {
                Ok(slots) => {
                    &&& self.pending@.len() == 0
                    &&& 0 < arms <= self.pending_capacity
                    &&& candidates > 0
                    &&& arms * candidates <= usize::MAX
                    &&& self.capacity + self.pending_capacity + 1 <= usize::MAX
                    &&& slots@ == first_slots(self.capacity, arms as int)
                },
                Err(e) => if self.pending@.len() > 0 {
                    e@ == "tell must finish the outstanding BF16 round"@
                } else if arms == 0 || arms > self.pending_capacity || candidates == 0 || arms * candidates
                    > usize::MAX {
                    e@ == "BF16 round shape exceeds pending capacity"@
                } else {
                    self.capacity + self.pending_capacity + 1 > usize::MAX && e@
                        == "BF16 resident slot count overflow"@
                },
            },
    {
        if self.pending.len() > 0 {
            return Err(String::from_str("tell must finish the outstanding BF16 round"));
        }
        if arms == 0 || arms > self.pending_capacity || candidates == 0 || arms.checked_mul(candidates).is_none() {
            return Err(String::from_str("BF16 round shape exceeds pending capacity"));
        }
        self.fresh_slots(arms)
    }

    /// The model slots of `trials`, each narrowed to 32 bits.
    pub fn trial_slots(trials: &[Proposal]) -> (r: Vec<u32>)
        ensures
            r@.len() == trials@.len(),
            forall|i: int| 0 <= i < trials@.len() ==> #[trigger] r@[i] == trials@[i].slot as u32,
    {
        let mut out: Vec<u32> = Vec::new();
        let mut i: usize = 0;
        while i < trials.len()
            invariant
                i <= trials@.len(),
                out@.len() == i,
                forall|j: int| 0 <= j < i ==> #[trigger] out@[j] == trials@[j].slot as u32,
            decreases trials@.len() - i,
        {
            out.push(trials[i].slot as u32);
            i = i + 1;
        }
        out
    }
}

} // verus!
