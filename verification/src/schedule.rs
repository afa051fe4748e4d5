//! Choice among kernel schedules by measured time: the fastest single timing
//! wins a plain schedule search; a race times every valid candidate in
//! rotating order for several rounds and picks the best median. Choices are
//! remembered per kernel, so a kernel is timed once. Timings are taken by the
//! caller and handed in as nanoseconds.

use std::collections::HashMap;

use vstd::prelude::*;
use vstd::relations::{sorted_by, total_ordering};

use crate::disk_observation::shape_list;

verus! {

/// `<=` on times.
pub open spec fn time_leq() -> spec_fn(u128, u128) -> bool {
    |a: u128, b: u128| a <= b
}

/// The median of a nonempty list of times: the middle element of the sorted
/// list (the upper of the two middle ones for an even length).
pub open spec fn median(times: Seq<u128>) -> u128 {
    times.sort_by(time_leq())[(times.len() / 2) as int]
}

proof fn lemma_time_order()
    ensures
        total_ordering(time_leq()),
{
    assert(vstd::relations::reflexive(time_leq()));
    assert(vstd::relations::antisymmetric(time_leq()));
    assert(vstd::relations::transitive(time_leq()));
    assert(vstd::relations::connected(time_leq()));
}

/// `v` sorted ascending.
fn sorted_times(v: &Vec<u128>) -> (r: Vec<u128>)
    ensures
        r@ == v@.sort_by(time_leq()),
{
    broadcast use vstd::seq_lib::group_to_multiset_ensures;

    let mut out: Vec<u128> = Vec::with_capacity(v.len());
    let mut i: usize = 0;
    while i < v.len()
        invariant
            i <= v@.len(),
            out@.to_multiset() == v@.subrange(0, i as int).to_multiset(),
            sorted_by(out@, time_leq()),
        decreases v@.len() - i,
    {
        let x = v[i];
        let mut pos: usize = 0;
        while pos < out.len() && out[pos] <= x
            invariant
                pos <= out@.len(),
                forall|q: int| 0 <= q < pos ==> #[trigger] out@[q] <= x,
            decreases out@.len() - pos,
        {
            pos = pos + 1;
        }
        let ghost before = out@;
        proof {
            assert forall|q: int| pos <= q < before.len() implies #[trigger] before[q] > x by {
                if q > pos {
                    assert(time_leq()(before[pos as int], before[q]));
                }
            }
        }
        out.insert(pos, x);
        proof {
            assert(out@ == before.insert(pos as int, x));
            vstd::seq_lib::to_multiset_insert(before, pos as int, x);
            assert(out@.to_multiset() == before.to_multiset().insert(x));
            assert(v@.subrange(0, i + 1) =~= v@.subrange(0, i as int).push(x));
            vstd::seq_lib::to_multiset_build(v@.subrange(0, i as int), x);
            assert(v@.subrange(0, i + 1).to_multiset() == v@.subrange(0, i as int).to_multiset().insert(x));
            assert forall|p: int, q: int| 0 <= p < q < out@.len() implies #[trigger] time_leq()(
                out@[p],
                out@[q],
            ) by {
                if q < pos {
                    assert(time_leq()(before[p], before[q]));
                } else if q == pos {
                } else if p < pos {
                } else if p == pos {
                } else {
                    assert(time_leq()(before[p - 1], before[q - 1]));
                }
            }
        }
        i = i + 1;
    }
    proof {
        assert(v@.subrange(0, v@.len() as int) =~= v@);
        lemma_time_order();
        v@.lemma_sort_by_ensures(time_leq());
        vstd::seq_lib::lemma_sorted_unique(out@, v@.sort_by(time_leq()), time_leq());
    }
    out
}

/// The median of nonempty `times`.
pub fn median_time(times: &Vec<u128>) -> (r: u128)
    requires
        times@.len() > 0,
    ensures
        r == median(times@),
{
    let sorted = sorted_times(times);
    proof {
        lemma_time_order();
        times@.lemma_sort_by_ensures(time_leq());
        assert(sorted@.to_multiset().len() == times@.to_multiset().len());
        broadcast use vstd::seq_lib::group_to_multiset_ensures;

    }
    sorted[sorted.len() / 2]
}

/// Candidate `c` has a value, no candidate has a smaller one, and every
/// earlier candidate with a value has a larger one.
pub open spec fn is_first_best(values: Seq<Option<u128>>, c: int) -> bool {
    &&& 0 <= c < values.len()
    &&& values[c] is Some
    &&& forall|d: int| 0 <= d < values.len() && (#[trigger] values[d]) is Some ==> values[c]->0 <= values[d]->0
    &&& forall|d: int| 0 <= d < c && (#[trigger] values[d]) is Some ==> values[d]->0 > values[c]->0
}

/// The first candidate with the smallest value, or `None` when no candidate
/// has one.
pub fn first_best(values: &[Option<u128>]) -> (r: Option<usize>)
    ensures
        match r {
            Some(c) => is_first_best(values@, c as int),
            None => forall|d: int| 0 <= d < values@.len() ==> (#[trigger] values@[d]) is None,
        },
{
    let mut best: Option<usize> = None;
    let mut best_value: u128 = 0;
    let mut d: usize = 0;
    while d < values.len()
        invariant
            d <= values@.len(),
            match best {
                Some(c) => {
                    &&& c < d
                    &&& values@[c as int] == Some(best_value)
                    &&& forall|e: int| 0 <= e < d && (#[trigger] values@[e]) is Some ==> best_value <= values@[e]->0
                    &&& forall|e: int| 0 <= e < c && (#[trigger] values@[e]) is Some ==> values@[e]->0 > best_value
                },
                None => forall|e: int| 0 <= e < d ==> (#[trigger] values@[e]) is None,
            },
        decreases values@.len() - d,
    {
        if let Some(t) = values[d] {
            let better = match best {
                None => true,
                Some(_) => t < best_value,
            };
            if better {
                best = Some(d);
                best_value = t;
            }
        }
        d = d + 1;
    }
    best
}

/// The schedule of a plain search: the first candidate with the fastest
/// timing, or why none of them could be timed.
/// What a plain search over the timings `times` settles: the first
/// candidate with the fastest timing, or the message naming the kernel when
/// no candidate could be timed.
pub open spec fn schedule_outcome(times: Seq<Option<u128>>, family: Seq<char>, shape: Seq<usize>, r: Result<usize, String>) -> bool {
    match r {
        Ok(c) => is_first_best(times, c as int),
        Err(e) => (forall|d: int| 0 <= d < times.len() ==> (#[trigger] times[d]) is None) && e@
            == "no valid Apple GPU schedule for "@ + family + " "@ + shape_list(shape),
    }
}

pub fn schedule_choice(times: &[Option<u128>], family: &str, shape: &Vec<usize>) -> (r: Result<usize, String>)
    ensures
        schedule_outcome(times@, family@, shape@, r),
{
    match first_best(times) {
        Some(c) => Ok(c),
        None => {
            let mut m = String::from_str("no valid Apple GPU schedule for ");
            m.append(family);
            m.append(" ");
            crate::disk_observation::push_shape_list(&mut m, shape);
            proof {
                reveal_strlit("no valid Apple GPU schedule for ");
                reveal_strlit(" ");
                assert(m@ =~= "no valid Apple GPU schedule for "@ + family@ + " "@ + shape_list(shape@));
            }
            Err(m)
        },
    }
}

/// The first slot at or after (`round`, `offset`) whose candidate, number
/// `(round + offset) % candidates`, is still valid; (`rounds`, 0) when no
/// such slot is left.
pub open spec fn next_slot(candidates: int, rounds: int, valid: Seq<bool>, round: int, offset: int) -> (int, int)
    decreases rounds - round, candidates - offset,
{
    if round >= rounds || candidates <= 0 || offset < 0 || offset >= candidates {
        (rounds, 0)
    } else if valid[(round + offset) % candidates] {
        (round, offset)
    } else if offset + 1 < candidates {
        next_slot(candidates, rounds, valid, round, offset + 1)
    } else {
        next_slot(candidates, rounds, valid, round + 1, 0)
    }
}

/// The slot after (`round`, `offset`).
pub open spec fn after_slot(candidates: int, round: int, offset: int) -> (int, int) {
    if offset + 1 < candidates {
        (round, offset + 1)
    } else {
        (round + 1, 0)
    }
}

/// Slots of candidate `c` passed before the cursor (`round`, `offset`): one
/// per finished round, and one more once its slot in the current round is
/// passed (round `round` reaches candidate `c` at offset
/// `(c - round) % candidates`).
pub open spec fn slots_before(candidates: int, round: int, offset: int, c: int) -> int {
    round + if (c - round) % candidates < offset {
        1int
    } else {
        0int
    }
}

/// Slot (`round`, `offset`) belongs to candidate `c` exactly when `c` sits at
/// that offset of the round.
#[verifier::spinoff_prover]
proof fn lemma_slot_owner(candidates: int, round: int, offset: int, c: int)
    requires
        candidates > 0,
        0 <= offset < candidates,
        0 <= c < candidates,
        round >= 0,
    ensures
        (c - round) % candidates == offset <==> (round + offset) % candidates == c,
{
    let x = c - round;
    let q = x / candidates;
    let m = x % candidates;
    assert(x == candidates * q + m && 0 <= m < candidates) by (nonlinear_arith)
        requires
            candidates > 0,
            q == x / candidates,
            m == x % candidates,
    ;
    vstd::arithmetic::div_mod::lemma_small_mod(c as nat, candidates as nat);
    vstd::arithmetic::div_mod::lemma_small_mod(offset as nat, candidates as nat);
    if m == offset {
        assert(round + offset == candidates * (-q) + c) by (nonlinear_arith)
            requires
                x == candidates * q + m,
                m == offset,
                x == c - round,
        ;
        vstd::arithmetic::div_mod::lemma_mod_multiples_vanish(-q, c, candidates);
        assert((round + offset) % candidates == c % candidates);
    }
    if (round + offset) % candidates == c {
        let y = round + offset;
        let q2 = y / candidates;
        assert(y == candidates * q2 + c) by (nonlinear_arith)
            requires
                candidates > 0,
                q2 == y / candidates,
                c == y % candidates,
        ;
        assert(x == candidates * (-q2) + offset) by (nonlinear_arith)
            requires
                y == candidates * q2 + c,
                y == round + offset,
                x == c - round,
        ;
        vstd::arithmetic::div_mod::lemma_mod_multiples_vanish(-q2, offset, candidates);
        assert(x % candidates == offset % candidates);
    }
}

/// Passing a slot adds one passed slot to the candidate it belongs to and
/// none to the others.
proof fn lemma_slot_step(candidates: int, round: int, offset: int, c: int)
    requires
        candidates > 0,
        0 <= offset < candidates,
        0 <= c < candidates,
        round >= 0,
    ensures
        slots_before(candidates, after_slot(candidates, round, offset).0, after_slot(candidates, round, offset).1, c)
            == slots_before(candidates, round, offset, c) + if (round + offset) % candidates == c {
            1int
        } else {
            0int
        },
{
    lemma_slot_owner(candidates, round, offset, c);
    let m = (c - round) % candidates;
    assert(0 <= m < candidates) by (nonlinear_arith)
        requires
            candidates > 0,
            m == (c - round) % candidates,
    ;
    if offset + 1 == candidates {
        assert((c - (round + 1)) % candidates >= 0) by (nonlinear_arith)
            requires
                candidates > 0,
        ;
    }
}

/// A race among `candidates` schedules over `rounds` rounds. Round `r` times
/// the candidates in the order `r % candidates`, `(r + 1) % candidates`, ...;
/// a candidate that could not run drops out and loses its timings.
pub struct Race {
    pub candidates: usize,
    pub rounds: usize,
    pub round: usize,
    pub offset: usize,
    pub times: Vec<Vec<u128>>,
    pub valid: Vec<bool>,
}

impl Race {
    /// The race state is consistent.
    pub open spec fn wf(&self) -> bool {
        &&& self.candidates > 0
        &&& self.rounds > 0
        &&& self.candidates + self.rounds <= usize::MAX
        &&& self.round <= self.rounds
        &&& self.offset < self.candidates
        &&& self.round == self.rounds ==> self.offset == 0
        &&& self.times@.len() == self.candidates
        &&& self.valid@.len() == self.candidates
    }

    /// The value a candidate competes with: the median of its timings, when
    /// it is still valid and was timed.
    pub open spec fn standing(&self, c: int) -> Option<u128> {
        if self.valid@[c] && self.times@[c]@.len() > 0 {
            Some(median(self.times@[c]@))
        } else {
            None
        }
    }

    /// Every candidate still valid holds one timing for each of its slots
    /// passed so far, except `pending`, the candidate handed out by `next`
    /// and not yet recorded, which holds one fewer.
    pub open spec fn timed_as_scheduled(&self, pending: Option<usize>) -> bool {
        &&& forall|c: int|
            0 <= c < self.candidates && self.valid@[c] ==> #[trigger] self.times@[c]@.len() + (if pending == Some(
                c as usize,
            ) {
                1int
            } else {
                0int
            }) == slots_before(self.candidates as int, self.round as int, self.offset as int, c)
        &&& pending matches Some(p) ==> p < self.candidates && self.valid@[p as int]
    }

    /// A race of `candidates` schedules over `rounds` rounds that has not
    /// started: every candidate valid and untimed.
    pub open spec fn is_fresh(&self, candidates: usize, rounds: usize) -> bool {
        &&& self.wf()
        &&& self.candidates == candidates && self.rounds == rounds
        &&& self.round == 0 && self.offset == 0
        &&& forall|c: int| 0 <= c < candidates ==> #[trigger] self.valid@[c] && self.times@[c]@.len() == 0
        &&& self.timed_as_scheduled(None)
    }

    /// `after` follows `self` by one call of `next` or `record`: the same
    /// race, with the same candidates valid or one more of them dropped.
    pub open spec fn steps_to(&self, after: &Race) -> bool {
        &&& after.candidates == self.candidates
        &&& after.rounds == self.rounds
        &&& (after.valid == self.valid || exists|x: int|
            0 <= x < self.candidates && after.valid@ == self.valid@.update(x, false))
    }

    /// A race with every candidate valid and untimed.
    pub fn new(candidates: usize, rounds: usize) -> (r: Result<Self, String>)
        requires
            candidates + rounds <= usize::MAX,
        ensures
            match r {
                Ok(race) => candidates > 0 && rounds > 0 && race.is_fresh(candidates, rounds),
                Err(e) => (candidates == 0 || rounds == 0) && e@ == "Apple GPU race must have candidates and rounds"@,
            },
    {
        if candidates == 0 || rounds == 0 {
            return Err(String::from_str("Apple GPU race must have candidates and rounds"));
        }
        let mut times: Vec<Vec<u128>> = Vec::with_capacity(candidates);
        let mut valid: Vec<bool> = Vec::with_capacity(candidates);
        let mut c: usize = 0;
        while c < candidates
            invariant
                c <= candidates,
                times@.len() == c,
                valid@.len() == c,
                forall|d: int| 0 <= d < c ==> #[trigger] valid@[d] && times@[d]@.len() == 0,
            decreases candidates - c,
        {
            times.push(Vec::new());
            valid.push(true);
            c = c + 1;
        }
        let race = Race { candidates, rounds, round: 0, offset: 0, times, valid };
        proof {
            assert forall|c: int| 0 <= c < candidates && race.valid@[c] implies #[trigger] race.times@[c]@.len() + (
            if None::<usize> == Some(c as usize) {
                1int
            } else {
                0int
            }) == slots_before(candidates as int, 0, 0, c) by {
                assert((c - 0) % (candidates as int) >= 0) by (nonlinear_arith)
                    requires
                        candidates > 0,
                ;
            }
        }
        Ok(race)
    }

    /// The next candidate to time, moving past the slots of dropped
    /// candidates; `None` once every round is done.
    pub fn next(&mut self) -> (r: Option<usize>)
        requires
            old(self).wf(),
        ensures
            final(self).wf(),
            final(self).candidates == old(self).candidates,
            final(self).rounds == old(self).rounds,
            final(self).times == old(self).times,
            final(self).valid == old(self).valid,
            ({
                let c = old(self).candidates as int;
                let slot = next_slot(c, old(self).rounds as int, old(self).valid@, old(self).round as int, old(self).offset as int);
                if slot.0 < old(self).rounds {
                    &&& r == Some(((slot.0 + slot.1) % c) as usize)
                    &&& (final(self).round as int, final(self).offset as int) == after_slot(c, slot.0, slot.1)
                } else {
                    &&& r is None
                    &&& final(self).round == final(self).rounds
                    &&& final(self).offset == 0
                }
            }),
            r matches Some(x) ==> x < old(self).candidates && old(self).valid@[x as int],
            old(self).timed_as_scheduled(None) ==> final(self).timed_as_scheduled(r),
            old(self).steps_to(&*final(self)),
    {
        let ghost c = old(self).candidates as int;
        let ghost target = next_slot(
            c,
            old(self).rounds as int,
            old(self).valid@,
            old(self).round as int,
            old(self).offset as int,
        );
        while self.round < self.rounds
            invariant
                self.wf(),
                self.candidates == c,
                self.candidates == old(self).candidates,
                self.rounds == old(self).rounds,
                self.times == old(self).times,
                self.valid == old(self).valid,
                target == next_slot(c, self.rounds as int, self.valid@, self.round as int, self.offset as int),
                target == next_slot(
                    c,
                    old(self).rounds as int,
                    old(self).valid@,
                    old(self).round as int,
                    old(self).offset as int,
                ),
                c == old(self).candidates,
                old(self).timed_as_scheduled(None) ==> self.timed_as_scheduled(None),
            decreases self.rounds - self.round, self.candidates - self.offset,
        {
            let candidate = (self.round + self.offset) % self.candidates;
            let here_round = self.round;
            let here_offset = self.offset;
            let ghost before = *self;
            if self.offset + 1 < self.candidates {
                self.offset = self.offset + 1;
            } else {
                self.offset = 0;
                self.round = self.round + 1;
            }
            proof {
                assert(after_slot(c, here_round as int, here_offset as int) == (self.round as int, self.offset as int));
            }
            if self.valid[candidate] {
                assert(target == (here_round as int, here_offset as int));
                proof {
                    if old(self).timed_as_scheduled(None) {
                        assert forall|d: int| 0 <= d < self.candidates && self.valid@[d] implies #[trigger] self.times@[d]@.len()
                            + (if Some(candidate) == Some(d as usize) {
                            1int
                        } else {
                            0int
                        }) == slots_before(self.candidates as int, self.round as int, self.offset as int, d) by {
                            assert(before.times@[d]@.len() + 0int == slots_before(
                                c,
                                here_round as int,
                                here_offset as int,
                                d,
                            ));
                            lemma_slot_step(c, here_round as int, here_offset as int, d);
                            assert(self.times@[d] == before.times@[d]);
                            assert(candidate as int == (here_round + here_offset) % c);
                            if d == candidate as int {
                                assert(Some(candidate) == Some(d as usize));
                            } else {
                                assert(Some(candidate) != Some(d as usize));
                            }
                        }
                    }
                }
                return Some(candidate);
            }
            proof {
                if old(self).timed_as_scheduled(None) {
                    assert forall|d: int| 0 <= d < self.candidates && self.valid@[d] implies #[trigger] self.times@[d]@.len()
                        + (if None::<usize> == Some(d as usize) {
                        1int
                    } else {
                        0int
                    }) == slots_before(self.candidates as int, self.round as int, self.offset as int, d) by {
                        assert(before.times@[d]@.len() + 0int == slots_before(
                            c,
                            here_round as int,
                            here_offset as int,
                            d,
                        ));
                        lemma_slot_step(c, here_round as int, here_offset as int, d);
                        assert(self.times@[d] == before.times@[d]);
                        assert(candidate as int == (here_round + here_offset) % c);
                        assert(d != candidate as int);
                    }
                }
            }
        }
        None
    }

    /// Records the timing of `candidate`, or drops it when it could not run.
    pub fn record(&mut self, candidate: usize, elapsed: Option<u128>)
        requires
            old(self).wf(),
            candidate < old(self).candidates,
        ensures
            final(self).wf(),
            final(self).candidates == old(self).candidates,
            final(self).rounds == old(self).rounds,
            final(self).round == old(self).round,
            final(self).offset == old(self).offset,
            old(self).timed_as_scheduled(Some(candidate)) ==> final(self).timed_as_scheduled(None),
            old(self).steps_to(&*final(self)),
            match elapsed {
                Some(t) => {
                    &&& final(self).valid == old(self).valid
                    &&& final(self).times@[candidate as int]@ == old(self).times@[candidate as int]@.push(t)
                    &&& forall|d: int|
                        0 <= d < old(self).candidates && d != candidate ==> #[trigger] final(self).times@[d]
                            == old(self).times@[d]
                },
                None => {
                    &&& final(self).valid@ == old(self).valid@.update(candidate as int, false)
                    &&& final(self).times@[candidate as int]@.len() == 0
                    &&& forall|d: int|
                        0 <= d < old(self).candidates && d != candidate ==> #[trigger] final(self).times@[d]
                            == old(self).times@[d]
                },
            },
    {
        match elapsed {
            Some(t) => {
                let mut list = self.times[candidate].clone();
                list.push(t);
                self.times.set(candidate, list);
            },
            None => {
                self.valid.set(candidate, false);
                self.times.set(candidate, Vec::new());
                assert(self.valid@ == old(self).valid@.update(candidate as int, false));
            },
        }
    }

    /// What the race settles: the first valid, timed candidate with the
    /// smallest median time, or the message naming the kernel when no
    /// candidate is left.
    pub open spec fn outcome(&self, family: Seq<char>, shape: Seq<usize>, r: Result<usize, String>) -> bool {
        let standings = Seq::new(self.candidates as nat, |c: int| self.standing(c));
        match r {
            Ok(c) => is_first_best(standings, c as int),
            Err(e) => (forall|d: int| 0 <= d < self.candidates ==> (#[trigger] self.standing(d)) is None) && e@
                == "no valid Apple GPU race for "@ + family + " "@ + shape_list(shape),
        }
    }

    /// The winner: the first valid, timed candidate with the smallest median
    /// time, or why none is left.
    pub fn winner(&self, family: &str, shape: &Vec<usize>) -> (r: Result<usize, String>)
        requires
            self.wf(),
        ensures
            self.outcome(family@, shape@, r),
    {
        let ghost standings = Seq::new(self.candidates as nat, |c: int| self.standing(c));
        let mut values: Vec<Option<u128>> = Vec::with_capacity(self.candidates);
        let mut c: usize = 0;
        while c < self.candidates
            invariant
                self.wf(),
                c <= self.candidates,
                values@.len() == c,
                forall|d: int| 0 <= d < c ==> #[trigger] values@[d] == self.standing(d),
            decreases self.candidates - c,
        {
            if self.valid[c] && self.times[c].len() > 0 {
                let m = median_time(&self.times[c]);
                values.push(Some(m));
            } else {
                values.push(None);
            }
            c = c + 1;
        }
        assert(values@ =~= standings);
        match first_best(values.as_slice()) {
            Some(w) => Ok(w),
            None => {
                let mut m = String::from_str("no valid Apple GPU race for ");
                m.append(family);
                m.append(" ");
                crate::disk_observation::push_shape_list(&mut m, shape);
                proof {
                    reveal_strlit("no valid Apple GPU race for ");
                    reveal_strlit(" ");
                    assert(m@ =~= "no valid Apple GPU race for "@ + family@ + " "@ + shape_list(shape@));
                    assert forall|d: int| 0 <= d < self.candidates implies (#[trigger] self.standing(d)) is None by {
                        assert(standings[d] == self.standing(d));
                    }
                }
                Err(m)
            },
        }
    }
}

/// A race driven to its end by `next` and `record` holds, for every
/// candidate that never failed to run, one timing per round, so each of them
/// competes: the race has a winner exactly when some candidate never failed,
/// and `winner` then picks the first with the least median.
pub proof fn lemma_finished_race_times_survivors(race: Race)
    requires
        race.wf(),
        race.timed_as_scheduled(None),
        race.round == race.rounds,
    ensures
        forall|c: int|
            0 <= c < race.candidates && race.valid@[c] ==> (#[trigger] race.times@[c])@.len() == race.rounds
                && race.standing(c) is Some,
        (exists|c: int| 0 <= c < race.candidates && #[trigger] race.standing(c) is Some) <==> (exists|c: int|
            0 <= c < race.candidates && #[trigger] race.valid@[c]),
{
    assert forall|c: int| 0 <= c < race.candidates && race.valid@[c] implies (#[trigger] race.times@[c])@.len()
        == race.rounds && race.standing(c) is Some by {
        assert(race.times@[c]@.len() == slots_before(race.candidates as int, race.round as int, 0, c));
        assert((c - race.round) % (race.candidates as int) >= 0) by (nonlinear_arith)
            requires
                race.candidates > 0,
        ;
    }
    if exists|c: int| 0 <= c < race.candidates && #[trigger] race.valid@[c] {
        let c = choose|c: int| 0 <= c < race.candidates && #[trigger] race.valid@[c];
        assert(race.standing(c) is Some);
    }
}

/// A candidate that failed to run is never timed again: along a run of
/// `next` and `record` calls, each state following the one before by one
/// call, a candidate dropped at one point is still dropped at every later
/// one, and `next` hands out valid candidates only.
pub proof fn lemma_dropped_stays_dropped(states: Seq<Race>, c: int, i: int, j: int)
    requires
        forall|s: int| 0 <= s < states.len() - 1 ==> #[trigger] states[s].steps_to(&states[s + 1]),
        0 <= i <= j < states.len(),
        0 <= c < states[i].candidates,
        states[i].valid@.len() == states[i].candidates,
        !states[i].valid@[c],
    ensures
        states[j].candidates == states[i].candidates,
        !states[j].valid@[c],
    decreases j - i,
{
    if i < j {
        let next = states[i + 1];
        assert(states[i].steps_to(&next));
        assert(!next.valid@[c]);
        lemma_dropped_stays_dropped(states, c, i + 1, j);
    }
}

/// The choice remembered for `key`, if any.
pub open spec fn cached_choice(cache: Map<u64, usize>, key: u64) -> Option<usize> {
    if cache.contains_key(key) {
        Some(cache[key])
    } else {
        None
    }
}

/// How a race begins: with the choice already remembered for its kernel, or
/// with a fresh race to run.
pub enum RaceStart {
    Cached(usize),
    Run(Race),
}

/// What starting a race for `key` gives on a cache holding `cache`: the
/// remembered choice when there is one, else a fresh race of `candidates`
/// schedules over `rounds` rounds, or the refusal of an empty race.
pub open spec fn race_start(cache: Map<u64, usize>, key: u64, candidates: usize, rounds: usize, r: Result<RaceStart, String>) -> bool {
    match cached_choice(cache, key) {
        Some(c) => r == Ok::<RaceStart, String>(RaceStart::Cached(c)),
        None => match r {
            Ok(RaceStart::Run(race)) => candidates > 0 && rounds > 0 && race.is_fresh(candidates, rounds),
            Ok(RaceStart::Cached(_)) => false,
            Err(e) => (candidates == 0 || rounds == 0) && e@ == "Apple GPU race must have candidates and rounds"@,
        },
    }
}

/// Schedule choices remembered per kernel: the key is the hash of the kernel
/// family and shape, the value the chosen candidate.
pub struct ScheduleCache {
    chosen: HashMap<u64, usize>,
}

impl View for ScheduleCache {
    type V = Map<u64, usize>;

    closed spec fn view(&self) -> Map<u64, usize> {
        self.chosen@
    }
}

impl ScheduleCache {
    /// A cache that remembers nothing.
    pub fn new() -> (r: Self)
        ensures
            r@ == Map::<u64, usize>::empty(),
    {
        ScheduleCache { chosen: HashMap::new() }
    }

    /// The choice remembered for `key`.
    pub fn lookup(&self, key: u64) -> (r: Option<usize>)
        ensures
            r == cached_choice(self@, key),
    {
        broadcast use vstd::std_specs::hash::group_hash_axioms;

        match self.chosen.get(&key) {
            Some(c) => Some(*c),
            None => None,
        }
    }

    /// Remembers `choice` for `key`.
    pub fn remember(&mut self, key: u64, choice: usize)
        ensures
            final(self)@ == old(self)@.insert(key, choice),
    {
        broadcast use vstd::std_specs::hash::group_hash_axioms;

        let _previous = self.chosen.insert(key, choice);
    }

    /// Begins a race for `key`: the remembered choice, else a fresh race.
    pub fn start_race(&self, key: u64, candidates: usize, rounds: usize) -> (r: Result<RaceStart, String>)
        requires
            !self@.contains_key(key) ==> candidates + rounds <= usize::MAX,
        ensures
            race_start(self@, key, candidates, rounds, r),
    {
        match self.lookup(key) {
            Some(c) => Ok(RaceStart::Cached(c)),
            None => match Race::new(candidates, rounds) {
                Ok(race) => Ok(RaceStart::Run(race)),
                Err(e) => Err(e),
            },
        }
    }

    /// Settles a finished race for `key` and remembers its winner.
    pub fn finish_race(&mut self, key: u64, race: &Race, family: &str, shape: &Vec<usize>) -> (r: Result<usize, String>)
        requires
            race.wf(),
        ensures
            race.outcome(family@, shape@, r),
            match r {
                Ok(c) => final(self)@ == old(self)@.insert(key, c),
                Err(_) => final(self)@ == old(self)@,
            },
    {
        let r = race.winner(family, shape);
        if let Ok(c) = r {
            self.remember(key, c);
        }
        r
    }

    /// Settles a plain search for `key` over the timings `times` and
    /// remembers its choice.
    pub fn finish_schedule(&mut self, key: u64, times: &[Option<u128>], family: &str, shape: &Vec<usize>) -> (r: Result<
        usize,
        String,
    >)
        ensures
            schedule_outcome(times@, family@, shape@, r),
            match r {
                Ok(c) => final(self)@ == old(self)@.insert(key, c),
                Err(_) => final(self)@ == old(self)@,
            },
    {
        let r = schedule_choice(times, family, shape);
        if let Ok(c) = r {
            self.remember(key, c);
        }
        r
    }
}

/// Once a race or a schedule search for `key` has been settled with `choice`
/// and remembered, a later race for `key` starts from the remembered choice
/// whatever its candidates and rounds, so nothing is timed again, and a later
/// search finds the same choice; choices remembered for other keys stay as
/// they were.
pub proof fn lemma_remembered_choice_is_reused(
    before: Map<u64, usize>,
    key: u64,
    choice: usize,
    candidates: usize,
    rounds: usize,
    start: Result<RaceStart, String>,
    other: u64,
)
    requires
        race_start(before.insert(key, choice), key, candidates, rounds, start),
    ensures
        start == Ok::<RaceStart, String>(RaceStart::Cached(choice)),
        cached_choice(before.insert(key, choice), key) == Some(choice),
        other != key ==> cached_choice(before.insert(key, choice), other) == cached_choice(before, other),
{
    assert(before.insert(key, choice).contains_key(key));
}

} // verus!
