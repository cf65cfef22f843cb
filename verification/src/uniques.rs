//! Estimation of the number of distinct elements of a stream, in one pass and
//! in bounded memory.
//!
//! The estimator keeps a sample of the elements seen. An element is kept, at
//! each of its occurrences, with the sampling rate then in force; whenever the
//! sample reaches a threshold, each element of it is dropped on a fair coin
//! and the rate is halved. The size of the sample divided by the rate
//! estimates the number of distinct elements.
//!
//! The sampling rate is always `1 / 2^k`, and is held as the exponent `k`. A
//! uniform draw from `[0, 1)` is held as the 64 random bits it is made of: the
//! upper 53 of them, read as an integer `u`, stand for `u / 2^53`.

use crate::random::{next_bits, next_coin};
use rand::rngs::StdRng;
use std::collections::HashSet;
use vstd::arithmetic::power2::{
    lemma2_to64, lemma2_to64_rest, lemma_pow2_adds, lemma_pow2_pos, lemma_pow2_strictly_increases,
    pow2,
};
use vstd::bits::{lemma_u64_pow2_no_overflow, lemma_u64_shl_is_mul, lemma_u64_shr_is_div};
use vstd::prelude::*;
use vstd::std_specs::hash::spec_hash_keys_iter;
use vstd::std_specs::iter::IteratorSpec;

verus! {

broadcast use vstd::std_specs::hash::group_hash_axioms;

/// A rational number `numerator / denominator`. With a zero denominator it
/// stands for no number.
#[derive(Clone, Copy, Debug, PartialEq, Eq, Structural)]
pub struct Fraction {
    pub numerator: i64,
    pub denominator: u64,
}

impl Fraction {
    /// The fraction is a number greater than zero.
    pub open spec fn is_positive(self) -> bool {
        self.denominator > 0 && self.numerator > 0
    }

    /// The fraction is a number strictly between zero and one.
    pub open spec fn in_open_unit(self) -> bool {
        self.is_positive() && self.numerator < self.denominator
    }

    pub fn new(numerator: i64, denominator: u64) -> (f: Fraction)
        ensures
            f.numerator == numerator,
            f.denominator == denominator,
    {
        Fraction { numerator, denominator }
    }

    pub fn positive(&self) -> (b: bool)
        ensures
            b == self.is_positive(),
    {
        self.denominator > 0 && self.numerator > 0
    }

    pub fn within_open_unit(&self) -> (b: bool)
        ensures
            b == self.in_open_unit(),
    {
        self.positive() && (self.numerator as u64) < self.denominator
    }
}

/// What can go wrong in the estimator.
#[derive(Clone, Copy, Debug, PartialEq, Eq, Structural)]
pub enum EstimatorError {
    /// The accuracy is not a positive number, or the failure probability is
    /// not a number strictly between zero and one.
    Configuration,
    /// Thinning left the sample as large as the threshold.
    InvariantViolation,
}

/// What an estimator is, to its contracts.
pub struct EstimatorState {
    /// The sample: elements currently retained.
    pub retained: Set<u64>,
    /// The sampling rate is `1 / 2^halvings`.
    pub halvings: nat,
    /// The number of elements submitted so far, counted from the size hint.
    pub processed: nat,
    /// The accuracy asked for.
    pub eps: Fraction,
    /// The failure probability asked for.
    pub delta: Fraction,
}

impl EstimatorState {
    /// The state is in order: the sample is finite, the rate was halved at
    /// most once per counted element, the count fits the machine, and the
    /// configuration is valid.
    pub open spec fn well_formed(self) -> bool {
        &&& self.retained.finite()
        &&& self.halvings <= self.processed <= u64::MAX
        &&& self.eps.is_positive()
        &&& self.delta.in_open_unit()
    }
}

/// The integer `u` for which 64 random bits stand for the draw `u / 2^53`:
/// their upper 53 bits. This is how `rand` makes a uniform `f64` of `[0, 1)`
/// from 64 bits.
pub open spec fn unit_numerator(raw: u64) -> nat {
    raw as nat / 2048
}

/// A draw is accepted at rate `1 / 2^halvings` where it is at most the rate:
/// `u / 2^53 <= 1 / 2^halvings`.
pub open spec fn accepts(raw: u64, halvings: nat) -> bool {
    unit_numerator(raw) * pow2(halvings) <= pow2(53)
}

/// The estimate for a sample of `len` elements at rate `1 / 2^halvings`:
/// `len * 2^halvings`, or the largest `u64` where that is larger.
pub open spec fn estimate(len: nat, halvings: nat) -> nat {
    if len * pow2(halvings) > u64::MAX {
        u64::MAX as nat
    } else {
        len * pow2(halvings)
    }
}

/// Decides whether a draw is accepted at the rate `1 / 2^halvings`.
pub fn is_accepted(raw: u64, halvings: u64) -> (b: bool)
    ensures
        b == accepts(raw, halvings as nat),
{
    let unit: u64 = raw >> 11;
    assert(unit == raw / 2048 && unit < 0x20_0000_0000_0000) by (bit_vector)
        requires
            unit == raw >> 11,
    ;
    proof {
        lemma2_to64_rest();
        lemma_pow2_pos(halvings as nat);
    }
    if halvings > 53 {
        proof {
            lemma_pow2_strictly_increases(53, halvings as nat);
            if unit >= 1 {
                assert(unit * pow2(halvings as nat) >= pow2(halvings as nat)) by (nonlinear_arith)
                    requires
                        unit >= 1,
                ;
            } else {
                assert(unit * pow2(halvings as nat) == 0) by (nonlinear_arith)
                    requires
                        unit == 0,
                ;
            }
        }
        unit == 0
    } else {
        let room: u64 = 53 - halvings;
        proof {
            lemma_u64_pow2_no_overflow(room as nat);
            lemma_u64_shl_is_mul(1, room);
            lemma_pow2_adds(halvings as nat, room as nat);
            assert(halvings as nat + room as nat == 53);
            assert((1u64 << room) == pow2(room as nat));
            assert(unit * pow2(halvings as nat) <= pow2(halvings as nat) * pow2(room as nat)
                <==> unit <= pow2(room as nat)) by (nonlinear_arith)
                requires
                    pow2(halvings as nat) > 0,
            ;
        }
        unit <= (1u64 << room)
    }
}

/// The number of heads among coins.
pub open spec fn heads(coins: Seq<bool>) -> nat
    decreases coins.len(),
{
    if coins.len() == 0 {
        0
    } else {
        heads(coins.drop_last()) + if coins.last() {
            1nat
        } else {
            0nat
        }
    }
}

/// Flips `n` fair coins.
fn flip_coins(rng: &mut StdRng, n: usize) -> (coins: Vec<bool>)
    ensures
        coins@.len() == n,
{
    let mut coins: Vec<bool> = Vec::new();
    let mut i: usize = 0;
    while i < n
        invariant
            i <= n,
            coins@.len() == i,
        decreases n - i,
    {
        coins.push(next_coin(rng));
        i = i + 1;
    }
    coins
}

/// Thins a sample: each element gets a coin of its own, and stays on heads.
/// Which element gets which coin is not fixed; the coins used are the first
/// ones, as many as the sample has elements.
fn thinned(sample: &HashSet<u64>, coins: &Vec<bool>) -> (kept: HashSet<u64>)
    requires
        sample@.finite(),
        coins@.len() >= sample@.len(),
    ensures
        kept@.finite(),
        kept@.subset_of(sample@),
        kept@.len() == heads(coins@.take(sample@.len() as int)),
{
    let mut kept: HashSet<u64> = HashSet::new();
    let mut used: usize = 0;
    let given: usize = coins.len();
    proof {
        assert(coins@.take(0) =~= Seq::<bool>::empty());
    }
    for x in it: sample.iter()
        invariant
            it.seq() == spec_hash_keys_iter(sample).remaining(),
            it.seq().len() == sample@.len(),
            coins@.len() >= sample@.len(),
            coins@.len() == given,
            used == it.index(),
            kept@.finite(),
            kept@.subset_of(sample@),
            kept@.len() == heads(coins@.take(used as int)),
            forall|e: u64|
                kept@.contains(e) ==> exists|i: int|
                    0 <= i < it.index() && *(#[trigger] it.seq()[i]) == e,
    {
        proof {
            let keys = it.seq().unref();
            assert(keys[it.index()] == *x);
            assert(keys.to_set().contains(*x));
            assert(it.seq().no_duplicates());
            assert(!kept@.contains(*x));
            let longer = coins@.take(used + 1);
            assert(longer.drop_last() =~= coins@.take(used as int));
            assert(longer.last() == coins@[used as int]);
        }
        if coins[used] {
            kept.insert(*x);
        }
        used = used + 1;
    }
    kept
}

/// The sample once an element was submitted with the draw `raw`: the
/// element is in it if the draw is accepted at the rate in force, and out of
/// it if not, wherever it was before.
pub open spec fn trialled(pre: EstimatorState, elem: u64, raw: u64) -> Set<u64> {
    if accepts(raw, pre.halvings) {
        pre.retained.insert(elem)
    } else {
        pre.retained.remove(elem)
    }
}

/// What follows the trial of a submission, `sample` being the sample after
/// it: `pre` is the state before the submission, `post` the state after,
/// `outcome` what the caller is told.
///
/// The count goes up by one. A sample of exactly `threshold` elements is
/// thinned on the first `threshold` of the coins, to a part of itself with as
/// many elements as there are heads, and the rate is halved; the submission
/// fails only if thinning dropped nothing. Any other sample is kept as it is.
pub open spec fn settled(
    pre: EstimatorState,
    threshold: nat,
    sample: Set<u64>,
    coins: Seq<bool>,
    post: EstimatorState,
    outcome: Result<(), EstimatorError>,
) -> bool {
    &&& post.processed == pre.processed + 1
    &&& post.eps == pre.eps
    &&& post.delta == pre.delta
    &&& if sample.len() == threshold {
        &&& post.halvings == pre.halvings + 1
        &&& post.retained.subset_of(sample)
        &&& post.retained.len() == heads(coins.take(threshold as int))
        &&& outcome == if post.retained.len() == threshold {
            Err::<(), EstimatorError>(EstimatorError::InvariantViolation)
        } else {
            Ok::<(), EstimatorError>(())
        }
    } else {
        &&& post.halvings == pre.halvings
        &&& post.retained == sample
        &&& outcome is Ok
    }
}

/// What one submission does to an estimator whose uniform draw is `raw` and
/// whose coins, should it thin, are `coins`.
pub open spec fn submission(
    pre: EstimatorState,
    elem: u64,
    threshold: nat,
    raw: u64,
    coins: Seq<bool>,
    post: EstimatorState,
    outcome: Result<(), EstimatorError>,
) -> bool {
    settled(pre, threshold, trialled(pre, elem, raw), coins, post, outcome)
}

/// The estimator of the number of distinct elements of a stream.
pub struct UniquesInAStream {
    retained: HashSet<u64>,
    rng: StdRng,
    halvings: u64,
    stream_size: u64,
    eps: Fraction,
    delta: Fraction,
}

impl View for UniquesInAStream {
    type V = EstimatorState;

    closed spec fn view(&self) -> EstimatorState {
        EstimatorState {
            retained: self.retained@,
            halvings: self.halvings as nat,
            processed: self.stream_size as nat,
            eps: self.eps,
            delta: self.delta,
        }
    }
}

impl UniquesInAStream {
    /// The estimator is in order: its state is.
    pub open spec fn wf(&self) -> bool {
        self@.well_formed()
    }

    /// A fresh estimator: an empty sample, the sampling rate one, the count
    /// starting at `stream_size`. It takes the source of random bits that it
    /// will draw from. The configuration is refused unless `eps` is a positive
    /// number and `delta` a number strictly between zero and one.
    pub fn new(stream_size: usize, eps: Fraction, delta: Fraction, rng: StdRng) -> (made: Result<
        UniquesInAStream,
        EstimatorError,
    >)
        ensures
            eps.is_positive() && delta.in_open_unit() <==> made is Ok,
            made matches Err(e) ==> e == EstimatorError::Configuration,
            made matches Ok(u) ==> {
                &&& u.wf()
                &&& u@.retained == Set::<u64>::empty()
                &&& u@.halvings == 0
                &&& u@.processed == stream_size
                &&& u@.eps == eps
                &&& u@.delta == delta
            },
    {
        if !eps.positive() || !delta.within_open_unit() {
            return Err(EstimatorError::Configuration);
        }
        Ok(
            UniquesInAStream {
                retained: HashSet::new(),
                rng,
                halvings: 0,
                stream_size: stream_size as u64,
                eps,
                delta,
            },
        )
    }

    /// The sampling rate, by its exponent: the rate is `1 / 2^k`.
    pub fn p(&self) -> (k: u64)
        ensures
            k == self@.halvings,
    {
        self.halvings
    }

    pub fn eps(&self) -> (eps: Fraction)
        ensures
            eps == self@.eps,
    {
        self.eps
    }

    pub fn delta(&self) -> (delta: Fraction)
        ensures
            delta == self@.delta,
    {
        self.delta
    }

    /// The number of elements counted so far.
    pub fn stream_size(&self) -> (n: u64)
        ensures
            n == self@.processed,
    {
        self.stream_size
    }

    /// The estimate of the number of distinct elements seen: the size of the
    /// sample divided by the sampling rate. Reading it changes nothing.
    pub fn to_result(&self) -> (r: u64)
        ensures
            r == estimate(self@.retained.len(), self@.halvings),
    {
        let len: u64 = self.retained.len() as u64;
        proof {
            lemma_pow2_pos(self.halvings as nat);
        }
        if len == 0 {
            assert(0 * pow2(self.halvings as nat) == 0) by (nonlinear_arith);
            return 0;
        }
        if self.halvings >= 64 {
            proof {
                lemma2_to64();
                if self.halvings > 64 {
                    lemma_pow2_strictly_increases(64, self.halvings as nat);
                }
                assert(len * pow2(self.halvings as nat) >= pow2(self.halvings as nat))
                    by (nonlinear_arith)
                    requires
                        len >= 1,
                ;
            }
            return u64::MAX;
        }
        let cap: u64 = u64::MAX >> self.halvings;
        proof {
            lemma_u64_shr_is_div(u64::MAX, self.halvings);
            let d = pow2(self.halvings as nat) as int;
            assert(len <= u64::MAX as int / d <==> len * d <= u64::MAX) by (nonlinear_arith)
                requires
                    d > 0,
            ;
        }
        if len > cap {
            u64::MAX
        } else {
            proof {
                lemma_u64_shl_is_mul(len, self.halvings);
            }
            len << self.halvings
        }
    }

    /// The trial of a submission: counts the element, takes it out of the
    /// sample, and puts it back if its draw is accepted.
    fn trial(&mut self, new_elem: &u64, raw: u64)
        requires
            old(self).wf(),
            old(self)@.processed < u64::MAX,
        ensures
            final(self)@.retained.finite(),
            final(self)@.retained == trialled(old(self)@, *new_elem, raw),
            final(self)@.processed == old(self)@.processed + 1,
            final(self)@.halvings == old(self)@.halvings,
            final(self)@.eps == old(self)@.eps,
            final(self)@.delta == old(self)@.delta,
    {
        proof {
            broadcast use vstd::set::group_set_axioms;
        }
        self.stream_size = self.stream_size + 1;
        self.retained.remove(new_elem);
        if is_accepted(raw, self.halvings) {
            self.retained.insert(*new_elem);
        }
        assert(old(self)@.retained.remove(*new_elem).insert(*new_elem) =~= old(
            self,
        )@.retained.insert(*new_elem));
    }

    /// Thins the sample on the given coins and halves the rate.
    fn thin(&mut self, coins: &Vec<bool>)
        requires
            old(self)@.retained.finite(),
            old(self)@.halvings < u64::MAX,
            coins@.len() >= old(self)@.retained.len(),
        ensures
            final(self)@.retained.finite(),
            final(self)@.retained.subset_of(old(self)@.retained),
            final(self)@.retained.len() == heads(coins@.take(old(self)@.retained.len() as int)),
            final(self)@.retained.len() <= old(self)@.retained.len(),
            final(self)@.halvings == old(self)@.halvings + 1,
            final(self)@.processed == old(self)@.processed,
            final(self)@.eps == old(self)@.eps,
            final(self)@.delta == old(self)@.delta,
    {
        let kept = thinned(&self.retained, coins);
        proof {
            vstd::set_lib::lemma_len_subset(kept@, self.retained@);
        }
        self.retained = kept;
        self.halvings = self.halvings + 1;
    }

    /// Submits one element of the stream, with what the submission takes
    /// from chance given by the caller: the 64 random bits of its uniform
    /// draw, and the coins for a thinning.
    pub fn update_with(
        &mut self,
        new_elem: &u64,
        threshold: usize,
        raw: u64,
        coins: &Vec<bool>,
    ) -> (outcome: Result<(), EstimatorError>)
        requires
            old(self).wf(),
            old(self)@.processed < u64::MAX,
            trialled(old(self)@, *new_elem, raw).len() == threshold ==> coins@.len() >= threshold,
        ensures
            final(self).wf(),
            submission(
                old(self)@,
                *new_elem,
                threshold as nat,
                raw,
                coins@,
                final(self)@,
                outcome,
            ),
            old(self)@.retained.len() < threshold && outcome is Ok ==> final(self)@.retained.len()
                < threshold,
            old(self)@.halvings <= final(self)@.halvings,
            outcome matches Err(e) ==> e == EstimatorError::InvariantViolation,
    {
        proof {
            broadcast use vstd::set::group_set_axioms;
        }
        self.trial(new_elem, raw);
        if self.retained.len() == threshold {
            self.thin(coins);
            if self.retained.len() == threshold {
                return Err(EstimatorError::InvariantViolation);
            }
        }
        Ok(())
    }

    /// Submits one element of the stream. The uniform draw and the coins of a
    /// thinning come from the estimator's source of random bits, so the
    /// contract states what holds whatever they are.
    pub fn update(&mut self, new_elem: &u64, threshold: usize) -> (outcome: Result<
        (),
        EstimatorError,
    >)
        requires
            old(self).wf(),
            old(self)@.processed < u64::MAX,
        ensures
            final(self).wf(),
            exists|raw: u64, coins: Seq<bool>|
                coins.len() == threshold && #[trigger] submission(
                    old(self)@,
                    *new_elem,
                    threshold as nat,
                    raw,
                    coins,
                    final(self)@,
                    outcome,
                ),
            old(self)@.halvings == 0 ==> exists|coins: Seq<bool>|
                coins.len() == threshold && #[trigger] settled(
                    old(self)@,
                    threshold as nat,
                    old(self)@.retained.insert(*new_elem),
                    coins,
                    final(self)@,
                    outcome,
                ),
            old(self)@.retained.len() < threshold && outcome is Ok ==> final(self)@.retained.len()
                < threshold,
            old(self)@.halvings <= final(self)@.halvings,
            outcome matches Err(e) ==> e == EstimatorError::InvariantViolation,
    {
        proof {
            broadcast use vstd::set::group_set_axioms;
        }
        let raw: u64 = next_bits(&mut self.rng);
        proof {
            if self.halvings == 0 {
                lemma_certain_at_rate_one(raw);
            }
        }
        self.trial(new_elem, raw);
        if self.retained.len() == threshold {
            let coins: Vec<bool> = flip_coins(&mut self.rng, threshold);
            self.thin(&coins);
            let outcome = if self.retained.len() == threshold {
                Err(EstimatorError::InvariantViolation)
            } else {
                Ok(())
            };
            assert(submission(
                old(self)@,
                *new_elem,
                threshold as nat,
                raw,
                coins@,
                self@,
                outcome,
            ));
            outcome
        } else {
            let ghost coins = Seq::new(threshold as nat, |i: int| false);
            assert(submission(
                old(self)@,
                *new_elem,
                threshold as nat,
                raw,
                coins,
                self@,
                Ok::<(), EstimatorError>(()),
            ));
            Ok(())
        }
    }
}

/// At the sampling rate one every draw is accepted.
pub proof fn lemma_certain_at_rate_one(raw: u64)
    ensures
        accepts(raw, 0),
{
    lemma2_to64();
    lemma2_to64_rest();
    assert(raw as nat / 2048 < 0x20_0000_0000_0000) by (nonlinear_arith)
        requires
            raw <= 0xFFFF_FFFF_FFFF_FFFF,
    ;
    assert(unit_numerator(raw) * 1 == unit_numerator(raw));
}

/// At a halved rate some draw is refused: no element is sure of its place.
pub proof fn lemma_refusal_possible(halvings: nat)
    requires
        halvings >= 1,
    ensures
        !accepts(u64::MAX, halvings),
{
    lemma2_to64();
    lemma2_to64_rest();
    assert(unit_numerator(u64::MAX) == 0x1F_FFFF_FFFF_FFFF);
    if halvings > 1 {
        lemma_pow2_strictly_increases(1, halvings);
    }
    assert(0x1F_FFFF_FFFF_FFFFint * pow2(halvings) > 0x20_0000_0000_0000) by (nonlinear_arith)
        requires
            pow2(halvings) >= 2,
    ;
}

/// Among coins there are at most as many heads as coins, and exactly as
/// many only if every coin is heads.
pub proof fn lemma_heads_bounds(coins: Seq<bool>)
    ensures
        heads(coins) <= coins.len(),
        heads(coins) == coins.len() <==> forall|i: int| 0 <= i < coins.len() ==> coins[i],
    decreases coins.len(),
{
    if coins.len() > 0 {
        let front = coins.drop_last();
        lemma_heads_bounds(front);
        if heads(coins) == coins.len() {
            assert forall|i: int| 0 <= i < coins.len() implies coins[i] by {
                if i < coins.len() - 1 {
                    assert(front[i] == coins[i]);
                }
            }
        }
        if forall|i: int| 0 <= i < coins.len() ==> coins[i] {
            assert forall|i: int| 0 <= i < front.len() implies front[i] by {
                assert(front[i] == coins[i]);
            }
        }
    }
}

/// A submission fails in one case only: its sample reached the threshold and
/// every coin of the thinning came up heads.
pub proof fn lemma_failure_is_all_heads(
    pre: EstimatorState,
    elem: u64,
    threshold: nat,
    raw: u64,
    coins: Seq<bool>,
    post: EstimatorState,
    outcome: Result<(), EstimatorError>,
)
    requires
        coins.len() >= threshold,
        submission(pre, elem, threshold, raw, coins, post, outcome),
    ensures
        outcome is Err <==> trialled(pre, elem, raw).len() == threshold && forall|i: int|
            0 <= i < threshold ==> coins[i],
{
    let used = coins.take(threshold as int);
    lemma_heads_bounds(used);
    if forall|i: int| 0 <= i < threshold ==> coins[i] {
        assert forall|i: int| 0 <= i < used.len() implies used[i] by {
            assert(used[i] == coins[i]);
        }
    }
    if forall|i: int| 0 <= i < used.len() ==> used[i] {
        assert forall|i: int| 0 <= i < threshold implies coins[i] by {
            assert(used[i] == coins[i]);
        }
    }
}

/// An element that is in the sample after it was submitted had its draw
/// accepted at the rate in force at that submission. That it was in the
/// sample before, at whatever rate it got there, counts for nothing.
pub proof fn lemma_every_occurrence_is_trialled(
    pre: EstimatorState,
    elem: u64,
    threshold: nat,
    raw: u64,
    coins: Seq<bool>,
    post: EstimatorState,
    outcome: Result<(), EstimatorError>,
)
    requires
        submission(pre, elem, threshold, raw, coins, post, outcome),
    ensures
        post.retained.contains(elem) ==> accepts(raw, pre.halvings),
{
}

/// A submission that succeeds on a sample below the threshold leaves the
/// sample below the threshold.
pub proof fn lemma_sample_stays_below(
    pre: EstimatorState,
    elem: u64,
    threshold: nat,
    raw: u64,
    coins: Seq<bool>,
    post: EstimatorState,
    outcome: Result<(), EstimatorError>,
)
    requires
        pre.retained.finite(),
        pre.retained.len() < threshold,
        submission(pre, elem, threshold, raw, coins, post, outcome),
        outcome is Ok,
    ensures
        post.retained.finite(),
        post.retained.len() < threshold,
{
    broadcast use vstd::set::group_set_axioms;

    let sample = trialled(pre, elem, raw);
    assert(sample.len() <= threshold);
    if sample.len() == threshold {
        vstd::set_lib::lemma_len_subset(post.retained, sample);
    }
}

/// `post` comes from `pre` by one submission, of some element, against some
/// threshold, with some draw and some coins.
pub open spec fn follows(pre: EstimatorState, post: EstimatorState) -> bool {
    exists|
        elem: u64,
        threshold: nat,
        raw: u64,
        coins: Seq<bool>,
        outcome: Result<(), EstimatorError>,
    | #[trigger]
        submission(pre, elem, threshold, raw, coins, post, outcome)
}

/// The state at `i + 1` comes from the state at `i` by one submission.
pub open spec fn step_at(states: Seq<EstimatorState>, i: int) -> bool {
    follows(states[i], states[i + 1])
}

/// The states of an estimator in the order it went through them: each comes
/// from the one before by one submission.
pub open spec fn is_run(states: Seq<EstimatorState>) -> bool {
    forall|i: int| 0 <= i < states.len() - 1 ==> #[trigger] step_at(states, i)
}

/// Over any run of submissions the sampling rate `1 / 2^halvings` never
/// rises, and from one state to the next it stays or is halved.
pub proof fn lemma_rate_never_rises(states: Seq<EstimatorState>, from: int, to: int)
    requires
        is_run(states),
        0 <= from <= to < states.len(),
    ensures
        states[from].halvings <= states[to].halvings,
        to == from + 1 ==> states[to].halvings == states[from].halvings || states[to].halvings
            == states[from].halvings + 1,
        pow2(states[from].halvings) <= pow2(states[to].halvings),
    decreases to - from,
{
    if from < to {
        lemma_rate_never_rises(states, from, to - 1);
        assert(step_at(states, to - 1));
        if states[from].halvings < states[to].halvings {
            lemma_pow2_strictly_increases(states[from].halvings, states[to].halvings);
        }
    }
}

/// The submission that takes the state at `i` to the state at `i + 1` was
/// made against the threshold at `i`, and succeeded.
pub open spec fn succeeds_at(states: Seq<EstimatorState>, thresholds: Seq<nat>, i: int) -> bool {
    exists|elem: u64, raw: u64, coins: Seq<bool>| #[trigger]
        submission(
            states[i],
            elem,
            thresholds[i],
            raw,
            coins,
            states[i + 1],
            Ok::<(), EstimatorError>(()),
        )
}

/// Over a run of successful submissions against thresholds that never fall,
/// begun on a sample below the first of them, the sample is below the
/// threshold after every submission.
pub proof fn lemma_sample_stays_below_over_a_run(
    states: Seq<EstimatorState>,
    thresholds: Seq<nat>,
    at: int,
)
    requires
        states.len() == thresholds.len() + 1,
        forall|i: int| 0 <= i < thresholds.len() ==> #[trigger] succeeds_at(states, thresholds, i),
        forall|i: int, j: int|
            0 <= i <= j < thresholds.len() ==> #[trigger] thresholds[i] <= #[trigger] thresholds[j],
        states[0].retained.finite(),
        states[0].retained.len() < thresholds[0],
        0 <= at < thresholds.len(),
    ensures
        states[at + 1].retained.finite(),
        states[at + 1].retained.len() < thresholds[at],
    decreases at,
{
    if at > 0 {
        lemma_sample_stays_below_over_a_run(states, thresholds, at - 1);
        assert(thresholds[at - 1] <= thresholds[at]);
    }
    assert(succeeds_at(states, thresholds, at));
    let (elem, raw, coins) = choose|elem: u64, raw: u64, coins: Seq<bool>| #[trigger]
        submission(
            states[at],
            elem,
            thresholds[at],
            raw,
            coins,
            states[at + 1],
            Ok::<(), EstimatorError>(()),
        );
    lemma_sample_stays_below(
        states[at],
        elem,
        thresholds[at],
        raw,
        coins,
        states[at + 1],
        Ok::<(), EstimatorError>(()),
    );
}

/// The state at `i + 1` comes from the state at `i` by the submission of
/// `elems[i]` with the draw `raws[i]`.
pub open spec fn submitted_at(
    states: Seq<EstimatorState>,
    elems: Seq<u64>,
    raws: Seq<u64>,
    i: int,
) -> bool {
    exists|threshold: nat, coins: Seq<bool>, outcome: Result<(), EstimatorError>| #[trigger]
        submission(states[i], elems[i], threshold, raws[i], coins, states[i + 1], outcome)
}

/// An element of the sample owes its place to its latest occurrence: over a
/// run begun without it, the last time it was submitted its draw was
/// accepted at the rate then in force. The result is the place of that
/// submission in the run.
pub proof fn lemma_retained_by_latest_trial(
    states: Seq<EstimatorState>,
    elems: Seq<u64>,
    raws: Seq<u64>,
    at: int,
    e: u64,
) -> (latest: int)
    requires
        states.len() == elems.len() + 1,
        raws.len() == elems.len(),
        forall|i: int| 0 <= i < elems.len() ==> #[trigger] submitted_at(states, elems, raws, i),
        !states[0].retained.contains(e),
        0 <= at < states.len(),
        states[at].retained.contains(e),
    ensures
        0 <= latest < at,
        elems[latest] == e,
        accepts(raws[latest], states[latest].halvings),
        forall|l: int| latest < l < at ==> elems[l] != e,
    decreases at,
{
    assert(at > 0);
    assert(submitted_at(states, elems, raws, at - 1));
    let sample = trialled(states[at - 1], elems[at - 1], raws[at - 1]);
    assert(sample.contains(e));
    if elems[at - 1] == e {
        at - 1
    } else {
        lemma_retained_by_latest_trial(states, elems, raws, at - 1, e)
    }
}

} // verus!
