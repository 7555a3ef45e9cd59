//! Control of the iterative decoder.
//!
//! Belief propagation alternates two things: a test of the current
//! marginals, and a round of message passing that computes new ones. The
//! test, the bound on the number of rounds and the packing of the result
//! stand here; the arithmetic of a round belongs to the caller, who runs
//! the loop: it hands over the hard decisions on its marginals and does what
//! the answer says.

use crate::ldpcd::message::{pack_message, unpacked, MESSAGE_BITS, MESSAGE_BYTES};
use crate::ldpcd::parity_check_matrix::{codeword, ParityMatrix, K, N};
use vstd::prelude::*;

verus! {

/// The most rounds of message passing that one decoding makes.
pub const MAX_ITERS: u32 = 100;

/// What the decoder decides at a test of the marginals.
pub enum Decision {
    /// The marginals are a codeword: decoding has succeeded.
    Decoded,
    /// They are not, and rounds are left: pass messages once more.
    Iterate,
    /// The rounds are used up: decoding has failed.
    NotDecoded,
}

/// The decision after `rounds` rounds of message passing, on marginals whose
/// hard decisions are `x`.
pub open spec fn decide(h: [[u8; N]; K], rounds: nat, x: Seq<bool>) -> Decision {
    if rounds >= MAX_ITERS {
        Decision::NotDecoded
    } else if codeword(h, x) {
        Decision::Decoded
    } else {
        Decision::Iterate
    }
}

/// What the caller of `Decoder::step` does next.
pub enum Step {
    /// Decoding has succeeded, with this packed message.
    Decoded([u8; MESSAGE_BYTES]),
    /// Pass messages once more, then come back with the new marginals.
    Iterate,
    /// Decoding has failed: there is no message.
    NotDecoded,
}

impl Step {
    /// The decision that this step carries out.
    pub open spec fn decision(self) -> Decision {
        match self {
            Step::Decoded(_) => Decision::Decoded,
            Step::Iterate => Decision::Iterate,
            Step::NotDecoded => Decision::NotDecoded,
        }
    }
}

/// The state of one decoding: how many rounds of message passing it has
/// asked for.
pub struct Decoder {
    rounds: u32,
}

impl Decoder {
    /// The number of rounds of message passing asked for so far.
    pub closed spec fn rounds(&self) -> nat {
        self.rounds as nat
    }

    /// Starts a decoding: no round has been made.
    pub fn new() -> (decoder: Decoder)
        ensures
            decoder.rounds() == 0,
    {
        Decoder { rounds: 0 }
    }

    /// Tests the marginals and decides how decoding goes on.
    ///
    /// `x` holds the hard decisions on the current marginals: `x[a]` is set
    /// where the marginal of coded bit `a` is not positive. Before the first
    /// round the marginals are the received values.
    pub fn step(&mut self, pm: &ParityMatrix, x: &[bool; N]) -> (next: Step)
        ensures
            next.decision() == decide(pm.h, old(self).rounds(), x@),
            next matches Step::Decoded(message) ==> unpacked(message@) == x@.take(
                MESSAGE_BITS as int,
            ),
            final(self).rounds() == old(self).rounds() + (if next is Iterate {
                1nat
            } else {
                0nat
            }),
    {
        if self.rounds >= MAX_ITERS {
            Step::NotDecoded
        } else if pm.is_codeword(x) {
            Step::Decoded(pack_message(x))
        } else {
            self.rounds = self.rounds + 1;
            Step::Iterate
        }
    }
}

/// Hands the result of a decoding to a host process that keeps its own
/// buffer: a message is written to `out` and 0 is returned; without a
/// message `out` is left as it is and 1 is returned.
pub fn write_result(result: Option<[u8; MESSAGE_BYTES]>, out: &mut [u8; MESSAGE_BYTES]) -> (status:
    i32)
    ensures
        result matches Some(message) ==> status == 0 && *final(out) == message,
        result is None ==> status == 1 && *final(out) == *old(out),
{
    match result {
        Some(message) => {
            *out = message;
            0
        },
        None => 1,
    }
}

/// How a decoding ends that has made `rounds` rounds, where `words(t)` holds
/// the hard decisions on the marginals after `t` rounds: the last decision,
/// and the number of rounds made by then.
pub open spec fn outcome_from(
    h: [[u8; N]; K],
    words: spec_fn(nat) -> Seq<bool>,
    rounds: nat,
) -> (Decision, nat)
    decreases MAX_ITERS - rounds,
{
    if decide(h, rounds, words(rounds)) is Iterate {
        outcome_from(h, words, rounds + 1)
    } else {
        (decide(h, rounds, words(rounds)), rounds)
    }
}

/// How a decoding ends that starts afresh.
pub open spec fn outcome(h: [[u8; N]; K], words: spec_fn(nat) -> Seq<bool>) -> (Decision, nat) {
    outcome_from(h, words, 0)
}

/// A decoding that has made `rounds` rounds ends at the first later test at
/// which the marginals are a codeword, with success, or after `MAX_ITERS`
/// rounds, with failure.
pub proof fn lemma_outcome_from(h: [[u8; N]; K], words: spec_fn(nat) -> Seq<bool>, rounds: nat)
    requires
        rounds <= MAX_ITERS,
    ensures
        rounds <= outcome_from(h, words, rounds).1 <= MAX_ITERS,
        forall|t: nat|
            rounds <= t < outcome_from(h, words, rounds).1 ==> !#[trigger] codeword(h, words(t)),
        outcome_from(h, words, rounds).0 is Decoded <==> outcome_from(h, words, rounds).1
            < MAX_ITERS,
        outcome_from(h, words, rounds).0 is Decoded ==> codeword(
            h,
            words(outcome_from(h, words, rounds).1),
        ),
        outcome_from(h, words, rounds).0 is NotDecoded <==> outcome_from(h, words, rounds).1
            == MAX_ITERS,
    decreases MAX_ITERS - rounds,
{
    if decide(h, rounds, words(rounds)) is Iterate {
        lemma_outcome_from(h, words, rounds + 1);
    }
}

/// Marginals that are a codeword before any round decode at once: the first
/// decision is `Decoded`, and no round of message passing is made.
pub proof fn lemma_codeword_decodes_at_once(h: [[u8; N]; K], words: spec_fn(nat) -> Seq<bool>)
    requires
        codeword(h, words(0)),
    ensures
        outcome(h, words) == (Decision::Decoded, 0nat),
{
}

/// Decoding succeeds at the first test at which the marginals are a
/// codeword, if that is one of the first `MAX_ITERS` tests.
pub proof fn lemma_decodes_at_first_codeword(
    h: [[u8; N]; K],
    words: spec_fn(nat) -> Seq<bool>,
    t: nat,
)
    requires
        t < MAX_ITERS,
        codeword(h, words(t)),
        forall|s: nat| s < t ==> !#[trigger] codeword(h, words(s)),
    ensures
        outcome(h, words) == (Decision::Decoded, t),
{
    lemma_outcome_from(h, words, 0);
    let end = outcome(h, words).1;
    if end < t {
        assert(!codeword(h, words(end)));
    }
}

/// Decoding fails exactly if the marginals are a codeword at none of the
/// first `MAX_ITERS` tests, and then only after `MAX_ITERS` rounds: there
/// is no success after the last round, and no failure before it.
pub proof fn lemma_fails_only_after_all_rounds(h: [[u8; N]; K], words: spec_fn(nat) -> Seq<bool>)
    ensures
        outcome(h, words).0 is NotDecoded <==> (forall|t: nat|
            t < MAX_ITERS ==> !#[trigger] codeword(h, words(t))),
        outcome(h, words).0 is NotDecoded ==> outcome(h, words).1 == MAX_ITERS,
        outcome(h, words).0 !is Iterate,
{
    lemma_outcome_from(h, words, 0);
    let end = outcome(h, words).1;
    if forall|t: nat| t < MAX_ITERS ==> !#[trigger] codeword(h, words(t)) {
        if end < MAX_ITERS {
            assert(codeword(h, words(end)));
        }
    }
}

} // verus!
