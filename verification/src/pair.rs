//! The pairs of weighted-inner-product proofs that show vector
//! commitments well-formed.
//!
//! Each commitment is proved twice, over two sets of further generators.
//! Before each proof the commitment and the statement's generator `g` are
//! sent to the transcript, and the weight `y` of the proof is the
//! challenge that follows them: so each commitment is bound into the
//! transcript of all that is proved after it.

use vstd::prelude::*;
use crate::proving::{WellFormed, WipStatement};
use crate::scalar::Scalar;
use crate::wip::{absorb, absorb_model, WipProof, WipProofModel};

verus! {

/// The weights of the two proofs of a pair, from the transcript before
/// them. The second is the transcript after the pair.
pub open spec fn weights_model(first: WipStatement, second: WipStatement, transcript: nat) -> (nat, nat) {
    let y = absorb_model(transcript, first.p@, first.g@);
    (y, absorb_model(y, second.p@, second.g@))
}

/// The two proofs for one commitment; none if either cannot be made.
#[verifier::opaque]
pub open spec fn pair_model(
    shown: WellFormed,
    transcript: nat,
    first_entropy: Seq<[u8; 128]>,
    second_entropy: Seq<[u8; 128]>,
) -> Option<(WipProofModel, WipProofModel)> {
    let y = weights_model(shown.first, shown.second, transcript);
    match (
        shown.first.proof_of(shown.witness, y.0, first_entropy),
        shown.second.proof_of(shown.witness, y.1, second_entropy),
    ) {
        (Some(first), Some(second)) => Some((first, second)),
        _ => None,
    }
}

/// Whether both proofs of a pair are accepted.
#[verifier::opaque]
pub open spec fn pair_accepted(
    first: WipStatement,
    second: WipStatement,
    transcript: nat,
    proofs: (WipProofModel, WipProofModel),
) -> bool {
    let y = weights_model(first, second, transcript);
    first.accepts(proofs.0, y.0) && second.accepts(proofs.1, y.1)
}

/// A pair of proofs as a value of contracts.
pub open spec fn pair_view(proofs: (WipProof, WipProof)) -> (WipProofModel, WipProofModel) {
    (proofs.0@, proofs.1@)
}

/// The statements of what shows a commitment well-formed.
pub open spec fn statements_of(shown: Seq<WellFormed>) -> Seq<(WipStatement, WipStatement)> {
    Seq::new(shown.len(), |i: int| (shown[i].first, shown[i].second))
}

/// The transcript after the first `k` pairs.
pub open spec fn transcript_after(statements: Seq<(WipStatement, WipStatement)>, transcript: nat, k: nat) -> nat
    decreases k,
{
    if k == 0 {
        transcript
    } else {
        weights_model(
            statements[k - 1].0,
            statements[k - 1].1,
            transcript_after(statements, transcript, (k - 1) as nat),
        ).1
    }
}

/// The proofs for commitment `k` of a list, against the transcript that
/// the pairs before it left.
pub open spec fn pair_at(
    shown: Seq<WellFormed>,
    transcript: nat,
    entropy: Seq<(Vec<[u8; 128]>, Vec<[u8; 128]>)>,
    k: int,
) -> Option<(WipProofModel, WipProofModel)> {
    pair_model(shown[k], transcript_after(statements_of(shown), transcript, k as nat), entropy[k].0@, entropy[k].1@)
}

impl WellFormed {
    /// The vectors of the witness and of both statements have one length.
    pub open spec fn consistent(&self) -> bool {
        &&& self.witness.b@.len() == self.witness.a@.len()
        &&& self.first.g_bold@.len() == self.witness.a@.len()
        &&& self.first.h_bold@.len() == self.witness.a@.len()
        &&& self.second.g_bold@.len() == self.witness.a@.len()
        &&& self.second.h_bold@.len() == self.witness.a@.len()
    }

    /// Proves both statements, each under the weight drawn from the
    /// transcript after its commitment and generator were sent.
    pub fn prove(&self, transcript: &mut Scalar, first_entropy: &Vec<[u8; 128]>, second_entropy: &Vec<[u8; 128]>) -> (r:
        Option<(WipProof, WipProof)>)
        requires
            self.consistent(),
        ensures
            final(transcript)@ == weights_model(self.first, self.second, old(transcript)@).1,
            match r {
                Some(proofs) => Some(pair_view(proofs)),
                None => None,
            } == pair_model(*self, old(transcript)@, first_entropy@, second_entropy@),
    {
        reveal(pair_model);
        let y = absorb(transcript, &self.first.p, &self.first.g);
        let first = self.first.prove(&self.witness, &y, first_entropy);
        let y = absorb(transcript, &self.second.p, &self.second.g);
        let second = self.second.prove(&self.witness, &y, second_entropy);
        match (first, second) {
            (Some(first), Some(second)) => Some((first, second)),
            _ => None,
        }
    }
}

/// Checks the two proofs for one commitment, drawing the weights as the
/// prover does.
pub fn verify_pair(first: &WipStatement, second: &WipStatement, transcript: &mut Scalar, proofs: &(WipProof, WipProof)) -> (r:
    bool)
    requires
        first.g_bold@.len() == first.h_bold@.len(),
        second.g_bold@.len() == second.h_bold@.len(),
    ensures
        final(transcript)@ == weights_model(*first, *second, old(transcript)@).1,
        r == pair_accepted(*first, *second, old(transcript)@, pair_view(*proofs)),
{
    reveal(pair_accepted);
    let y = absorb(transcript, &first.p, &first.g);
    let first_accepted = first.verify(&proofs.0, &y);
    let y = absorb(transcript, &second.p, &second.g);
    let second_accepted = second.verify(&proofs.1, &y);
    first_accepted && second_accepted
}

/// The proofs for a list of commitments, one pair each, in order over one
/// transcript; none if the entropy is not one pair of lists for each
/// commitment or if any proof cannot be made.
pub fn prove_all(
    shown: &Vec<WellFormed>,
    transcript: &mut Scalar,
    entropy: &Vec<(Vec<[u8; 128]>, Vec<[u8; 128]>)>,
) -> (r: Option<Vec<(WipProof, WipProof)>>)
    requires
        forall|k: int| 0 <= k < shown@.len() ==> (#[trigger] shown@[k]).consistent(),
    ensures
        r is Some <==> shown@.len() == entropy@.len() && forall|k: int|
            0 <= k < shown@.len() ==> #[trigger] pair_at(shown@, old(transcript)@, entropy@, k) is Some,
        r is Some ==> r->Some_0@.len() == shown@.len() && forall|k: int|
            0 <= k < shown@.len() ==> Some(pair_view(r->Some_0@[k])) == #[trigger] pair_at(
                shown@,
                old(transcript)@,
                entropy@,
                k,
            ),
        shown@.len() == entropy@.len() ==> final(transcript)@ == transcript_after(
            statements_of(shown@),
            old(transcript)@,
            shown@.len(),
        ),
        shown@.len() != entropy@.len() ==> *final(transcript) == *old(transcript),
{
    if shown.len() != entropy.len() {
        return None;
    }
    let ghost start = transcript@;
    let ghost statements = statements_of(shown@);
    let mut out: Vec<(WipProof, WipProof)> = Vec::new();
    let mut complete = true;
    let mut i: usize = 0;
    while i < shown.len()
        invariant
            i <= shown.len(),
            shown.len() == entropy.len(),
            statements == statements_of(shown@),
            forall|k: int| 0 <= k < shown@.len() ==> (#[trigger] shown@[k]).consistent(),
            transcript@ == transcript_after(statements, start, i as nat),
            complete ==> out@.len() == i,
            complete <==> forall|k: int| 0 <= k < i ==> #[trigger] pair_at(shown@, start, entropy@, k) is Some,
            complete ==> forall|k: int|
                0 <= k < i ==> Some(pair_view(out@[k])) == #[trigger] pair_at(shown@, start, entropy@, k),
        decreases shown.len() - i,
    {
        assert(shown@[i as int].consistent());
        assert(statements[i as int] == (shown@[i as int].first, shown@[i as int].second));
        let ghost before = transcript@;
        let ghost earlier = out@;
        let made = shown[i].prove(transcript, &entropy[i].0, &entropy[i].1);
        proof {
            assert(pair_at(shown@, start, entropy@, i as int) == pair_model(
                shown@[i as int],
                before,
                entropy@[i as int].0@,
                entropy@[i as int].1@,
            ));
        }
        match made {
            Some(proofs) => {
                if complete {
                    out.push(proofs);
                    assert(forall|k: int| 0 <= k < i ==> out@[k] == earlier[k]);
                }
            },
            None => {
                complete = false;
            },
        }
        i += 1;
    }
    if complete {
        Some(out)
    } else {
        None
    }
}

/// Whether the first `k` pairs of proofs are accepted, each against the
/// transcript that the pairs before it left.
pub open spec fn all_accepted(
    statements: Seq<(WipStatement, WipStatement)>,
    proofs: Seq<(WipProof, WipProof)>,
    transcript: nat,
    k: nat,
) -> bool
    decreases k,
{
    k == 0 || (all_accepted(statements, proofs, transcript, (k - 1) as nat) && pair_accepted(
        statements[k - 1].0,
        statements[k - 1].1,
        transcript_after(statements, transcript, (k - 1) as nat),
        pair_view(proofs[k - 1]),
    ))
}

/// Checks the proofs for a list of commitments, one pair each, in order
/// over one transcript. A list of proofs of another length is rejected
/// with the transcript unchanged.
pub fn verify_all(
    statements: &Vec<(WipStatement, WipStatement)>,
    transcript: &mut Scalar,
    proofs: &Vec<(WipProof, WipProof)>,
) -> (r: bool)
    requires
        forall|k: int|
            0 <= k < statements@.len() ==> {
                &&& (#[trigger] statements@[k]).0.g_bold@.len() == statements@[k].0.h_bold@.len()
                &&& statements@[k].1.g_bold@.len() == statements@[k].1.h_bold@.len()
            },
    ensures
        r == (statements@.len() == proofs@.len() && all_accepted(
            statements@,
            proofs@,
            old(transcript)@,
            statements@.len(),
        )),
        statements@.len() == proofs@.len() ==> final(transcript)@ == transcript_after(
            statements@,
            old(transcript)@,
            statements@.len(),
        ),
        statements@.len() != proofs@.len() ==> *final(transcript) == *old(transcript),
{
    if statements.len() != proofs.len() {
        return false;
    }
    let ghost start = transcript@;
    let mut accepted = true;
    let mut i: usize = 0;
    while i < statements.len()
        invariant
            i <= statements.len(),
            statements.len() == proofs.len(),
            forall|k: int|
                0 <= k < statements@.len() ==> {
                    &&& (#[trigger] statements@[k]).0.g_bold@.len() == statements@[k].0.h_bold@.len()
                    &&& statements@[k].1.g_bold@.len() == statements@[k].1.h_bold@.len()
                },
            transcript@ == transcript_after(statements@, start, i as nat),
            accepted == all_accepted(statements@, proofs@, start, i as nat),
        decreases statements.len() - i,
    {
        assert(statements@[i as int].0.g_bold@.len() == statements@[i as int].0.h_bold@.len());
        let this = verify_pair(&statements[i].0, &statements[i].1, transcript, &proofs[i]);
        accepted = accepted && this;
        i += 1;
    }
    accepted
}

} // verus!
