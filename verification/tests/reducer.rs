use threshold_core::cohort::CohortSpec;
use threshold_core::reducer::{
    aggregate_slashes, bump_attempt, handle, handle_block, handle_event, handle_new_blocks, phase,
    provide_batch_id, provide_plan_ids, read_attempt, read_last_block, Block, Fatal, Kind,
    LogTransaction, Outbound, Payload, Phase, Reason, SignData, Signed, Submission, Verdict, Zone,
};
use threshold_core::store::Store;

const GENESIS: [u8; 32] = [7; 32];
const A: [u8; 32] = [1; 32];
const B: [u8; 32] = [2; 32];
const C: [u8; 32] = [3; 32];
const PLAN: [u8; 32] = [9; 32];
const EXTERNAL: [u8; 32] = [10; 32];
const HOST: [u8; 32] = [11; 32];
const BLOCK: [u8; 32] = [12; 32];

fn cohort() -> CohortSpec {
    CohortSpec::new(GENESIS, 5, 2, vec![A, B, C]).unwrap()
}

fn signed(signer: [u8; 32]) -> Signed {
    Signed { signer, nonce: 0, signature: [0; 64] }
}

fn sign_data(signer: [u8; 32], attempt: u32, data: &[u8]) -> SignData {
    SignData { plan: PLAN, attempt, data: data.to_vec(), signed: signed(signer) }
}

fn authorized_batch_store() -> Store {
    let mut store = Store::new();
    provide_batch_id(&mut store, &GENESIS, &EXTERNAL, &PLAN);
    let done = handle_event(&mut store, &cohort(), &A, &[0; 32], 0, &LogTransaction::ExternalBlock(EXTERNAL));
    assert!(matches!(done, Ok(None)));
    store
}

fn pairs(payloads: &[Payload]) -> Vec<(u16, Vec<u8>)> {
    payloads.iter().map(|p| (p.index, p.bytes.clone())).collect()
}

#[test]
fn cohort_rejects_bad_parameters() {
    assert!(CohortSpec::new(GENESIS, 0, 0, vec![A, B]).is_none());
    assert!(CohortSpec::new(GENESIS, 0, 3, vec![A, B]).is_none());
    assert!(CohortSpec::new(GENESIS, 0, 1, vec![A, B, A]).is_none());
    assert!(CohortSpec::new(GENESIS, 0, 1, vec![]).is_none());
    let c = cohort();
    assert_eq!(c.n(), 3);
    assert_eq!(c.t(), 2);
    assert_eq!(c.set(), 5);
    assert_eq!(c.genesis(), GENESIS);
    assert_eq!(c.i(&A), Some(1));
    assert_eq!(c.i(&C), Some(3));
    assert_eq!(c.i(&[4; 32]), None);
    assert_eq!(c.validators().len(), 3);
}

#[test]
fn equivocation_detection() {
    let mut store = authorized_batch_store();
    let c = cohort();
    let first = handle_event(&mut store, &c, &A, &BLOCK, 0, &LogTransaction::BatchPreprocess(sign_data(A, 0, b"X")));
    assert!(matches!(first, Ok(None)));
    let second = handle_event(&mut store, &c, &A, &BLOCK, 1, &LogTransaction::BatchPreprocess(sign_data(A, 0, b"Y")));
    match second {
        Ok(Some(Outbound::Slash { signer, reason })) => {
            assert_eq!(signer, A);
            assert_eq!(reason, Reason::Equivocation);
            assert!(reason.is_full());
        }
        _ => panic!("the second payload must raise a slash"),
    }
    // The first payload stays stored: B completes the set with A's first payload.
    let third = handle_event(&mut store, &c, &A, &BLOCK, 2, &LogTransaction::BatchPreprocess(sign_data(B, 0, b"Z")));
    match third {
        Ok(Some(Outbound::Message { kind, id, attempt, payloads })) => {
            assert_eq!(kind, Kind::BatchPreprocess);
            assert_eq!(id, PLAN);
            assert_eq!(attempt, 0);
            assert_eq!(pairs(&payloads), vec![(1, b"X".to_vec()), (2, b"Z".to_vec())]);
        }
        _ => panic!("two signers complete a set of two"),
    }
}

#[test]
fn unrecognized_id_rejection() {
    let mut store = Store::new();
    let c = cohort();
    let r = handle_event(&mut store, &c, &A, &BLOCK, 0, &LogTransaction::BatchPreprocess(sign_data(A, 0, b"X")));
    match r {
        Ok(Some(Outbound::Slash { signer, reason })) => {
            assert_eq!(signer, A);
            assert_eq!(reason, Reason::UnrecognizedId);
            assert!(reason.is_full());
        }
        _ => panic!("an unauthorized plan must raise a slash"),
    }
    assert_eq!(phase(&store, &c, Zone::Batch, &PLAN, 0), Phase::Unrecognized);
    // Nothing was stored: after authorization, the same payload is new, not a duplicate.
    provide_batch_id(&mut store, &GENESIS, &EXTERNAL, &PLAN);
    assert!(matches!(
        handle_event(&mut store, &c, &A, &BLOCK, 1, &LogTransaction::ExternalBlock(EXTERNAL)),
        Ok(None)
    ));
    assert_eq!(phase(&store, &c, Zone::Batch, &PLAN, 0), Phase::Empty);
    let again = handle_event(&mut store, &c, &A, &BLOCK, 2, &LogTransaction::BatchPreprocess(sign_data(A, 0, b"X")));
    assert!(matches!(again, Ok(None)));
    assert_eq!(phase(&store, &c, Zone::Batch, &PLAN, 0), Phase::Collecting);
    assert_eq!(phase(&store, &c, Zone::Batch, &PLAN, 1), Phase::Empty);
    assert_eq!(phase(&store, &c, Zone::Sign, &PLAN, 0), Phase::Unrecognized);
    assert_eq!(phase(&store, &c, Zone::Dkg, &[0; 32], 0), Phase::Empty);
}

#[test]
fn restart_safety() {
    let c = cohort();
    let txs = vec![
        LogTransaction::ExternalBlock(EXTERNAL),
        LogTransaction::BatchPreprocess(sign_data(A, 0, b"a")),
        LogTransaction::BatchPreprocess(sign_data(A, 0, b"b")),
        LogTransaction::BatchPreprocess(sign_data(B, 0, b"c")),
    ];

    // An uninterrupted run.
    let mut whole = Store::new();
    provide_batch_id(&mut whole, &GENESIS, &EXTERNAL, &PLAN);
    let uninterrupted = handle_block(&mut whole, &c, &A, &BLOCK, &txs);
    assert_eq!(uninterrupted.halted, None);
    assert_eq!(uninterrupted.messages.len(), 2);

    // A run that stops after events 0 and 1, then starts the block again.
    let mut store = Store::new();
    provide_batch_id(&mut store, &GENESIS, &EXTERNAL, &PLAN);
    assert!(matches!(handle_event(&mut store, &c, &A, &BLOCK, 0, &txs[0]), Ok(None)));
    assert!(matches!(handle_event(&mut store, &c, &A, &BLOCK, 1, &txs[1]), Ok(None)));
    let resumed = handle_block(&mut store, &c, &A, &BLOCK, &txs);
    assert_eq!(resumed.halted, None);
    assert_eq!(resumed.messages.len(), 2);
    match &resumed.messages[0] {
        Outbound::Slash { signer, reason } => {
            assert_eq!(*signer, A);
            assert_eq!(*reason, Reason::Equivocation);
        }
        _ => panic!("event 2 equivocates"),
    }
    match &resumed.messages[1] {
        Outbound::Message { payloads, .. } => {
            assert_eq!(pairs(payloads), vec![(1, b"a".to_vec()), (2, b"c".to_vec())]);
        }
        _ => panic!("event 3 completes the set"),
    }

    // A further replay sends nothing.
    let replay = handle_block(&mut store, &c, &A, &BLOCK, &txs);
    assert_eq!(replay.halted, None);
    assert!(replay.messages.is_empty());
}

#[test]
fn duplicate_late_and_future() {
    let mut store = authorized_batch_store();
    let c = cohort();
    let submission = |attempt: u32, bytes: &[u8]| Submission {
        kind: Kind::SignPreprocess,
        needed: 2,
        id: PLAN,
        attempt,
        bytes: bytes.to_vec(),
        signer: A,
    };
    // The plan is authorized for batches only.
    assert!(matches!(
        handle(&mut store, &c, &submission(0, b"s")),
        Ok(Verdict::Rejected(Reason::UnrecognizedId))
    ));
    provide_plan_ids(&mut store, &GENESIS, &HOST, &vec![[8; 32], PLAN]);
    assert!(matches!(
        handle_event(&mut store, &c, &A, &BLOCK, 0, &LogTransaction::HostBlock(HOST)),
        Ok(None)
    ));
    assert!(matches!(handle(&mut store, &c, &submission(1, b"s")), Ok(Verdict::Rejected(Reason::FutureAttempt))));
    assert!(matches!(handle(&mut store, &c, &submission(0, b"s")), Ok(Verdict::Pending)));
    assert!(matches!(handle(&mut store, &c, &submission(0, b"s")), Ok(Verdict::Rejected(Reason::Duplicate))));
    assert!(!Reason::Duplicate.is_full());
    assert!(!Reason::Late.is_full());
    assert_eq!(read_attempt(&store, &GENESIS, &PLAN), 0);
    assert_eq!(bump_attempt(&mut store, &GENESIS, &PLAN), 1);
    assert_eq!(bump_attempt(&mut store, &GENESIS, &PLAN), 2);
    assert_eq!(read_attempt(&store, &GENESIS, &PLAN), 2);
    assert!(matches!(handle(&mut store, &c, &submission(1, b"t")), Ok(Verdict::Rejected(Reason::Late))));
    assert!(matches!(handle(&mut store, &c, &submission(2, b"t")), Ok(Verdict::Pending)));
}

#[test]
fn key_generation_needs_every_validator() {
    let mut store = Store::new();
    let c = cohort();
    let tx = |signer: [u8; 32], bytes: &[u8]| LogTransaction::DkgCommitments(0, bytes.to_vec(), signed(signer));
    assert!(matches!(handle_event(&mut store, &c, &B, &BLOCK, 0, &tx(C, b"c")), Ok(None)));
    assert!(matches!(handle_event(&mut store, &c, &B, &BLOCK, 1, &tx(A, b"a")), Ok(None)));
    match handle_event(&mut store, &c, &B, &BLOCK, 2, &tx(B, b"b")) {
        Ok(Some(Outbound::Message { kind, id, attempt, payloads })) => {
            assert_eq!(kind, Kind::DkgCommitments);
            assert_eq!(id, [0; 32]);
            assert_eq!(attempt, 0);
            assert_eq!(pairs(&payloads), vec![(1, b"a".to_vec()), (2, b"b".to_vec()), (3, b"c".to_vec())]);
        }
        _ => panic!("three commitments complete the round"),
    }
}

#[test]
fn share_transactions_carry_one_share_per_validator() {
    let mut store = Store::new();
    let c = cohort();
    let shares = |for_b: &[u8]| {
        vec![
            Payload { index: 1, bytes: b"to a".to_vec() },
            Payload { index: 2, bytes: for_b.to_vec() },
            Payload { index: 3, bytes: b"to c".to_vec() },
        ]
    };
    let short = LogTransaction::DkgShares(0, vec![Payload { index: 2, bytes: vec![1] }], signed(A));
    match handle_event(&mut store, &c, &B, &BLOCK, 0, &short) {
        Ok(Some(Outbound::Slash { signer, reason })) => {
            assert_eq!(signer, A);
            assert_eq!(reason, Reason::WrongShareCount);
        }
        _ => panic!("one share is not three"),
    }
    let missing = LogTransaction::DkgShares(
        0,
        vec![
            Payload { index: 1, bytes: vec![1] },
            Payload { index: 3, bytes: vec![3] },
            Payload { index: 4, bytes: vec![4] },
        ],
        signed(A),
    );
    match handle_event(&mut store, &c, &B, &BLOCK, 1, &missing) {
        Ok(Some(Outbound::Slash { reason, .. })) => assert_eq!(reason, Reason::MissingShare),
        _ => panic!("no share for the second validator"),
    }
    let outsider = handle_event(&mut store, &c, &[4; 32], &BLOCK, 2, &LogTransaction::DkgShares(0, shares(b"x"), signed(A)));
    assert!(matches!(outsider, Err(Fatal::NotAValidator)));

    for (event, signer) in [(11, A), (12, B), (13, C)] {
        let commitments = LogTransaction::DkgCommitments(0, vec![signer[0]], signed(signer));
        assert!(handle_event(&mut store, &c, &B, &BLOCK, event, &commitments).is_ok());
    }

    assert!(matches!(
        handle_event(&mut store, &c, &B, &BLOCK, 3, &LogTransaction::DkgShares(0, shares(b"from a"), signed(A))),
        Ok(None)
    ));
    assert!(matches!(
        handle_event(&mut store, &c, &B, &BLOCK, 4, &LogTransaction::DkgShares(0, shares(b"from b"), signed(B))),
        Ok(None)
    ));
    match handle_event(&mut store, &c, &B, &BLOCK, 5, &LogTransaction::DkgShares(0, shares(b"from c"), signed(C))) {
        Ok(Some(Outbound::Message { kind, payloads, .. })) => {
            assert_eq!(kind, Kind::DkgShares);
            assert_eq!(
                pairs(&payloads),
                vec![(1, b"from a".to_vec()), (2, b"from b".to_vec()), (3, b"from c".to_vec())]
            );
        }
        _ => panic!("three share transactions complete the round"),
    }
}

#[test]
fn provided_blocks_must_have_been_recorded() {
    let mut store = Store::new();
    let c = cohort();
    let txs = vec![
        LogTransaction::DkgCommitments(0, vec![1], signed(A)),
        LogTransaction::ExternalBlock(EXTERNAL),
        LogTransaction::DkgCommitments(0, vec![2], signed(B)),
    ];
    let run = handle_block(&mut store, &c, &A, &BLOCK, &txs);
    assert_eq!(run.halted, Some(Fatal::MissingBatchId));
    assert!(run.messages.is_empty());
    assert!(matches!(
        handle_event(&mut store, &c, &A, &BLOCK, 9, &LogTransaction::HostBlock(HOST)),
        Err(Fatal::MissingPlanIds)
    ));
    // The halting event was not marked: once the batch is recorded, a retry goes through,
    // and the event before it is not processed twice.
    provide_batch_id(&mut store, &GENESIS, &EXTERNAL, &PLAN);
    let retry = handle_block(&mut store, &c, &A, &BLOCK, &txs);
    assert_eq!(retry.halted, None);
    assert!(retry.messages.is_empty());
}

#[test]
fn cursor_follows_the_chain() {
    let mut store = Store::new();
    let c = cohort();
    assert_eq!(read_last_block(&store, &GENESIS), GENESIS.to_vec());
    let first = Block {
        hash: [21; 32],
        parent: GENESIS,
        transactions: vec![LogTransaction::DkgCommitments(0, vec![1], signed(A))],
    };
    let stray = Block {
        hash: [22; 32],
        parent: [99; 32],
        transactions: vec![LogTransaction::DkgCommitments(0, vec![2], signed(B))],
    };
    let second = Block {
        hash: [23; 32],
        parent: [21; 32],
        transactions: vec![
            LogTransaction::DkgCommitments(0, vec![2], signed(B)),
            LogTransaction::DkgCommitments(0, vec![3], signed(C)),
        ],
    };
    let run = handle_new_blocks(&mut store, &c, &A, &vec![first, stray, second]);
    assert_eq!(run.halted, None);
    assert_eq!(run.messages.len(), 1);
    match &run.messages[0] {
        Outbound::Message { payloads, .. } => {
            assert_eq!(pairs(payloads), vec![(1, vec![1]), (2, vec![2]), (3, vec![3])]);
        }
        _ => panic!("the third commitment completes the round"),
    }
    assert_eq!(read_last_block(&store, &GENESIS), vec![23; 32]);
}

#[test]
fn shares_come_from_the_signing_set() {
    let mut store = authorized_batch_store();
    let c = cohort();
    let preprocess = |signer: [u8; 32], bytes: &[u8]| LogTransaction::BatchPreprocess(sign_data(signer, 0, bytes));
    let share = |signer: [u8; 32], bytes: &[u8]| LogTransaction::BatchShare(sign_data(signer, 0, bytes));

    assert!(matches!(handle_event(&mut store, &c, &A, &BLOCK, 0, &preprocess(C, b"pc")), Ok(None)));
    // One preprocess of two: a share is premature.
    match handle_event(&mut store, &c, &A, &BLOCK, 1, &share(C, b"sc")) {
        Ok(Some(Outbound::Slash { signer, reason })) => {
            assert_eq!(signer, C);
            assert_eq!(reason, Reason::Premature);
        }
        _ => panic!("the first round is not complete"),
    }
    match handle_event(&mut store, &c, &A, &BLOCK, 2, &preprocess(A, b"pa")) {
        Ok(Some(Outbound::Message { kind, payloads, .. })) => {
            assert_eq!(kind, Kind::BatchPreprocess);
            assert_eq!(pairs(&payloads), vec![(1, b"pa".to_vec()), (3, b"pc".to_vec())]);
        }
        _ => panic!("two preprocesses complete the first round"),
    }
    assert_eq!(phase(&store, &c, Zone::Batch, &PLAN, 0), Phase::Emitted);
    // A third preprocess is stored, but its signer is outside the signing set.
    assert!(matches!(handle_event(&mut store, &c, &A, &BLOCK, 3, &preprocess(B, b"pb")), Ok(None)));
    match handle_event(&mut store, &c, &A, &BLOCK, 4, &share(B, b"sb")) {
        Ok(Some(Outbound::Slash { signer, reason })) => {
            assert_eq!(signer, B);
            assert_eq!(reason, Reason::OutsideSigningSet);
            assert!(reason.is_full());
        }
        _ => panic!("the second validator signed too late to be in the set"),
    }
    assert!(matches!(handle_event(&mut store, &c, &A, &BLOCK, 5, &share(C, b"sc")), Ok(None)));
    assert_eq!(phase(&store, &c, Zone::Batch, &PLAN, 0), Phase::CollectingShares);
    match handle_event(&mut store, &c, &A, &BLOCK, 6, &share(A, b"sa")) {
        Ok(Some(Outbound::Message { kind, id, attempt, payloads })) => {
            assert_eq!(kind, Kind::BatchShare);
            assert_eq!(id, PLAN);
            assert_eq!(attempt, 0);
            assert_eq!(pairs(&payloads), vec![(1, b"sa".to_vec()), (3, b"sc".to_vec())]);
        }
        _ => panic!("the shares of the signing set complete the signature"),
    }
    assert_eq!(phase(&store, &c, Zone::Batch, &PLAN, 0), Phase::EmittedShares);
}

#[test]
fn wire_tags() {
    let txs = vec![
        LogTransaction::DkgCommitments(0, vec![], signed(A)),
        LogTransaction::DkgShares(0, vec![], signed(A)),
        LogTransaction::ExternalBlock(EXTERNAL),
        LogTransaction::HostBlock(HOST),
        LogTransaction::BatchPreprocess(sign_data(A, 0, b"")),
        LogTransaction::BatchShare(sign_data(A, 0, b"")),
        LogTransaction::SignPreprocess(sign_data(A, 0, b"")),
        LogTransaction::SignShare(sign_data(A, 0, b"")),
    ];
    for (tag, tx) in txs.iter().enumerate() {
        assert_eq!(tx.tag() as usize, tag);
        assert_eq!(tx.is_provided(), tag == 2 || tag == 3);
    }
    assert_eq!(Kind::BatchShare.tag(), 5);
    assert_eq!(Kind::SignPreprocess.zone(), Zone::Sign);
    assert_eq!(Kind::DkgShares.zone(), Zone::Dkg);
    assert_eq!(Kind::BatchShare.first_round(), Some(Kind::BatchPreprocess));
    assert_eq!(Kind::BatchPreprocess.first_round(), None);
    assert_eq!((Zone::Dkg.tag(), Zone::Batch.tag(), Zone::Sign.tag()), (0, 1, 2));
}

#[test]
fn slash_intents_are_aggregated_by_signer() {
    let slash = |signer: [u8; 32], reason: Reason| Outbound::Slash { signer, reason };
    let messages = vec![
        slash(B, Reason::Late),
        Outbound::Message { kind: Kind::SignShare, id: PLAN, attempt: 0, payloads: vec![] },
        slash(A, Reason::Equivocation),
        slash(B, Reason::Duplicate),
        slash(B, Reason::FutureAttempt),
        slash(A, Reason::UnrecognizedId),
        slash(C, Reason::Late),
    ];
    let totals = aggregate_slashes(&messages);
    let summary: Vec<([u8; 32], u32, bool)> = totals.iter().map(|t| (t.signer, t.partial, t.full)).collect();
    assert_eq!(summary, vec![(B, 2, true), (A, 0, true), (C, 1, false)]);
    assert!(aggregate_slashes(&vec![]).is_empty());
}

fn shares_to_all(for_b: &[u8]) -> Vec<Payload> {
    vec![
        Payload { index: 1, bytes: b"to a".to_vec() },
        Payload { index: 2, bytes: for_b.to_vec() },
        Payload { index: 3, bytes: b"to c".to_vec() },
    ]
}

#[test]
fn key_generation_shares_wait_for_no_signing_set() {
    let c = cohort();
    let mut store = Store::new();
    // No commitment is in: the share is counted all the same.
    let early = LogTransaction::DkgShares(0, shares_to_all(b"early"), signed(A));
    assert!(matches!(handle_event(&mut store, &c, &B, &BLOCK, 0, &early), Ok(None)));
}

#[test]
fn late_key_generation_share_is_slashed_in_part() {
    let c = cohort();
    let mut store = Store::new();
    bump_attempt(&mut store, &c.genesis(), &[0; 32]);
    // The first round of attempt 0 never completed; the share is late, no more.
    let late = LogTransaction::DkgShares(0, shares_to_all(b"late"), signed(A));
    match handle_event(&mut store, &c, &B, &BLOCK, 0, &late) {
        Ok(Some(Outbound::Slash { signer, reason })) => {
            assert_eq!(signer, A);
            assert_eq!(reason, Reason::Late);
            assert!(!reason.is_full());
        }
        _ => panic!("a late share"),
    }
}
