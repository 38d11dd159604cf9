use threshold_core::keygen::{
    context, decimal, CoordinatorMessage, KeyGen, KeyGenFault, KeyGenId, Step, ThresholdParams,
    ValidatorSet,
};
use threshold_core::reducer::Payload;

fn id(attempt: u32) -> KeyGenId {
    KeyGenId { set: ValidatorSet { session: 3, index: 1 }, attempt }
}

const PARAMS: ThresholdParams = ThresholdParams { t: 2, n: 3, i: 1 };

fn payloads(tag: u8) -> Vec<Payload> {
    (1..=3).map(|i| Payload { index: i, bytes: vec![tag, i as u8] }).collect()
}

fn pairs(payloads: &[Payload]) -> Vec<(u16, Vec<u8>)> {
    payloads.iter().map(|p| (p.index, p.bytes.clone())).collect()
}

#[test]
fn context_names_the_attempt() {
    assert_eq!(decimal(0), b"0".to_vec());
    assert_eq!(decimal(907), b"907".to_vec());
    assert_eq!(decimal(u64::MAX), b"18446744073709551615".to_vec());
    assert_eq!(context(&id(12)), b"Key Gen. Session: 3, Index: 1, Attempt: 12".to_vec());
}

#[test]
fn two_rounds_complete() {
    let mut k = KeyGen::new();
    match k.handle(&CoordinatorMessage::GenerateKey { id: id(0), params: PARAMS }) {
        Step::Commit { id: i, params, context } => {
            assert_eq!(i, id(0));
            assert_eq!(params, PARAMS);
            assert_eq!(context, b"Key Gen. Session: 3, Index: 1, Attempt: 0".to_vec());
        }
        _ => panic!("a new attempt starts with the commitments"),
    }
    match k.handle(&CoordinatorMessage::Commitments { id: id(0), commitments: payloads(1) }) {
        Step::Share { params, rebuild, commitments, .. } => {
            assert_eq!(params, PARAMS);
            assert!(!rebuild);
            assert_eq!(pairs(&commitments), pairs(&payloads(1)));
        }
        _ => panic!("commitments start the second round"),
    }
    // The coordinator repeating itself is a fault.
    assert!(matches!(
        k.handle(&CoordinatorMessage::Commitments { id: id(0), commitments: payloads(1) }),
        Step::Fault(KeyGenFault::CommitmentsRepeated)
    ));
    match k.handle(&CoordinatorMessage::Shares { id: id(0), shares: payloads(2) }) {
        Step::Complete { rebuild_from, shares, .. } => {
            assert!(rebuild_from.is_none());
            assert_eq!(pairs(&shares), pairs(&payloads(2)));
        }
        _ => panic!("shares complete the key"),
    }
    assert!(matches!(
        k.handle(&CoordinatorMessage::ConfirmKey { activation_number: 9, id: id(0) }),
        Step::Fault(KeyGenFault::MissingKeys)
    ));
    k.save_keys(&id(0), vec![7, 7, 7]);
    match k.handle(&CoordinatorMessage::ConfirmKey { activation_number: 9, id: id(0) }) {
        Step::Confirm { activation_number, keys, .. } => {
            assert_eq!(activation_number, 9);
            assert_eq!(keys, vec![7, 7, 7]);
        }
        _ => panic!("recorded keys are confirmed"),
    }
    assert_eq!(k.keys(&vec![1, 2]), None);
    assert!(k.confirm_keys(&id(0), vec![1, 2]));
    assert!(!k.confirm_keys(&id(1), vec![3]));
    assert_eq!(k.keys(&vec![1, 2]), Some(vec![7, 7, 7]));
}

#[test]
fn machines_are_rebuilt_after_a_restart() {
    let mut k = KeyGen::new();
    // Before any parameters are known, nothing can be done.
    assert!(matches!(
        k.handle(&CoordinatorMessage::Commitments { id: id(0), commitments: payloads(1) }),
        Step::Fault(KeyGenFault::UnknownSet)
    ));
    assert!(matches!(
        k.handle(&CoordinatorMessage::Shares { id: id(0), shares: payloads(2) }),
        Step::Fault(KeyGenFault::UnknownSet)
    ));
    k.handle(&CoordinatorMessage::GenerateKey { id: id(0), params: PARAMS });
    k.handle(&CoordinatorMessage::Commitments { id: id(0), commitments: payloads(1) });
    k.handle(&CoordinatorMessage::Shares { id: id(0), shares: payloads(2) });
    // The second-round machine is used up: shares again find the recorded commitments.
    match k.handle(&CoordinatorMessage::Shares { id: id(0), shares: payloads(2) }) {
        Step::Complete { rebuild_from, .. } => {
            assert_eq!(pairs(&rebuild_from.unwrap()), pairs(&payloads(1)));
        }
        _ => panic!("the machine is rebuilt from the recorded commitments"),
    }
    // Commitments without a first-round machine in memory call for a rebuild.
    match k.handle(&CoordinatorMessage::Commitments { id: id(0), commitments: payloads(3) }) {
        Step::Share { rebuild, .. } => assert!(rebuild),
        _ => panic!("commitments start the second round"),
    }
    // Shares for an attempt without recorded commitments and without a machine.
    k.handle(&CoordinatorMessage::Shares { id: id(0), shares: payloads(2) });
    assert!(matches!(
        k.handle(&CoordinatorMessage::Shares { id: id(5), shares: payloads(2) }),
        Step::Fault(KeyGenFault::MissingCommitments)
    ));
}

#[test]
fn a_new_attempt_supersedes_the_old() {
    let mut k = KeyGen::new();
    k.handle(&CoordinatorMessage::GenerateKey { id: id(0), params: PARAMS });
    k.handle(&CoordinatorMessage::Commitments { id: id(0), commitments: payloads(1) });
    // A second attempt clears the second-round machine; its parameters are not recorded
    // again, since the set was in hand.
    let other = ThresholdParams { t: 3, n: 3, i: 1 };
    k.handle(&CoordinatorMessage::GenerateKey { id: id(1), params: other });
    match k.handle(&CoordinatorMessage::Commitments { id: id(1), commitments: payloads(4) }) {
        Step::Share { params, rebuild, .. } => {
            assert_eq!(params, PARAMS);
            assert!(!rebuild);
        }
        _ => panic!("commitments of the new attempt are accepted"),
    }
}
