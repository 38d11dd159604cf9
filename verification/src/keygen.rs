//! The key-generation state machine of one validator: which step of the
//! two-round protocol a message from the coordinator calls for, and what
//! is recorded so that the protocol survives a restart.
//!
//! The cryptography of each step runs outside; this module decides the
//! step and keeps the records.

use vstd::prelude::*;
use crate::reducer::Payload;
use crate::store::{bytes_copy, Store, Table};

verus! {

/// A validator set: a session and the index of the set in it.
#[derive(Clone, Copy, Debug, PartialEq, Eq, Structural)]
pub struct ValidatorSet {
    pub session: u32,
    pub index: u16,
}

/// An attempt at generating a key for a validator set.
#[derive(Clone, Copy, Debug, PartialEq, Eq, Structural)]
pub struct KeyGenId {
    pub set: ValidatorSet,
    pub attempt: u32,
}

/// The parameters of a threshold key: the threshold, the number of
/// participants, and this participant's index.
#[derive(Clone, Copy, Debug, PartialEq, Eq, Structural)]
pub struct ThresholdParams {
    pub t: u16,
    pub n: u16,
    pub i: u16,
}

/// A message from the coordinator.
pub enum CoordinatorMessage {
    GenerateKey { id: KeyGenId, params: ThresholdParams },
    Commitments { id: KeyGenId, commitments: Vec<Payload> },
    Shares { id: KeyGenId, shares: Vec<Payload> },
    ConfirmKey { activation_number: u64, id: KeyGenId },
}

/// Why a message cannot be acted on.
#[derive(Clone, Copy, Debug, PartialEq, Eq, Structural)]
pub enum KeyGenFault {
    /// Commitments arrived for a set whose commitments were handled
    /// already: the coordinator repeats itself or lost a message.
    CommitmentsRepeated,
    /// No parameters are recorded for the set.
    UnknownSet,
    /// The machine is gone and no commitments are recorded to rebuild it
    /// from.
    MissingCommitments,
    /// No generated keys are recorded for the attempt.
    MissingKeys,
}

/// The step that a message calls for.
pub enum Step {
    /// Sample the coefficients and publish the commitments.
    Commit { id: KeyGenId, params: ThresholdParams, context: Vec<u8> },
    /// Publish the encrypted shares for the given commitments, first
    /// rebuilding the first-round machine if `rebuild` is set.
    Share { id: KeyGenId, params: ThresholdParams, context: Vec<u8>, rebuild: bool, commitments: Vec<Payload> },
    /// Complete the key from the given shares. If the second-round machine
    /// is gone, `rebuild_from` holds the recorded commitments to run the
    /// first two rounds against again.
    Complete {
        id: KeyGenId,
        params: ThresholdParams,
        context: Vec<u8>,
        rebuild_from: Option<Vec<Payload>>,
        shares: Vec<Payload>,
    },
    /// Activate the recorded keys.
    Confirm { id: KeyGenId, activation_number: u64, keys: Vec<u8> },
    /// Do nothing but report.
    Fault(KeyGenFault),
}

/// The key of a set in a table.
pub open spec fn set_key(set: ValidatorSet) -> u128 {
    ((set.session as u128) * 65536 + set.index as u128) as u128
}

/// The key of an attempt in a table.
pub open spec fn id_key(id: KeyGenId) -> u128 {
    (set_key(id.set) * 4294967296 + id.attempt as u128) as u128
}

fn make_set_key(set: ValidatorSet) -> (r: u128)
    ensures
        r == set_key(set),
{
    (set.session as u128) * 65536 + set.index as u128
}

fn make_id_key(id: KeyGenId) -> (r: u128)
    ensures
        r == id_key(id),
{
    make_set_key(id.set) * 4294967296 + id.attempt as u128
}

/// The decimal digits of a number, as ASCII.
pub open spec fn decimal_model(x: nat) -> Seq<u8>
    decreases x,
{
    if x < 10 {
        seq![(48 + x) as u8]
    } else {
        decimal_model(x / 10).push((48 + x % 10) as u8)
    }
}

/// The decimal digits of a number, as ASCII.
pub fn decimal(x: u64) -> (r: Vec<u8>)
    ensures
        r@ == decimal_model(x as nat),
    decreases x,
{
    if x < 10 {
        let mut r: Vec<u8> = Vec::new();
        r.push((48 + x) as u8);
        assert(r@ =~= seq![(48 + x) as u8]);
        r
    } else {
        let mut r = decimal(x / 10);
        r.push((48 + x % 10) as u8);
        r
    }
}

/// The ASCII text `Key Gen. Session: `.
pub open spec fn session_label() -> Seq<u8> {
    seq![75u8, 101, 121, 32, 71, 101, 110, 46, 32, 83, 101, 115, 115, 105, 111, 110, 58, 32]
}

/// The ASCII text `, Index: `.
pub open spec fn index_label() -> Seq<u8> {
    seq![44u8, 32, 73, 110, 100, 101, 120, 58, 32]
}

/// The ASCII text `, Attempt: `.
pub open spec fn attempt_label() -> Seq<u8> {
    seq![44u8, 32, 65, 116, 116, 101, 109, 112, 116, 58, 32]
}

/// The context that binds everything derived in an attempt to it:
/// `Key Gen. Session: s, Index: i, Attempt: a`, with the three numbers in
/// decimal.
pub open spec fn context_model(id: KeyGenId) -> Seq<u8> {
    session_label() + decimal_model(id.set.session as nat) + index_label() + decimal_model(
        id.set.index as nat,
    ) + attempt_label() + decimal_model(id.attempt as nat)
}

fn push_all(out: &mut Vec<u8>, a: &Vec<u8>)
    ensures
        final(out)@ == old(out)@ + a@,
{
    let ghost before = out@;
    let mut i: usize = 0;
    while i < a.len()
        invariant
            i <= a.len(),
            out@ == before + a@.take(i as int),
        decreases a.len() - i,
    {
        out.push(a[i]);
        assert(before + a@.take(i as int + 1) =~= (before + a@.take(i as int)).push(a@[i as int]));
        i += 1;
    }
    assert(a@.take(a.len() as int) =~= a@);
}

/// The context of an attempt.
pub fn context(id: &KeyGenId) -> (r: Vec<u8>)
    ensures
        r@ == context_model(*id),
{
    let mut out = vec![75u8, 101, 121, 32, 71, 101, 110, 46, 32, 83, 101, 115, 115, 105, 111, 110, 58, 32];
    assert(out@ =~= session_label());
    push_all(&mut out, &decimal(id.set.session as u64));
    let label = vec![44u8, 32, 73, 110, 100, 101, 120, 58, 32];
    assert(label@ =~= index_label());
    push_all(&mut out, &label);
    push_all(&mut out, &decimal(id.set.index as u64));
    let label = vec![44u8, 32, 65, 116, 116, 101, 109, 112, 116, 58, 32];
    assert(label@ =~= attempt_label());
    push_all(&mut out, &label);
    push_all(&mut out, &decimal(id.attempt as u64));
    out
}

fn copy_payloads(list: &Vec<Payload>) -> (r: Vec<Payload>)
    ensures
        crate::reducer::payloads_model(r@) == crate::reducer::payloads_model(list@),
{
    let mut r: Vec<Payload> = Vec::new();
    let mut i: usize = 0;
    while i < list.len()
        invariant
            i <= list.len(),
            r.len() == i,
            forall|k: int| 0 <= k < i ==> r@[k].index == list@[k].index && r@[k].bytes@ == list@[k].bytes@,
        decreases list.len() - i,
    {
        r.push(Payload { index: list[i].index, bytes: bytes_copy(&list[i].bytes) });
        i += 1;
    }
    assert(crate::reducer::payloads_model(r@) =~= crate::reducer::payloads_model(list@));
    r
}

/// The records and the machines in flight of one validator.
pub struct KeyGen {
    params: Table<ThresholdParams>,
    commitments: Table<Vec<Payload>>,
    generated_keys: Table<Vec<u8>>,
    keys: Store,
    active_commit: Table<bool>,
    active_share: Table<bool>,
}

/// [`KeyGen`] as a value of contracts.
pub ghost struct KeyGenModel {
    /// `params`: the parameters recorded for each set.
    pub params: Map<u128, ThresholdParams>,
    /// `commitments`: the commitments recorded for each attempt.
    pub commitments: Map<u128, Seq<(u16, Seq<u8>)>>,
    /// `generated_keys`: the keys generated in each attempt.
    pub generated_keys: Map<u128, Seq<u8>>,
    /// `keys`: the confirmed keys, by group key.
    pub keys: Map<Seq<u8>, Seq<u8>>,
    /// The sets with a first-round machine in memory.
    pub active_commit: Set<u128>,
    /// The sets with a second-round machine in memory.
    pub active_share: Set<u128>,
}

/// [`Step`] as a value of contracts.
pub ghost enum StepModel {
    Commit { id: KeyGenId, params: ThresholdParams, context: Seq<u8> },
    Share {
        id: KeyGenId,
        params: ThresholdParams,
        context: Seq<u8>,
        rebuild: bool,
        commitments: Seq<(u16, Seq<u8>)>,
    },
    Complete {
        id: KeyGenId,
        params: ThresholdParams,
        context: Seq<u8>,
        rebuild_from: Option<Seq<(u16, Seq<u8>)>>,
        shares: Seq<(u16, Seq<u8>)>,
    },
    Confirm { id: KeyGenId, activation_number: u64, keys: Seq<u8> },
    Fault(KeyGenFault),
}

impl View for Step {
    type V = StepModel;

    open spec fn view(&self) -> StepModel {
        match self {
            Step::Commit { id, params, context } => StepModel::Commit {
                id: *id,
                params: *params,
                context: context@,
            },
            Step::Share { id, params, context, rebuild, commitments } => StepModel::Share {
                id: *id,
                params: *params,
                context: context@,
                rebuild: *rebuild,
                commitments: crate::reducer::payloads_model(commitments@),
            },
            Step::Complete { id, params, context, rebuild_from, shares } => StepModel::Complete {
                id: *id,
                params: *params,
                context: context@,
                rebuild_from: match rebuild_from {
                    Some(c) => Some(crate::reducer::payloads_model(c@)),
                    None => None,
                },
                shares: crate::reducer::payloads_model(shares@),
            },
            Step::Confirm { id, activation_number, keys } => StepModel::Confirm {
                id: *id,
                activation_number: *activation_number,
                keys: keys@,
            },
            Step::Fault(f) => StepModel::Fault(*f),
        }
    }
}

/// Whether a table of flags has a set flag for a key.
pub open spec fn flagged(flags: Map<u128, bool>, key: u128) -> bool {
    flags.contains_key(key) && flags[key]
}

impl View for KeyGen {
    type V = KeyGenModel;

    closed spec fn view(&self) -> KeyGenModel {
        KeyGenModel {
            params: self.params@,
            commitments: Map::new(
                |k: u128| self.commitments@.contains_key(k),
                |k: u128| crate::reducer::payloads_model(self.commitments@[k]@),
            ),
            generated_keys: Map::new(
                |k: u128| self.generated_keys@.contains_key(k),
                |k: u128| self.generated_keys@[k]@,
            ),
            keys: self.keys@,
            active_commit: Set::new(|k: u128| flagged(self.active_commit@, k)),
            active_share: Set::new(|k: u128| flagged(self.active_share@, k)),
        }
    }
}

/// What a message does to the state, and the step it calls for.
///
/// - `GenerateKey` supersedes every machine of the set. The parameters are
///   recorded if the set had no machine, and the first round starts.
/// - `Commitments` are a fault if the set's commitments were handled, and
///   an unknown set is a fault. Otherwise the commitments are recorded and
///   the second round starts, on the machine in memory or on a rebuilt
///   one.
/// - `Shares` complete the key, on the machine in memory or on one rebuilt
///   from the recorded commitments; without either, they are a fault.
/// - `ConfirmKey` activates the keys recorded for the attempt.
pub open spec fn handle_model(s: KeyGenModel, msg: CoordinatorMessage) -> (KeyGenModel, StepModel) {
    match msg {
        CoordinatorMessage::GenerateKey { id, params } => {
            let set = set_key(id.set);
            let fresh = !s.active_commit.contains(set) && !s.active_share.contains(set);
            (
                KeyGenModel {
                    params: if fresh {
                        s.params.insert(set, params)
                    } else {
                        s.params
                    },
                    active_commit: s.active_commit.insert(set),
                    active_share: s.active_share.remove(set),
                    ..s
                },
                StepModel::Commit { id, params, context: context_model(id) },
            )
        },
        CoordinatorMessage::Commitments { id, commitments } => {
            let set = set_key(id.set);
            if s.active_share.contains(set) {
                (s, StepModel::Fault(KeyGenFault::CommitmentsRepeated))
            } else if !s.params.contains_key(set) {
                (s, StepModel::Fault(KeyGenFault::UnknownSet))
            } else {
                (
                    KeyGenModel {
                        commitments: s.commitments.insert(
                            id_key(id),
                            crate::reducer::payloads_model(commitments@),
                        ),
                        active_commit: s.active_commit.remove(set),
                        active_share: s.active_share.insert(set),
                        ..s
                    },
                    StepModel::Share {
                        id,
                        params: s.params[set],
                        context: context_model(id),
                        rebuild: !s.active_commit.contains(set),
                        commitments: crate::reducer::payloads_model(commitments@),
                    },
                )
            }
        },
        CoordinatorMessage::Shares { id, shares } => {
            let set = set_key(id.set);
            if !s.params.contains_key(set) {
                (s, StepModel::Fault(KeyGenFault::UnknownSet))
            } else if !s.active_share.contains(set) && !s.commitments.contains_key(id_key(id)) {
                (s, StepModel::Fault(KeyGenFault::MissingCommitments))
            } else {
                (
                    KeyGenModel { active_share: s.active_share.remove(set), ..s },
                    StepModel::Complete {
                        id,
                        params: s.params[set],
                        context: context_model(id),
                        rebuild_from: if s.active_share.contains(set) {
                            None
                        } else {
                            Some(s.commitments[id_key(id)])
                        },
                        shares: crate::reducer::payloads_model(shares@),
                    },
                )
            }
        },
        CoordinatorMessage::ConfirmKey { activation_number, id } => {
            if s.generated_keys.contains_key(id_key(id)) {
                (s, StepModel::Confirm { id, activation_number, keys: s.generated_keys[id_key(id)] })
            } else {
                (s, StepModel::Fault(KeyGenFault::MissingKeys))
            }
        },
    }
}

impl KeyGen {
    /// A state with no records and no machines.
    pub fn new() -> (r: KeyGen)
        ensures
            r@.params == Map::<u128, ThresholdParams>::empty(),
            r@.commitments == Map::<u128, Seq<(u16, Seq<u8>)>>::empty(),
            r@.generated_keys == Map::<u128, Seq<u8>>::empty(),
            r@.keys == Map::<Seq<u8>, Seq<u8>>::empty(),
            r@.active_commit == Set::<u128>::empty(),
            r@.active_share == Set::<u128>::empty(),
    {
        let r = KeyGen {
            params: Table::new(),
            commitments: Table::new(),
            generated_keys: Table::new(),
            keys: Store::new(),
            active_commit: Table::new(),
            active_share: Table::new(),
        };
        proof {
            assert(r@.commitments =~= Map::<u128, Seq<(u16, Seq<u8>)>>::empty());
            assert(r@.generated_keys =~= Map::<u128, Seq<u8>>::empty());
            assert(r@.active_commit =~= Set::<u128>::empty());
            assert(r@.active_share =~= Set::<u128>::empty());
        }
        r
    }

    /// The confirmed keys of a group key, if there are any.
    pub fn keys(&self, group_key: &Vec<u8>) -> (r: Option<Vec<u8>>)
        ensures
            r is Some <==> self@.keys.contains_key(group_key@),
            r is Some ==> r->Some_0@ == self@.keys[group_key@],
    {
        self.keys.get(group_key)
    }

    /// Decides the step that a message calls for, and updates the records
    /// and the account of machines in memory.
    pub fn handle(&mut self, msg: &CoordinatorMessage) -> (r: Step)
        ensures
            (final(self)@, r@) == handle_model(old(self)@, *msg),
    {
        let ghost before = self@;
        match msg {
            CoordinatorMessage::GenerateKey { id, params } => {
                let set = make_set_key(id.set);
                let committing = match self.active_commit.get(set) {
                    Some(flag) => *flag,
                    None => false,
                };
                let sharing = match self.active_share.get(set) {
                    Some(flag) => *flag,
                    None => false,
                };
                if !committing && !sharing {
                    self.params.put(set, *params);
                }
                self.active_commit.put(set, true);
                self.active_share.put(set, false);
                proof {
                    let after = handle_model(before, *msg).0;
                    assert(self@.commitments =~= after.commitments);
                    assert(self@.generated_keys =~= after.generated_keys);
                    assert(self@.active_commit =~= after.active_commit);
                    assert(self@.active_share =~= after.active_share);
                }
                Step::Commit { id: *id, params: *params, context: context(id) }
            },
            CoordinatorMessage::Commitments { id, commitments } => {
                let set = make_set_key(id.set);
                let sharing = match self.active_share.get(set) {
                    Some(flag) => *flag,
                    None => false,
                };
                if sharing {
                    return Step::Fault(KeyGenFault::CommitmentsRepeated);
                }
                let params = match self.params.get(set) {
                    Some(params) => *params,
                    None => {
                        return Step::Fault(KeyGenFault::UnknownSet);
                    },
                };
                let committing = match self.active_commit.get(set) {
                    Some(flag) => *flag,
                    None => false,
                };
                self.commitments.put(make_id_key(*id), copy_payloads(commitments));
                self.active_commit.put(set, false);
                self.active_share.put(set, true);
                proof {
                    let after = handle_model(before, *msg).0;
                    assert(self@.commitments =~= after.commitments);
                    assert(self@.generated_keys =~= after.generated_keys);
                    assert(self@.active_commit =~= after.active_commit);
                    assert(self@.active_share =~= after.active_share);
                }
                Step::Share {
                    id: *id,
                    params,
                    context: context(id),
                    rebuild: !committing,
                    commitments: copy_payloads(commitments),
                }
            },
            CoordinatorMessage::Shares { id, shares } => {
                let set = make_set_key(id.set);
                let params = match self.params.get(set) {
                    Some(params) => *params,
                    None => {
                        return Step::Fault(KeyGenFault::UnknownSet);
                    },
                };
                let sharing = match self.active_share.get(set) {
                    Some(flag) => *flag,
                    None => false,
                };
                let rebuild_from = if sharing {
                    None
                } else {
                    match self.commitments.get(make_id_key(*id)) {
                        Some(recorded) => Some(copy_payloads(recorded)),
                        None => {
                            return Step::Fault(KeyGenFault::MissingCommitments);
                        },
                    }
                };
                self.active_share.put(set, false);
                proof {
                    let after = handle_model(before, *msg).0;
                    assert(self@.commitments =~= after.commitments);
                    assert(self@.generated_keys =~= after.generated_keys);
                    assert(self@.active_commit =~= after.active_commit);
                    assert(self@.active_share =~= after.active_share);
                }
                Step::Complete {
                    id: *id,
                    params,
                    context: context(id),
                    rebuild_from,
                    shares: copy_payloads(shares),
                }
            },
            CoordinatorMessage::ConfirmKey { activation_number, id } => {
                match self.generated_keys.get(make_id_key(*id)) {
                    Some(keys) => Step::Confirm {
                        id: *id,
                        activation_number: *activation_number,
                        keys: bytes_copy(keys),
                    },
                    None => Step::Fault(KeyGenFault::MissingKeys),
                }
            },
        }
    }

    /// Records the keys that an attempt generated.
    pub fn save_keys(&mut self, id: &KeyGenId, keys: Vec<u8>)
        ensures
            final(self)@ == (KeyGenModel {
                generated_keys: old(self)@.generated_keys.insert(id_key(*id), keys@),
                ..old(self)@
            }),
    {
        let ghost before = self@;
        self.generated_keys.put(make_id_key(*id), keys);
        proof {
            assert(self@.generated_keys =~= before.generated_keys.insert(id_key(*id), keys@));
            assert(self@.commitments =~= before.commitments);
            assert(self@.active_commit =~= before.active_commit);
            assert(self@.active_share =~= before.active_share);
        }
    }

    /// Records the keys of an attempt as confirmed, under their group key.
    /// Nothing is recorded if the attempt generated no keys.
    pub fn confirm_keys(&mut self, id: &KeyGenId, group_key: Vec<u8>) -> (r: bool)
        ensures
            r == old(self)@.generated_keys.contains_key(id_key(*id)),
            final(self)@ == if r {
                KeyGenModel {
                    keys: old(self)@.keys.insert(group_key@, old(self)@.generated_keys[id_key(*id)]),
                    ..old(self)@
                }
            } else {
                old(self)@
            },
    {
        let ghost before = self@;
        let keys = match self.generated_keys.get(make_id_key(*id)) {
            Some(keys) => bytes_copy(keys),
            None => {
                return false;
            },
        };
        self.keys.put(group_key, keys);
        proof {
            assert(self@.generated_keys =~= before.generated_keys);
            assert(self@.commitments =~= before.commitments);
            assert(self@.active_commit =~= before.active_commit);
            assert(self@.active_share =~= before.active_share);
        }
        true
    }
}

} // verus!
