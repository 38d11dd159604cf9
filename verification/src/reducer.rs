//! The reducer of the replicated log: what one log event does to the
//! persisted records of a cohort, and which messages it sends out.
//!
//! Every effect of an event is described by a function of the records as a
//! map ([`event_model`]); the executable reducer is proved to compute it.

use vstd::prelude::*;
use crate::cohort::{array32_eq, position, CohortSpec};
use crate::store::{bytes_copy, bytes_eq, Store};

verus! {

/// The three families of identifiers.
#[derive(Clone, Copy, Debug, PartialEq, Eq, Structural)]
pub enum Zone {
    Dkg,
    Batch,
    Sign,
}

/// The kinds of signed message, one per round of each protocol.
#[derive(Clone, Copy, Debug, PartialEq, Eq, Structural)]
pub enum Kind {
    DkgCommitments,
    DkgShares,
    BatchPreprocess,
    BatchShare,
    SignPreprocess,
    SignShare,
}

/// Why a signed message was turned down.
#[derive(Clone, Copy, Debug, PartialEq, Eq, Structural)]
pub enum Reason {
    /// The same payload was submitted before.
    Duplicate,
    /// The attempt is older than the current one.
    Late,
    /// The identifier was never authorized by a provided transaction.
    UnrecognizedId,
    /// A different payload was submitted before.
    Equivocation,
    /// The attempt is newer than the current one.
    FutureAttempt,
    /// A share transaction does not hold one share per validator.
    WrongShareCount,
    /// A share transaction holds no share for this validator.
    MissingShare,
    /// A share arrived before the first round of its attempt was complete.
    Premature,
    /// A share is from a validator outside the signing set: not among the
    /// signers whose first-round messages completed the set.
    OutsideSigningSet,
}

/// Why the cohort halts: the local records contradict the log.
#[derive(Clone, Copy, Debug, PartialEq, Eq, Structural)]
pub enum Fatal {
    /// The log finalized an external block for which no batch was recorded.
    MissingBatchId,
    /// The log finalized a host block for which no plans were recorded.
    MissingPlanIds,
    /// The signers counted and the payloads found differ.
    AggregationMismatch,
    /// The local key is not one of the cohort's validators.
    NotAValidator,
}

/// The signature data of a signed transaction.
pub struct Signed {
    pub signer: [u8; 32],
    pub nonce: u32,
    pub signature: [u8; 64],
}

/// The body of a batch or signing message.
pub struct SignData {
    pub plan: [u8; 32],
    pub attempt: u32,
    pub data: Vec<u8>,
    pub signed: Signed,
}

/// A payload and the index of the validator that it is from or for.
#[derive(Debug)]
pub struct Payload {
    pub index: u16,
    pub bytes: Vec<u8>,
}

/// A transaction of the log.
pub enum LogTransaction {
    DkgCommitments(u32, Vec<u8>, Signed),
    DkgShares(u32, Vec<Payload>, Signed),
    ExternalBlock([u8; 32]),
    HostBlock([u8; 32]),
    BatchPreprocess(SignData),
    BatchShare(SignData),
    SignPreprocess(SignData),
    SignShare(SignData),
}

/// A signed message as the common routine sees it.
pub struct Submission {
    pub kind: Kind,
    pub needed: u16,
    pub id: [u8; 32],
    pub attempt: u32,
    pub bytes: Vec<u8>,
    pub signer: [u8; 32],
}

/// [`Submission`] as a value of contracts.
pub ghost struct SubmissionModel {
    pub kind: Kind,
    pub needed: nat,
    pub id: Seq<u8>,
    pub attempt: u32,
    pub bytes: Seq<u8>,
    pub signer: Seq<u8>,
}

impl View for Submission {
    type V = SubmissionModel;

    open spec fn view(&self) -> SubmissionModel {
        SubmissionModel {
            kind: self.kind,
            needed: self.needed as nat,
            id: self.id@,
            attempt: self.attempt,
            bytes: self.bytes@,
            signer: self.signer@,
        }
    }
}

/// A block of the log.
pub struct Block {
    pub hash: [u8; 32],
    pub parent: [u8; 32],
    pub transactions: Vec<LogTransaction>,
}

/// What a run over one or more blocks sent out, and why it stopped early,
/// if it did.
pub struct Run {
    pub messages: Vec<Outbound>,
    pub halted: Option<Fatal>,
}

/// What the common routine decided.
pub enum Verdict {
    /// The payload was stored; more are needed.
    Pending,
    /// The payload was stored and completes the set, given here in
    /// validator order.
    Collected(Vec<Payload>),
    /// The payload was turned down and nothing was stored.
    Rejected(Reason),
}

/// A message to the outside: a completed set for the processor, or the
/// intent to slash a signer.
pub enum Outbound {
    Message { kind: Kind, id: [u8; 32], attempt: u32, payloads: Vec<Payload> },
    Slash { signer: [u8; 32], reason: Reason },
}

/// [`Verdict`] as a value of contracts.
pub ghost enum VerdictModel {
    Pending,
    Collected(Seq<(u16, Seq<u8>)>),
    Rejected(Reason),
}

/// [`Outbound`] as a value of contracts.
pub ghost enum OutboundModel {
    Message { kind: Kind, id: Seq<u8>, attempt: u32, payloads: Seq<(u16, Seq<u8>)> },
    Slash { signer: Seq<u8>, reason: Reason },
}

/// A list of payloads as a value of contracts.
pub open spec fn payloads_model(payloads: Seq<Payload>) -> Seq<(u16, Seq<u8>)> {
    Seq::new(payloads.len(), |i: int| (payloads[i].index, payloads[i].bytes@))
}

impl View for Verdict {
    type V = VerdictModel;

    open spec fn view(&self) -> VerdictModel {
        match self {
            Verdict::Pending => VerdictModel::Pending,
            Verdict::Collected(payloads) => VerdictModel::Collected(payloads_model(payloads@)),
            Verdict::Rejected(reason) => VerdictModel::Rejected(*reason),
        }
    }
}

impl View for Outbound {
    type V = OutboundModel;

    open spec fn view(&self) -> OutboundModel {
        match self {
            Outbound::Message { kind, id, attempt, payloads } => OutboundModel::Message {
                kind: *kind,
                id: id@,
                attempt: *attempt,
                payloads: payloads_model(payloads@),
            },
            Outbound::Slash { signer, reason } => OutboundModel::Slash {
                signer: signer@,
                reason: *reason,
            },
        }
    }
}

/// A list of messages as a value of contracts.
pub open spec fn outbound_model(messages: Seq<Outbound>) -> Seq<OutboundModel> {
    Seq::new(messages.len(), |i: int| messages[i]@)
}

impl Reason {
    /// Whether the reason is proof of malice, which costs the signer its
    /// place in the cohort, and not a recoverable fault.
    pub fn is_full(&self) -> (r: bool)
        ensures
            r == !(*self == Reason::Duplicate || *self == Reason::Late),
    {
        match self {
            Reason::Duplicate => false,
            Reason::Late => false,
            _ => true,
        }
    }
}

impl Zone {
    /// The byte that stands for the zone in a key.
    pub open spec fn tag_model(self) -> u8 {
        match self {
            Zone::Dkg => 0,
            Zone::Batch => 1,
            Zone::Sign => 2,
        }
    }

    /// The byte that stands for the zone in a key.
    pub fn tag(&self) -> (r: u8)
        ensures
            r == self.tag_model(),
    {
        match self {
            Zone::Dkg => 0,
            Zone::Batch => 1,
            Zone::Sign => 2,
        }
    }
}

impl Kind {
    /// The zone whose identifiers the kind speaks of.
    pub open spec fn zone_model(self) -> Zone {
        match self {
            Kind::DkgCommitments => Zone::Dkg,
            Kind::DkgShares => Zone::Dkg,
            Kind::BatchPreprocess => Zone::Batch,
            Kind::BatchShare => Zone::Batch,
            Kind::SignPreprocess => Zone::Sign,
            Kind::SignShare => Zone::Sign,
        }
    }

    /// The zone whose identifiers the kind speaks of.
    pub fn zone(&self) -> (r: Zone)
        ensures
            r == self.zone_model(),
    {
        match self {
            Kind::DkgCommitments => Zone::Dkg,
            Kind::DkgShares => Zone::Dkg,
            Kind::BatchPreprocess => Zone::Batch,
            Kind::BatchShare => Zone::Batch,
            Kind::SignPreprocess => Zone::Sign,
            Kind::SignShare => Zone::Sign,
        }
    }

    /// The kind of the first round that a share answers; none for a kind
    /// of the first round.
    pub open spec fn first_round_model(self) -> Option<Kind> {
        match self {
            Kind::DkgShares => Some(Kind::DkgCommitments),
            Kind::BatchShare => Some(Kind::BatchPreprocess),
            Kind::SignShare => Some(Kind::SignPreprocess),
            _ => None,
        }
    }

    /// The kind of the first round that a share answers; none for a kind
    /// of the first round.
    pub fn first_round(&self) -> (r: Option<Kind>)
        ensures
            r == self.first_round_model(),
    {
        match self {
            Kind::DkgShares => Some(Kind::DkgCommitments),
            Kind::BatchShare => Some(Kind::BatchPreprocess),
            Kind::SignShare => Some(Kind::SignPreprocess),
            _ => None,
        }
    }

    /// The byte that tags the kind's transaction on the wire.
    pub open spec fn tag_model(self) -> u8 {
        match self {
            Kind::DkgCommitments => 0,
            Kind::DkgShares => 1,
            Kind::BatchPreprocess => 4,
            Kind::BatchShare => 5,
            Kind::SignPreprocess => 6,
            Kind::SignShare => 7,
        }
    }

    /// The byte that tags the kind's transaction on the wire.
    pub fn tag(&self) -> (r: u8)
        ensures
            r == self.tag_model(),
    {
        match self {
            Kind::DkgCommitments => 0,
            Kind::DkgShares => 1,
            Kind::BatchPreprocess => 4,
            Kind::BatchShare => 5,
            Kind::SignPreprocess => 6,
            Kind::SignShare => 7,
        }
    }
}

/// The four bytes of a 32-bit number, least significant first.
pub open spec fn le32(x: u32) -> Seq<u8> {
    seq![
        (x % 256) as u8,
        ((x / 256) % 256) as u8,
        ((x / 65536) % 256) as u8,
        (x / 16777216) as u8,
    ]
}

/// The number that four bytes encode, least significant first; zero for
/// any other length.
pub open spec fn decode32(v: Seq<u8>) -> u32 {
    if v.len() == 4 {
        (v[0] as int + 256 * v[1] as int + 65536 * v[2] as int + 16777216 * v[3] as int) as u32
    } else {
        0
    }
}

/// Four bytes decode to the number they were made from.
pub proof fn lemma_decode_le32(x: u32)
    ensures
        decode32(le32(x)) == x,
        le32(x).len() == 4,
{
    let q1 = x / 256;
    let q2 = x / 65536;
    let q3 = x / 16777216;
    assert(x == 256 * q1 + x % 256);
    assert(q1 / 256 == q2);
    assert(q1 == 256 * q2 + q1 % 256);
    assert(q2 / 256 == q3);
    assert(q2 == 256 * q3 + q2 % 256);
    assert(q3 < 256);
}

/// `recognized_ids`: the key under which an authorized identifier is
/// marked.
pub open spec fn recognized_key(zone: Zone, genesis: Seq<u8>, id: Seq<u8>) -> Seq<u8> {
    seq![1u8, zone.tag_model()] + genesis + id
}

/// `current_attempt`: the key of an identifier's attempt counter.
pub open spec fn attempt_key(genesis: Seq<u8>, id: Seq<u8>) -> Seq<u8> {
    seq![2u8, 0u8] + genesis + id
}

/// `attempt_data`: the key of a signer's payload.
pub open spec fn data_key(kind: Kind, genesis: Seq<u8>, id: Seq<u8>, attempt: u32, signer: Seq<u8>) -> Seq<u8> {
    seq![3u8, kind.tag_model()] + genesis + id + le32(attempt) + signer
}

/// `attempt_data`: the key of the list of signers received.
pub open spec fn signers_key(kind: Kind, genesis: Seq<u8>, id: Seq<u8>, attempt: u32) -> Seq<u8> {
    seq![4u8, kind.tag_model()] + genesis + id + le32(attempt)
}

/// `handled_event`: the key that marks an event as handled.
pub open spec fn handled_key(block: Seq<u8>, event: u32) -> Seq<u8> {
    seq![5u8, 0u8] + block + le32(event)
}

/// `last_block`: the key of the cursor.
pub open spec fn last_block_key(genesis: Seq<u8>) -> Seq<u8> {
    seq![6u8, 0u8] + genesis
}

/// `batch_id`: the key of the batch that an external block gave rise to.
pub open spec fn batch_id_key(genesis: Seq<u8>, block: Seq<u8>) -> Seq<u8> {
    seq![7u8, 0u8] + genesis + block
}

/// `plan_ids`: the key of the plans that a host block gave rise to.
pub open spec fn plan_ids_key(genesis: Seq<u8>, block: Seq<u8>) -> Seq<u8> {
    seq![8u8, 0u8] + genesis + block
}

fn key_start(space: u8, sub: u8) -> (r: Vec<u8>)
    ensures
        r@ == seq![space, sub],
{
    let mut r: Vec<u8> = Vec::new();
    r.push(space);
    r.push(sub);
    assert(r@ =~= seq![space, sub]);
    r
}

fn push_array(out: &mut Vec<u8>, a: &[u8; 32])
    ensures
        final(out)@ == old(out)@ + a@,
{
    let ghost before = out@;
    let mut i: usize = 0;
    while i < 32
        invariant
            i <= 32,
            out@ == before + a@.take(i as int),
        decreases 32 - i,
    {
        out.push(a[i]);
        assert(before + a@.take(i as int + 1) =~= (before + a@.take(i as int)).push(a@[i as int]));
        i += 1;
    }
    assert(a@.take(32) =~= a@);
}

fn push_bytes(out: &mut Vec<u8>, a: &Vec<u8>)
    ensures
        final(out)@ == old(out)@ + a@,
{
    let ghost before = out@;
    let mut i: usize = 0;
    while i < a.len()
        invariant
            i <= a.len(),
            out@ == before + a@.take(i as int),
        decreases a.len() - i,
    {
        out.push(a[i]);
        assert(before + a@.take(i as int + 1) =~= (before + a@.take(i as int)).push(a@[i as int]));
        i += 1;
    }
    assert(a@.take(a.len() as int) =~= a@);
}

fn push_u32(out: &mut Vec<u8>, x: u32)
    ensures
        final(out)@ == old(out)@ + le32(x),
{
    let ghost before = out@;
    out.push((x % 256) as u8);
    out.push(((x / 256) % 256) as u8);
    out.push(((x / 65536) % 256) as u8);
    out.push((x / 16777216) as u8);
    assert(out@ =~= before + le32(x));
}

/// Whether the identifier was authorized in the zone.
pub open spec fn recognized(store: Map<Seq<u8>, Seq<u8>>, zone: Zone, genesis: Seq<u8>, id: Seq<u8>) -> bool {
    store.contains_key(recognized_key(zone, genesis, id))
}

/// The current attempt of an identifier: zero until it is bumped.
pub open spec fn current_attempt(store: Map<Seq<u8>, Seq<u8>>, genesis: Seq<u8>, id: Seq<u8>) -> u32 {
    if store.contains_key(attempt_key(genesis, id)) {
        decode32(store[attempt_key(genesis, id)])
    } else {
        0
    }
}

/// The signers received so far, as one string of 32 bytes each.
pub open spec fn signers(store: Map<Seq<u8>, Seq<u8>>, kind: Kind, genesis: Seq<u8>, id: Seq<u8>, attempt: u32) -> Seq<u8> {
    if store.contains_key(signers_key(kind, genesis, id, attempt)) {
        store[signers_key(kind, genesis, id, attempt)]
    } else {
        Seq::empty()
    }
}

/// The payloads for an attempt of the first `upto` validators, each with
/// its validator's one-based index, in validator order: the payload at
/// hand for its signer, the stored one for every other validator that has
/// one.
pub open spec fn collect_model(
    store: Map<Seq<u8>, Seq<u8>>,
    genesis: Seq<u8>,
    validators: Seq<[u8; 32]>,
    s: SubmissionModel,
    upto: nat,
) -> Seq<(u16, Seq<u8>)>
    decreases upto,
{
    if upto == 0 {
        Seq::empty()
    } else {
        let before = collect_model(store, genesis, validators, s, (upto - 1) as nat);
        let key = data_key(s.kind, genesis, s.id, s.attempt, validators[upto - 1]@);
        if validators[upto - 1]@ == s.signer {
            before.push((upto as u16, s.bytes))
        } else if store.contains_key(key) {
            before.push((upto as u16, store[key]))
        } else {
            before
        }
    }
}

/// The records after a payload was stored and its signer counted.
pub open spec fn stored_model(store: Map<Seq<u8>, Seq<u8>>, genesis: Seq<u8>, s: SubmissionModel) -> Map<Seq<u8>, Seq<u8>> {
    store.insert(data_key(s.kind, genesis, s.id, s.attempt, s.signer), s.bytes).insert(
        signers_key(s.kind, genesis, s.id, s.attempt),
        signers(store, s.kind, genesis, s.id, s.attempt) + s.signer,
    )
}

/// Whether a key is one of the first `n` keys of a list of keys of 32
/// bytes each.
pub open spec fn among(list: Seq<u8>, n: nat, key: Seq<u8>) -> bool {
    exists|j: int| 0 <= j < n && #[trigger] list.subrange(32 * j, 32 * j + 32) == key
}

/// The first round whose signing set a share must be from: that of its
/// plan. Key generation has no signing set: all validators take part.
pub open spec fn plan_round(kind: Kind) -> Option<Kind> {
    if kind.zone_model() == Zone::Dkg {
        None
    } else {
        kind.first_round_model()
    }
}

/// Why a share for a plan is turned down for the state of its first
/// round, if it is: the signing set of an attempt is the first `needed`
/// signers of its first round, and is complete once there are that many.
pub open spec fn share_refusal(store: Map<Seq<u8>, Seq<u8>>, genesis: Seq<u8>, s: SubmissionModel) -> Option<Reason> {
    match plan_round(s.kind) {
        None => None,
        Some(first) => {
            let set = signers(store, first, genesis, s.id, s.attempt);
            if set.len() < 32 * s.needed {
                Some(Reason::Premature)
            } else if !among(set, s.needed, s.signer) {
                Some(Reason::OutsideSigningSet)
            } else {
                None
            }
        },
    }
}

/// The common routine for signed messages, as a function of the records.
///
/// An identifier outside the key-generation zone must have been
/// authorized. A share for a plan must follow a complete first round and
/// be from a signer of that round's set. A payload already stored for the same kind, identifier,
/// attempt and signer makes the message a duplicate if it is the same and
/// an equivocation if it differs. An attempt below the current one is
/// late, one above it is from the future. Otherwise the signer is counted;
/// when the count reaches `needed`, the payloads of all validators are
/// collected, and must be `needed` many. The payload is stored unless the
/// message is turned down or the collection fails.
pub open spec fn handle_model(
    store: Map<Seq<u8>, Seq<u8>>,
    genesis: Seq<u8>,
    validators: Seq<[u8; 32]>,
    s: SubmissionModel,
) -> (Map<Seq<u8>, Seq<u8>>, Result<VerdictModel, Fatal>) {
    let zone = s.kind.zone_model();
    let key = data_key(s.kind, genesis, s.id, s.attempt, s.signer);
    let current = current_attempt(store, genesis, s.id);
    let count = signers(store, s.kind, genesis, s.id, s.attempt).len() + 32;
    let collected = collect_model(store, genesis, validators, s, validators.len());
    if zone != Zone::Dkg && !recognized(store, zone, genesis, s.id) {
        (store, Ok(VerdictModel::Rejected(Reason::UnrecognizedId)))
    } else if share_refusal(store, genesis, s) is Some {
        (store, Ok(VerdictModel::Rejected(share_refusal(store, genesis, s)->Some_0)))
    } else if store.contains_key(key) {
        if store[key] == s.bytes {
            (store, Ok(VerdictModel::Rejected(Reason::Duplicate)))
        } else {
            (store, Ok(VerdictModel::Rejected(Reason::Equivocation)))
        }
    } else if s.attempt < current {
        (store, Ok(VerdictModel::Rejected(Reason::Late)))
    } else if s.attempt > current {
        (store, Ok(VerdictModel::Rejected(Reason::FutureAttempt)))
    } else if count != 32 * s.needed {
        (stored_model(store, genesis, s), Ok(VerdictModel::Pending))
    } else if collected.len() != s.needed {
        (store, Err(Fatal::AggregationMismatch))
    } else {
        (stored_model(store, genesis, s), Ok(VerdictModel::Collected(collected)))
    }
}

/// The result of the common routine as a value of contracts.
pub open spec fn verdict_model(r: Result<Verdict, Fatal>) -> Result<VerdictModel, Fatal> {
    match r {
        Ok(v) => Ok(v@),
        Err(f) => Err(f),
    }
}

fn make_data_key(kind: Kind, genesis: &[u8; 32], id: &[u8; 32], attempt: u32, signer: &[u8; 32]) -> (r: Vec<u8>)
    ensures
        r@ == data_key(kind, genesis@, id@, attempt, signer@),
{
    let mut key = key_start(3, kind.tag());
    push_array(&mut key, genesis);
    push_array(&mut key, id);
    push_u32(&mut key, attempt);
    push_array(&mut key, signer);
    key
}

fn make_signers_key(kind: Kind, genesis: &[u8; 32], id: &[u8; 32], attempt: u32) -> (r: Vec<u8>)
    ensures
        r@ == signers_key(kind, genesis@, id@, attempt),
{
    let mut key = key_start(4, kind.tag());
    push_array(&mut key, genesis);
    push_array(&mut key, id);
    push_u32(&mut key, attempt);
    key
}

fn make_pair_key(space: u8, sub: u8, first: &[u8; 32], second: &Vec<u8>) -> (r: Vec<u8>)
    ensures
        r@ == seq![space, sub] + first@ + second@,
{
    let mut key = key_start(space, sub);
    push_array(&mut key, first);
    push_bytes(&mut key, second);
    key
}

fn make_handled_key(block: &[u8; 32], event: u32) -> (r: Vec<u8>)
    ensures
        r@ == handled_key(block@, event),
{
    let mut key = key_start(5, 0);
    push_array(&mut key, block);
    push_u32(&mut key, event);
    key
}

fn make_genesis_key(space: u8, genesis: &[u8; 32]) -> (r: Vec<u8>)
    ensures
        r@ == seq![space, 0u8] + genesis@,
{
    let mut key = key_start(space, 0);
    push_array(&mut key, genesis);
    key
}

fn array_to_vec(a: &[u8; 32]) -> (r: Vec<u8>)
    ensures
        r@ == a@,
{
    let mut r: Vec<u8> = Vec::new();
    push_array(&mut r, a);
    assert(Seq::<u8>::empty() + a@ =~= a@);
    r
}

fn marker() -> (r: Vec<u8>)
    ensures
        r@ == seq![1u8],
{
    let mut r: Vec<u8> = Vec::new();
    r.push(1);
    assert(r@ =~= seq![1u8]);
    r
}

/// The current attempt of an identifier.
pub fn read_attempt(store: &Store, genesis: &[u8; 32], id: &[u8; 32]) -> (r: u32)
    ensures
        r == current_attempt(store@, genesis@, id@),
{
    let key = make_pair_key(2, 0, genesis, &array_to_vec(id));
    match store.get(&key) {
        Some(v) => {
            if v.len() == 4 {
                let low: u32 = v[0] as u32 + 256 * (v[1] as u32) + 65536 * (v[2] as u32);
                low + 16777216 * (v[3] as u32)
            } else {
                0
            }
        },
        None => 0,
    }
}

/// Moves an identifier to its next attempt, as a timeout does. The
/// counter stays where it is once it has reached its maximum.
pub fn bump_attempt(store: &mut Store, genesis: &[u8; 32], id: &[u8; 32]) -> (r: u32)
    ensures
        r == if current_attempt(old(store)@, genesis@, id@) < u32::MAX {
            (current_attempt(old(store)@, genesis@, id@) + 1) as u32
        } else {
            u32::MAX
        },
        final(store)@ == old(store)@.insert(attempt_key(genesis@, id@), le32(r)),
        current_attempt(final(store)@, genesis@, id@) == r,
{
    let current = read_attempt(store, genesis, id);
    let next = if current < u32::MAX { current + 1 } else { current };
    let key = make_pair_key(2, 0, genesis, &array_to_vec(id));
    let mut value: Vec<u8> = Vec::new();
    push_u32(&mut value, next);
    proof {
        assert(Seq::<u8>::empty() + le32(next) =~= le32(next));
        lemma_decode_le32(next);
    }
    store.put(key, value);
    next
}

/// Records the batch that this node derived from an external block, when
/// it provides that block to the log.
pub fn provide_batch_id(store: &mut Store, genesis: &[u8; 32], block: &[u8; 32], batch: &[u8; 32])
    ensures
        final(store)@ == old(store)@.insert(batch_id_key(genesis@, block@), batch@),
{
    let key = make_pair_key(7, 0, genesis, &array_to_vec(block));
    store.put(key, array_to_vec(batch));
}

/// The concatenation of a list of identifiers.
pub open spec fn concat_ids(ids: Seq<[u8; 32]>) -> Seq<u8>
    decreases ids.len(),
{
    if ids.len() == 0 {
        Seq::empty()
    } else {
        concat_ids(ids.drop_last()) + ids.last()@
    }
}

/// Records the plans that this node derived from a host block, when it
/// provides that block to the log.
pub fn provide_plan_ids(store: &mut Store, genesis: &[u8; 32], block: &[u8; 32], plans: &Vec<[u8; 32]>)
    ensures
        final(store)@ == old(store)@.insert(plan_ids_key(genesis@, block@), concat_ids(plans@)),
{
    let key = make_pair_key(8, 0, genesis, &array_to_vec(block));
    let mut value: Vec<u8> = Vec::new();
    let mut i: usize = 0;
    while i < plans.len()
        invariant
            i <= plans.len(),
            value@ == concat_ids(plans@.take(i as int)),
        decreases plans.len() - i,
    {
        push_array(&mut value, &plans[i]);
        proof {
            assert(plans@.take(i as int + 1).drop_last() =~= plans@.take(i as int));
        }
        i += 1;
    }
    proof {
        assert(plans@.take(plans.len() as int) =~= plans@);
    }
    store.put(key, value);
}

/// The payloads for an attempt, in validator order.
fn collect(store: &Store, cohort: &CohortSpec, s: &Submission) -> (r: Vec<Payload>)
    ensures
        payloads_model(r@) == collect_model(
            store@,
            cohort.genesis_model(),
            cohort.validators_model(),
            s@,
            cohort.validators_model().len(),
        ),
{
    let genesis = cohort.genesis();
    let validators = cohort.validators();
    let mut out: Vec<Payload> = Vec::new();
    let mut k: usize = 0;
    assert(payloads_model(out@) =~= Seq::<(u16, Seq<u8>)>::empty());
    while k < validators.len()
        invariant
            k <= validators.len() <= u16::MAX,
            genesis@ == cohort.genesis_model(),
            validators@ == cohort.validators_model(),
            payloads_model(out@) == collect_model(store@, genesis@, validators@, s@, k as nat),
        decreases validators.len() - k,
    {
        let ghost before = out@;
        if array32_eq(&validators[k], &s.signer) {
            let bytes = bytes_copy(&s.bytes);
            out.push(Payload { index: (k + 1) as u16, bytes });
            assert(payloads_model(out@) =~= payloads_model(before).push(((k + 1) as u16, s.bytes@)));
        } else {
            let key = make_data_key(s.kind, &genesis, &s.id, s.attempt, &validators[k]);
            match store.get(&key) {
                Some(bytes) => {
                    out.push(Payload { index: (k + 1) as u16, bytes });
                    assert(payloads_model(out@) =~= payloads_model(before).push(((k + 1) as u16, bytes@)));
                },
                None => {},
            }
        }
        k += 1;
    }
    out
}

fn is_among(list: &Vec<u8>, n: u16, key: &[u8; 32]) -> (r: bool)
    requires
        32 * n <= list@.len(),
    ensures
        r == among(list@, n as nat, key@),
{
    let mut j: usize = 0;
    while j < n as usize
        invariant
            j <= n,
            32 * n <= list@.len(),
            forall|k: int| 0 <= k < j ==> #[trigger] list@.subrange(32 * k, 32 * k + 32) != key@,
        decreases n - j,
    {
        let mut b: usize = 0;
        let mut same = true;
        while b < 32
            invariant
                b <= 32,
                j < n,
                32 * n <= list@.len(),
                same == (forall|t: int| 0 <= t < b ==> list@[32 * j + t] == key@[t]),
            decreases 32 - b,
        {
            if list[32 * j + b] != key[b] {
                same = false;
            }
            b += 1;
        }
        let ghost chunk = list@.subrange(32 * j as int, 32 * j as int + 32);
        proof {
            if same {
                assert(chunk =~= key@);
            } else {
                let t = choose|t: int| 0 <= t < 32 && list@[32 * j + t] != key@[t];
                assert(chunk[t] == list@[32 * j + t]);
            }
        }
        if same {
            return true;
        }
        j += 1;
    }
    false
}

/// The common routine for signed messages.
pub fn handle(store: &mut Store, cohort: &CohortSpec, s: &Submission) -> (r: Result<Verdict, Fatal>)
    requires
        s.kind.zone_model() == Zone::Dkg ==> s.id@ == Seq::new(32, |i: int| 0u8),
    ensures
        (final(store)@, verdict_model(r)) == handle_model(
            old(store)@,
            cohort.genesis_model(),
            cohort.validators_model(),
            s@,
        ),
{
    let genesis = cohort.genesis();
    let zone = s.kind.zone();
    if zone != Zone::Dkg {
        let key = make_pair_key(1, zone.tag(), &genesis, &array_to_vec(&s.id));
        if !store.contains(&key) {
            return Ok(Verdict::Rejected(Reason::UnrecognizedId));
        }
    }
    let round = if zone == Zone::Dkg {
        None
    } else {
        s.kind.first_round()
    };
    match round {
        Some(first) => {
            let set_key = make_signers_key(first, &genesis, &s.id, s.attempt);
            let set = match store.get(&set_key) {
                Some(set) => set,
                None => Vec::new(),
            };
            if set.len() < 32 * (s.needed as usize) {
                return Ok(Verdict::Rejected(Reason::Premature));
            }
            if !is_among(&set, s.needed, &s.signer) {
                return Ok(Verdict::Rejected(Reason::OutsideSigningSet));
            }
        },
        None => {},
    }
    let key = make_data_key(s.kind, &genesis, &s.id, s.attempt, &s.signer);
    match store.get(&key) {
        Some(previous) => {
            if bytes_eq(&previous, &s.bytes) {
                return Ok(Verdict::Rejected(Reason::Duplicate));
            }
            return Ok(Verdict::Rejected(Reason::Equivocation));
        },
        None => {},
    }
    let current = read_attempt(store, &genesis, &s.id);
    if s.attempt < current {
        return Ok(Verdict::Rejected(Reason::Late));
    }
    if s.attempt > current {
        return Ok(Verdict::Rejected(Reason::FutureAttempt));
    }
    let list_key = make_signers_key(s.kind, &genesis, &s.id, s.attempt);
    let mut list = match store.get(&list_key) {
        Some(list) => list,
        None => Vec::new(),
    };
    let complete = s.needed >= 1 && list.len() == 32 * (s.needed as usize) - 32;
    push_array(&mut list, &s.signer);
    if !complete {
        store.put(key, bytes_copy(&s.bytes));
        store.put(list_key, list);
        return Ok(Verdict::Pending);
    }
    let collected = collect(store, cohort, s);
    if collected.len() != s.needed as usize {
        return Err(Fatal::AggregationMismatch);
    }
    store.put(key, bytes_copy(&s.bytes));
    store.put(list_key, list);
    Ok(Verdict::Collected(collected))
}

/// The message that a verdict on a submission sends out, if any: the
/// completed set for the processor, or the intent to slash the signer.
pub open spec fn verdict_message(s: SubmissionModel, v: VerdictModel) -> Option<OutboundModel> {
    match v {
        VerdictModel::Pending => None,
        VerdictModel::Collected(payloads) => Some(
            OutboundModel::Message { kind: s.kind, id: s.id, attempt: s.attempt, payloads },
        ),
        VerdictModel::Rejected(reason) => Some(OutboundModel::Slash { signer: s.signer, reason }),
    }
}

/// A submission put through the common routine, with the message that its
/// verdict sends out.
pub open spec fn submit_model(
    store: Map<Seq<u8>, Seq<u8>>,
    genesis: Seq<u8>,
    validators: Seq<[u8; 32]>,
    s: SubmissionModel,
) -> (Map<Seq<u8>, Seq<u8>>, Result<Option<OutboundModel>, Fatal>) {
    let (next, verdict) = handle_model(store, genesis, validators, s);
    match verdict {
        Ok(v) => (next, Ok(verdict_message(s, v))),
        Err(f) => (next, Err(f)),
    }
}

/// The first share in a list that is addressed to `index`.
pub open spec fn share_for(shares: Seq<Payload>, index: u16) -> Option<Seq<u8>>
    decreases shares.len(),
{
    if shares.len() == 0 {
        None
    } else if share_for(shares.drop_last(), index) is Some {
        share_for(shares.drop_last(), index)
    } else if shares.last().index == index {
        Some(shares.last().bytes@)
    } else {
        None
    }
}

/// The records after the first `count` identifiers of a concatenation
/// were authorized for signing.
pub open spec fn recognize_plans(store: Map<Seq<u8>, Seq<u8>>, genesis: Seq<u8>, ids: Seq<u8>, count: nat) -> Map<Seq<u8>, Seq<u8>>
    decreases count,
{
    if count == 0 {
        store
    } else {
        recognize_plans(store, genesis, ids, (count - 1) as nat).insert(
            recognized_key(Zone::Sign, genesis, ids.subrange(32 * (count - 1), 32 * count as int)),
            seq![1u8],
        )
    }
}

/// The submission that a body of a batch or signing message makes.
pub open spec fn sign_submission(kind: Kind, t: nat, data: SignData) -> SubmissionModel {
    SubmissionModel {
        kind,
        needed: t,
        id: data.plan@,
        attempt: data.attempt,
        bytes: data.data@,
        signer: data.signed.signer@,
    }
}

/// The submission that a key-generation message makes: its identifier is
/// all zero, and every validator is needed.
pub open spec fn dkg_submission(kind: Kind, n: nat, attempt: u32, bytes: Seq<u8>, signer: Seq<u8>) -> SubmissionModel {
    SubmissionModel { kind, needed: n, id: Seq::new(32, |i: int| 0u8), attempt, bytes, signer }
}

/// What a transaction does to the records, and the message it sends out.
///
/// Signed messages go through the common routine; a share transaction
/// first has its share for this validator taken out. A provided block
/// authorizes the identifiers that this node recorded for it, and halts
/// the cohort if it recorded none.
pub open spec fn transaction_model(
    store: Map<Seq<u8>, Seq<u8>>,
    genesis: Seq<u8>,
    validators: Seq<[u8; 32]>,
    t: nat,
    our_key: Seq<u8>,
    tx: LogTransaction,
) -> (Map<Seq<u8>, Seq<u8>>, Result<Option<OutboundModel>, Fatal>) {
    match tx {
        LogTransaction::DkgCommitments(attempt, bytes, signed) => submit_model(
            store,
            genesis,
            validators,
            dkg_submission(Kind::DkgCommitments, validators.len(), attempt, bytes@, signed.signer@),
        ),
        LogTransaction::DkgShares(attempt, shares, signed) => {
            let ours = position(validators, our_key);
            if shares@.len() != validators.len() {
                (
                    store,
                    Ok(
                        Some(
                            OutboundModel::Slash {
                                signer: signed.signer@,
                                reason: Reason::WrongShareCount,
                            },
                        ),
                    ),
                )
            } else if ours is None {
                (store, Err(Fatal::NotAValidator))
            } else if share_for(shares@, ours->Some_0 as u16) is None {
                (
                    store,
                    Ok(
                        Some(
                            OutboundModel::Slash { signer: signed.signer@, reason: Reason::MissingShare },
                        ),
                    ),
                )
            } else {
                submit_model(
                    store,
                    genesis,
                    validators,
                    dkg_submission(
                        Kind::DkgShares,
                        validators.len(),
                        attempt,
                        share_for(shares@, ours->Some_0 as u16)->Some_0,
                        signed.signer@,
                    ),
                )
            }
        },
        LogTransaction::ExternalBlock(block) => {
            let key = batch_id_key(genesis, block@);
            if store.contains_key(key) {
                (store.insert(recognized_key(Zone::Batch, genesis, store[key]), seq![1u8]), Ok(None))
            } else {
                (store, Err(Fatal::MissingBatchId))
            }
        },
        LogTransaction::HostBlock(block) => {
            let key = plan_ids_key(genesis, block@);
            if store.contains_key(key) {
                (recognize_plans(store, genesis, store[key], store[key].len() / 32), Ok(None))
            } else {
                (store, Err(Fatal::MissingPlanIds))
            }
        },
        LogTransaction::BatchPreprocess(data) => submit_model(
            store,
            genesis,
            validators,
            sign_submission(Kind::BatchPreprocess, t, data),
        ),
        LogTransaction::BatchShare(data) => submit_model(
            store,
            genesis,
            validators,
            sign_submission(Kind::BatchShare, t, data),
        ),
        LogTransaction::SignPreprocess(data) => submit_model(
            store,
            genesis,
            validators,
            sign_submission(Kind::SignPreprocess, t, data),
        ),
        LogTransaction::SignShare(data) => submit_model(
            store,
            genesis,
            validators,
            sign_submission(Kind::SignShare, t, data),
        ),
    }
}

/// What an event does: nothing if it is marked as handled; otherwise what
/// its transaction does, after which it is marked. An event that halts
/// the cohort leaves the records as they were, unmarked.
#[verifier::opaque]
pub open spec fn event_model(
    store: Map<Seq<u8>, Seq<u8>>,
    genesis: Seq<u8>,
    validators: Seq<[u8; 32]>,
    t: nat,
    our_key: Seq<u8>,
    block: Seq<u8>,
    event: u32,
    tx: LogTransaction,
) -> (Map<Seq<u8>, Seq<u8>>, Result<Option<OutboundModel>, Fatal>) {
    let (next, result) = transaction_model(store, genesis, validators, t, our_key, tx);
    if store.contains_key(handled_key(block, event)) {
        (store, Ok(None))
    } else if result is Err {
        (store, result)
    } else {
        (next.insert(handled_key(block, event), seq![1u8]), result)
    }
}

/// The message of an event as a value of contracts.
pub open spec fn message_model(r: Result<Option<Outbound>, Fatal>) -> Result<Option<OutboundModel>, Fatal> {
    match r {
        Ok(Some(m)) => Ok(Some(m@)),
        Ok(None) => Ok(None),
        Err(f) => Err(f),
    }
}


/// What the first `upto` events of a block do, one after another: the
/// records after them, the messages they sent, and the reason for which
/// the run halted, if it did. Nothing is done past a halt.
pub open spec fn block_model(
    store: Map<Seq<u8>, Seq<u8>>,
    genesis: Seq<u8>,
    validators: Seq<[u8; 32]>,
    t: nat,
    our_key: Seq<u8>,
    block: Seq<u8>,
    txs: Seq<LogTransaction>,
    upto: nat,
) -> (Map<Seq<u8>, Seq<u8>>, Seq<OutboundModel>, Option<Fatal>)
    decreases upto,
{
    if upto == 0 {
        (store, Seq::empty(), None)
    } else {
        let (before, sent, halted) = block_model(store, genesis, validators, t, our_key, block, txs, (upto - 1) as nat);
        let (next, result) = event_model(before, genesis, validators, t, our_key, block, (upto - 1) as u32, txs[upto - 1]);
        if halted is Some {
            (before, sent, halted)
        } else {
            match result {
                Ok(Some(m)) => (next, sent.push(m), None),
                Ok(None) => (next, sent, None),
                Err(f) => (next, sent, Some(f)),
            }
        }
    }
}

/// The cursor: the last block that was processed in full, and the genesis
/// before there is one.
pub open spec fn last_block(store: Map<Seq<u8>, Seq<u8>>, genesis: Seq<u8>) -> Seq<u8> {
    if store.contains_key(last_block_key(genesis)) {
        store[last_block_key(genesis)]
    } else {
        genesis
    }
}

/// What the first `upto` blocks of a list do: a block whose parent is the
/// cursor is processed and, unless it halts the run, becomes the cursor;
/// any other block is passed over.
pub open spec fn chain_model(
    store: Map<Seq<u8>, Seq<u8>>,
    genesis: Seq<u8>,
    validators: Seq<[u8; 32]>,
    t: nat,
    our_key: Seq<u8>,
    blocks: Seq<Block>,
    upto: nat,
) -> (Map<Seq<u8>, Seq<u8>>, Seq<OutboundModel>, Option<Fatal>)
    decreases upto,
{
    if upto == 0 {
        (store, Seq::empty(), None)
    } else {
        let (before, sent, halted) = chain_model(store, genesis, validators, t, our_key, blocks, (upto - 1) as nat);
        let b = blocks[upto - 1];
        let (next, more, stop) = block_model(before, genesis, validators, t, our_key, b.hash@, b.transactions@, b.transactions@.len());
        if halted is Some || b.parent@ != last_block(before, genesis) {
            (before, sent, halted)
        } else if stop is Some {
            (next, sent + more, stop)
        } else {
            (next.insert(last_block_key(genesis), b.hash@), sent + more, None)
        }
    }
}

fn submit(store: &mut Store, cohort: &CohortSpec, s: Submission) -> (r: Result<Option<Outbound>, Fatal>)
    requires
        s.kind.zone_model() == Zone::Dkg ==> s.id@ == Seq::new(32, |i: int| 0u8),
    ensures
        (final(store)@, message_model(r)) == submit_model(
            old(store)@,
            cohort.genesis_model(),
            cohort.validators_model(),
            s@,
        ),
{
    match handle(store, cohort, &s) {
        Err(f) => Err(f),
        Ok(Verdict::Pending) => Ok(None),
        Ok(Verdict::Collected(payloads)) => Ok(
            Some(Outbound::Message { kind: s.kind, id: s.id, attempt: s.attempt, payloads }),
        ),
        Ok(Verdict::Rejected(reason)) => Ok(Some(Outbound::Slash { signer: s.signer, reason })),
    }
}

fn submit_signed(store: &mut Store, cohort: &CohortSpec, kind: Kind, data: &SignData) -> (r: Result<Option<Outbound>, Fatal>)
    requires
        kind.zone_model() != Zone::Dkg,
    ensures
        (final(store)@, message_model(r)) == submit_model(
            old(store)@,
            cohort.genesis_model(),
            cohort.validators_model(),
            sign_submission(kind, cohort.t_model(), *data),
        ),
{
    let s = Submission {
        kind,
        needed: cohort.t(),
        id: data.plan,
        attempt: data.attempt,
        bytes: bytes_copy(&data.data),
        signer: data.signed.signer,
    };
    submit(store, cohort, s)
}

fn submit_dkg(store: &mut Store, cohort: &CohortSpec, kind: Kind, attempt: u32, bytes: &Vec<u8>, signer: &[u8; 32]) -> (r: Result<Option<Outbound>, Fatal>)
    ensures
        (final(store)@, message_model(r)) == submit_model(
            old(store)@,
            cohort.genesis_model(),
            cohort.validators_model(),
            dkg_submission(kind, cohort.validators_model().len(), attempt, bytes@, signer@),
        ),
{
    let id = [0u8; 32];
    assert(id@ =~= Seq::new(32, |i: int| 0u8));
    let s = Submission { kind, needed: cohort.n(), id, attempt, bytes: bytes_copy(bytes), signer: *signer };
    submit(store, cohort, s)
}

fn find_share(shares: &Vec<Payload>, index: u16) -> (r: Option<Vec<u8>>)
    ensures
        r is Some <==> share_for(shares@, index) is Some,
        r is Some ==> r->Some_0@ == share_for(shares@, index)->Some_0,
{
    let mut i: usize = 0;
    while i < shares.len()
        invariant
            i <= shares.len(),
            share_for(shares@.take(i as int), index) is None,
        decreases shares.len() - i,
    {
        proof {
            assert(shares@.take(i as int + 1).drop_last() =~= shares@.take(i as int));
        }
        if shares[i].index == index {
            proof {
                lemma_share_extends(shares@, index, i as nat + 1);
            }
            return Some(bytes_copy(&shares[i].bytes));
        }
        i += 1;
    }
    proof {
        assert(shares@.take(i as int) =~= shares@);
    }
    None
}

/// A share found in a prefix is the share found in the whole list.
pub proof fn lemma_share_extends(shares: Seq<Payload>, index: u16, n: nat)
    requires
        n <= shares.len(),
        share_for(shares.take(n as int), index) is Some,
    ensures
        share_for(shares, index) == share_for(shares.take(n as int), index),
    decreases shares.len() - n,
{
    if n < shares.len() {
        assert(shares.take(n as int + 1).drop_last() =~= shares.take(n as int));
        lemma_share_extends(shares, index, n + 1);
    } else {
        assert(shares.take(n as int) =~= shares);
    }
}

fn recognize_all(store: &mut Store, genesis: &[u8; 32], ids: &Vec<u8>)
    ensures
        final(store)@ == recognize_plans(old(store)@, genesis@, ids@, ids@.len() / 32),
{
    let count = ids.len() / 32;
    let mut j: usize = 0;
    while j < count
        invariant
            j <= count,
            count == ids@.len() / 32,
            32 * count <= ids@.len() <= usize::MAX,
            store@ == recognize_plans(old(store)@, genesis@, ids@, j as nat),
        decreases count - j,
    {
        let mut id: Vec<u8> = Vec::new();
        let mut b: usize = 0;
        while b < 32
            invariant
                b <= 32,
                j < count,
                32 * count <= ids@.len() <= usize::MAX,
                id@ == ids@.subrange(32 * j as int, 32 * j as int + b as int),
            decreases 32 - b,
        {
            id.push(ids[32 * j + b]);
            proof {
                assert(ids@.subrange(32 * j as int, 32 * j as int + b as int + 1) =~= ids@.subrange(
                    32 * j as int,
                    32 * j as int + b as int,
                ).push(ids@[32 * j as int + b as int]));
            }
            b += 1;
        }
        let key = make_pair_key(1, Zone::Sign.tag(), genesis, &id);
        store.put(key, marker());
        j += 1;
    }
}

fn apply(store: &mut Store, cohort: &CohortSpec, our_key: &[u8; 32], tx: &LogTransaction) -> (r: Result<Option<Outbound>, Fatal>)
    ensures
        (final(store)@, message_model(r)) == transaction_model(
            old(store)@,
            cohort.genesis_model(),
            cohort.validators_model(),
            cohort.t_model(),
            our_key@,
            *tx,
        ),
{
    let genesis = cohort.genesis();
    match tx {
        LogTransaction::DkgCommitments(attempt, bytes, signed) => submit_dkg(
            store,
            cohort,
            Kind::DkgCommitments,
            *attempt,
            bytes,
            &signed.signer,
        ),
        LogTransaction::DkgShares(attempt, shares, signed) => {
            if shares.len() != cohort.n() as usize {
                return Ok(Some(Outbound::Slash { signer: signed.signer, reason: Reason::WrongShareCount }));
            }
            let ours = match cohort.i(our_key) {
                Some(i) => i,
                None => { return Err(Fatal::NotAValidator); },
            };
            match find_share(shares, ours) {
                Some(bytes) => submit_dkg(store, cohort, Kind::DkgShares, *attempt, &bytes, &signed.signer),
                None => Ok(Some(Outbound::Slash { signer: signed.signer, reason: Reason::MissingShare })),
            }
        },
        LogTransaction::ExternalBlock(block) => {
            let key = make_pair_key(7, 0, &genesis, &array_to_vec(block));
            match store.get(&key) {
                Some(batch) => {
                    let key = make_pair_key(1, Zone::Batch.tag(), &genesis, &batch);
                    store.put(key, marker());
                    Ok(None)
                },
                None => Err(Fatal::MissingBatchId),
            }
        },
        LogTransaction::HostBlock(block) => {
            let key = make_pair_key(8, 0, &genesis, &array_to_vec(block));
            match store.get(&key) {
                Some(plans) => {
                    recognize_all(store, &genesis, &plans);
                    Ok(None)
                },
                None => Err(Fatal::MissingPlanIds),
            }
        },
        LogTransaction::BatchPreprocess(data) => submit_signed(store, cohort, Kind::BatchPreprocess, data),
        LogTransaction::BatchShare(data) => submit_signed(store, cohort, Kind::BatchShare, data),
        LogTransaction::SignPreprocess(data) => submit_signed(store, cohort, Kind::SignPreprocess, data),
        LogTransaction::SignShare(data) => submit_signed(store, cohort, Kind::SignShare, data),
    }
}

/// Processes one event of a block, unless it is marked as handled.
pub fn handle_event(
    store: &mut Store,
    cohort: &CohortSpec,
    our_key: &[u8; 32],
    block: &[u8; 32],
    event: u32,
    tx: &LogTransaction,
) -> (r: Result<Option<Outbound>, Fatal>)
    ensures
        (final(store)@, message_model(r)) == event_model(
            old(store)@,
            cohort.genesis_model(),
            cohort.validators_model(),
            cohort.t_model(),
            our_key@,
            block@,
            event,
            *tx,
        ),
{
    proof {
        reveal(event_model);
    }
    let handled = make_handled_key(block, event);
    if store.contains(&handled) {
        return Ok(None);
    }
    proof {
        lemma_halt_changes_nothing(
            store@,
            cohort.genesis_model(),
            cohort.validators_model(),
            cohort.t_model(),
            our_key@,
            *tx,
        );
    }
    match apply(store, cohort, our_key, tx) {
        Ok(message) => {
            store.put(handled, marker());
            Ok(message)
        },
        Err(f) => Err(f),
    }
}

/// A transaction that halts the cohort leaves the records as they were.
pub proof fn lemma_halt_changes_nothing(
    store: Map<Seq<u8>, Seq<u8>>,
    genesis: Seq<u8>,
    validators: Seq<[u8; 32]>,
    t: nat,
    our_key: Seq<u8>,
    tx: LogTransaction,
)
    ensures
        transaction_model(store, genesis, validators, t, our_key, tx).1 is Err ==> transaction_model(
            store,
            genesis,
            validators,
            t,
            our_key,
            tx,
        ).0 == store,
{
}

fn run_block(
    store: &mut Store,
    cohort: &CohortSpec,
    our_key: &[u8; 32],
    block: &[u8; 32],
    txs: &Vec<LogTransaction>,
    out: &mut Vec<Outbound>,
) -> (halted: Option<Fatal>)
    requires
        txs.len() <= u32::MAX,
    ensures
        ({
            let m = block_model(
                old(store)@,
                cohort.genesis_model(),
                cohort.validators_model(),
                cohort.t_model(),
                our_key@,
                block@,
                txs@,
                txs@.len(),
            );
            &&& final(store)@ == m.0
            &&& outbound_model(final(out)@) == outbound_model(old(out)@) + m.1
            &&& halted == m.2
        }),
{
    let ghost start = store@;
    let ghost sent = out@;
    let mut k: usize = 0;
    proof {
        assert(outbound_model(out@) =~= outbound_model(sent) + Seq::<OutboundModel>::empty());
    }
    while k < txs.len()
        invariant
            k <= txs.len() <= u32::MAX,
            start == old(store)@,
            sent == old(out)@,
            ({
                let m = block_model(
                    start,
                    cohort.genesis_model(),
                    cohort.validators_model(),
                    cohort.t_model(),
                    our_key@,
                    block@,
                    txs@,
                    k as nat,
                );
                &&& store@ == m.0
                &&& outbound_model(out@) == outbound_model(sent) + m.1
                &&& m.2 is None
            }),
        decreases txs.len() - k,
    {
        let ghost before = out@;
        match handle_event(store, cohort, our_key, block, k as u32, &txs[k]) {
            Ok(Some(message)) => {
                out.push(message);
                proof {
                    assert(outbound_model(out@) =~= outbound_model(before).push(message@));
                    let m = block_model(
                        start,
                        cohort.genesis_model(),
                        cohort.validators_model(),
                        cohort.t_model(),
                        our_key@,
                        block@,
                        txs@,
                        k as nat,
                    );
                    assert((outbound_model(sent) + m.1).push(message@) =~= outbound_model(sent) + m.1.push(
                        message@,
                    ));
                }
            },
            Ok(None) => {},
            Err(f) => {
                proof {
                    let m = block_model(
                        start,
                        cohort.genesis_model(),
                        cohort.validators_model(),
                        cohort.t_model(),
                        our_key@,
                        block@,
                        txs@,
                        k as nat + 1,
                    );
                    assert(m.2 == Some(f) && m.0 == store@ && outbound_model(out@) == outbound_model(sent)
                        + m.1);
                    lemma_block_halted(
                        start,
                        cohort.genesis_model(),
                        cohort.validators_model(),
                        cohort.t_model(),
                        our_key@,
                        block@,
                        txs@,
                        k as nat + 1,
                        txs@.len(),
                    );
                }
                return Some(f);
            },
        }
        k += 1;
    }
    None
}

/// Once a block's run has halted, the rest of the block changes nothing.
pub proof fn lemma_block_halted(
    store: Map<Seq<u8>, Seq<u8>>,
    genesis: Seq<u8>,
    validators: Seq<[u8; 32]>,
    t: nat,
    our_key: Seq<u8>,
    block: Seq<u8>,
    txs: Seq<LogTransaction>,
    at: nat,
    upto: nat,
)
    requires
        at <= upto,
        block_model(store, genesis, validators, t, our_key, block, txs, at).2 is Some,
    ensures
        block_model(store, genesis, validators, t, our_key, block, txs, upto) == block_model(
            store,
            genesis,
            validators,
            t,
            our_key,
            block,
            txs,
            at,
        ),
    decreases upto - at,
{
    if at < upto {
        lemma_block_halted(store, genesis, validators, t, our_key, block, txs, at, (upto - 1) as nat);
    }
}

/// Processes the transactions of one block in order, each as one event.
pub fn handle_block(
    store: &mut Store,
    cohort: &CohortSpec,
    our_key: &[u8; 32],
    block: &[u8; 32],
    txs: &Vec<LogTransaction>,
) -> (r: Run)
    requires
        txs.len() <= u32::MAX,
    ensures
        (final(store)@, outbound_model(r.messages@), r.halted) == block_model(
            old(store)@,
            cohort.genesis_model(),
            cohort.validators_model(),
            cohort.t_model(),
            our_key@,
            block@,
            txs@,
            txs@.len(),
        ),
{
    let mut messages: Vec<Outbound> = Vec::new();
    let halted = run_block(store, cohort, our_key, block, txs, &mut messages);
    proof {
        let m = block_model(
            old(store)@,
            cohort.genesis_model(),
            cohort.validators_model(),
            cohort.t_model(),
            our_key@,
            block@,
            txs@,
            txs@.len(),
        );
        assert(outbound_model(Seq::<Outbound>::empty()) + m.1 =~= m.1);
    }
    Run { messages, halted }
}

/// The cursor of the cohort's log.
pub fn read_last_block(store: &Store, genesis: &[u8; 32]) -> (r: Vec<u8>)
    ensures
        r@ == last_block(store@, genesis@),
{
    let key = make_genesis_key(6, genesis);
    match store.get(&key) {
        Some(block) => block,
        None => array_to_vec(genesis),
    }
}

/// Processes the blocks that follow the cursor, in the order given, and
/// moves the cursor past each block that was processed in full.
pub fn handle_new_blocks(store: &mut Store, cohort: &CohortSpec, our_key: &[u8; 32], blocks: &Vec<Block>) -> (r: Run)
    requires
        forall|i: int| 0 <= i < blocks@.len() ==> (#[trigger] blocks@[i]).transactions@.len() <= u32::MAX,
    ensures
        (final(store)@, outbound_model(r.messages@), r.halted) == chain_model(
            old(store)@,
            cohort.genesis_model(),
            cohort.validators_model(),
            cohort.t_model(),
            our_key@,
            blocks@,
            blocks@.len(),
        ),
{
    let genesis = cohort.genesis();
    let ghost start = store@;
    let mut messages: Vec<Outbound> = Vec::new();
    let mut k: usize = 0;
    proof {
        assert(outbound_model(messages@) =~= Seq::<OutboundModel>::empty());
    }
    while k < blocks.len()
        invariant
            k <= blocks.len(),
            start == old(store)@,
            genesis@ == cohort.genesis_model(),
            forall|i: int| 0 <= i < blocks@.len() ==> (#[trigger] blocks@[i]).transactions@.len() <= u32::MAX,
            (store@, outbound_model(messages@), None::<Fatal>) == chain_model(
                start,
                cohort.genesis_model(),
                cohort.validators_model(),
                cohort.t_model(),
                our_key@,
                blocks@,
                k as nat,
            ),
        decreases blocks.len() - k,
    {
        let block = &blocks[k];
        let cursor = read_last_block(store, &genesis);
        if bytes_eq(&array_to_vec(&block.parent), &cursor) {
            let halted = run_block(store, cohort, our_key, &block.hash, &block.transactions, &mut messages);
            if halted.is_some() {
                proof {
                    let m = chain_model(
                        start,
                        cohort.genesis_model(),
                        cohort.validators_model(),
                        cohort.t_model(),
                        our_key@,
                        blocks@,
                        k as nat + 1,
                    );
                    assert(m.2 == halted && m.0 == store@ && outbound_model(messages@) == m.1);
                    lemma_chain_halted(
                        start,
                        cohort.genesis_model(),
                        cohort.validators_model(),
                        cohort.t_model(),
                        our_key@,
                        blocks@,
                        k as nat + 1,
                        blocks@.len(),
                    );
                }
                return Run { messages, halted };
            }
            store.put(make_genesis_key(6, &genesis), array_to_vec(&block.hash));
        }
        k += 1;
    }
    Run { messages, halted: None }
}

/// Once a run over blocks has halted, the remaining blocks change nothing.
pub proof fn lemma_chain_halted(
    store: Map<Seq<u8>, Seq<u8>>,
    genesis: Seq<u8>,
    validators: Seq<[u8; 32]>,
    t: nat,
    our_key: Seq<u8>,
    blocks: Seq<Block>,
    at: nat,
    upto: nat,
)
    requires
        at <= upto,
        chain_model(store, genesis, validators, t, our_key, blocks, at).2 is Some,
    ensures
        chain_model(store, genesis, validators, t, our_key, blocks, upto) == chain_model(
            store,
            genesis,
            validators,
            t,
            our_key,
            blocks,
            at,
        ),
    decreases upto - at,
{
    if at < upto {
        lemma_chain_halted(store, genesis, validators, t, our_key, blocks, at, (upto - 1) as nat);
    }
}


/// Storing a payload does not touch the first round of its attempt: a
/// share that was not refused is not refused after it was stored.
pub proof fn lemma_stored_keeps_signing_set(store: Map<Seq<u8>, Seq<u8>>, genesis: Seq<u8>, s: SubmissionModel)
    ensures
        share_refusal(stored_model(store, genesis, s), genesis, s) == share_refusal(store, genesis, s),
{
    match s.kind.first_round_model() {
        Some(round) => {
            let key = data_key(s.kind, genesis, s.id, s.attempt, s.signer);
            let list_key = signers_key(s.kind, genesis, s.id, s.attempt);
            let set_key = signers_key(round, genesis, s.id, s.attempt);
            assert(key[0] == 3u8);
            assert(set_key[0] == 4u8);
            assert(set_key[1] == round.tag_model());
            assert(list_key[1] == s.kind.tag_model());
            assert(set_key != key);
            assert(set_key != list_key);
            let after = stored_model(store, genesis, s);
            assert(after.contains_key(set_key) == store.contains_key(set_key));
            assert(after.contains_key(set_key) ==> after[set_key] == store[set_key]);
        },
        None => {},
    }
}

/// Equivocation is caught: once a payload was accepted, a different
/// payload of the same kind, for the same identifier and attempt and from
/// the same signer, is turned down as an equivocation. It sends out the
/// intent to slash that signer in full, and only that; the records stay as
/// they are.
pub proof fn lemma_equivocation(
    store: Map<Seq<u8>, Seq<u8>>,
    genesis: Seq<u8>,
    validators: Seq<[u8; 32]>,
    first: SubmissionModel,
    second: SubmissionModel,
)
    requires
        first.kind == second.kind,
        first.id == second.id,
        first.attempt == second.attempt,
        first.signer == second.signer,
        first.needed == second.needed,
        first.bytes != second.bytes,
        handle_model(store, genesis, validators, first).1 is Ok,
        !(handle_model(store, genesis, validators, first).1->Ok_0 is Rejected),
    ensures
        ({
            let after = handle_model(store, genesis, validators, first).0;
            &&& handle_model(after, genesis, validators, second) == (
                after,
                Ok::<VerdictModel, Fatal>(VerdictModel::Rejected(Reason::Equivocation)),
            )
            &&& submit_model(after, genesis, validators, second) == (
                after,
                Ok::<Option<OutboundModel>, Fatal>(
                    Some(OutboundModel::Slash { signer: second.signer, reason: Reason::Equivocation }),
                ),
            )
        }),
{
    let key = data_key(first.kind, genesis, first.id, first.attempt, first.signer);
    let list_key = signers_key(first.kind, genesis, first.id, first.attempt);
    let after = handle_model(store, genesis, validators, first).0;
    assert(after == stored_model(store, genesis, first));
    assert(key[0] == 3u8);
    assert(list_key[0] == 4u8);
    assert(key != list_key);
    assert(after.contains_key(key));
    assert(after[key] == first.bytes);
    // The second submission passes the checks before the look-up as the first did.
    let zone = first.kind.zone_model();
    assert(zone != Zone::Dkg ==> recognized(after, zone, genesis, first.id));
    assert(share_refusal(store, genesis, first) is None);
    lemma_stored_keeps_signing_set(store, genesis, first);
    assert(share_refusal(after, genesis, second) == share_refusal(after, genesis, first)) by {
        assert(second.kind.first_round_model() == first.kind.first_round_model());
    }
}

/// A set is collected at most once: the count of signers of a kind,
/// identifier and attempt never falls, and a verdict collects only at the
/// moment the count reaches what is needed. Once the count has reached
/// it, no message of that kind for that identifier and attempt collects
/// again.
pub proof fn lemma_collected_once(
    store: Map<Seq<u8>, Seq<u8>>,
    genesis: Seq<u8>,
    validators: Seq<[u8; 32]>,
    s: SubmissionModel,
)
    requires
        s.signer.len() == 32,
    ensures
        ({
            let before = signers(store, s.kind, genesis, s.id, s.attempt).len();
            let (after, verdict) = handle_model(store, genesis, validators, s);
            let count = signers(after, s.kind, genesis, s.id, s.attempt).len();
            &&& count >= before
            &&& (verdict is Ok && verdict->Ok_0 is Collected) ==> before < 32 * s.needed && count == 32 * s.needed
            &&& before >= 32 * s.needed ==> !(verdict is Ok && verdict->Ok_0 is Collected)
        }),
{
    let key = data_key(s.kind, genesis, s.id, s.attempt, s.signer);
    let list_key = signers_key(s.kind, genesis, s.id, s.attempt);
    assert(key[0] == 3u8);
    assert(list_key[0] == 4u8);
    let list = signers(store, s.kind, genesis, s.id, s.attempt);
    let stored = stored_model(store, genesis, s);
    assert(stored.contains_key(list_key));
    assert(stored[list_key] == list + s.signer);
    assert(signers(stored, s.kind, genesis, s.id, s.attempt) == list + s.signer);
    let (after, verdict) = handle_model(store, genesis, validators, s);
    assert(after == store || after == stored);
    if verdict is Ok && verdict->Ok_0 is Collected {
        assert(after == stored);
        assert(list.len() + 32 == 32 * s.needed);
    }
}

/// A message of one kind, identifier and attempt leaves the signers of
/// every other kind, identifier or attempt as they were.
pub proof fn lemma_other_signers_kept(
    store: Map<Seq<u8>, Seq<u8>>,
    genesis: Seq<u8>,
    validators: Seq<[u8; 32]>,
    s: SubmissionModel,
    kind: Kind,
    id: Seq<u8>,
    attempt: u32,
)
    requires
        id.len() == 32,
        s.id.len() == 32,
        genesis.len() == 32,
        kind != s.kind || id != s.id || attempt != s.attempt,
    ensures
        signers(handle_model(store, genesis, validators, s).0, kind, genesis, id, attempt) == signers(
            store,
            kind,
            genesis,
            id,
            attempt,
        ),
{
    let key = data_key(s.kind, genesis, s.id, s.attempt, s.signer);
    let list_key = signers_key(s.kind, genesis, s.id, s.attempt);
    let other = signers_key(kind, genesis, id, attempt);
    assert(key[0] == 3u8);
    assert(other[0] == 4u8);
    if kind != s.kind {
        assert(other[1] == kind.tag_model());
        assert(list_key[1] == s.kind.tag_model());
    } else if id != s.id {
        assert(other.subrange(34, 66) =~= id);
        assert(list_key.subrange(34, 66) =~= s.id);
    } else {
        lemma_decode_le32(attempt);
        lemma_decode_le32(s.attempt);
        assert(other.subrange(66, 70) =~= le32(attempt));
        assert(list_key.subrange(66, 70) =~= le32(s.attempt));
    }
    assert(other != list_key);
}

/// Authorizing plans removes no record.
pub proof fn lemma_recognize_keeps(store: Map<Seq<u8>, Seq<u8>>, genesis: Seq<u8>, ids: Seq<u8>, count: nat, key: Seq<u8>)
    requires
        store.contains_key(key),
    ensures
        recognize_plans(store, genesis, ids, count).contains_key(key),
    decreases count,
{
    if count > 0 {
        lemma_recognize_keeps(store, genesis, ids, (count - 1) as nat, key);
    }
}

/// An event removes no record.
pub proof fn lemma_event_keeps(
    store: Map<Seq<u8>, Seq<u8>>,
    genesis: Seq<u8>,
    validators: Seq<[u8; 32]>,
    t: nat,
    our_key: Seq<u8>,
    block: Seq<u8>,
    event: u32,
    tx: LogTransaction,
    key: Seq<u8>,
)
    requires
        store.contains_key(key),
    ensures
        event_model(store, genesis, validators, t, our_key, block, event, tx).0.contains_key(key),
{
    reveal(event_model);
    match tx {
        LogTransaction::HostBlock(b) => {
            let k = plan_ids_key(genesis, b@);
            if store.contains_key(k) {
                lemma_recognize_keeps(store, genesis, store[k], store[k].len() / 32, key);
            }
        },
        _ => {},
    }
}

/// A run over a block removes no record.
pub proof fn lemma_block_keeps(
    store: Map<Seq<u8>, Seq<u8>>,
    genesis: Seq<u8>,
    validators: Seq<[u8; 32]>,
    t: nat,
    our_key: Seq<u8>,
    block: Seq<u8>,
    txs: Seq<LogTransaction>,
    upto: nat,
    key: Seq<u8>,
)
    requires
        store.contains_key(key),
        upto <= txs.len(),
    ensures
        block_model(store, genesis, validators, t, our_key, block, txs, upto).0.contains_key(key),
    decreases upto,
{
    if upto > 0 {
        lemma_block_keeps(store, genesis, validators, t, our_key, block, txs, (upto - 1) as nat, key);
        let before = block_model(store, genesis, validators, t, our_key, block, txs, (upto - 1) as nat).0;
        lemma_event_keeps(before, genesis, validators, t, our_key, block, (upto - 1) as u32, txs[upto - 1], key);
    }
}

/// A run over a block that did not halt has marked each of its events.
pub proof fn lemma_block_marks(
    store: Map<Seq<u8>, Seq<u8>>,
    genesis: Seq<u8>,
    validators: Seq<[u8; 32]>,
    t: nat,
    our_key: Seq<u8>,
    block: Seq<u8>,
    txs: Seq<LogTransaction>,
    upto: nat,
    event: nat,
)
    requires
        event < upto <= txs.len(),
        block_model(store, genesis, validators, t, our_key, block, txs, upto).2 is None,
    ensures
        block_model(store, genesis, validators, t, our_key, block, txs, upto).0.contains_key(
            handled_key(block, event as u32),
        ),
    decreases upto,
{
    reveal(event_model);
    let before = block_model(store, genesis, validators, t, our_key, block, txs, (upto - 1) as nat);
    if event < upto - 1 {
        lemma_block_marks(store, genesis, validators, t, our_key, block, txs, (upto - 1) as nat, event);
        lemma_event_keeps(
            before.0,
            genesis,
            validators,
            t,
            our_key,
            block,
            (upto - 1) as u32,
            txs[upto - 1],
            handled_key(block, event as u32),
        );
    }
}

/// Over records in which the first `upto` events of a block are marked,
/// those events do nothing.
pub proof fn lemma_marked_events_do_nothing(
    store: Map<Seq<u8>, Seq<u8>>,
    genesis: Seq<u8>,
    validators: Seq<[u8; 32]>,
    t: nat,
    our_key: Seq<u8>,
    block: Seq<u8>,
    txs: Seq<LogTransaction>,
    upto: nat,
)
    requires
        upto <= txs.len(),
        forall|event: nat| event < upto ==> store.contains_key(#[trigger] handled_key(block, event as u32)),
    ensures
        block_model(store, genesis, validators, t, our_key, block, txs, upto) == (
            store,
            Seq::<OutboundModel>::empty(),
            None::<Fatal>,
        ),
    decreases upto,
{
    reveal(event_model);
    if upto > 0 {
        lemma_marked_events_do_nothing(store, genesis, validators, t, our_key, block, txs, (upto - 1) as nat);
        assert(store.contains_key(handled_key(block, (upto - 1) as nat as u32)));
    }
}

/// Replay is idempotent: a block that was processed without a halt, when
/// processed again over the records it left, sends out nothing and leaves
/// the records as they are.
pub proof fn lemma_replay(
    store: Map<Seq<u8>, Seq<u8>>,
    genesis: Seq<u8>,
    validators: Seq<[u8; 32]>,
    t: nat,
    our_key: Seq<u8>,
    block: Seq<u8>,
    txs: Seq<LogTransaction>,
)
    requires
        block_model(store, genesis, validators, t, our_key, block, txs, txs.len()).2 is None,
    ensures
        ({
            let after = block_model(store, genesis, validators, t, our_key, block, txs, txs.len()).0;
            block_model(after, genesis, validators, t, our_key, block, txs, txs.len()) == (
                after,
                Seq::<OutboundModel>::empty(),
                None::<Fatal>,
            )
        }),
{
    let after = block_model(store, genesis, validators, t, our_key, block, txs, txs.len()).0;
    assert forall|event: nat| event < txs.len() implies after.contains_key(
        #[trigger] handled_key(block, event as u32),
    ) by {
        lemma_block_marks(store, genesis, validators, t, our_key, block, txs, txs.len(), event);
    }
    lemma_marked_events_do_nothing(after, genesis, validators, t, our_key, block, txs, txs.len());
}

/// Restart is safe: stopping after the first `done` events of a block and
/// then processing the block from its start, over the records that were
/// left, ends with the records of an uninterrupted run and sends out
/// exactly the messages that the uninterrupted run sends after the stop.
/// No event before the stop sends its message again.
pub proof fn lemma_resume(
    store: Map<Seq<u8>, Seq<u8>>,
    genesis: Seq<u8>,
    validators: Seq<[u8; 32]>,
    t: nat,
    our_key: Seq<u8>,
    block: Seq<u8>,
    txs: Seq<LogTransaction>,
    done: nat,
    upto: nat,
)
    requires
        done <= upto <= txs.len(),
        block_model(store, genesis, validators, t, our_key, block, txs, done).2 is None,
    ensures
        ({
            let first = block_model(store, genesis, validators, t, our_key, block, txs, done);
            let whole = block_model(store, genesis, validators, t, our_key, block, txs, upto);
            let resumed = block_model(first.0, genesis, validators, t, our_key, block, txs, upto);
            &&& resumed.0 == whole.0
            &&& first.1 + resumed.1 == whole.1
            &&& resumed.2 == whole.2
        }),
    decreases upto,
{
    let first = block_model(store, genesis, validators, t, our_key, block, txs, done);
    if upto == done {
        assert forall|event: nat| event < done implies first.0.contains_key(
            #[trigger] handled_key(block, event as u32),
        ) by {
            lemma_block_marks(store, genesis, validators, t, our_key, block, txs, done, event);
        }
        lemma_marked_events_do_nothing(first.0, genesis, validators, t, our_key, block, txs, done);
        assert(first.1 + Seq::<OutboundModel>::empty() =~= first.1);
    } else {
        lemma_resume(store, genesis, validators, t, our_key, block, txs, done, (upto - 1) as nat);
        let whole = block_model(store, genesis, validators, t, our_key, block, txs, (upto - 1) as nat);
        let resumed = block_model(first.0, genesis, validators, t, our_key, block, txs, (upto - 1) as nat);
        let result = event_model(whole.0, genesis, validators, t, our_key, block, (upto - 1) as u32, txs[upto - 1]).1;
        match result {
            Ok(Some(m)) => {
                assert(first.1 + resumed.1.push(m) =~= (first.1 + resumed.1).push(m));
            },
            _ => {},
        }
    }
}


impl LogTransaction {
    /// The byte that tags the transaction on the wire.
    pub open spec fn tag_model(self) -> u8 {
        match self {
            LogTransaction::DkgCommitments(_, _, _) => 0,
            LogTransaction::DkgShares(_, _, _) => 1,
            LogTransaction::ExternalBlock(_) => 2,
            LogTransaction::HostBlock(_) => 3,
            LogTransaction::BatchPreprocess(_) => 4,
            LogTransaction::BatchShare(_) => 5,
            LogTransaction::SignPreprocess(_) => 6,
            LogTransaction::SignShare(_) => 7,
        }
    }

    /// The byte that tags the transaction on the wire.
    pub fn tag(&self) -> (r: u8)
        ensures
            r == self.tag_model(),
    {
        match self {
            LogTransaction::DkgCommitments(_, _, _) => 0,
            LogTransaction::DkgShares(_, _, _) => 1,
            LogTransaction::ExternalBlock(_) => 2,
            LogTransaction::HostBlock(_) => 3,
            LogTransaction::BatchPreprocess(_) => 4,
            LogTransaction::BatchShare(_) => 5,
            LogTransaction::SignPreprocess(_) => 6,
            LogTransaction::SignShare(_) => 7,
        }
    }

    /// Whether the transaction is provided: included by every validator
    /// on observing its cause, and not signed by one.
    pub fn is_provided(&self) -> (r: bool)
        ensures
            r == (self is ExternalBlock || self is HostBlock),
    {
        match self {
            LogTransaction::ExternalBlock(_) => true,
            LogTransaction::HostBlock(_) => true,
            _ => false,
        }
    }
}

/// What a signer is to be slashed for over a span of messages: the number
/// of recoverable faults, and whether there was proof of malice.
#[derive(Clone, Copy, Debug)]
pub struct SlashTotal {
    pub signer: [u8; 32],
    pub partial: u32,
    pub full: bool,
}

/// Whether a message is an intent to slash a signer, in full or not.
pub open spec fn slashes(message: Outbound, signer: Seq<u8>, full: bool) -> bool {
    match message {
        Outbound::Slash { signer: s, reason } => s@ == signer && (!(reason == Reason::Duplicate || reason
            == Reason::Late)) == full,
        _ => false,
    }
}

/// The number of recoverable faults of a signer among the first `n`
/// messages.
pub open spec fn partial_count(messages: Seq<Outbound>, signer: Seq<u8>, n: nat) -> nat
    decreases n,
{
    if n == 0 {
        0
    } else if slashes(messages[n - 1], signer, false) {
        partial_count(messages, signer, (n - 1) as nat) + 1
    } else {
        partial_count(messages, signer, (n - 1) as nat)
    }
}

/// Whether there is proof of malice of a signer among the first `n`
/// messages.
pub open spec fn any_full(messages: Seq<Outbound>, signer: Seq<u8>, n: nat) -> bool
    decreases n,
{
    if n == 0 {
        false
    } else {
        slashes(messages[n - 1], signer, true) || any_full(messages, signer, (n - 1) as nat)
    }
}

/// Whether there is an intent to slash a signer among the first `n`
/// messages.
pub open spec fn has_slash(messages: Seq<Outbound>, signer: Seq<u8>, n: nat) -> bool {
    partial_count(messages, signer, n) > 0 || any_full(messages, signer, n)
}

/// A count as a 32-bit number: capped at the largest.
pub open spec fn capped(count: nat) -> u32 {
    if count > u32::MAX {
        u32::MAX
    } else {
        count as u32
    }
}

/// Whether a list of totals is the account of the first `n` messages:
/// one total for each signer with a slash among them, no signer twice,
/// each with that signer's count of recoverable faults and whether there
/// was proof of malice.
pub open spec fn accounts_for(totals: Seq<SlashTotal>, messages: Seq<Outbound>, n: nat) -> bool {
    &&& forall|a: int, b: int| 0 <= a < b < totals.len() ==> totals[a].signer@ != totals[b].signer@
    &&& forall|k: int|
        0 <= k < totals.len() ==> {
            let t = #[trigger] totals[k];
            &&& t.partial == capped(partial_count(messages, t.signer@, n))
            &&& t.full == any_full(messages, t.signer@, n)
            &&& (t.full || t.partial > 0)
        }
    &&& forall|signer: Seq<u8>| #[trigger]
        has_slash(messages, signer, n) ==> exists|k: int|
            0 <= k < totals.len() && (#[trigger] totals[k]).signer@ == signer
}

/// Aggregates the slash intents of a span of messages by signer, in
/// order of each signer's first intent.
pub fn aggregate_slashes(messages: &Vec<Outbound>) -> (r: Vec<SlashTotal>)
    ensures
        accounts_for(r@, messages@, messages@.len()),
{
    let mut totals: Vec<SlashTotal> = Vec::new();
    let mut i: usize = 0;
    while i < messages.len()
        invariant
            i <= messages.len(),
            accounts_for(totals@, messages@, i as nat),
        decreases messages.len() - i,
    {
        let ghost before = totals@;
        match &messages[i] {
            Outbound::Message { .. } => {
                proof {
                    assert forall|signer: Seq<u8>| #[trigger]
                        has_slash(messages@, signer, i as nat + 1) implies exists|k: int|
                        0 <= k < totals@.len() && (#[trigger] totals@[k]).signer@ == signer by {
                        assert(has_slash(messages@, signer, i as nat));
                    }
                    assert(accounts_for(totals@, messages@, i as nat + 1));
                }
            },
            Outbound::Slash { signer, reason } => {
                let full = reason.is_full();
                let mut k: usize = 0;
                let mut found = false;
                while k < totals.len() && !found
                    invariant
                        k <= totals.len(),
                        totals@ == before,
                        forall|j: int| 0 <= j < k - (if found { 1int } else { 0int }) ==> (#[trigger] totals@[j]).signer@
                            != signer@,
                        found ==> k >= 1 && totals@[k - 1].signer@ == signer@,
                    decreases totals.len() - k + (if found { 0int } else { 1int }),
                {
                    if array32_eq(&totals[k].signer, signer) {
                        found = true;
                    }
                    k += 1;
                }
                if found {
                    let at = k - 1;
                    let old_total = totals[at];
                    let partial = if full || old_total.partial == u32::MAX {
                        old_total.partial
                    } else {
                        old_total.partial + 1
                    };
                    totals.set(at, SlashTotal { signer: *signer, partial, full: old_total.full || full });
                    proof {
                        assert(totals@[at as int].signer@ == before[at as int].signer@);
                        assert forall|a: int, b: int| 0 <= a < b < totals@.len() implies totals@[a].signer@
                            != totals@[b].signer@ by {
                            assert(totals@[a].signer@ == before[a].signer@);
                            assert(totals@[b].signer@ == before[b].signer@);
                        }
                        assert forall|j: int| 0 <= j < totals@.len() implies ({
                            let t = #[trigger] totals@[j];
                            &&& t.partial == capped(partial_count(messages@, t.signer@, i as nat + 1))
                            &&& t.full == any_full(messages@, t.signer@, i as nat + 1)
                            &&& (t.full || t.partial > 0)
                        }) by {
                            if j != at {
                                assert(totals@[j] == before[j]);
                                if j < at {
                                    assert(before[j].signer@ != before[at as int].signer@);
                                } else {
                                    assert(before[at as int].signer@ != before[j].signer@);
                                }
                            }
                        }
                        assert forall|s: Seq<u8>| #[trigger]
                            has_slash(messages@, s, i as nat + 1) implies exists|j: int|
                            0 <= j < totals@.len() && (#[trigger] totals@[j]).signer@ == s by {
                            if s == signer@ {
                                assert(totals@[at as int].signer@ == s);
                            } else {
                                assert(has_slash(messages@, s, i as nat));
                                let j = choose|j: int| 0 <= j < before.len() && (#[trigger] before[j]).signer@ == s;
                                assert(totals@[j].signer@ == s);
                            }
                        }
                        assert(accounts_for(totals@, messages@, i as nat + 1));
                    }
                } else {
                    proof {
                        // A signer without a total has no slash so far.
                        if has_slash(messages@, signer@, i as nat) {
                            let j = choose|j: int| 0 <= j < before.len() && (#[trigger] before[j]).signer@ == signer@;
                            assert(false);
                        }
                    }
                    totals.push(
                        SlashTotal {
                            signer: *signer,
                            partial: if full {
                                0
                            } else {
                                1
                            },
                            full,
                        },
                    );
                    proof {
                        let last = before.len() as int;
                        assert forall|a: int, b: int| 0 <= a < b < totals@.len() implies totals@[a].signer@
                            != totals@[b].signer@ by {
                            if b < last {
                                assert(totals@[a] == before[a] && totals@[b] == before[b]);
                            } else {
                                assert(totals@[a] == before[a]);
                            }
                        }
                        assert forall|j: int| 0 <= j < totals@.len() implies ({
                            let t = #[trigger] totals@[j];
                            &&& t.partial == capped(partial_count(messages@, t.signer@, i as nat + 1))
                            &&& t.full == any_full(messages@, t.signer@, i as nat + 1)
                            &&& (t.full || t.partial > 0)
                        }) by {
                            if j < last {
                                assert(totals@[j] == before[j]);
                                assert(before[j].signer@ != signer@);
                            }
                        }
                        assert forall|s: Seq<u8>| #[trigger]
                            has_slash(messages@, s, i as nat + 1) implies exists|j: int|
                            0 <= j < totals@.len() && (#[trigger] totals@[j]).signer@ == s by {
                            if s == signer@ {
                                assert(totals@[last].signer@ == s);
                            } else {
                                assert(has_slash(messages@, s, i as nat));
                                let j = choose|j: int| 0 <= j < before.len() && (#[trigger] before[j]).signer@ == s;
                                assert(totals@[j] == before[j]);
                            }
                        }
                        assert(accounts_for(totals@, messages@, i as nat + 1));
                    }
                }
            },
        }
        i += 1;
    }
    totals
}


/// Where an attempt on an identifier stands.
#[derive(Clone, Copy, Debug, PartialEq, Eq, Structural)]
pub enum Phase {
    /// The identifier was not authorized.
    Unrecognized,
    /// No message of the first round was accepted yet.
    Empty,
    /// The first round is under way.
    Collecting,
    /// The first round is complete and its set was sent out.
    Emitted,
    /// The second round is under way.
    CollectingShares,
    /// The second round is complete and its set was sent out.
    EmittedShares,
}

impl Zone {
    /// The kind of the zone's first round.
    pub open spec fn first_kind_model(self) -> Kind {
        match self {
            Zone::Dkg => Kind::DkgCommitments,
            Zone::Batch => Kind::BatchPreprocess,
            Zone::Sign => Kind::SignPreprocess,
        }
    }

    /// The kind of the zone's second round.
    pub open spec fn second_kind_model(self) -> Kind {
        match self {
            Zone::Dkg => Kind::DkgShares,
            Zone::Batch => Kind::BatchShare,
            Zone::Sign => Kind::SignShare,
        }
    }

    /// The kind of the zone's first round.
    pub fn first_kind(&self) -> (r: Kind)
        ensures
            r == self.first_kind_model(),
    {
        match self {
            Zone::Dkg => Kind::DkgCommitments,
            Zone::Batch => Kind::BatchPreprocess,
            Zone::Sign => Kind::SignPreprocess,
        }
    }

    /// The kind of the zone's second round.
    pub fn second_kind(&self) -> (r: Kind)
        ensures
            r == self.second_kind_model(),
    {
        match self {
            Zone::Dkg => Kind::DkgShares,
            Zone::Batch => Kind::BatchShare,
            Zone::Sign => Kind::SignShare,
        }
    }
}

/// Where an attempt stands, by the records: by whether the identifier is
/// authorized and by the counts of signers of the two rounds against the
/// number needed.
pub open spec fn phase_model(
    store: Map<Seq<u8>, Seq<u8>>,
    genesis: Seq<u8>,
    zone: Zone,
    id: Seq<u8>,
    attempt: u32,
    needed: nat,
) -> Phase {
    let first = signers(store, zone.first_kind_model(), genesis, id, attempt).len();
    let second = signers(store, zone.second_kind_model(), genesis, id, attempt).len();
    if zone != Zone::Dkg && !recognized(store, zone, genesis, id) {
        Phase::Unrecognized
    } else if first == 0 {
        Phase::Empty
    } else if first < 32 * needed {
        Phase::Collecting
    } else if second == 0 {
        Phase::Emitted
    } else if second < 32 * needed {
        Phase::CollectingShares
    } else {
        Phase::EmittedShares
    }
}

/// Where an attempt on an identifier stands: every validator is needed in
/// the key-generation zone, and the threshold elsewhere.
pub fn phase(store: &Store, cohort: &CohortSpec, zone: Zone, id: &[u8; 32], attempt: u32) -> (r: Phase)
    ensures
        r == phase_model(
            store@,
            cohort.genesis_model(),
            zone,
            id@,
            attempt,
            if zone == Zone::Dkg {
                cohort.validators_model().len()
            } else {
                cohort.t_model()
            },
        ),
{
    let genesis = cohort.genesis();
    let needed: usize = if zone == Zone::Dkg {
        cohort.n() as usize
    } else {
        cohort.t() as usize
    };
    if zone != Zone::Dkg {
        let key = make_pair_key(1, zone.tag(), &genesis, &array_to_vec(id));
        if !store.contains(&key) {
            return Phase::Unrecognized;
        }
    }
    let first = match store.get(&make_signers_key(zone.first_kind(), &genesis, id, attempt)) {
        Some(list) => list.len(),
        None => 0,
    };
    let second = match store.get(&make_signers_key(zone.second_kind(), &genesis, id, attempt)) {
        Some(list) => list.len(),
        None => 0,
    };
    if first == 0 {
        Phase::Empty
    } else if first < 32 * needed {
        Phase::Collecting
    } else if second == 0 {
        Phase::Emitted
    } else if second < 32 * needed {
        Phase::CollectingShares
    } else {
        Phase::EmittedShares
    }
}

/// A message that is turned down changes nothing: the records, and with
/// them the phase of every attempt, stay as they are. In particular an
/// identifier that was not authorized stays so.
pub proof fn lemma_rejected_changes_nothing(
    store: Map<Seq<u8>, Seq<u8>>,
    genesis: Seq<u8>,
    validators: Seq<[u8; 32]>,
    s: SubmissionModel,
)
    ensures
        ({
            let (after, verdict) = handle_model(store, genesis, validators, s);
            &&& (verdict is Ok && verdict->Ok_0 is Rejected) ==> after == store
            &&& verdict is Err ==> after == store
            &&& (s.kind.zone_model() != Zone::Dkg && !recognized(store, s.kind.zone_model(), genesis, s.id))
                ==> verdict == Ok::<VerdictModel, Fatal>(VerdictModel::Rejected(Reason::UnrecognizedId))
        }),
{
}


/// Replay of a log is determined by the records alone: stopping after the
/// first `done` blocks of a list without a halt and then processing the
/// blocks that follow, over the records that were left, ends with the
/// records of an uninterrupted run over the first `upto` blocks, and
/// sends out exactly the messages that the uninterrupted run sends after
/// the stop. So the messages before the stop followed by the messages
/// after it are one sequence, wherever the stop falls.
pub proof fn lemma_chain_resume(
    store: Map<Seq<u8>, Seq<u8>>,
    genesis: Seq<u8>,
    validators: Seq<[u8; 32]>,
    t: nat,
    our_key: Seq<u8>,
    blocks: Seq<Block>,
    done: nat,
    upto: nat,
)
    requires
        done <= upto <= blocks.len(),
        chain_model(store, genesis, validators, t, our_key, blocks, done).2 is None,
    ensures
        ({
            let first = chain_model(store, genesis, validators, t, our_key, blocks, done);
            let whole = chain_model(store, genesis, validators, t, our_key, blocks, upto);
            let resumed = chain_model(
                first.0,
                genesis,
                validators,
                t,
                our_key,
                blocks.skip(done as int),
                (upto - done) as nat,
            );
            &&& resumed.0 == whole.0
            &&& first.1 + resumed.1 == whole.1
            &&& resumed.2 == whole.2
        }),
    decreases upto,
{
    let first = chain_model(store, genesis, validators, t, our_key, blocks, done);
    let rest = blocks.skip(done as int);
    if upto == done {
        assert(first.1 + Seq::<OutboundModel>::empty() =~= first.1);
    } else {
        lemma_chain_resume(store, genesis, validators, t, our_key, blocks, done, (upto - 1) as nat);
        let whole = chain_model(store, genesis, validators, t, our_key, blocks, (upto - 1) as nat);
        let resumed = chain_model(first.0, genesis, validators, t, our_key, rest, (upto - 1 - done) as nat);
        let b = blocks[upto - 1];
        assert(rest[upto - 1 - done] == b);
        let more = block_model(
            whole.0,
            genesis,
            validators,
            t,
            our_key,
            b.hash@,
            b.transactions@,
            b.transactions@.len(),
        ).1;
        assert(first.1 + (resumed.1 + more) =~= (first.1 + resumed.1) + more);
    }
}

} // verus!
