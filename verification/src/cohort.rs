//! A signing cohort: the validators that jointly hold one key.

use vstd::prelude::*;

verus! {

/// Whether two 32-byte strings are equal.
pub fn array32_eq(a: &[u8; 32], b: &[u8; 32]) -> (r: bool)
    ensures
        r == (a@ == b@),
{
    let mut i: usize = 0;
    while i < 32
        invariant
            i <= 32,
            forall|k: int| 0 <= k < i ==> a@[k] == b@[k],
        decreases 32 - i,
    {
        if a[i] != b[i] {
            return false;
        }
        i += 1;
    }
    assert(a@ =~= b@);
    true
}

/// Whether no key occurs twice in a list.
pub open spec fn distinct(keys: Seq<[u8; 32]>) -> bool {
    forall|a: int, b: int| 0 <= a < b < keys.len() ==> keys[a]@ != keys[b]@
}

/// The one-based position of the first occurrence of `key`, if it occurs.
pub open spec fn position(keys: Seq<[u8; 32]>, key: Seq<u8>) -> Option<nat>
    decreases keys.len(),
{
    if keys.len() == 0 {
        None
    } else if position(keys.drop_last(), key) is Some {
        position(keys.drop_last(), key)
    } else if keys.last()@ == key {
        Some(keys.len())
    } else {
        None
    }
}

/// What is fixed when a cohort is created: its genesis, the identifier of
/// its validator set, its threshold and its validators in canonical order.
pub struct CohortSpec {
    genesis: [u8; 32],
    set: u32,
    t: u16,
    validators: Vec<[u8; 32]>,
}

impl CohortSpec {
    #[verifier::type_invariant]
    spec fn well_formed(self) -> bool {
        &&& 1 <= self.t <= self.validators@.len() <= u16::MAX
        &&& distinct(self.validators@)
    }

    /// The genesis, as a value of contracts.
    pub closed spec fn genesis_model(&self) -> Seq<u8> {
        self.genesis@
    }

    /// The validators, as a value of contracts.
    pub closed spec fn validators_model(&self) -> Seq<[u8; 32]> {
        self.validators@
    }

    /// The threshold, as a value of contracts.
    pub closed spec fn t_model(&self) -> nat {
        self.t as nat
    }

    /// The set identifier, as a value of contracts.
    pub closed spec fn set_model(&self) -> u32 {
        self.set
    }

    /// A cohort, if the threshold is between one and the number of
    /// validators, that number fits in 16 bits, and no validator occurs
    /// twice.
    pub fn new(genesis: [u8; 32], set: u32, t: u16, validators: Vec<[u8; 32]>) -> (r: Option<CohortSpec>)
        ensures
            r is Some <==> 1 <= t <= validators@.len() <= u16::MAX && distinct(validators@),
            r is Some ==> {
                &&& r->Some_0.genesis_model() == genesis@
                &&& r->Some_0.set_model() == set
                &&& r->Some_0.t_model() == t
                &&& r->Some_0.validators_model() == validators@
            },
    {
        if t < 1 || validators.len() > 65535 || (t as usize) > validators.len() {
            return None;
        }
        let mut i: usize = 0;
        while i < validators.len()
            invariant
                i <= validators.len(),
                forall|a: int, b: int| 0 <= a < b < i ==> validators@[a]@ != validators@[b]@,
            decreases validators.len() - i,
        {
            let mut j: usize = 0;
            while j < i
                invariant
                    j <= i < validators.len(),
                    forall|a: int| 0 <= a < j ==> validators@[a]@ != validators@[i as int]@,
                decreases i - j,
            {
                if array32_eq(&validators[j], &validators[i]) {
                    return None;
                }
                j += 1;
            }
            i += 1;
        }
        Some(CohortSpec { genesis, set, t, validators })
    }

    /// The genesis of the cohort's log.
    pub fn genesis(&self) -> (r: [u8; 32])
        ensures
            r@ == self.genesis_model(),
    {
        self.genesis
    }

    /// The identifier of the cohort's validator set.
    pub fn set(&self) -> (r: u32)
        ensures
            r == self.set_model(),
    {
        self.set
    }

    /// The number of validators.
    pub fn n(&self) -> (r: u16)
        ensures
            r == self.validators_model().len(),
            r >= 1,
    {
        proof {
            use_type_invariant(self);
        }
        self.validators.len() as u16
    }

    /// The number of validators whose contributions complete a signature.
    pub fn t(&self) -> (r: u16)
        ensures
            r == self.t_model(),
            1 <= r <= self.validators_model().len(),
    {
        proof {
            use_type_invariant(self);
        }
        self.t
    }

    /// The validators in canonical order.
    pub fn validators(&self) -> (r: &Vec<[u8; 32]>)
        ensures
            r@ == self.validators_model(),
            distinct(r@),
            r@.len() <= u16::MAX,
    {
        proof {
            use_type_invariant(self);
        }
        &self.validators
    }

    /// The index of a validator: its one-based position in the canonical
    /// order.
    pub fn i(&self, key: &[u8; 32]) -> (r: Option<u16>)
        ensures
            match r {
                Some(i) => position(self.validators_model(), key@) == Some(i as nat),
                None => position(self.validators_model(), key@) is None,
            },
    {
        proof {
            use_type_invariant(self);
        }
        let mut i: usize = 0;
        while i < self.validators.len()
            invariant
                i <= self.validators.len(),
                position(self.validators@.take(i as int), key@) is None,
            decreases self.validators.len() - i,
        {
            proof {
                assert(self.validators@.take(i as int + 1).drop_last() =~= self.validators@.take(i as int));
            }
            if array32_eq(&self.validators[i], key) {
                proof {
                    use_type_invariant(self);
                    lemma_position_extends(self.validators@, key@, i as nat + 1);
                }
                return Some((i + 1) as u16);
            }
            i += 1;
        }
        proof {
            assert(self.validators@.take(i as int) =~= self.validators@);
        }
        None
    }
}

/// A position found in a prefix is the position in the whole list.
pub proof fn lemma_position_extends(keys: Seq<[u8; 32]>, key: Seq<u8>, n: nat)
    requires
        n <= keys.len(),
        position(keys.take(n as int), key) is Some,
    ensures
        position(keys, key) == position(keys.take(n as int), key),
    decreases keys.len() - n,
{
    if n < keys.len() {
        assert(keys.take(n as int + 1).drop_last() =~= keys.take(n as int));
        lemma_position_extends(keys, key, n + 1);
    } else {
        assert(keys.take(n as int) =~= keys);
    }
}

} // verus!
