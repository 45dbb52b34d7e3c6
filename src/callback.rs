//! The state-access operations that the runtime calls back into, over a
//! world state owned on this side of the boundary.
use vstd::prelude::*;
use vstd::array::spec_array_fill_for_copy_type;
use crate::store::{has_prefix, ByteMap};
use crate::value::{be_nat, checked_add, checked_sub, value_bound};

verus! {

/// A 32-byte account address.
#[allow(non_camel_case_types)]
#[derive(Debug, Clone, Copy)]
pub struct avm_address {
    pub bytes: [u8; 32],
}

/// A 32-byte big-endian unsigned amount.
#[allow(non_camel_case_types)]
#[derive(Debug, Clone, Copy)]
pub struct avm_value {
    pub bytes: [u8; 32],
}

/// A byte buffer handed across the boundary: either absent (the null
/// sentinel) or an owned payload, which may be empty.
#[allow(non_camel_case_types)]
#[derive(Debug)]
pub struct avm_bytes {
    data: Option<Vec<u8>>,
}

impl View for avm_bytes {
    type V = Option<Seq<u8>>;

    closed spec fn view(&self) -> Option<Seq<u8>> {
        match self.data {
            Some(v) => Some(v@),
            None => None,
        }
    }
}

impl avm_bytes {
    /// The absent buffer.
    pub fn new_null_bytes() -> (r: avm_bytes)
        ensures
            r@ is None,
    {
        avm_bytes { data: None }
    }

    /// A present buffer of `length` zero bytes.
    pub fn new_fixed_bytes(length: u32) -> (r: avm_bytes)
        ensures
            r@ == Some(Seq::new(length as nat, |i: int| 0u8)),
    {
        let mut v: Vec<u8> = Vec::new();
        let mut i: u32 = 0;
        while i < length
            invariant
                i <= length,
                v@ == Seq::new(i as nat, |j: int| 0u8),
            decreases length - i,
        {
            v.push(0u8);
            i = i + 1;
            assert(v@ =~= Seq::new(i as nat, |j: int| 0u8));
        }
        avm_bytes { data: Some(v) }
    }

    /// A present buffer that owns `v`.
    pub fn from_vec(v: Vec<u8>) -> (r: avm_bytes)
        ensures
            r@ == Some(v@),
    {
        avm_bytes { data: Some(v) }
    }

    /// Whether this is the absent buffer.
    pub fn is_null(&self) -> (r: bool)
        ensures
            r == (self@ is None),
    {
        self.data.is_none()
    }

    /// The payload's length; zero for the absent buffer.
    pub fn length(&self) -> (r: usize)
        ensures
            r == match self@ {
                Some(s) => s.len(),
                None => 0,
            },
    {
        match &self.data {
            Some(v) => v.len(),
            None => 0,
        }
    }

    /// The payload, if present, borrowed.
    pub fn as_slice(&self) -> (r: Option<&[u8]>)
        ensures
            match r {
                Some(s) => self@ == Some(s@),
                None => self@ is None,
            },
    {
        match &self.data {
            Some(v) => Some(v.as_slice()),
            None => None,
        }
    }

    /// Releases the buffer, handing its payload, if any, to the caller.
    pub fn release_bytes(self) -> (r: Option<Vec<u8>>)
        ensures
            match r {
                Some(v) => self@ == Some(v@),
                None => self@ is None,
            },
    {
        self.data
    }
}

/// The balance and nonce of an account.
#[derive(Debug, Clone, Copy)]
pub struct Account {
    pub balance: [u8; 32],
    pub nonce: u64,
}

/// The amount zero: 32 zero bytes.
pub open spec fn zero_value() -> [u8; 32] {
    spec_array_fill_for_copy_type::<u8, 32>(0u8)
}

/// A fresh account: zero balance, zero nonce.
pub open spec fn empty_account() -> Account {
    Account { balance: zero_value(), nonce: 0 }
}

/// The account at `address`, or a fresh one where there is none.
pub open spec fn account_or_empty(accounts: Map<Seq<u8>, Account>, address: Seq<u8>) -> Account {
    if accounts.contains_key(address) {
        accounts[address]
    } else {
        empty_account()
    }
}

/// Where a storage slot of `address` under `key` lives in the flat storage map.
pub open spec fn slot(address: Seq<u8>, key: Seq<u8>) -> Seq<u8> {
    address + key
}

/// The state that the runtime reads and changes through its callbacks.
pub struct WorldState {
    accounts: ByteMap<Account>,
    code: ByteMap<Vec<u8>>,
    storage: ByteMap<Vec<u8>>,
}

fn address_key(address: &avm_address) -> (r: Vec<u8>)
    ensures
        r@ == address.bytes@,
{
    let mut v: Vec<u8> = Vec::new();
    let mut i: usize = 0;
    while i < 32
        invariant
            i <= 32,
            v@ == address.bytes@.take(i as int),
        decreases 32 - i,
    {
        v.push(address.bytes[i]);
        i = i + 1;
        assert(v@ =~= address.bytes@.take(i as int));
    }
    assert(address.bytes@.take(32) =~= address.bytes@);
    v
}

fn slot_key(address: &avm_address, key: &[u8]) -> (r: Vec<u8>)
    ensures
        r@ == slot(address.bytes@, key@),
{
    let mut v = address_key(address);
    let ghost start = v@;
    let mut i: usize = 0;
    while i < key.len()
        invariant
            i <= key@.len(),
            v@ == start + key@.take(i as int),
        decreases key@.len() - i,
    {
        v.push(key[i]);
        i = i + 1;
        assert(v@ =~= start + key@.take(i as int));
    }
    assert(key@.take(i as int) =~= key@);
    v
}

fn copy_bytes(b: &[u8]) -> (r: Vec<u8>)
    ensures
        r@ == b@,
{
    let mut v: Vec<u8> = Vec::new();
    let mut i: usize = 0;
    while i < b.len()
        invariant
            i <= b@.len(),
            v@ == b@.take(i as int),
        decreases b@.len() - i,
    {
        v.push(b[i]);
        i = i + 1;
        assert(v@ =~= b@.take(i as int));
    }
    assert(b@.take(i as int) =~= b@);
    v
}

impl WorldState {
    /// The maps are well formed.
    pub closed spec fn wf(&self) -> bool {
        self.accounts.wf() && self.code.wf() && self.storage.wf()
    }

    /// The accounts, by address.
    pub closed spec fn accounts(&self) -> Map<Seq<u8>, Account> {
        self.accounts.map()
    }

    /// The deployed code, by address.
    pub closed spec fn code(&self) -> Map<Seq<u8>, Seq<u8>> {
        self.code.map().map_values(|c: Vec<u8>| c@)
    }

    /// The storage values, by `slot(address, key)`.
    pub closed spec fn storage(&self) -> Map<Seq<u8>, Seq<u8>> {
        self.storage.map().map_values(|c: Vec<u8>| c@)
    }

    /// A state with no accounts, code or storage.
    pub fn new() -> (r: WorldState)
        ensures
            r.wf(),
            r.accounts() == Map::<Seq<u8>, Account>::empty(),
            r.code() == Map::<Seq<u8>, Seq<u8>>::empty(),
            r.storage() == Map::<Seq<u8>, Seq<u8>>::empty(),
    {
        let r = WorldState { accounts: ByteMap::new(), code: ByteMap::new(), storage: ByteMap::new() };
        assert(r.code() =~= Map::<Seq<u8>, Seq<u8>>::empty());
        assert(r.storage() =~= Map::<Seq<u8>, Seq<u8>>::empty());
        r
    }

    /// Creates the account at `address` with zero balance and nonce, unless it exists.
    pub fn create_account(&mut self, address: &avm_address)
        requires
            old(self).wf(),
        ensures
            final(self).wf(),
            final(self).accounts() == if old(self).accounts().contains_key(address.bytes@) {
                old(self).accounts()
            } else {
                old(self).accounts().insert(address.bytes@, empty_account())
            },
            final(self).code() == old(self).code(),
            final(self).storage() == old(self).storage(),
    {
        let k = address_key(address);
        if self.accounts.get(k.as_slice()).is_none() {
            self.accounts.insert(k, Account { balance: [0u8; 32], nonce: 0 });
        }
    }

    /// 1 when the account at `address` exists, else 0.
    pub fn has_account_state(&self, address: &avm_address) -> (r: u32)
        requires
            self.wf(),
        ensures
            r == if self.accounts().contains_key(address.bytes@) { 1u32 } else { 0u32 },
    {
        let k = address_key(address);
        if self.accounts.get(k.as_slice()).is_some() { 1 } else { 0 }
    }

    /// Removes the account at `address`, its code and its storage.
    pub fn delete_account(&mut self, address: &avm_address)
        requires
            old(self).wf(),
        ensures
            final(self).wf(),
            final(self).accounts() == old(self).accounts().remove(address.bytes@),
            final(self).code() == old(self).code().remove(address.bytes@),
            final(self).storage() == old(self).storage().restrict(
                old(self).storage().dom().filter(|k: Seq<u8>| !has_prefix(address.bytes@, k)),
            ),
    {
        let k = address_key(address);
        self.accounts.remove(k.as_slice());
        self.code.remove(k.as_slice());
        self.storage.remove_prefixed(k.as_slice());
        assert(self.code() =~= old(self).code().remove(address.bytes@));
        assert(self.storage() =~= old(self).storage().restrict(
            old(self).storage().dom().filter(|q: Seq<u8>| !has_prefix(address.bytes@, q)),
        ));
    }

    /// Sets the code at `address` to a present buffer; an absent one clears it.
    pub fn put_code(&mut self, address: &avm_address, code: &avm_bytes)
        requires
            old(self).wf(),
        ensures
            final(self).wf(),
            final(self).accounts() == old(self).accounts(),
            final(self).code() == match code@ {
                Some(c) => old(self).code().insert(address.bytes@, c),
                None => old(self).code().remove(address.bytes@),
            },
            final(self).storage() == old(self).storage(),
    {
        let k = address_key(address);
        match code.as_slice() {
            Some(c) => {
                self.code.insert(k, copy_bytes(c));
                assert(self.code() =~= old(self).code().insert(address.bytes@, c@));
            },
            None => {
                self.code.remove(k.as_slice());
                assert(self.code() =~= old(self).code().remove(address.bytes@));
            },
        }
    }

    /// The code at `address`, or the absent buffer where none was put.
    pub fn get_code(&self, address: &avm_address) -> (r: avm_bytes)
        requires
            self.wf(),
        ensures
            r@ == if self.code().contains_key(address.bytes@) {
                Some(self.code()[address.bytes@])
            } else {
                None
            },
    {
        let k = address_key(address);
        match self.code.get(k.as_slice()) {
            Some(c) => avm_bytes::from_vec(copy_bytes(c.as_slice())),
            None => avm_bytes::new_null_bytes(),
        }
    }

    /// Sets the storage of `address` under `key` to a present `value`; an
    /// absent value clears the slot, and an absent key changes nothing.
    pub fn put_storage(&mut self, address: &avm_address, key: &avm_bytes, value: &avm_bytes)
        requires
            old(self).wf(),
        ensures
            final(self).wf(),
            final(self).accounts() == old(self).accounts(),
            final(self).code() == old(self).code(),
            final(self).storage() == match (key@, value@) {
                (Some(k), Some(v)) => old(self).storage().insert(slot(address.bytes@, k), v),
                (Some(k), None) => old(self).storage().remove(slot(address.bytes@, k)),
                (None, _) => old(self).storage(),
            },
    {
        match key.as_slice() {
            None => {},
            Some(kb) => {
                let k = slot_key(address, kb);
                match value.as_slice() {
                    Some(v) => {
                        self.storage.insert(k, copy_bytes(v));
                        assert(self.storage() =~= old(self).storage().insert(
                            slot(address.bytes@, kb@), v@));
                    },
                    None => {
                        self.storage.remove(k.as_slice());
                        assert(self.storage() =~= old(self).storage().remove(
                            slot(address.bytes@, kb@)));
                    },
                }
            },
        }
    }

    /// The storage of `address` under `key`, or the absent buffer where the
    /// slot was never set (or the key is absent).
    pub fn get_storage(&self, address: &avm_address, key: &avm_bytes) -> (r: avm_bytes)
        requires
            self.wf(),
        ensures
            r@ == match key@ {
                Some(k) => if self.storage().contains_key(slot(address.bytes@, k)) {
                    Some(self.storage()[slot(address.bytes@, k)])
                } else {
                    None
                },
                None => None,
            },
    {
        match key.as_slice() {
            None => avm_bytes::new_null_bytes(),
            Some(kb) => {
                let k = slot_key(address, kb);
                match self.storage.get(k.as_slice()) {
                    Some(v) => avm_bytes::from_vec(copy_bytes(v.as_slice())),
                    None => avm_bytes::new_null_bytes(),
                }
            },
        }
    }

    /// The nonce of the account at `address`; zero where it does not exist.
    pub fn get_nonce(&self, address: &avm_address) -> (r: u64)
        requires
            self.wf(),
        ensures
            r == if self.accounts().contains_key(address.bytes@) {
                self.accounts()[address.bytes@].nonce
            } else {
                0
            },
    {
        let k = address_key(address);
        match self.accounts.get(k.as_slice()) {
            Some(a) => a.nonce,
            None => 0,
        }
    }

    /// Adds one to the nonce of the account at `address`, creating the account
    /// first where it does not exist; a nonce at its maximum stays there.
    pub fn increment_nonce(&mut self, address: &avm_address)
        requires
            old(self).wf(),
        ensures
            final(self).wf(),
            ({
                let a = if old(self).accounts().contains_key(address.bytes@) {
                    old(self).accounts()[address.bytes@]
                } else {
                    empty_account()
                };
                final(self).accounts() == old(self).accounts().insert(
                    address.bytes@,
                    Account { balance: a.balance, nonce: if a.nonce < u64::MAX { (a.nonce + 1) as u64 } else { a.nonce } },
                )
            }),
            final(self).code() == old(self).code(),
            final(self).storage() == old(self).storage(),
    {
        let k = address_key(address);
        let a = match self.accounts.get(k.as_slice()) {
            Some(a) => *a,
            None => Account { balance: [0u8; 32], nonce: 0 },
        };
        let nonce = if a.nonce < u64::MAX { a.nonce + 1 } else { a.nonce };
        self.accounts.insert(k, Account { balance: a.balance, nonce });
    }

    /// The balance of the account at `address`; zero where it does not exist.
    pub fn get_balance(&self, address: &avm_address) -> (r: avm_value)
        requires
            self.wf(),
        ensures
            r.bytes == if self.accounts().contains_key(address.bytes@) {
                self.accounts()[address.bytes@].balance
            } else {
                zero_value()
            },
    {
        let k = address_key(address);
        match self.accounts.get(k.as_slice()) {
            Some(a) => avm_value { bytes: a.balance },
            None => avm_value { bytes: [0u8; 32] },
        }
    }

    /// Adds `value` to the balance at `address`, creating the account first
    /// where it does not exist; a sum that does not fit in 32 bytes changes nothing.
    pub fn increase_balance(&mut self, address: &avm_address, value: &avm_value)
        requires
            old(self).wf(),
        ensures
            final(self).wf(),
            ({
                let a = account_or_empty(old(self).accounts(), address.bytes@);
                if be_nat(a.balance@) + be_nat(value.bytes@) < value_bound() {
                    final(self).accounts().contains_key(address.bytes@)
                        && final(self).accounts() == old(self).accounts().insert(
                            address.bytes@, final(self).accounts()[address.bytes@])
                        && final(self).accounts()[address.bytes@].nonce == a.nonce
                        && be_nat(final(self).accounts()[address.bytes@].balance@)
                            == be_nat(a.balance@) + be_nat(value.bytes@)
                } else {
                    final(self).accounts() == old(self).accounts()
                }
            }),
            final(self).code() == old(self).code(),
            final(self).storage() == old(self).storage(),
    {
        let k = address_key(address);
        let a = match self.accounts.get(k.as_slice()) {
            Some(a) => *a,
            None => Account { balance: [0u8; 32], nonce: 0 },
        };
        assert(a == account_or_empty(old(self).accounts(), address.bytes@));
        match checked_add(&a.balance, &value.bytes) {
            Some(v) => self.accounts.insert(k, Account { balance: v, nonce: a.nonce }),
            None => {},
        }
    }

    /// Takes `value` from the balance at `address`; where the account does not
    /// exist or holds less than `value`, nothing changes.
    pub fn decrease_balance(&mut self, address: &avm_address, value: &avm_value)
        requires
            old(self).wf(),
        ensures
            final(self).wf(),
            ({
                let a = account_or_empty(old(self).accounts(), address.bytes@);
                if old(self).accounts().contains_key(address.bytes@)
                    && be_nat(value.bytes@) <= be_nat(a.balance@) {
                    final(self).accounts().contains_key(address.bytes@)
                        && final(self).accounts() == old(self).accounts().insert(
                            address.bytes@, final(self).accounts()[address.bytes@])
                        && final(self).accounts()[address.bytes@].nonce == a.nonce
                        && be_nat(final(self).accounts()[address.bytes@].balance@)
                            + be_nat(value.bytes@) == be_nat(a.balance@)
                } else {
                    final(self).accounts() == old(self).accounts()
                }
            }),
            final(self).code() == old(self).code(),
            final(self).storage() == old(self).storage(),
    {
        let k = address_key(address);
        match self.accounts.get(k.as_slice()) {
            Some(a) => {
                let a = *a;
                match checked_sub(&a.balance, &value.bytes) {
                    Some(v) => self.accounts.insert(k, Account { balance: v, nonce: a.nonce }),
                    None => {},
                }
            },
            None => {},
        }
    }
}

} // verus!
