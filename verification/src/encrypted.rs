use std::sync::Arc;
use vstd::prelude::*;
use crate::error::Error;
use crate::shared::{share, unwrap_shared};

verus! {

/// A key that encrypts and decrypts byte strings.
pub trait Key: Sized {
    /// The encryption of `data`.
    fn encrypt(&self, data: &[u8]) -> Vec<u8>;

    /// The decryption of `data`, or why it failed.
    fn decrypt(&self, data: &[u8]) -> Result<Vec<u8>, Error>;
}

/// A value together with the key that its encoding is encrypted with. Clones share
/// the plain value.
pub struct Encrypted<K, T> {
    key: K,
    decrypted: Arc<T>,
}

impl<K, T> Encrypted<K, T> {
    /// The plain value.
    pub closed spec fn value(&self) -> T {
        *self.decrypted
    }

    /// The key.
    pub closed spec fn key(&self) -> K {
        self.key
    }

    /// The plain value, by reference.
    pub fn get(&self) -> (r: &T)
        ensures
            *r == self.value(),
    {
        &*self.decrypted
    }
}

impl<K, T: Clone> Encrypted<K, T> {
    /// Take out the plain value: the value itself where no clone shares it, else a
    /// clone of it.
    pub fn into_inner(self) -> (r: T)
        ensures
            r == self.value() || cloned::<T>(self.value(), r),
    {
        unwrap_shared(self.decrypted)
    }
}

/// The plain value is deref'd to.
impl<K, T> std::ops::Deref for Encrypted<K, T> {
    type Target = T;

    fn deref(&self) -> (r: &T)
        ensures
            *r == self.value(),
    {
        &*self.decrypted
    }
}

/// A clone has a clone of the key and shares the plain value.
impl<K: Clone, T> Clone for Encrypted<K, T> {
    fn clone(&self) -> (r: Self)
        ensures
            cloned::<K>(self.key(), r.key()),
            r.value() == self.value(),
    {
        Encrypted { key: self.key.clone(), decrypted: share(&self.decrypted) }
    }
}

/// Pair a value with the key to encrypt it with.
pub fn encrypt<K: Key, T>(key: K, decrypted: T) -> (r: Encrypted<K, T>)
    ensures
        r.key() == key,
        r.value() == decrypted,
{
    Encrypted { key, decrypted: Arc::new(decrypted) }
}

/// A store whose contents are encrypted with a key.
pub struct EncryptedStore<S, K> {
    store: S,
    key: K,
}

impl<S, K> EncryptedStore<S, K> {
    /// The underlying store.
    pub closed spec fn store(&self) -> S {
        self.store
    }

    /// The key.
    pub closed spec fn key(&self) -> K {
        self.key
    }

    /// A store over `store` that encrypts with `key`.
    pub fn new(store: S, key: K) -> (r: Self)
        ensures
            r.store() == store,
            r.key() == key,
    {
        EncryptedStore { store, key }
    }
}

impl<S, K: Key> EncryptedStore<S, K> {
    /// The bytes that the store keeps for `data`.
    pub fn encrypt_data(&self, data: &[u8]) -> (r: Vec<u8>)
        ensures
            call_ensures(K::encrypt, (&self.key(), data), r),
    {
        self.key.encrypt(data)
    }

    /// The data that stored bytes stand for; a failure to decrypt means the store
    /// holds something it did not write.
    pub fn decrypt_data(&self, stored: &[u8]) -> (r: Result<Vec<u8>, Error>)
        ensures
            r matches Ok(d) ==> call_ensures(K::decrypt, (&self.key(), stored), Ok::<Vec<u8>, Error>(d)),
            r is Err ==> r == Err::<Vec<u8>, Error>(Error::Consistency)
                && exists|e: Error| call_ensures(K::decrypt, (&self.key(), stored), Err::<Vec<u8>, Error>(e)),
    {
        match self.key.decrypt(stored) {
            Ok(d) => Ok(d),
            Err(e) => {
                assert(call_ensures(K::decrypt, (&self.key(), stored), Err::<Vec<u8>, Error>(e)));
                Err(Error::Consistency)
            },
        }
    }
}

} // verus!
