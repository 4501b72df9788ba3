use object_rainbow::encrypted::{encrypt, EncryptedStore, Key};
use object_rainbow::error::Error;
use object_rainbow::fetch::{closure_fetch, ClosureFetch, FetchFn, FnFetch};

struct Counter(u32);

impl FetchFn for Counter {
    type T = u32;

    fn fetch(&self) -> Result<u32, Error> {
        Ok(self.0 + 1)
    }
}

struct Double;

impl ClosureFetch<u32> for Double {
    type T = u32;

    fn fetch(&self, closure: &u32) -> Result<u32, Error> {
        if *closure == 0 {
            Err(Error::Fetch)
        } else {
            Ok(*closure * 2)
        }
    }
}

#[test]
fn fn_fetch_returns_source_result() {
    let f = FnFetch::new(Counter(41));
    assert_eq!(f.fetch(), Ok(42));
    let g = f.clone();
    assert_eq!(g.fetch(), Ok(42));
}

#[test]
fn closure_fetch_passes_context() {
    let p = closure_fetch(21u32, Double);
    assert_eq!(p.fetch(), Ok(42));
    let q = closure_fetch(0u32, Double);
    assert_eq!(q.fetch(), Err(Error::Fetch));
}

#[derive(Clone)]
struct XorKey(u8);

impl Key for XorKey {
    fn encrypt(&self, data: &[u8]) -> Vec<u8> {
        data.iter().map(|b| b ^ self.0).collect()
    }

    fn decrypt(&self, data: &[u8]) -> Result<Vec<u8>, Error> {
        if data.is_empty() {
            Err(Error::EndOfInput)
        } else {
            Ok(data.iter().map(|b| b ^ self.0).collect())
        }
    }
}

#[test]
fn encrypted_store_uses_key() {
    let store = EncryptedStore::new((), XorKey(0x0f));
    let stored = store.encrypt_data(&[1, 2, 3]);
    assert_eq!(stored, vec![0x0e, 0x0d, 0x0c]);
    assert_eq!(store.decrypt_data(&stored), Ok(vec![1, 2, 3]));
    assert_eq!(store.decrypt_data(&[]), Err(Error::Consistency));
}

#[test]
fn encrypted_clone_shares_value() {
    let e = encrypt(XorKey(1), String::from("plain"));
    let c = e.clone();
    assert_eq!(c.get(), "plain");
    assert_eq!(&*c, "plain");
    assert_eq!(c.into_inner(), String::from("plain"));
    assert_eq!(e.into_inner(), String::from("plain"));
}
