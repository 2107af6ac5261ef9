//! The pieces of a caching client that involve no network: a shared cache
//! handle, the client builder's settings, and the result key of a request.
use std::cell::RefCell;
use std::rc::Rc;
use sha1::Digest;
use vstd::prelude::*;

verus! {

/// `std::cell::RefCell`, held opaque: the shared cache lives in one.
#[verifier::external_type_specification]
#[verifier::external_body]
#[verifier::reject_recursive_types(T)]
pub struct ExRefCell<T: ?Sized>(RefCell<T>);

/// Relies on `RefCell::new`, which only moves the value into a new cell.
pub assume_specification<T>[ RefCell::<T>::new ](value: T) -> RefCell<T>;

/// Relies on `Rc::clone`: another pointer to the same allocation.
#[verifier::external_body]
fn share<T>(rc: &Rc<T>) -> (r: Rc<T>)
    ensures
        r == *rc,
{
    Rc::clone(rc)
}

/// A cache shared between a client and its owner.
#[verifier::reject_recursive_types(C)]
pub struct CacheWrap<C>(Rc<RefCell<C>>);

impl<C> CacheWrap<C> {
    pub closed spec fn handle(&self) -> Rc<RefCell<C>> {
        self.0
    }

    /// Wraps a cache so that it can be shared.
    pub fn new(cache: C) -> (r: CacheWrap<C>) {
        CacheWrap(Rc::new(RefCell::new(cache)))
    }

    /// Another handle to the same shared cache.
    pub fn inner(&self) -> (r: Rc<RefCell<C>>)
        ensures
            r == self.handle(),
    {
        share(&self.0)
    }
}

/// The settings of a client, gathered before it is built.
#[verifier::reject_recursive_types(C)]
pub struct DiscoveryClientBuilder<C> {
    uri: Option<String>,
    authorization: Option<String>,
    cache: Option<CacheWrap<C>>,
}

impl<C> DiscoveryClientBuilder<C> {
    pub closed spec fn uri_of(&self) -> Option<Seq<char>> {
        match self.uri {
            Some(u) => Some(u@),
            None => None,
        }
    }

    pub closed spec fn authorization_of(&self) -> Option<Seq<char>> {
        match self.authorization {
            Some(a) => Some(a@),
            None => None,
        }
    }

    pub closed spec fn cache_of(&self) -> Option<Rc<RefCell<C>>> {
        match self.cache {
            Some(c) => Some(c.handle()),
            None => None,
        }
    }

    /// A builder with no endpoint, no authorization and no cache.
    pub fn new() -> (r: Self)
        ensures
            r.uri_of() is None,
            r.authorization_of() is None,
            r.cache_of() is None,
    {
        DiscoveryClientBuilder { cache: None, uri: None, authorization: None }
    }

    /// Sets the endpoint's address.
    pub fn uri(self, uri: String) -> (r: Self)
        ensures
            r.uri_of() == Some(uri@),
            r.authorization_of() == self.authorization_of(),
            r.cache_of() == self.cache_of(),
    {
        DiscoveryClientBuilder { uri: Some(uri), ..self }
    }

    /// Sets the value of the `Authorization` header.
    pub fn authorization(self, authorization: String) -> (r: Self)
        ensures
            r.authorization_of() == Some(authorization@),
            r.uri_of() == self.uri_of(),
            r.cache_of() == self.cache_of(),
    {
        DiscoveryClientBuilder { authorization: Some(authorization), ..self }
    }

    /// Sets the cache that the client reads and fills.
    pub fn cache(self, cache: CacheWrap<C>) -> (r: Self)
        ensures
            r.cache_of() == Some(cache.handle()),
            r.uri_of() == self.uri_of(),
            r.authorization_of() == self.authorization_of(),
    {
        DiscoveryClientBuilder { cache: Some(cache), ..self }
    }

    /// The settings, taken apart: endpoint, authorization and cache.
    pub fn into_parts(self) -> (r: (Option<String>, Option<String>, Option<CacheWrap<C>>))
        ensures
            (match r.0 {
                Some(u) => Some(u@),
                None => None,
            }) == self.uri_of(),
            (match r.1 {
                Some(a) => Some(a@),
                None => None,
            }) == self.authorization_of(),
            (match r.2 {
                Some(c) => Some(c.handle()),
                None => None,
            }) == self.cache_of(),
    {
        (self.uri, self.authorization, self.cache)
    }
}

/// The SHA-1 digest of some bytes.
pub uninterp spec fn sha1_digest(b: Seq<u8>) -> Seq<u8>;

/// The standard, padded base64 text of some bytes.
pub uninterp spec fn base64_text(b: Seq<u8>) -> Seq<char>;

/// Relies on `sha1::Sha1::digest`: the 20-byte SHA-1 digest of the input.
#[verifier::external_body]
fn digest_sha1(b: &[u8]) -> (r: Vec<u8>)
    ensures
        r@ == sha1_digest(b@),
        r@.len() == 20,
{
    sha1::Sha1::digest(b).to_vec()
}

/// Relies on `base64::encode`: standard alphabet with padding, four
/// characters for each started group of three bytes.
#[verifier::external_body]
fn encode_base64(b: &[u8]) -> (r: String)
    requires
        b@.len() <= 1024,
    ensures
        r@ == base64_text(b@),
        r@.len() == 4 * ((b@.len() + 2) / 3),
{
    base64::encode(b)
}

/// The result key of a request: the base64 text of the SHA-1 digest of the
/// request's serialized body.
pub fn request_key(body: &Vec<u8>) -> (r: String)
    ensures
        r@ == base64_text(sha1_digest(body@)),
        r@.len() == 28,
{
    let d = digest_sha1(body.as_slice());
    encode_base64(d.as_slice())
}

} // verus!
