//! The object-store boundary that the gateway consumes: whole-object
//! get/put/delete, prefix listing and an existence probe over a flat
//! keyspace.
//!
//! Implementations speak to a remote store, so every operation may fail;
//! the contracts say what each outcome means for the store's contents,
//! never that an operation succeeds.

use vstd::prelude::*;

verus! {

/// The store could not be reached or answered with a service error.
#[derive(Clone, Copy, PartialEq, Eq, Structural, Debug)]
pub enum StoreError {
    Unavailable,
}

/// What a successful listing returns: every key of `m` that starts with
/// `prefix`, each exactly once, and nothing else.
pub open spec fn list_post(m: Map<Seq<u8>, Seq<u8>>, prefix: Seq<u8>, keys: Seq<Vec<u8>>) -> bool {
    &&& forall|i: int|
        0 <= i < keys.len() ==> m.contains_key((#[trigger] keys[i])@) && prefix.is_prefix_of(
            keys[i]@,
        )
    &&& forall|k: Seq<u8>|
        #[trigger] m.contains_key(k) && prefix.is_prefix_of(k) ==> exists|i: int|
            0 <= i < keys.len() && keys[i]@ == k
    &&& forall|i: int, j: int|
        0 <= i < j < keys.len() ==> (#[trigger] keys[i])@ != (#[trigger] keys[j])@
}

/// A flat keyspace of whole objects, addressed by logical path.
///
/// `contents()` is the abstract state: the map from logical paths to the
/// exact bytes stored under them.  `wf()` is whatever well-formedness an
/// implementation needs; every operation preserves it.
///
/// The mutating contracts say that a reported failure left the contents
/// unchanged.  That is an idealisation of a remote boundary: a transport
/// can lose the response to a request the backend still applied.  An
/// implementation owes it to resolve such doubt itself (for instance by
/// probing or retrying) before it reports failure.
pub trait StorageBackend: Sized {
    /// The store's contents: each logical path to the bytes under it.
    /// The default stands in for implementations the verifier never
    /// sees, such as a remote transport; every verified implementation
    /// overrides it, and nothing can be proved about one that does not.
    open spec fn contents(&self) -> Map<Seq<u8>, Seq<u8>> {
        Map::empty()
    }

    /// The implementation's own well-formedness; the default, again,
    /// only serves implementations outside the verifier's view.
    open spec fn wf(&self) -> bool {
        true
    }

    /// Fetch the whole body stored at `path`, if the key exists.
    fn get(&self, path: &Vec<u8>) -> (r: Result<Option<Vec<u8>>, StoreError>)
        requires
            self.wf(),
        ensures
            match r {
                Ok(Some(v)) => self.contents().contains_key(path@)
                    && v@ == self.contents()[path@],
                Ok(None) => !self.contents().contains_key(path@),
                Err(_) => true,
            },
    ;

    /// Store `data` as the whole body at `path`, overwriting.
    fn put(&mut self, path: &Vec<u8>, data: &Vec<u8>) -> (r: Result<(), StoreError>)
        requires
            old(self).wf(),
        ensures
            final(self).wf(),
            match r {
                Ok(_) => final(self).contents() == old(self).contents().insert(path@, data@),
                Err(_) => final(self).contents() == old(self).contents(),
            },
    ;

    /// Remove the object at `path`; a missing key is not an error.
    fn delete(&mut self, path: &Vec<u8>) -> (r: Result<(), StoreError>)
        requires
            old(self).wf(),
        ensures
            final(self).wf(),
            match r {
                Ok(_) => final(self).contents() == old(self).contents().remove(path@),
                Err(_) => final(self).contents() == old(self).contents(),
            },
    ;

    /// List every key that starts with `prefix`, each exactly once, in
    /// an order the store chooses.
    fn list(&self, prefix: &Vec<u8>) -> (r: Result<Vec<Vec<u8>>, StoreError>)
        requires
            self.wf(),
        ensures
            match r {
                Ok(keys) => list_post(self.contents(), prefix@, keys@),
                Err(_) => true,
            },
    ;

    /// Probe whether an object exists at `path`, without its body.
    fn key_exists(&self, path: &Vec<u8>) -> (r: Result<bool, StoreError>)
        requires
            self.wf(),
        ensures
            match r {
                Ok(b) => b == self.contents().contains_key(path@),
                Err(_) => true,
            },
    ;
}

} // verus!
