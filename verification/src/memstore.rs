//! An in-memory object store: the storage boundary realised over a plain
//! vector, with none of the failures a remote store can show.

use vstd::prelude::*;

use crate::path::{bytes_eq, copy_bytes, starts_with};
use crate::storage::{list_post, StorageBackend, StoreError};

verus! {

/// A store that keeps every object in process memory and never fails.
pub struct MemStore {
    objects: Vec<(Vec<u8>, Vec<u8>)>,
    contents_ghost: Ghost<Map<Seq<u8>, Seq<u8>>>,
}

impl MemStore {
    /// The ghost map mirrors the entries and keys are stored at most
    /// once.
    pub closed spec fn inv(&self) -> bool {
        &&& forall|i: int|
            0 <= i < self.objects@.len() ==> self.contents_ghost@.contains_key(
                #[trigger] self.objects@[i].0@,
            ) && self.contents_ghost@[self.objects@[i].0@] == self.objects@[i].1@
        &&& forall|k: Seq<u8>|
            #[trigger] self.contents_ghost@.contains_key(k) ==> exists|i: int|
                0 <= i < self.objects@.len() && self.objects@[i].0@ == k
        &&& forall|i: int, j: int|
            0 <= i < j < self.objects@.len() ==> (#[trigger] self.objects@[i].0@) != (
            #[trigger] self.objects@[j].0@)
    }

    /// An empty store.
    pub fn new() -> (r: MemStore)
        ensures
            r.wf(),
            r.contents() == Map::<Seq<u8>, Seq<u8>>::empty(),
    {
        MemStore { objects: Vec::new(), contents_ghost: Ghost(Map::empty()) }
    }

    /// The index of the object stored at `path`, when one exists.
    fn find(&self, path: &Vec<u8>) -> (r: Option<usize>)
        ensures
            match r {
                Some(i) => i < self.objects@.len() && self.objects@[i as int].0@ == path@,
                None => forall|i: int|
                    0 <= i < self.objects@.len() ==> (#[trigger] self.objects@[i].0@) != path@,
            },
    {
        let mut i: usize = 0;
        while i < self.objects.len()
            invariant
                i <= self.objects@.len(),
                forall|k: int| 0 <= k < i ==> (#[trigger] self.objects@[k].0@) != path@,
            decreases self.objects@.len() - i,
        {
            if bytes_eq(&self.objects[i].0, path) {
                return Some(i);
            }
            i = i + 1;
        }
        None
    }

    proof fn lemma_absent(&self, path: Seq<u8>)
        requires
            self.inv(),
            forall|i: int|
                0 <= i < self.objects@.len() ==> (#[trigger] self.objects@[i].0@) != path,
        ensures
            !self.contents_ghost@.contains_key(path),
    {
        if self.contents_ghost@.contains_key(path) {
            let i = choose|i: int|
                0 <= i < self.objects@.len() && self.objects@[i].0@ == path;
            assert(self.objects@[i].0@ == path);
        }
    }
}

impl StorageBackend for MemStore {
    closed spec fn contents(&self) -> Map<Seq<u8>, Seq<u8>> {
        self.contents_ghost@
    }

    closed spec fn wf(&self) -> bool {
        self.inv()
    }

    fn get(&self, path: &Vec<u8>) -> (r: Result<Option<Vec<u8>>, StoreError>) {
        match self.find(path) {
            Some(i) => Ok(Some(copy_bytes(&self.objects[i].1))),
            None => {
                proof {
                    self.lemma_absent(path@);
                }
                Ok(None)
            },
        }
    }

    #[verifier::loop_isolation(false)]
    fn put(&mut self, path: &Vec<u8>, data: &Vec<u8>) -> (r: Result<(), StoreError>) {
        let key = copy_bytes(path);
        let body = copy_bytes(data);
        match self.find(path) {
            Some(i) => {
                self.objects[i] = (key, body);
                proof {
                    self.contents_ghost@ = self.contents_ghost@.insert(path@, data@);
                }
                proof {
                    let e0 = old(self).objects@;
                    let n = self.objects@.len() as int;
                    assert forall|k: int| 0 <= k < n implies self.contents_ghost@.contains_key(
                        #[trigger] self.objects@[k].0@,
                    ) && self.contents_ghost@[self.objects@[k].0@] == self.objects@[k].1@ by {
                        if k != i {
                            assert(self.objects@[k] == e0[k]);
                            assert(e0[k].0@ != e0[i as int].0@);
                        }
                    }
                    assert forall|k: Seq<u8>| #[trigger] self.contents_ghost@.contains_key(k)
                        implies exists|j: int|
                        0 <= j < n && self.objects@[j].0@ == k by {
                        if k == path@ {
                            assert(self.objects@[i as int].0@ == k);
                        } else {
                            let j = choose|j: int| 0 <= j < e0.len() && e0[j].0@ == k;
                            assert(self.objects@[j].0@ == k);
                        }
                    }
                }
                Ok(())
            },
            None => {
                proof {
                    self.lemma_absent(path@);
                }
                self.objects.push((key, body));
                proof {
                    self.contents_ghost@ = self.contents_ghost@.insert(path@, data@);
                }
                proof {
                    let e0 = old(self).objects@;
                    let n = self.objects@.len() as int;
                    assert(self.objects@[n - 1].0@ == path@);
                    assert(forall|k: int| 0 <= k < n - 1 ==> self.objects@[k] == e0[k]);
                    assert forall|k: int| 0 <= k < n implies self.contents_ghost@.contains_key(
                        #[trigger] self.objects@[k].0@,
                    ) && self.contents_ghost@[self.objects@[k].0@] == self.objects@[k].1@ by {
                        if k < n - 1 {
                            assert(e0[k].0@ != path@);
                        }
                    }
                    assert forall|k: Seq<u8>| #[trigger] self.contents_ghost@.contains_key(k)
                        implies exists|j: int|
                        0 <= j < n && self.objects@[j].0@ == k by {
                        if k == path@ {
                            assert(self.objects@[n - 1].0@ == k);
                        } else {
                            let j = choose|j: int| 0 <= j < e0.len() && e0[j].0@ == k;
                            assert(self.objects@[j].0@ == k);
                        }
                    }
                    assert forall|i: int, j: int| 0 <= i < j < n implies (
                    #[trigger] self.objects@[i].0@) != (#[trigger] self.objects@[j].0@) by {
                        if j == n - 1 {
                            assert(e0[i].0@ != path@);
                        }
                    }
                }
                Ok(())
            },
        }
    }

    fn delete(&mut self, path: &Vec<u8>) -> (r: Result<(), StoreError>) {
        match self.find(path) {
            Some(i) => {
                self.objects.remove(i);
                proof {
                    self.contents_ghost@ = self.contents_ghost@.remove(path@);
                }
                proof {
                    let e0 = old(self).objects@;
                    let n = self.objects@.len() as int;
                    assert forall|k: Seq<u8>| #[trigger] self.contents_ghost@.contains_key(k)
                        implies exists|j: int|
                        0 <= j < n && self.objects@[j].0@ == k by {
                        let j0 = choose|j: int| 0 <= j < e0.len() && e0[j].0@ == k;
                        if j0 < i {
                            assert(self.objects@[j0].0@ == k);
                        } else {
                            assert(e0[j0].0@ != e0[i as int].0@);
                            assert(self.objects@[j0 - 1].0@ == k);
                        }
                    }
                    assert forall|k: int| 0 <= k < n implies self.contents_ghost@.contains_key(
                        #[trigger] self.objects@[k].0@,
                    ) && self.contents_ghost@[self.objects@[k].0@] == self.objects@[k].1@ by {
                        if k < i {
                            assert(self.objects@[k] == e0[k]);
                            assert(e0[k].0@ != e0[i as int].0@);
                        } else {
                            assert(self.objects@[k] == e0[k + 1]);
                            assert(e0[k + 1].0@ != e0[i as int].0@);
                        }
                    }
                }
                Ok(())
            },
            None => {
                proof {
                    self.lemma_absent(path@);
                    assert(self.contents_ghost@ =~= old(self).contents_ghost@.remove(path@));
                }
                Ok(())
            },
        }
    }

    #[verifier::loop_isolation(false)]
    #[verifier::rlimit(60)]
    fn list(&self, prefix: &Vec<u8>) -> (r: Result<Vec<Vec<u8>>, StoreError>) {
        let mut keys: Vec<Vec<u8>> = Vec::new();
        let ghost mut idxs: Seq<int> = Seq::empty();
        let mut i: usize = 0;
        while i < self.objects.len()
            invariant
                i <= self.objects@.len(),
                idxs.len() == keys@.len(),
                forall|t: int|
                    0 <= t < idxs.len() ==> 0 <= #[trigger] idxs[t] < i && keys@[t]@
                        == self.objects@[idxs[t]].0@,
                forall|t1: int, t2: int| 0 <= t1 < t2 < idxs.len() ==> idxs[t1] < idxs[t2],
                forall|j: int|
                    0 <= j < i && prefix@.is_prefix_of(#[trigger] self.objects@[j].0@)
                        ==> exists|t: int| 0 <= t < idxs.len() && idxs[t] == j,
                forall|t: int|
                    0 <= t < keys@.len() ==> prefix@.is_prefix_of((#[trigger] keys@[t])@),
            decreases self.objects@.len() - i,
        {
            if starts_with(&self.objects[i].0, prefix) {
                let k = copy_bytes(&self.objects[i].0);
                keys.push(k);
                proof {
                    let idxs0 = idxs;
                    idxs = idxs.push(i as int);
                    assert forall|j: int|
                        0 <= j <= i && prefix@.is_prefix_of(#[trigger] self.objects@[j].0@)
                        implies exists|t: int| 0 <= t < idxs.len() && idxs[t] == j by {
                        if j < i {
                            let t = choose|t: int| 0 <= t < idxs0.len() && idxs0[t] == j;
                            assert(idxs[t] == j);
                        } else {
                            assert(idxs[idxs.len() - 1] == j);
                        }
                    }
                }
            } else {
                proof {
                    assert forall|j: int|
                        0 <= j <= i && prefix@.is_prefix_of(#[trigger] self.objects@[j].0@)
                        implies exists|t: int| 0 <= t < idxs.len() && idxs[t] == j by {
                        assert(j < i);
                        let t = choose|t: int| 0 <= t < idxs.len() && idxs[t] == j;
                        assert(idxs[t] == j);
                    }
                }
            }
            i = i + 1;
        }
        proof {
            let n = self.objects@.len() as int;
            assert forall|t: int| 0 <= t < keys@.len() implies self.contents().contains_key(
                (#[trigger] keys@[t])@,
            ) && prefix@.is_prefix_of(keys@[t]@) by {
                assert(keys@[t]@ == self.objects@[idxs[t]].0@);
            }
            assert forall|k: Seq<u8>|
                #[trigger] self.contents().contains_key(k) && prefix@.is_prefix_of(k) implies
                exists|t: int| 0 <= t < keys@.len() && keys@[t]@ == k by {
                assert(self.contents_ghost@.contains_key(k));
                let j = choose|j: int| 0 <= j < n && self.objects@[j].0@ == k;
                assert(prefix@.is_prefix_of(self.objects@[j].0@));
                let t = choose|t: int| 0 <= t < idxs.len() && idxs[t] == j;
                assert(keys@[t]@ == k);
            }
            assert forall|t1: int, t2: int| 0 <= t1 < t2 < keys@.len() implies (
            #[trigger] keys@[t1])@ != (#[trigger] keys@[t2])@ by {
                assert(idxs[t1] < idxs[t2]);
                assert(keys@[t1]@ == self.objects@[idxs[t1]].0@);
                assert(keys@[t2]@ == self.objects@[idxs[t2]].0@);
            }
            assert(list_post(self.contents(), prefix@, keys@));
        }
        Ok(keys)
    }

    fn key_exists(&self, path: &Vec<u8>) -> (r: Result<bool, StoreError>) {
        match self.find(path) {
            Some(_) => Ok(true),
            None => {
                proof {
                    self.lemma_absent(path@);
                }
                Ok(false)
            },
        }
    }
}

} // verus!
