//! The namespace service: a bijection between logical paths and inode
//! numbers, with a monotone counter that never re-issues a number within
//! a mount session.

use vstd::prelude::*;

use crate::path::{bytes_eq, spec_parent, split_parent};

verus! {

/// The inode number reserved for the root directory.
pub const ROOT_INO: u64 = 1;

/// The path map after resolving `p`: unchanged when `p` is already bound
/// or the counter is exhausted, extended by `p -> next` otherwise.
pub open spec fn resolve_map(m: Map<Seq<u8>, u64>, next: u64, p: Seq<u8>) -> Map<Seq<u8>, u64> {
    if m.contains_key(p) || next == u64::MAX {
        m
    } else {
        m.insert(p, next)
    }
}

/// The counter after resolving `p`.
pub open spec fn resolve_next(m: Map<Seq<u8>, u64>, next: u64, p: Seq<u8>) -> u64 {
    if m.contains_key(p) || next == u64::MAX {
        next
    } else {
        (next + 1) as u64
    }
}

/// The inode that resolving `p` returns: the bound one, the fresh one,
/// or nothing when the counter is exhausted.
pub open spec fn resolve_result(m: Map<Seq<u8>, u64>, next: u64, p: Seq<u8>) -> Option<u64> {
    if m.contains_key(p) {
        Some(m[p])
    } else if next == u64::MAX {
        None
    } else {
        Some(next)
    }
}

/// In-memory table of path/inode bindings and the next free number.
pub struct InodeTable {
    entries: Vec<(Vec<u8>, u64)>,
    next_ino: u64,
    paths_ghost: Ghost<Map<Seq<u8>, u64>>,
}

impl InodeTable {
    /// The map from bound paths to their inodes.
    pub closed spec fn paths(&self) -> Map<Seq<u8>, u64> {
        self.paths_ghost@
    }

    /// The map from issued inodes back to their paths.
    pub open spec fn inos(&self) -> Map<u64, Seq<u8>> {
        Map::new(
            |n: u64| exists|p: Seq<u8>| self.paths().contains_key(p) && self.paths()[p] == n,
            |n: u64| choose|p: Seq<u8>| self.paths().contains_key(p) && self.paths()[p] == n,
        )
    }

    /// The next inode number to issue.
    pub closed spec fn next(&self) -> u64 {
        self.next_ino
    }

    /// Well-formedness: the ghost map mirrors the entries, paths and
    /// inodes are bound at most once, and every issued inode is at least
    /// 1 and below the counter.
    pub closed spec fn inv(&self) -> bool {
        &&& forall|i: int|
            0 <= i < self.entries@.len() ==> self.paths().contains_key(
                #[trigger] self.entries@[i].0@,
            ) && self.paths()[self.entries@[i].0@] == self.entries@[i].1
        &&& forall|p: Seq<u8>|
            #[trigger] self.paths().contains_key(p) ==> exists|i: int|
                0 <= i < self.entries@.len() && self.entries@[i].0@ == p
        &&& forall|i: int, j: int|
            0 <= i < j < self.entries@.len() ==> (#[trigger] self.entries@[i].0@) != (
            #[trigger] self.entries@[j].0@)
        &&& forall|i: int, j: int|
            0 <= i < j < self.entries@.len() ==> (#[trigger] self.entries@[i].1) != (
            #[trigger] self.entries@[j].1)
        &&& forall|i: int|
            0 <= i < self.entries@.len() ==> 1 <= (#[trigger] self.entries@[i].1) < self.next_ino
        &&& self.next_ino >= 2
    }

    /// A fresh table knows the root alone and will issue 2 first.
    pub fn new() -> (r: InodeTable)
        ensures
            r.inv(),
            r.paths() == Map::<Seq<u8>, u64>::empty().insert(Seq::empty(), ROOT_INO),
            r.next() == 2,
    {
        let mut entries: Vec<(Vec<u8>, u64)> = Vec::new();
        entries.push((Vec::new(), ROOT_INO));
        let r = InodeTable {
            entries,
            next_ino: 2,
            paths_ghost: Ghost(
                Map::<Seq<u8>, u64>::empty().insert(Seq::empty(), ROOT_INO),
            ),
        };
        proof {
            assert(r.entries@[0].0@ == Seq::<u8>::empty());
        }
        r
    }

    /// The index of the entry binding `path`, when one exists.
    fn find_path(&self, path: &Vec<u8>) -> (r: Option<usize>)
        ensures
            match r {
                Some(i) => i < self.entries@.len() && self.entries@[i as int].0@ == path@,
                None => forall|i: int|
                    0 <= i < self.entries@.len() ==> (#[trigger] self.entries@[i].0@) != path@,
            },
    {
        let mut i: usize = 0;
        while i < self.entries.len()
            invariant
                i <= self.entries@.len(),
                forall|k: int| 0 <= k < i ==> (#[trigger] self.entries@[k].0@) != path@,
            decreases self.entries@.len() - i,
        {
            if bytes_eq(&self.entries[i].0, path) {
                return Some(i);
            }
            i = i + 1;
        }
        None
    }

    /// Return the inode bound to `path`, or bind the next free number to
    /// it.  Fails only when the counter is exhausted.
    #[verifier::loop_isolation(false)]
    pub fn resolve_or_assign(&mut self, path: &Vec<u8>) -> (r: Option<u64>)
        requires
            old(self).inv(),
        ensures
            final(self).inv(),
            final(self).paths() == resolve_map(old(self).paths(), old(self).next(), path@),
            final(self).next() == resolve_next(old(self).paths(), old(self).next(), path@),
            r == resolve_result(old(self).paths(), old(self).next(), path@),
            r matches Some(n) ==> final(self).paths().contains_key(path@) && final(self).paths()[path@] == n,
    {
        match self.find_path(path) {
            Some(i) => {
                let ino = self.entries[i].1;
                proof {
                    assert(self.paths().contains_key(path@));
                }
                Some(ino)
            },
            None => {
                proof {
                    assert(!self.paths().contains_key(path@)) by {
                        if self.paths().contains_key(path@) {
                            let i = choose|i: int|
                                0 <= i < self.entries@.len() && self.entries@[i].0@ == path@;
                            assert(self.entries@[i].0@ == path@);
                            assert(false);
                        }
                    }
                }
                if self.next_ino == u64::MAX {
                    return None;
                }
                let ino = self.next_ino;
                self.next_ino = self.next_ino + 1;
                let mut key: Vec<u8> = Vec::new();
                let mut k: usize = 0;
                while k < path.len()
                    invariant
                        k <= path.len(),
                        key@ == path@.take(k as int),
                    decreases path.len() - k,
                {
                    key.push(path[k]);
                    k = k + 1;
                }
                proof {
                    assert(key@ =~= path@);
                }
                self.entries.push((key, ino));
                proof {
                    self.paths_ghost@ = self.paths_ghost@.insert(path@, ino);
                }
                proof {
                    let e0 = old(self).entries@;
                    let n = self.entries@.len() as int;
                    assert(n == e0.len() + 1);
                    assert(self.entries@[n - 1].0@ == path@);
                    assert(self.entries@[n - 1].1 == ino);
                    assert(forall|i: int| 0 <= i < n - 1 ==> self.entries@[i] == e0[i]);
                    assert forall|i: int| 0 <= i < n implies self.paths().contains_key(
                        #[trigger] self.entries@[i].0@,
                    ) && self.paths()[self.entries@[i].0@] == self.entries@[i].1 by {
                        if i < n - 1 {
                            assert(e0[i].0@ != path@);
                        }
                    }
                    assert forall|p: Seq<u8>| #[trigger] self.paths().contains_key(p) implies
                    exists|i: int| 0 <= i < n && self.entries@[i].0@ == p by {
                        if p == path@ {
                            assert(self.entries@[n - 1].0@ == p);
                        } else {
                            let i = choose|i: int| 0 <= i < e0.len() && e0[i].0@ == p;
                            assert(self.entries@[i].0@ == p);
                        }
                    }
                    assert forall|i: int, j: int| 0 <= i < j < n implies (
                    #[trigger] self.entries@[i].0@) != (#[trigger] self.entries@[j].0@) by {
                        if j == n - 1 {
                            assert(e0[i].0@ != path@);
                        }
                    }
                    assert forall|i: int, j: int| 0 <= i < j < n implies (
                    #[trigger] self.entries@[i].1) != (#[trigger] self.entries@[j].1) by {
                        if j == n - 1 {
                            assert(1 <= e0[i].1 < ino);
                        }
                    }
                    assert forall|i: int| 0 <= i < n implies 1 <= (
                    #[trigger] self.entries@[i].1) < self.next_ino by {
                        if i < n - 1 {
                            assert(1 <= e0[i].1 < old(self).next());
                        }
                    }
                }
                Some(ino)
            },
        }
    }

    /// Whether resolving `path` would return an inode: the path is
    /// already bound, or the counter has room left.
    pub fn can_resolve(&self, path: &Vec<u8>) -> (r: bool)
        requires
            self.inv(),
        ensures
            r == (resolve_result(self.paths(), self.next(), path@) is Some),
    {
        match self.find_path(path) {
            Some(_) => true,
            None => {
                proof {
                    assert(!self.paths().contains_key(path@)) by {
                        if self.paths().contains_key(path@) {
                            let i = choose|i: int|
                                0 <= i < self.entries@.len() && self.entries@[i].0@ == path@;
                            assert(self.entries@[i].0@ == path@);
                            assert(false);
                        }
                    }
                }
                self.next_ino < u64::MAX
            },
        }
    }

    /// Every bound inode is at least 1 and strictly below the counter,
    /// so a fresh number can never collide with one already issued.
    pub proof fn lemma_bound_inos(&self)
        requires
            self.inv(),
        ensures
            forall|p: Seq<u8>|
                #[trigger] self.paths().contains_key(p) ==> 1 <= self.paths()[p] < self.next(),
    {
        assert forall|p: Seq<u8>| #[trigger] self.paths().contains_key(p) implies 1
            <= self.paths()[p] < self.next() by {
            let i = choose|i: int| 0 <= i < self.entries@.len() && self.entries@[i].0@ == p;
            assert(1 <= self.entries@[i].1 < self.next_ino);
        }
    }

    /// The path bound to an inode; the root inode always names the empty
    /// path.
    #[verifier::loop_isolation(false)]
    pub fn path_of(&self, ino: u64) -> (r: Option<Vec<u8>>)
        requires
            self.inv(),
        ensures
            ino == ROOT_INO ==> (r matches Some(p) && p@ == Seq::<u8>::empty()),
            ino != ROOT_INO ==> match r {
                Some(p) => self.paths().contains_key(p@) && self.paths()[p@] == ino,
                None => forall|p: Seq<u8>|
                    #[trigger] self.paths().contains_key(p) ==> self.paths()[p] != ino,
            },
    {
        if ino == ROOT_INO {
            return Some(Vec::new());
        }
        let mut i: usize = 0;
        while i < self.entries.len()
            invariant
                self.inv(),
                i <= self.entries@.len(),
                forall|k: int| 0 <= k < i ==> (#[trigger] self.entries@[k].1) != ino,
            decreases self.entries@.len() - i,
        {
            if self.entries[i].1 == ino {
                let src = &self.entries[i].0;
                let mut p: Vec<u8> = Vec::new();
                let mut k: usize = 0;
                while k < src.len()
                    invariant
                        k <= src@.len(),
                        p@ == src@.take(k as int),
                    decreases src@.len() - k,
                {
                    p.push(src[k]);
                    k = k + 1;
                }
                proof {
                    assert(p@ =~= src@);
                }
                return Some(p);
            }
            i = i + 1;
        }
        proof {
            assert forall|p: Seq<u8>| #[trigger] self.paths().contains_key(p) implies
                self.paths()[p] != ino by {
                let i = choose|i: int|
                    0 <= i < self.entries@.len() && self.entries@[i].0@ == p;
                assert(self.entries@[i].1 != ino);
            }
        }
        None
    }

    /// Drop the binding of `path`, in both directions at once; unbound
    /// paths are left alone and the counter never moves backwards.
    pub fn forget(&mut self, path: &Vec<u8>)
        requires
            old(self).inv(),
        ensures
            final(self).inv(),
            final(self).paths() == old(self).paths().remove(path@),
            final(self).next() == old(self).next(),
    {
        match self.find_path(path) {
            Some(i) => {
                self.entries.remove(i);
                proof {
                    self.paths_ghost@ = self.paths_ghost@.remove(path@);
                }
                proof {
                    let e = old(self).entries@;
                    assert forall|p: Seq<u8>| #[trigger] self.paths().contains_key(p) implies
                    exists|k: int| 0 <= k < self.entries@.len() && self.entries@[k].0@ == p by {
                        let k0 = choose|k: int| 0 <= k < e.len() && e[k].0@ == p;
                        if k0 < i {
                            assert(self.entries@[k0].0@ == p);
                        } else {
                            assert(e[k0].0@ != e[i as int].0@);
                            assert(self.entries@[k0 - 1].0@ == p);
                        }
                    }
                    assert forall|k: int| 0 <= k < self.entries@.len() implies self.paths(
                    ).contains_key(#[trigger] self.entries@[k].0@) && self.paths()[
                        self.entries@[k].0@] == self.entries@[k].1 by {
                        if k < i {
                            assert(self.entries@[k] == e[k]);
                            assert(e[k].0@ != e[i as int].0@);
                        } else {
                            assert(self.entries@[k] == e[k + 1]);
                            assert(e[k + 1].0@ != e[i as int].0@);
                        }
                    }
                }
            },
            None => {
                proof {
                    if old(self).paths().contains_key(path@) {
                        let i = choose|i: int|
                            0 <= i < self.entries@.len() && self.entries@[i].0@ == path@;
                        assert(self.entries@[i].0@ == path@);
                    }
                    assert(self.paths() =~= old(self).paths().remove(path@));
                }
            },
        }
    }

    /// The inode of the longest strict prefix of `path` before its last
    /// separator; the root inode when the path has no separator or the
    /// prefix is not bound.
    pub fn parent_inode(&self, path: &Vec<u8>) -> (r: u64)
        requires
            self.inv(),
        ensures
            match spec_parent(path@) {
                None => r == ROOT_INO,
                Some(pp) => if self.paths().contains_key(pp) {
                    r == self.paths()[pp]
                } else {
                    r == ROOT_INO
                },
            },
    {
        match split_parent(path) {
            None => ROOT_INO,
            Some(pp) => match self.find_path(&pp) {
                Some(i) => {
                    let ino = self.entries[i].1;
                    ino
                },
                None => {
                    proof {
                        if self.paths().contains_key(pp@) {
                            let i = choose|i: int|
                                0 <= i < self.entries@.len() && self.entries@[i].0@ == pp@;
                            assert(self.entries@[i].0@ == pp@);
                        }
                    }
                    ROOT_INO
                },
            },
        }
    }
}

/// The path bound to an inode at the spec level: the root inode names
/// the empty path; any other inode names the unique path bound to it.
pub open spec fn path_of_spec(paths: Map<Seq<u8>, u64>, ino: u64) -> Option<Seq<u8>> {
    if ino == ROOT_INO {
        Some(Seq::empty())
    } else if exists|p: Seq<u8>| paths.contains_key(p) && paths[p] == ino {
        Some(choose|p: Seq<u8>| paths.contains_key(p) && paths[p] == ino)
    } else {
        None
    }
}

impl InodeTable {
    /// When no bound path names an inode, `path_of_spec` names none.
    pub proof fn lemma_path_of_spec_none(&self, ino: u64)
        requires
            self.inv(),
            ino != ROOT_INO,
            forall|p: Seq<u8>| #[trigger] self.paths().contains_key(p) ==> self.paths()[p] != ino,
        ensures
            path_of_spec(self.paths(), ino) is None,
    {
        if exists|p: Seq<u8>| self.paths().contains_key(p) && self.paths()[p] == ino {
            let p = choose|p: Seq<u8>| self.paths().contains_key(p) && self.paths()[p] == ino;
            assert(self.paths().contains_key(p));
        }
    }

    /// `path_of` returns exactly what `path_of_spec` names.
    pub proof fn lemma_path_of_spec(&self, ino: u64, p: Seq<u8>)
        requires
            self.inv(),
            ino != ROOT_INO,
            self.paths().contains_key(p),
            self.paths()[p] == ino,
        ensures
            path_of_spec(self.paths(), ino) == Some(p),
    {
        lemma_paths_injective(self);
        let q = choose|q: Seq<u8>| self.paths().contains_key(q) && self.paths()[q] == ino;
        assert(q == p);
    }
}

/// The two maps are inverses of one another: following a path to its
/// inode and back, or an inode to its path and back, returns where one
/// started.  This holds after any sequence of operations, since each of
/// them preserves the invariant.
pub proof fn lemma_maps_inverse(t: &InodeTable)
    requires
        t.inv(),
    ensures
        forall|p: Seq<u8>|
            #[trigger] t.paths().contains_key(p) ==> t.inos().contains_key(t.paths()[p])
                && t.inos()[t.paths()[p]] == p,
        forall|n: u64|
            #[trigger] t.inos().contains_key(n) ==> t.paths().contains_key(t.inos()[n])
                && t.paths()[t.inos()[n]] == n,
{
    lemma_paths_injective(t);
    assert forall|p: Seq<u8>| #[trigger] t.paths().contains_key(p) implies t.inos().contains_key(
        t.paths()[p],
    ) && t.inos()[t.paths()[p]] == p by {
        let n = t.paths()[p];
        assert(t.paths().contains_key(p) && t.paths()[p] == n);
        let p2 = choose|p2: Seq<u8>| t.paths().contains_key(p2) && t.paths()[p2] == n;
        assert(p2 == p);
    }
}

/// Distinct paths are never bound to the same inode.
pub proof fn lemma_paths_injective(t: &InodeTable)
    requires
        t.inv(),
    ensures
        forall|p1: Seq<u8>, p2: Seq<u8>|
            t.paths().contains_key(p1) && t.paths().contains_key(p2) && p1 != p2 ==> (
            #[trigger] t.paths()[p1]) != (#[trigger] t.paths()[p2]),
{
    assert forall|p1: Seq<u8>, p2: Seq<u8>|
        t.paths().contains_key(p1) && t.paths().contains_key(p2) && p1 != p2 implies (
    #[trigger] t.paths()[p1]) != (#[trigger] t.paths()[p2]) by {
        let i1 = choose|i: int| 0 <= i < t.entries@.len() && t.entries@[i].0@ == p1;
        let i2 = choose|i: int| 0 <= i < t.entries@.len() && t.entries@[i].0@ == p2;
        assert(i1 != i2);
    }
}

/// Resolving the same path twice returns the same inode, and the second
/// resolution changes nothing.
pub proof fn lemma_resolve_stable(m: Map<Seq<u8>, u64>, next: u64, p: Seq<u8>)
    requires
        resolve_result(m, next, p) is Some,
    ensures
        resolve_result(resolve_map(m, next, p), resolve_next(m, next, p), p) == resolve_result(
            m,
            next,
            p,
        ),
        resolve_map(resolve_map(m, next, p), resolve_next(m, next, p), p) == resolve_map(
            m,
            next,
            p,
        ),
        resolve_next(resolve_map(m, next, p), resolve_next(m, next, p), p) == resolve_next(
            m,
            next,
            p,
        ),
{
}

/// A freshly issued inode was never issued before: it differs from every
/// inode the table has ever bound, and the counter only grows.
pub proof fn lemma_no_reuse(m: Map<Seq<u8>, u64>, next: u64, p: Seq<u8>)
    requires
        forall|q: Seq<u8>| #[trigger] m.contains_key(q) ==> m[q] < next,
        !m.contains_key(p),
        next < u64::MAX,
    ensures
        resolve_result(m, next, p) == Some(next),
        forall|q: Seq<u8>| #[trigger] m.contains_key(q) ==> m[q] != next,
        resolve_next(m, next, p) > next,
        forall|q: Seq<u8>|
            #[trigger] resolve_map(m, next, p).contains_key(q) ==> resolve_map(m, next, p)[q]
                < resolve_next(m, next, p),
{
}

} // verus!
