//! The filesystem gateway: the kernel callback contract realised over an
//! object store, with directory synthesis from key prefixes, lazy inode
//! assignment, and the cryptographic envelope on every read and write.

use vstd::prelude::*;

use crate::crypto::{decrypt_spec, envelope_of, CryptoError, Encryptor, MAX_PLAINTEXT_LEN};
use crate::inode::{path_of_spec, resolve_map, resolve_next, resolve_result, InodeTable, ROOT_INO};
use crate::path::{bytes_eq, copy_bytes, join_path, spec_join, starts_with, SLASH};
use crate::storage::StorageBackend;

verus! {

/// Kernel-visible failure of a filesystem operation.
#[derive(Clone, Copy, PartialEq, Eq, Structural, Debug)]
pub enum FsError {
    /// The object or inode does not exist.
    NotFound,
    /// The operation applies to files only, and this is a directory.
    IsADirectory,
    /// The kernel handed over a name that is not valid text.
    BadName,
    /// The store could not be reached, or an internal resource ran out.
    StorageUnavailable,
    /// A stored object failed tag verification: tampering or wrong key.
    AuthenticationFailure,
    /// A stored object is shorter than the nonce prefix.
    MalformedCiphertext,
    /// The write would grow the file beyond what the envelope accepts.
    TooLarge,
}

/// The errno that each failure surfaces as at the kernel boundary.
pub fn errno_of(e: FsError) -> (r: i32)
    ensures
        r == match e {
            FsError::NotFound => 2i32,
            FsError::IsADirectory => 21i32,
            FsError::BadName => 22i32,
            FsError::StorageUnavailable => 5i32,
            FsError::AuthenticationFailure => 5i32,
            FsError::MalformedCiphertext => 5i32,
            FsError::TooLarge => 5i32,
        },
{
    match e {
        FsError::NotFound => 2,
        FsError::IsADirectory => 21,
        FsError::BadName => 22,
        FsError::StorageUnavailable => 5,
        FsError::AuthenticationFailure => 5,
        FsError::MalformedCiphertext => 5,
        FsError::TooLarge => 5,
    }
}

/// The decryption failure, as the kernel sees it.
pub open spec fn crypto_fs_error(e: CryptoError) -> FsError {
    match e {
        CryptoError::MalformedCiphertext => FsError::MalformedCiphertext,
        CryptoError::AuthenticationFailure => FsError::AuthenticationFailure,
    }
}

/// What a directory entry names.
#[derive(Clone, Copy, PartialEq, Eq, Structural, Debug)]
pub enum FileKind {
    RegularFile,
    Directory,
}

/// The attribute record synthesised for every reply; timestamps are the
/// caller's business, since they are wall-clock `now` on each query.
#[derive(Clone, Copy, PartialEq, Eq, Structural, Debug)]
pub struct FileAttr {
    pub ino: u64,
    pub size: u64,
    pub blocks: u64,
    pub kind: FileKind,
    pub perm: u16,
    pub nlink: u32,
    pub uid: u32,
    pub gid: u32,
}

/// The number of 4096-byte blocks covering `size` bytes, rounded up.
pub open spec fn spec_blocks(size: u64) -> u64 {
    (size / 4096 + if size % 4096 == 0 {
        0u64
    } else {
        1u64
    }) as u64
}

/// The attribute record of a regular file of `size` bytes.
pub open spec fn spec_file_attr(ino: u64, size: u64, uid: u32, gid: u32) -> FileAttr {
    FileAttr {
        ino,
        size,
        blocks: spec_blocks(size),
        kind: FileKind::RegularFile,
        perm: 0o644,
        nlink: 1,
        uid,
        gid,
    }
}

/// The attribute record of a directory.
pub open spec fn spec_dir_attr(ino: u64, uid: u32, gid: u32) -> FileAttr {
    FileAttr {
        ino,
        size: 4096,
        blocks: 1,
        kind: FileKind::Directory,
        perm: 0o755,
        nlink: 2,
        uid,
        gid,
    }
}

/// Build the attribute record of a regular file.
fn file_attr(ino: u64, size: u64, uid: u32, gid: u32) -> (r: FileAttr)
    ensures
        r == spec_file_attr(ino, size, uid, gid),
{
    FileAttr {
        ino,
        size,
        blocks: size / 4096 + (if size % 4096 == 0 {
            0
        } else {
            1
        }),
        kind: FileKind::RegularFile,
        perm: 0o644,
        nlink: 1,
        uid,
        gid,
    }
}

/// Build the attribute record of a directory.
fn dir_attr(ino: u64, uid: u32, gid: u32) -> (r: FileAttr)
    ensures
        r == spec_dir_attr(ino, uid, gid),
{
    FileAttr {
        ino,
        size: 4096,
        blocks: 1,
        kind: FileKind::Directory,
        perm: 0o755,
        nlink: 2,
        uid,
        gid,
    }
}

/// The listing prefix of a directory path: `path/`, or nothing at root.
pub open spec fn listing_prefix(d: Seq<u8>) -> Seq<u8> {
    if d.len() == 0 {
        Seq::empty()
    } else {
        d + seq![SLASH]
    }
}

/// A non-root path is a directory exactly when some stored key starts
/// with `path/` — a marker object `path/.dir` counts like any other.
pub open spec fn is_dir(m: Map<Seq<u8>, Seq<u8>>, p: Seq<u8>) -> bool {
    exists|k: Seq<u8>| #[trigger] m.contains_key(k) && (p + seq![SLASH]).is_prefix_of(k)
}

/// A path is a regular file exactly when an object is stored at it.
pub open spec fn is_file(m: Map<Seq<u8>, Seq<u8>>, p: Seq<u8>) -> bool {
    m.contains_key(p)
}

/// What reading at `offset` for `size` bytes returns out of `data`:
/// nothing at or past the end, the clipped window otherwise.
pub open spec fn spec_read_slice(data: Seq<u8>, offset: int, size: int) -> Seq<u8> {
    if offset >= data.len() {
        Seq::empty()
    } else if offset + size <= data.len() {
        data.subrange(offset, offset + size)
    } else {
        data.subrange(offset, data.len() as int)
    }
}

/// What a write of `data` at `offset` leaves of a file that held `cur`:
/// the file grows to cover the write, any gap becomes zero bytes, and
/// bytes outside the write keep their old value.
pub open spec fn spec_patch(cur: Seq<u8>, offset: int, data: Seq<u8>) -> Seq<u8> {
    Seq::new(
        if cur.len() >= offset + data.len() {
            cur.len()
        } else {
            (offset + data.len()) as nat
        },
        |i: int|
            if offset <= i < offset + data.len() {
                data[i - offset]
            } else if i < cur.len() {
                cur[i]
            } else {
                0u8
            },
    )
}

/// Extract the window `[offset, offset + size)` of a file body.
pub fn read_slice(data: &Vec<u8>, offset: u64, size: u32) -> (r: Vec<u8>)
    ensures
        r@ == spec_read_slice(data@, offset as int, size as int),
{
    if offset >= data.len() as u64 {
        return Vec::new();
    }
    let start: usize = offset as usize;
    let end: usize = if data.len() - start >= size as usize {
        start + size as usize
    } else {
        data.len()
    };
    let mut r: Vec<u8> = Vec::new();
    let mut i: usize = start;
    #[verifier::loop_isolation(false)]
    while i < end
        invariant
            start <= i <= end <= data@.len(),
            r@ == data@.subrange(start as int, i as int),
        decreases end - i,
    {
        r.push(data[i]);
        i = i + 1;
    }
    proof {
        assert(r@ =~= spec_read_slice(data@, offset as int, size as int));
    }
    r
}

/// Write `data` over the window at `offset`, zero-extending the file
/// first when the write reaches past its end.
pub fn patch_bytes(cur: &Vec<u8>, offset: usize, data: &Vec<u8>) -> (r: Vec<u8>)
    requires
        offset + data@.len() <= usize::MAX,
    ensures
        r@ == spec_patch(cur@, offset as int, data@),
{
    let new_len: usize = if cur.len() >= offset + data.len() {
        cur.len()
    } else {
        offset + data.len()
    };
    let mut r: Vec<u8> = Vec::new();
    let mut i: usize = 0;
    #[verifier::loop_isolation(false)]
    while i < new_len
        invariant
            i <= new_len,
            r@.len() == i,
            forall|j: int| 0 <= j < i ==> r@[j] == spec_patch(cur@, offset as int, data@)[j],
        decreases new_len - i,
    {
        let b: u8 = if offset <= i && i < offset + data.len() {
            data[i - offset]
        } else if i < cur.len() {
            cur[i]
        } else {
            0
        };
        r.push(b);
        i = i + 1;
    }
    proof {
        assert(r@ =~= spec_patch(cur@, offset as int, data@));
    }
    r
}

/// The gateway: the store, the envelope codec, the inode table, and the
/// mounting user's identity for attribute records.
pub struct Gateway<S: StorageBackend> {
    store: S,
    enc: Encryptor,
    inodes: InodeTable,
    uid: u32,
    gid: u32,
}

impl<S: StorageBackend> Gateway<S> {
    /// The store's contents, as the gateway sees them.
    pub closed spec fn contents(&self) -> Map<Seq<u8>, Seq<u8>> {
        self.store.contents()
    }

    /// The encryption key in use.
    pub closed spec fn key(&self) -> Seq<u8> {
        self.enc.key()
    }

    /// The path/inode bindings.
    pub closed spec fn paths(&self) -> Map<Seq<u8>, u64> {
        self.inodes.paths()
    }

    /// The next inode number to issue.
    pub closed spec fn next_ino(&self) -> u64 {
        self.inodes.next()
    }

    /// The mounting user.
    pub closed spec fn uid_spec(&self) -> u32 {
        self.uid
    }

    /// The mounting group.
    pub closed spec fn gid_spec(&self) -> u32 {
        self.gid
    }

    /// Every part is well-formed, and the root binding stands: the
    /// empty path is bound to the root inode for the mount's lifetime.
    pub closed spec fn wf(&self) -> bool {
        &&& self.store.wf()
        &&& self.inodes.inv()
        &&& self.enc.wf()
        &&& self.inodes.paths().contains_key(Seq::empty())
        &&& self.inodes.paths()[Seq::empty()] == ROOT_INO
    }

    /// The facts well-formedness guarantees across any sequence of
    /// operations: distinct paths are bound to distinct inodes, every
    /// bound inode lies at 1 or above and below the counter, and the
    /// empty path is bound to the root inode.
    pub proof fn lemma_wf_facts(&self)
        requires
            self.wf(),
        ensures
            forall|p1: Seq<u8>, p2: Seq<u8>|
                self.paths().contains_key(p1) && self.paths().contains_key(p2) && p1 != p2 ==> (
                #[trigger] self.paths()[p1]) != (#[trigger] self.paths()[p2]),
            forall|p: Seq<u8>|
                #[trigger] self.paths().contains_key(p) ==> 1 <= self.paths()[p]
                    < self.next_ino(),
            self.paths().contains_key(Seq::empty()),
            self.paths()[Seq::empty()] == ROOT_INO,
    {
        crate::inode::lemma_paths_injective(&self.inodes);
        self.inodes.lemma_bound_inos();
    }

    /// The key and identity never change across operations.
    pub open spec fn same_config(&self, other: &Gateway<S>) -> bool {
        &&& self.key() == other.key()
        &&& self.uid_spec() == other.uid_spec()
        &&& self.gid_spec() == other.gid_spec()
    }

    /// Attach to a store: the table starts with the root binding alone.
    pub fn new(store: S, enc: Encryptor, uid: u32, gid: u32) -> (r: Gateway<S>)
        requires
            store.wf(),
            enc.wf(),
        ensures
            r.wf(),
            r.contents() == store.contents(),
            r.key() == enc.key(),
            r.paths() == Map::<Seq<u8>, u64>::empty().insert(Seq::empty(), ROOT_INO),
            r.next_ino() == 2,
            r.uid_spec() == uid,
            r.gid_spec() == gid,
    {
        Gateway { store, enc, inodes: InodeTable::new(), uid, gid }
    }

    /// Hand the store back, unmounting the gateway; the bucket's
    /// contents are exactly what the gateway left there.
    pub fn into_store(self) -> (r: S)
        requires
            self.wf(),
        ensures
            r.wf(),
            r.contents() == self.contents(),
    {
        self.store
    }

    /// The attribute record for an inode: the root and every synthesised
    /// directory get directory attributes; a file's size is the length
    /// of its decrypted body.
    pub fn getattr(&self, ino: u64) -> (r: Result<FileAttr, FsError>)
        requires
            self.wf(),
        ensures
            ino == ROOT_INO ==> r == Ok::<FileAttr, FsError>(
                spec_dir_attr(ROOT_INO, self.uid_spec(), self.gid_spec()),
            ),
            ino != ROOT_INO ==> match path_of_spec(self.paths(), ino) {
                None => r == Err::<FileAttr, FsError>(FsError::NotFound),
                Some(p) => match r {
                    Ok(a) => if is_dir(self.contents(), p) {
                        a == spec_dir_attr(ino, self.uid_spec(), self.gid_spec())
                    } else {
                        &&& is_file(self.contents(), p)
                        &&& decrypt_spec(self.key(), self.contents()[p]) matches Ok(body)
                            && a == spec_file_attr(
                            ino,
                            body.len() as u64,
                            self.uid_spec(),
                            self.gid_spec(),
                        )
                    },
                    Err(FsError::NotFound) => !is_dir(self.contents(), p) && !is_file(
                        self.contents(),
                        p,
                    ),
                    Err(FsError::StorageUnavailable) => true,
                    Err(e) => !is_dir(self.contents(), p) && is_file(self.contents(), p)
                        && (match decrypt_spec(self.key(), self.contents()[p]) {
                        Err(ce) => e == crypto_fs_error(ce),
                        Ok(_) => false,
                    }),
                },
            },
    {
        if ino == ROOT_INO {
            return Ok(dir_attr(ROOT_INO, self.uid, self.gid));
        }
        let p = match self.inodes.path_of(ino) {
            Some(p) => p,
            None => {
                proof {
                    self.inodes.lemma_path_of_spec_none(ino);
                }
                return Err(FsError::NotFound);
            },
        };
        proof {
            self.inodes.lemma_path_of_spec(ino, p@);
        }
        let mut pre = copy_bytes(&p);
        pre.push(SLASH);
        match self.store.list(&pre) {
            Err(_) => Err(FsError::StorageUnavailable),
            Ok(keys) => {
                if keys.len() > 0 {
                    proof {
                        assert(self.contents().contains_key(keys@[0]@) && pre@.is_prefix_of(
                            keys@[0]@,
                        ));
                        assert(is_dir(self.contents(), p@));
                    }
                    Ok(dir_attr(ino, self.uid, self.gid))
                } else {
                    proof {
                        assert(!is_dir(self.contents(), p@)) by {
                            if is_dir(self.contents(), p@) {
                                let k = choose|k: Seq<u8>|
                                    #[trigger] self.contents().contains_key(k) && (p@ + seq![
                                        SLASH,
                                    ]).is_prefix_of(k);
                                assert(self.contents().contains_key(k) && pre@.is_prefix_of(k));
                                assert(false);
                            }
                        }
                    }
                    match self.store.get(&p) {
                        Err(_) => Err(FsError::StorageUnavailable),
                        Ok(None) => Err(FsError::NotFound),
                        Ok(Some(blob)) => match self.enc.decrypt(&blob) {
                            Err(ce) => Err(fs_error_of_crypto(ce)),
                            Ok(body) => Ok(
                                file_attr(ino, body.len() as u64, self.uid, self.gid),
                            ),
                        },
                    }
                }
            },
        }
    }

    /// Read `size` bytes at `offset`: the whole object is fetched and
    /// decrypted, and the clipped window of the plaintext returned.
    pub fn read(&self, ino: u64, offset: u64, size: u32) -> (r: Result<Vec<u8>, FsError>)
        requires
            self.wf(),
        ensures
            ino == ROOT_INO ==> r == Err::<Vec<u8>, FsError>(FsError::IsADirectory),
            ino != ROOT_INO ==> match path_of_spec(self.paths(), ino) {
                None => r == Err::<Vec<u8>, FsError>(FsError::NotFound),
                Some(p) => match r {
                    Ok(v) => {
                        &&& is_file(self.contents(), p)
                        &&& decrypt_spec(self.key(), self.contents()[p]) matches Ok(body) && v@
                            == spec_read_slice(body, offset as int, size as int)
                    },
                    Err(FsError::NotFound) => !is_file(self.contents(), p),
                    Err(FsError::StorageUnavailable) => true,
                    Err(e) => is_file(self.contents(), p) && (match decrypt_spec(
                        self.key(),
                        self.contents()[p],
                    ) {
                        Err(ce) => e == crypto_fs_error(ce),
                        Ok(_) => false,
                    }),
                },
            },
    {
        if ino == ROOT_INO {
            return Err(FsError::IsADirectory);
        }
        let p = match self.inodes.path_of(ino) {
            Some(p) => p,
            None => {
                proof {
                    self.inodes.lemma_path_of_spec_none(ino);
                }
                return Err(FsError::NotFound);
            },
        };
        proof {
            self.inodes.lemma_path_of_spec(ino, p@);
        }
        match self.store.get(&p) {
            Err(_) => Err(FsError::StorageUnavailable),
            Ok(None) => Err(FsError::NotFound),
            Ok(Some(blob)) => match self.enc.decrypt(&blob) {
                Err(ce) => Err(fs_error_of_crypto(ce)),
                Ok(body) => Ok(read_slice(&body, offset, size)),
            },
        }
    }
}

/// The literal names `.` and `..`, which short-circuit under the root.
pub open spec fn is_dot_name(name: Seq<u8>) -> bool {
    name == seq![46u8] || name == seq![46u8, 46u8]
}

/// What the file at `p` currently holds: its decrypted body, or the
/// empty body when no object is stored there.
pub open spec fn current_plaintext(key: Seq<u8>, m: Map<Seq<u8>, Seq<u8>>, p: Seq<u8>) -> Result<
    Seq<u8>,
    CryptoError,
> {
    if m.contains_key(p) {
        decrypt_spec(key, m[p])
    } else {
        Ok(Seq::empty())
    }
}

impl<S: StorageBackend> Gateway<S> {
    /// Resolve `name` under a parent directory: a stored object is a
    /// file, a key prefix is a directory, anything else is absent.  The
    /// names `.` and `..` under the root short-circuit to the root.
    pub fn lookup(&mut self, parent: u64, name: &Vec<u8>) -> (r: Result<FileAttr, FsError>)
        requires
            old(self).wf(),
        ensures
            final(self).wf(),
            final(self).same_config(old(self)),
            final(self).contents() == old(self).contents(),
            r is Err ==> final(self).paths() == old(self).paths() && final(self).next_ino()
                == old(self).next_ino(),
            parent == ROOT_INO && is_dot_name(name@) ==> r == Ok::<FileAttr, FsError>(
                spec_dir_attr(ROOT_INO, old(self).uid_spec(), old(self).gid_spec()),
            ) && final(self).paths() == old(self).paths() && final(self).next_ino() == old(
                self,
            ).next_ino(),
            !(parent == ROOT_INO && is_dot_name(name@)) ==> match path_of_spec(
                old(self).paths(),
                parent,
            ) {
                None => r == Err::<FileAttr, FsError>(FsError::NotFound),
                Some(pp) => match r {
                    Ok(a) => {
                        &&& final(self).paths() == resolve_map(
                            old(self).paths(),
                            old(self).next_ino(),
                            spec_join(pp, name@),
                        )
                        &&& final(self).next_ino() == resolve_next(
                            old(self).paths(),
                            old(self).next_ino(),
                            spec_join(pp, name@),
                        )
                        &&& resolve_result(
                            old(self).paths(),
                            old(self).next_ino(),
                            spec_join(pp, name@),
                        ) == Some(a.ino)
                        &&& if is_file(old(self).contents(), spec_join(pp, name@)) {
                            &&& decrypt_spec(
                                old(self).key(),
                                old(self).contents()[spec_join(pp, name@)],
                            ) matches Ok(body) && a == spec_file_attr(
                                a.ino,
                                body.len() as u64,
                                old(self).uid_spec(),
                                old(self).gid_spec(),
                            )
                        } else {
                            &&& is_dir(old(self).contents(), spec_join(pp, name@))
                            &&& a == spec_dir_attr(
                                a.ino,
                                old(self).uid_spec(),
                                old(self).gid_spec(),
                            )
                        }
                    },
                    Err(FsError::NotFound) => !is_file(old(self).contents(), spec_join(pp, name@))
                        && !is_dir(old(self).contents(), spec_join(pp, name@)),
                    Err(FsError::StorageUnavailable) => true,
                    Err(e) => is_file(old(self).contents(), spec_join(pp, name@)) && (
                    match decrypt_spec(old(self).key(), old(self).contents()[spec_join(pp, name@)]) {
                        Err(ce) => e == crypto_fs_error(ce),
                        Ok(_) => false,
                    }),
                },
            },
    {
        if parent == ROOT_INO && (name.len() == 1 && name[0] == 46 || name.len() == 2 && name[0]
            == 46 && name[1] == 46) {
            proof {
                if name@.len() == 1 {
                    assert(name@ =~= seq![46u8]);
                } else {
                    assert(name@ =~= seq![46u8, 46u8]);
                }
            }
            return Ok(dir_attr(ROOT_INO, self.uid, self.gid));
        }
        proof {
            if parent == ROOT_INO {
                assert(!is_dot_name(name@)) by {
                    if name@ == seq![46u8] {
                        assert(name@.len() == 1 && name@[0] == 46u8);
                    }
                    if name@ == seq![46u8, 46u8] {
                        assert(name@.len() == 2 && name@[0] == 46u8 && name@[1] == 46u8);
                    }
                }
            }
        }
        let pp = match self.inodes.path_of(parent) {
            Some(p) => p,
            None => {
                proof {
                    self.inodes.lemma_path_of_spec_none(parent);
                }
                return Err(FsError::NotFound);
            },
        };
        proof {
            if parent != ROOT_INO {
                self.inodes.lemma_path_of_spec(parent, pp@);
            }
        }
        let child = join_path(&pp, name);
        match self.store.get(&child) {
            Err(_) => Err(FsError::StorageUnavailable),
            Ok(Some(blob)) => match self.enc.decrypt(&blob) {
                Err(ce) => Err(fs_error_of_crypto(ce)),
                Ok(body) => match self.inodes.resolve_or_assign(&child) {
                    None => Err(FsError::StorageUnavailable),
                    Some(ino) => Ok(file_attr(ino, body.len() as u64, self.uid, self.gid)),
                },
            },
            Ok(None) => {
                let mut pre = copy_bytes(&child);
                pre.push(SLASH);
                match self.store.list(&pre) {
                    Err(_) => Err(FsError::StorageUnavailable),
                    Ok(keys) => {
                        if keys.len() > 0 {
                            proof {
                                assert(self.store.contents().contains_key(keys@[0]@)
                                    && pre@.is_prefix_of(keys@[0]@));
                                assert(pre@ == child@ + seq![SLASH]);
                                assert(is_dir(self.store.contents(), child@));
                            }
                            match self.inodes.resolve_or_assign(&child) {
                                None => Err(FsError::StorageUnavailable),
                                Some(ino) => Ok(dir_attr(ino, self.uid, self.gid)),
                            }
                        } else {
                            proof {
                                assert(!is_dir(self.store.contents(), child@)) by {
                                    if is_dir(self.store.contents(), child@) {
                                        let k = choose|k: Seq<u8>|
                                            #[trigger] self.store.contents().contains_key(k) && (
                                            child@ + seq![SLASH]).is_prefix_of(k);
                                        assert(self.store.contents().contains_key(k)
                                            && pre@.is_prefix_of(k));
                                        assert(false);
                                    }
                                }
                            }
                            Err(FsError::NotFound)
                        }
                    },
                }
            },
        }
    }

    /// Read-modify-write at whole-object granularity: fetch and decrypt
    /// the current body (missing means empty), patch the window,
    /// zero-extending past the end, then encrypt and store the result.
    pub fn write(&mut self, ino: u64, offset: u64, data: &Vec<u8>) -> (r: Result<u32, FsError>)
        requires
            old(self).wf(),
            offset + data@.len() <= MAX_PLAINTEXT_LEN,
            data@.len() <= u32::MAX,
        ensures
            final(self).wf(),
            final(self).same_config(old(self)),
            final(self).paths() == old(self).paths(),
            final(self).next_ino() == old(self).next_ino(),
            r is Err ==> final(self).contents() == old(self).contents(),
            ino == ROOT_INO ==> r == Err::<u32, FsError>(FsError::IsADirectory),
            ino != ROOT_INO ==> match path_of_spec(old(self).paths(), ino) {
                None => r == Err::<u32, FsError>(FsError::NotFound),
                Some(p) => match r {
                    Ok(n) => {
                        &&& n == data@.len()
                        &&& current_plaintext(old(self).key(), old(self).contents(), p) matches Ok(
                            cur,
                        ) && final(self).contents() == old(self).contents().insert(
                            p,
                            final(self).contents()[p],
                        ) && final(self).contents().contains_key(p) && envelope_of(
                            old(self).key(),
                            spec_patch(cur, offset as int, data@),
                            final(self).contents()[p],
                        )
                    },
                    Err(FsError::StorageUnavailable) => true,
                    Err(FsError::TooLarge) => current_plaintext(
                        old(self).key(),
                        old(self).contents(),
                        p,
                    ) matches Ok(cur) && spec_patch(cur, offset as int, data@).len()
                        > MAX_PLAINTEXT_LEN,
                    Err(e) => match current_plaintext(old(self).key(), old(self).contents(), p) {
                        Err(ce) => e == crypto_fs_error(ce),
                        Ok(_) => false,
                    },
                },
            },
    {
        if ino == ROOT_INO {
            return Err(FsError::IsADirectory);
        }
        let p = match self.inodes.path_of(ino) {
            Some(p) => p,
            None => {
                proof {
                    self.inodes.lemma_path_of_spec_none(ino);
                }
                return Err(FsError::NotFound);
            },
        };
        proof {
            self.inodes.lemma_path_of_spec(ino, p@);
        }
        let cur: Vec<u8> = match self.store.get(&p) {
            Err(_) => {
                return Err(FsError::StorageUnavailable);
            },
            Ok(None) => Vec::new(),
            Ok(Some(blob)) => match self.enc.decrypt(&blob) {
                Err(ce) => {
                    return Err(fs_error_of_crypto(ce));
                },
                Ok(body) => body,
            },
        };
        let patched = patch_bytes(&cur, offset as usize, data);
        if patched.len() > MAX_PLAINTEXT_LEN {
            return Err(FsError::TooLarge);
        }
        let blob2 = self.enc.encrypt(&patched);
        match self.store.put(&p, &blob2) {
            Err(_) => Err(FsError::StorageUnavailable),
            Ok(_) => Ok(data.len() as u32),
        }
    }

    /// Create an empty file: store a fresh envelope of the empty body at
    /// the child path, then bind an inode to it.  A failed store leaves
    /// the table untouched: no inode is assigned.  (Kernel names are
    /// never empty; the caller checks before handing one over.)
    pub fn create(&mut self, parent: u64, name: &Vec<u8>) -> (r: Result<FileAttr, FsError>)
        requires
            old(self).wf(),
            name@.len() > 0,
        ensures
            final(self).wf(),
            final(self).same_config(old(self)),
            r is Err ==> final(self).contents() == old(self).contents() && final(self).paths()
                == old(self).paths() && final(self).next_ino() == old(self).next_ino(),
            match path_of_spec(old(self).paths(), parent) {
                None => r == Err::<FileAttr, FsError>(FsError::NotFound),
                Some(pp) => match r {
                    Ok(a) => {
                        &&& final(self).paths() == resolve_map(
                            old(self).paths(),
                            old(self).next_ino(),
                            spec_join(pp, name@),
                        )
                        &&& final(self).next_ino() == resolve_next(
                            old(self).paths(),
                            old(self).next_ino(),
                            spec_join(pp, name@),
                        )
                        &&& resolve_result(
                            old(self).paths(),
                            old(self).next_ino(),
                            spec_join(pp, name@),
                        ) == Some(a.ino)
                        &&& a == spec_file_attr(
                            a.ino,
                            0,
                            old(self).uid_spec(),
                            old(self).gid_spec(),
                        )
                        &&& final(self).contents() == old(self).contents().insert(
                            spec_join(pp, name@),
                            final(self).contents()[spec_join(pp, name@)],
                        )
                        &&& final(self).contents().contains_key(spec_join(pp, name@))
                        &&& envelope_of(
                            old(self).key(),
                            Seq::empty(),
                            final(self).contents()[spec_join(pp, name@)],
                        )
                    },
                    Err(FsError::StorageUnavailable) => true,
                    Err(_) => false,
                },
            },
    {
        let pp = match self.inodes.path_of(parent) {
            Some(p) => p,
            None => {
                proof {
                    self.inodes.lemma_path_of_spec_none(parent);
                }
                return Err(FsError::NotFound);
            },
        };
        proof {
            if parent != ROOT_INO {
                self.inodes.lemma_path_of_spec(parent, pp@);
            }
        }
        let child = join_path(&pp, name);
        if !self.inodes.can_resolve(&child) {
            return Err(FsError::StorageUnavailable);
        }
        let empty: Vec<u8> = Vec::new();
        let blob = self.enc.encrypt(&empty);
        match self.store.put(&child, &blob) {
            Err(_) => Err(FsError::StorageUnavailable),
            Ok(_) => {
                let ino = match self.inodes.resolve_or_assign(&child) {
                    None => {
                        proof {
                            assert(false);
                        }
                        return Err(FsError::StorageUnavailable);
                    },
                    Some(ino) => ino,
                };
                Ok(file_attr(ino, 0, self.uid, self.gid))
            },
        }
    }

    /// Make a directory visible: store an empty-bodied marker object at
    /// `child/.dir`, then bind an inode to the child path.  A failed
    /// store leaves the table untouched: no inode is assigned.  (Kernel
    /// names are never empty; the caller checks before handing one
    /// over.)
    pub fn mkdir(&mut self, parent: u64, name: &Vec<u8>) -> (r: Result<FileAttr, FsError>)
        requires
            old(self).wf(),
            name@.len() > 0,
        ensures
            final(self).wf(),
            final(self).same_config(old(self)),
            r is Err ==> final(self).contents() == old(self).contents() && final(self).paths()
                == old(self).paths() && final(self).next_ino() == old(self).next_ino(),
            match path_of_spec(old(self).paths(), parent) {
                None => r == Err::<FileAttr, FsError>(FsError::NotFound),
                Some(pp) => match r {
                    Ok(a) => {
                        &&& final(self).paths() == resolve_map(
                            old(self).paths(),
                            old(self).next_ino(),
                            spec_join(pp, name@),
                        )
                        &&& final(self).next_ino() == resolve_next(
                            old(self).paths(),
                            old(self).next_ino(),
                            spec_join(pp, name@),
                        )
                        &&& resolve_result(
                            old(self).paths(),
                            old(self).next_ino(),
                            spec_join(pp, name@),
                        ) == Some(a.ino)
                        &&& a == spec_dir_attr(a.ino, old(self).uid_spec(), old(self).gid_spec())
                        &&& final(self).contents() == old(self).contents().insert(
                            spec_join(spec_join(pp, name@), seq![46u8, 100u8, 105u8, 114u8]),
                            final(self).contents()[spec_join(
                                spec_join(pp, name@),
                                seq![46u8, 100u8, 105u8, 114u8],
                            )],
                        )
                        &&& envelope_of(
                            old(self).key(),
                            Seq::empty(),
                            final(self).contents()[spec_join(
                                spec_join(pp, name@),
                                seq![46u8, 100u8, 105u8, 114u8],
                            )],
                        )
                        &&& is_dir(final(self).contents(), spec_join(pp, name@))
                    },
                    Err(FsError::StorageUnavailable) => true,
                    Err(_) => false,
                },
            },
    {
        let pp = match self.inodes.path_of(parent) {
            Some(p) => p,
            None => {
                proof {
                    self.inodes.lemma_path_of_spec_none(parent);
                }
                return Err(FsError::NotFound);
            },
        };
        proof {
            if parent != ROOT_INO {
                self.inodes.lemma_path_of_spec(parent, pp@);
            }
        }
        let child = join_path(&pp, name);
        if !self.inodes.can_resolve(&child) {
            return Err(FsError::StorageUnavailable);
        }
        let mut marker_name: Vec<u8> = Vec::new();
        marker_name.push(46);
        marker_name.push(100);
        marker_name.push(105);
        marker_name.push(114);
        proof {
            assert(marker_name@ =~= seq![46u8, 100u8, 105u8, 114u8]);
        }
        let marker = join_path(&child, &marker_name);
        let empty: Vec<u8> = Vec::new();
        let blob = self.enc.encrypt(&empty);
        match self.store.put(&marker, &blob) {
            Err(_) => Err(FsError::StorageUnavailable),
            Ok(_) => {
                let ino = match self.inodes.resolve_or_assign(&child) {
                    None => {
                        proof {
                            assert(false);
                        }
                        return Err(FsError::StorageUnavailable);
                    },
                    Some(ino) => ino,
                };
                proof {
                    assert(is_dir(self.store.contents(), child@)) by {
                        assert(child@.len() > 0);
                        assert(marker@ == child@ + seq![SLASH] + seq![46u8, 100u8, 105u8, 114u8]);
                        assert((child@ + seq![SLASH]).is_prefix_of(marker@)) by {
                            assert(marker@.take((child@ + seq![SLASH]).len() as int) =~= child@
                                + seq![SLASH]);
                        }
                        assert(self.store.contents().contains_key(marker@));
                    }
                }
                Ok(dir_attr(ino, self.uid, self.gid))
            },
        }
    }

    /// Remove a file: drop the inode binding in both directions, then
    /// delete the object; a missing object is not an error.
    pub fn unlink(&mut self, parent: u64, name: &Vec<u8>) -> (r: Result<(), FsError>)
        requires
            old(self).wf(),
            name@.len() > 0,
        ensures
            final(self).wf(),
            final(self).same_config(old(self)),
            final(self).next_ino() == old(self).next_ino(),
            match path_of_spec(old(self).paths(), parent) {
                None => r == Err::<(), FsError>(FsError::NotFound) && final(self).paths() == old(
                    self,
                ).paths() && final(self).contents() == old(self).contents(),
                Some(pp) => {
                    &&& final(self).paths() == old(self).paths().remove(spec_join(pp, name@))
                    &&& match r {
                        Ok(_) => final(self).contents() == old(self).contents().remove(
                            spec_join(pp, name@),
                        ),
                        Err(FsError::StorageUnavailable) => final(self).contents() == old(
                            self,
                        ).contents(),
                        Err(_) => false,
                    }
                },
            },
    {
        let pp = match self.inodes.path_of(parent) {
            Some(p) => p,
            None => {
                proof {
                    self.inodes.lemma_path_of_spec_none(parent);
                }
                return Err(FsError::NotFound);
            },
        };
        proof {
            if parent != ROOT_INO {
                self.inodes.lemma_path_of_spec(parent, pp@);
            }
        }
        let child = join_path(&pp, name);
        self.inodes.forget(&child);
        match self.store.delete(&child) {
            Err(_) => Err(FsError::StorageUnavailable),
            Ok(_) => Ok(()),
        }
    }
}

impl<S: StorageBackend> Gateway<S> {
    /// Remove a directory, recursively and best-effort: delete every
    /// object under `child/` and the marker, then drop the inode
    /// binding.  The result says whether every deletion went through:
    /// on `Ok(true)` nothing below the directory remains, while on
    /// `Ok(false)` some objects were left behind (the kernel is still
    /// told the operation succeeded).  Nothing outside the directory is
    /// ever touched.  (Kernel names are never empty; the caller checks
    /// before handing one over.)
    pub fn rmdir(&mut self, parent: u64, name: &Vec<u8>) -> (r: Result<bool, FsError>)
        requires
            old(self).wf(),
            name@.len() > 0,
        ensures
            final(self).wf(),
            final(self).same_config(old(self)),
            final(self).next_ino() == old(self).next_ino(),
            match path_of_spec(old(self).paths(), parent) {
                None => r == Err::<bool, FsError>(FsError::NotFound) && final(self).paths()
                    == old(self).paths() && final(self).contents() == old(self).contents(),
                Some(pp) => match r {
                    Ok(clean) => {
                        &&& final(self).paths() == old(self).paths().remove(spec_join(pp, name@))
                        &&& forall|k: Seq<u8>|
                            #[trigger] final(self).contents().contains_key(k) ==> old(
                                self,
                            ).contents().contains_key(k) && final(self).contents()[k] == old(
                                self,
                            ).contents()[k]
                        &&& forall|k: Seq<u8>|
                            #[trigger] old(self).contents().contains_key(k) && !((spec_join(
                                pp,
                                name@,
                            ) + seq![SLASH]).is_prefix_of(k)) ==> final(self).contents(
                            ).contains_key(k) && final(self).contents()[k] == old(
                                self,
                            ).contents()[k]
                        &&& clean ==> forall|k: Seq<u8>|
                            #[trigger] final(self).contents().contains_key(k) ==> !((spec_join(
                                pp,
                                name@,
                            ) + seq![SLASH]).is_prefix_of(k))
                    },
                    Err(FsError::StorageUnavailable) => final(self).paths() == old(self).paths()
                        && final(self).contents() == old(self).contents(),
                    Err(_) => false,
                },
            },
    {
        let pp = match self.inodes.path_of(parent) {
            Some(p) => p,
            None => {
                proof {
                    self.inodes.lemma_path_of_spec_none(parent);
                }
                return Err(FsError::NotFound);
            },
        };
        proof {
            if parent != ROOT_INO {
                self.inodes.lemma_path_of_spec(parent, pp@);
            }
        }
        let child = join_path(&pp, name);
        let mut pre = copy_bytes(&child);
        pre.push(SLASH);
        proof {
            assert(pre@ =~= child@ + seq![SLASH]);
        }
        let keys = match self.store.list(&pre) {
            Err(_) => {
                return Err(FsError::StorageUnavailable);
            },
            Ok(keys) => keys,
        };
        let ghost m0 = self.store.contents();
        let mut clean = true;
        let mut i: usize = 0;
        #[verifier::loop_isolation(false)]
        while i < keys.len()
            invariant
                self.store.wf(),
                self.inodes == old(self).inodes,
                self.enc == old(self).enc,
                self.uid == old(self).uid,
                self.gid == old(self).gid,
                forall|k: Seq<u8>|
                    #[trigger] self.store.contents().contains_key(k) ==> m0.contains_key(k)
                        && self.store.contents()[k] == m0[k],
                forall|k: Seq<u8>|
                    #[trigger] m0.contains_key(k) && !pre@.is_prefix_of(k)
                        ==> self.store.contents().contains_key(k) && self.store.contents()[k]
                        == m0[k],
                clean ==> forall|k: Seq<u8>|
                    #[trigger] self.store.contents().contains_key(k) && pre@.is_prefix_of(k)
                        ==> exists|j: int| i <= j < keys@.len() && keys@[j]@ == k,
            decreases keys@.len() - i,
        {
            let ghost mc = self.store.contents();
            match self.store.delete(&keys[i]) {
                Ok(_) => {
                    proof {
                        if clean {
                            assert forall|k: Seq<u8>|
                                #[trigger] self.store.contents().contains_key(k)
                                    && pre@.is_prefix_of(k) implies exists|j: int|
                                i + 1 <= j < keys@.len() && keys@[j]@ == k by {
                                assert(mc.contains_key(k));
                                let j = choose|j: int|
                                    i <= j < keys@.len() && (#[trigger] keys@[j])@ == k;
                                assert(k != keys@[i as int]@);
                                assert(j != i);
                                assert(keys@[j]@ == k);
                            }
                        }
                    }
                },
                Err(_) => {
                    clean = false;
                },
            }
            i = i + 1;
        }
        let mut marker_name: Vec<u8> = Vec::new();
        marker_name.push(46);
        marker_name.push(100);
        marker_name.push(105);
        marker_name.push(114);
        let marker = join_path(&child, &marker_name);
        proof {
            assert(pre@.is_prefix_of(marker@)) by {
                assert(marker@ == child@ + seq![SLASH] + marker_name@);
                assert(marker@.take(pre@.len() as int) =~= pre@);
            }
        }
        let _best_effort = self.store.delete(&marker);
        self.inodes.forget(&child);
        proof {
            if clean {
                assert forall|k: Seq<u8>|
                    #[trigger] self.store.contents().contains_key(k) implies !pre@.is_prefix_of(
                    k,
                ) by {
                    if pre@.is_prefix_of(k) {
                        let j = choose|j: int|
                            keys@.len() <= j < keys@.len() && (#[trigger] keys@[j])@ == k;
                        assert(false);
                    }
                }
            }
        }
        Ok(clean)
    }
}

/// The first component of a relative path: everything before the first
/// separator, or the whole string when it has none.
pub open spec fn first_component(s: Seq<u8>) -> Seq<u8>
    decreases s.len(),
{
    if s.len() == 0 {
        s
    } else if s[0] == SLASH {
        Seq::empty()
    } else {
        seq![s[0]] + first_component(s.skip(1))
    }
}

/// `name` names a direct child of directory `p`: some stored key below
/// `p` starts with it as its first component.
pub open spec fn is_child_name(m: Map<Seq<u8>, Seq<u8>>, p: Seq<u8>, name: Seq<u8>) -> bool {
    exists|k: Seq<u8>|
        #[trigger] m.contains_key(k) && listing_prefix(p).is_prefix_of(k) && k.len()
            > listing_prefix(p).len() && name == first_component(k.skip(listing_prefix(p).len() as int))
}

/// Copy the first component of `key` starting at `start`.
#[verifier::loop_isolation(false)]
fn first_component_of(key: &Vec<u8>, start: usize) -> (r: Vec<u8>)
    requires
        start <= key@.len(),
    ensures
        r@ == first_component(key@.skip(start as int)),
{
    let s0 = start;
    let mut j: usize = start;
    let mut r: Vec<u8> = Vec::new();
    proof {
        assert(key@.skip(s0 as int).skip(0) == key@.skip(s0 as int));
        assert(key@.skip(s0 as int).take(0) == Seq::<u8>::empty());
    }
    while j < key.len() && key[j] != SLASH
        invariant
            s0 <= j <= key@.len(),
            r@ == key@.skip(s0 as int).take(j - s0),
            first_component(key@.skip(s0 as int)) == r@ + first_component(key@.skip(j as int)),
        decreases key@.len() - j,
    {
        let ghost s = key@.skip(j as int);
        proof {
            assert(s[0] == key@[j as int]);
            assert(s.skip(1) == key@.skip(j as int + 1));
            assert(first_component(s) == seq![s[0]] + first_component(s.skip(1)));
        }
        r.push(key[j]);
        proof {
            assert(r@ =~= key@.skip(s0 as int).take(j + 1 - s0));
            assert((key@.skip(s0 as int).take(j - s0) + (seq![s[0]] + first_component(
                key@.skip(j as int + 1),
            ))) =~= r@ + first_component(key@.skip(j as int + 1)));
        }
        j = j + 1;
    }
    proof {
        if j < key.len() {
            assert(key@.skip(j as int)[0] == key@[j as int]);
            assert(first_component(key@.skip(j as int)) == Seq::<u8>::empty());
        } else {
            assert(key@.skip(j as int).len() == 0);
            assert(first_component(key@.skip(j as int)) == key@.skip(j as int));
            assert(first_component(key@.skip(j as int)) =~= Seq::<u8>::empty());
        }
        assert(r@ + Seq::<u8>::empty() =~= r@);
    }
    r
}

/// Whether some element of `items` holds exactly the bytes of `x`.
fn contains_bytes(items: &Vec<Vec<u8>>, x: &Vec<u8>) -> (r: bool)
    ensures
        r <==> exists|i: int| 0 <= i < items@.len() && (#[trigger] items@[i])@ == x@,
{
    let mut i: usize = 0;
    while i < items.len()
        invariant
            i <= items@.len(),
            forall|t: int| 0 <= t < i ==> (#[trigger] items@[t])@ != x@,
        decreases items@.len() - i,
    {
        if bytes_eq(&items[i], x) {
            return true;
        }
        i = i + 1;
    }
    false
}

/// `name` is the first component of some listed key below `pre`.
pub open spec fn name_from_keys(keys: Seq<Vec<u8>>, pre: Seq<u8>, name: Seq<u8>) -> bool {
    exists|i: int|
        0 <= i < keys.len() && pre.is_prefix_of(#[trigger] keys[i]@) && keys[i]@.len() > pre.len()
            && name == first_component(keys[i]@.skip(pre.len() as int))
}

/// The distinct first components of the keys below `pre`, in order of
/// first appearance: the names readdir synthesises as direct children.
#[verifier::loop_isolation(false)]
fn direct_children(keys: &Vec<Vec<u8>>, pre: &Vec<u8>) -> (r: Vec<Vec<u8>>)
    ensures
        forall|t: int| 0 <= t < r@.len() ==> name_from_keys(keys@, pre@, (#[trigger] r@[t])@),
        forall|i: int|
            0 <= i < keys@.len() && pre@.is_prefix_of(#[trigger] keys@[i]@) && keys@[i]@.len()
                > pre@.len() ==> exists|t: int|
                0 <= t < r@.len() && (#[trigger] r@[t])@ == first_component(
                    keys@[i]@.skip(pre@.len() as int),
                ),
        forall|t1: int, t2: int|
            0 <= t1 < t2 < r@.len() ==> (#[trigger] r@[t1])@ != (#[trigger] r@[t2])@,
{
    let mut r: Vec<Vec<u8>> = Vec::new();
    let mut i: usize = 0;
    while i < keys.len()
        invariant
            i <= keys@.len(),
            forall|t: int| 0 <= t < r@.len() ==> name_from_keys(keys@, pre@, (#[trigger] r@[t])@),
            forall|ii: int|
                0 <= ii < i && pre@.is_prefix_of(#[trigger] keys@[ii]@) && keys@[ii]@.len()
                    > pre@.len() ==> exists|t: int|
                    0 <= t < r@.len() && (#[trigger] r@[t])@ == first_component(
                        keys@[ii]@.skip(pre@.len() as int),
                    ),
            forall|t1: int, t2: int|
                0 <= t1 < t2 < r@.len() ==> (#[trigger] r@[t1])@ != (#[trigger] r@[t2])@,
        decreases keys@.len() - i,
    {
        if starts_with(&keys[i], pre) && keys[i].len() > pre.len() {
            let name = first_component_of(&keys[i], pre.len());
            if !contains_bytes(&r, &name) {
                let ghost r0 = r@;
                r.push(name);
                proof {
                    assert(r@[r@.len() - 1]@ == first_component(keys@[i as int]@.skip(
                        pre@.len() as int,
                    )));
                    assert(name_from_keys(keys@, pre@, r@[r@.len() - 1]@)) by {
                        assert(pre@.is_prefix_of(keys@[i as int]@));
                    }
                    assert forall|t: int| 0 <= t < r@.len() implies name_from_keys(
                        keys@,
                        pre@,
                        (#[trigger] r@[t])@,
                    ) by {
                        if t < r0.len() {
                            assert(r@[t] == r0[t]);
                        }
                    }
                    assert forall|ii: int|
                        0 <= ii < i + 1 && pre@.is_prefix_of(#[trigger] keys@[ii]@)
                            && keys@[ii]@.len() > pre@.len() implies exists|t: int|
                        0 <= t < r@.len() && (#[trigger] r@[t])@ == first_component(
                            keys@[ii]@.skip(pre@.len() as int),
                        ) by {
                        if ii < i {
                            let t = choose|t: int|
                                0 <= t < r0.len() && (#[trigger] r0[t])@ == first_component(
                                    keys@[ii]@.skip(pre@.len() as int),
                                );
                            assert(r@[t]@ == first_component(keys@[ii]@.skip(pre@.len() as int)));
                        } else {
                            assert(r@[r@.len() - 1]@ == first_component(
                                keys@[ii]@.skip(pre@.len() as int),
                            ));
                        }
                    }
                }
            } else {
                proof {
                    let t = choose|t: int| 0 <= t < r@.len() && (#[trigger] r@[t])@ == name@;
                    assert(r@[t]@ == first_component(keys@[i as int]@.skip(pre@.len() as int)));
                }
            }
        }
        i = i + 1;
    }
    r
}

/// One directory entry of a readdir reply; `next_offset` is the cursor
/// a reader hands back to continue after this entry, so each entry is
/// emitted exactly once across successive calls at increasing offsets.
#[derive(Debug)]
pub struct DirEntry {
    pub ino: u64,
    pub next_offset: u64,
    pub kind: FileKind,
    pub name: Vec<u8>,
}

/// The inode reported for `..`: the binding of the longest strict
/// prefix, or the root inode for top-level entries and unbound parents.
pub open spec fn dotdot_ino(paths: Map<Seq<u8>, u64>, p: Seq<u8>) -> u64 {
    if p.len() == 0 {
        ROOT_INO
    } else {
        match crate::path::spec_parent(p) {
            None => ROOT_INO,
            Some(par) => if paths.contains_key(par) {
                paths[par]
            } else {
                ROOT_INO
            },
        }
    }
}

/// Everything a successful readdir reply satisfies: sequential cursors,
/// the `.` and `..` entries at offsets 0 and 1, and beyond them one
/// entry per direct child — its name synthesised from the stored keys,
/// its kind a file exactly when an object sits at the child path, and
/// its inode bound in the table; names never repeat, and at offsets up
/// to 2 every direct child appears.
pub open spec fn readdir_post(
    m: Map<Seq<u8>, Seq<u8>>,
    paths0: Map<Seq<u8>, u64>,
    paths1: Map<Seq<u8>, u64>,
    p: Seq<u8>,
    ino: u64,
    offset: u64,
    entries: Seq<DirEntry>,
) -> bool {
    &&& forall|idx: int|
        0 <= idx < entries.len() ==> (#[trigger] entries[idx]).next_offset == offset + idx + 1
    &&& offset == 0 ==> entries.len() >= 2 && entries[0].ino == ino && entries[0].kind
        == FileKind::Directory && entries[0].name@ == seq![46u8] && entries[1].ino == dotdot_ino(
        paths0,
        p,
    ) && entries[1].kind == FileKind::Directory && entries[1].name@ == seq![46u8, 46u8]
    &&& offset == 1 ==> entries.len() >= 1 && entries[0].ino == dotdot_ino(paths0, p)
        && entries[0].kind == FileKind::Directory && entries[0].name@ == seq![46u8, 46u8]
    &&& forall|idx: int|
        0 <= idx < entries.len() && offset + idx >= 2 ==> is_child_name(
            m,
            p,
            (#[trigger] entries[idx]).name@,
        )
    &&& forall|idx: int|
        0 <= idx < entries.len() && offset + idx >= 2 ==> ((#[trigger] entries[idx]).kind
            == FileKind::RegularFile <==> m.contains_key(listing_prefix(p) + entries[idx].name@))
    &&& forall|idx: int|
        0 <= idx < entries.len() && offset + idx >= 2 ==> paths1.contains_key(
            spec_join(p, (#[trigger] entries[idx]).name@),
        ) && paths1[spec_join(p, entries[idx].name@)] == entries[idx].ino
    &&& forall|i1: int, i2: int|
        0 <= i1 < i2 < entries.len() && offset + i1 >= 2 ==> (#[trigger] entries[i1]).name@ != (
        #[trigger] entries[i2]).name@
    &&& offset <= 2 ==> forall|nm: Seq<u8>|
        #[trigger] is_child_name(m, p, nm) ==> exists|idx: int|
            0 <= idx < entries.len() && (#[trigger] entries[idx]).name@ == nm
}

impl<S: StorageBackend> Gateway<S> {
    /// List a directory from a cursor: `.` and `..` first, then one
    /// entry for each direct child synthesised from the stored keys,
    /// with an inode assigned lazily to every child emitted.
    #[verifier::loop_isolation(false)]
    #[verifier::rlimit(100)]
    pub fn readdir(&mut self, ino: u64, offset: u64) -> (r: Result<Vec<DirEntry>, FsError>)
        requires
            old(self).wf(),
            offset <= 0x7FFF_FFFF_FFFF_FFFF,
        ensures
            final(self).wf(),
            final(self).same_config(old(self)),
            final(self).contents() == old(self).contents(),
            final(self).next_ino() >= old(self).next_ino(),
            forall|q: Seq<u8>|
                #[trigger] old(self).paths().contains_key(q) ==> final(self).paths().contains_key(
                    q,
                ) && final(self).paths()[q] == old(self).paths()[q],
            r == Err::<Vec<DirEntry>, FsError>(FsError::NotFound) ==> final(self).paths() == old(
                self,
            ).paths() && final(self).next_ino() == old(self).next_ino(),
            match path_of_spec(old(self).paths(), ino) {
                None => r == Err::<Vec<DirEntry>, FsError>(FsError::NotFound),
                Some(p) => match r {
                    Ok(entries) => readdir_post(
                        old(self).contents(),
                        old(self).paths(),
                        final(self).paths(),
                        p,
                        ino,
                        offset,
                        entries@,
                    ),
                    Err(FsError::StorageUnavailable) => true,
                    Err(_) => false,
                },
            },
    {
        let p: Vec<u8> = if ino == ROOT_INO {
            Vec::new()
        } else {
            match self.inodes.path_of(ino) {
                Some(q) => q,
                None => {
                    proof {
                        self.inodes.lemma_path_of_spec_none(ino);
                    }
                    return Err(FsError::NotFound);
                },
            }
        };
        proof {
            if ino != ROOT_INO {
                self.inodes.lemma_path_of_spec(ino, p@);
            }
        }
        let mut pre: Vec<u8> = copy_bytes(&p);
        if p.len() > 0 {
            pre.push(SLASH);
        }
        proof {
            assert(pre@ =~= listing_prefix(p@));
        }
        let keys = match self.store.list(&pre) {
            Err(_) => {
                return Err(FsError::StorageUnavailable);
            },
            Ok(keys) => keys,
        };
        let children = direct_children(&keys, &pre);
        if children.len() as u64 > 0xFFFF_FFFF {
            return Err(FsError::StorageUnavailable);
        }
        let ghost m0 = self.store.contents();
        proof {
            assert forall|t: int| 0 <= t < children@.len() implies is_child_name(
                m0,
                p@,
                (#[trigger] children@[t])@,
            ) by {
                assert(name_from_keys(keys@, pre@, children@[t]@));
                let i = choose|i: int|
                    0 <= i < keys@.len() && pre@.is_prefix_of(#[trigger] keys@[i]@)
                        && keys@[i]@.len() > pre@.len() && children@[t]@ == first_component(
                        keys@[i]@.skip(pre@.len() as int),
                    );
                assert(m0.contains_key(keys@[i]@));
            }
            assert forall|nm: Seq<u8>| #[trigger] is_child_name(m0, p@, nm) implies exists|t: int|
                0 <= t < children@.len() && (#[trigger] children@[t])@ == nm by {
                let k = choose|k: Seq<u8>|
                    #[trigger] m0.contains_key(k) && listing_prefix(p@).is_prefix_of(k) && k.len()
                        > listing_prefix(p@).len() && nm == first_component(
                        k.skip(listing_prefix(p@).len() as int),
                    );
                assert(m0.contains_key(k) && pre@.is_prefix_of(k));
                let i = choose|i: int| 0 <= i < keys@.len() && (#[trigger] keys@[i])@ == k;
                assert(pre@.is_prefix_of(keys@[i]@) && keys@[i]@.len() > pre@.len());
                let t = choose|t: int|
                    0 <= t < children@.len() && (#[trigger] children@[t])@ == first_component(
                        keys@[i]@.skip(pre@.len() as int),
                    );
                assert(children@[t]@ == nm);
            }
        }
        let dd: u64 = if p.len() == 0 {
            ROOT_INO
        } else {
            self.inodes.parent_inode(&p)
        };
        proof {
            assert(dd == dotdot_ino(self.inodes.paths(), p@));
        }
        let mut entries: Vec<DirEntry> = Vec::new();
        if offset == 0 {
            let mut nm: Vec<u8> = Vec::new();
            nm.push(46);
            proof {
                assert(nm@ =~= seq![46u8]);
            }
            entries.push(DirEntry { ino, next_offset: 1, kind: FileKind::Directory, name: nm });
        }
        if offset <= 1 {
            let mut nm: Vec<u8> = Vec::new();
            nm.push(46);
            nm.push(46);
            proof {
                assert(nm@ =~= seq![46u8, 46u8]);
            }
            entries.push(
                DirEntry { ino: dd, next_offset: 2, kind: FileKind::Directory, name: nm },
            );
        }
        let mut chi: usize = 0;
        if offset > 2 {
            if offset - 2 >= children.len() as u64 {
                return Ok(entries);
            }
            chi = (offset - 2) as usize;
        }
        let ghost paths0 = self.inodes.paths();
        let ghost next0 = self.inodes.next();
        while chi < children.len()
            invariant
                chi <= children@.len(),
                chi as int + 2 == offset + entries@.len(),
                offset <= 2 ==> chi as int == entries@.len() + offset - 2,
                self.store == old(self).store,
                self.enc == old(self).enc,
                self.uid == old(self).uid,
                self.gid == old(self).gid,
                self.inodes.inv(),
                self.inodes.next() >= next0,
                forall|q: Seq<u8>|
                    #[trigger] paths0.contains_key(q) ==> self.inodes.paths().contains_key(q)
                        && self.inodes.paths()[q] == paths0[q],
                forall|idx: int|
                    0 <= idx < entries@.len() ==> (#[trigger] entries@[idx]).next_offset == offset
                        + idx + 1,
                offset == 0 ==> entries@.len() >= 2 && entries@[0].ino == ino && entries@[0].kind
                    == FileKind::Directory && entries@[0].name@ == seq![46u8] && entries@[1].ino
                    == dd && entries@[1].kind == FileKind::Directory && entries@[1].name@ == seq![
                    46u8,
                    46u8,
                ],
                offset == 1 ==> entries@.len() >= 1 && entries@[0].ino == dd && entries@[0].kind
                    == FileKind::Directory && entries@[0].name@ == seq![46u8, 46u8],
                forall|idx: int|
                    0 <= idx < entries@.len() && offset + idx >= 2 ==> (#[trigger] entries@[idx]).name@ == children@[offset + idx - 2]@,
                forall|idx: int|
                    0 <= idx < entries@.len() && offset + idx >= 2 ==> ((#[trigger] entries@[idx]).kind == FileKind::RegularFile <==> m0.contains_key(
                        listing_prefix(p@) + entries@[idx].name@,
                    )),
                forall|idx: int|
                    0 <= idx < entries@.len() && offset + idx >= 2
                        ==> self.inodes.paths().contains_key(
                        spec_join(p@, (#[trigger] entries@[idx]).name@),
                    ) && self.inodes.paths()[spec_join(p@, entries@[idx].name@)] == entries@[idx].ino,
            decreases children@.len() - chi,
        {
            let child_path = join_path(&p, &children[chi]);
            let cino = match self.inodes.resolve_or_assign(&child_path) {
                None => {
                    return Err(FsError::StorageUnavailable);
                },
                Some(x) => x,
            };
            let full = crate::path::concat_bytes(&pre, &children[chi]);
            let kind = if contains_bytes(&keys, &full) {
                proof {
                    let i = choose|i: int| 0 <= i < keys@.len() && (#[trigger] keys@[i])@ == full@;
                    assert(m0.contains_key(keys@[i]@));
                }
                FileKind::RegularFile
            } else {
                proof {
                    if m0.contains_key(full@) {
                        assert(pre@.is_prefix_of(full@)) by {
                            assert(full@.take(pre@.len() as int) =~= pre@);
                        }
                        let i = choose|i: int|
                            0 <= i < keys@.len() && (#[trigger] keys@[i])@ == full@;
                        assert(false);
                    }
                }
                FileKind::Directory
            };
            let name_copy = copy_bytes(&children[chi]);
            let no: u64 = offset + entries.len() as u64 + 1;
            let ghost entries0 = entries@;
            entries.push(DirEntry { ino: cino, next_offset: no, kind, name: name_copy });
            proof {
                assert(forall|idx: int|
                    0 <= idx < entries0.len() ==> entries@[idx] == entries0[idx]);
                assert(entries@[entries@.len() - 1].name@ == children@[chi as int]@);
                assert(offset + (entries@.len() - 1) == 2 + chi);
            }
            chi = chi + 1;
        }
        proof {
            assert(chi == children@.len());
            if offset <= 2 {
                assert forall|nm: Seq<u8>| #[trigger] is_child_name(m0, p@, nm) implies exists|
                    idx: int,
                |
                    0 <= idx < entries@.len() && (#[trigger] entries@[idx]).name@ == nm by {
                    let t = choose|t: int|
                        0 <= t < children@.len() && (#[trigger] children@[t])@ == nm;
                    let idx = t + 2 - offset;
                    assert(0 <= idx < entries@.len());
                    assert(entries@[idx].name@ == children@[offset + idx - 2]@);
                    assert(entries@[idx].name@ == nm);
                }
            }
            assert forall|idx: int|
                0 <= idx < entries@.len() && offset + idx >= 2 implies is_child_name(
                m0,
                p@,
                (#[trigger] entries@[idx]).name@,
            ) by {
                assert(entries@[idx].name@ == children@[offset + idx - 2]@);
            }
            assert forall|i1: int, i2: int|
                0 <= i1 < i2 < entries@.len() && offset + i1 >= 2 implies (#[trigger] entries@[i1]).name@ != (#[trigger] entries@[i2]).name@ by {
                assert(entries@[i1].name@ == children@[offset + i1 - 2]@);
                assert(entries@[i2].name@ == children@[offset + i2 - 2]@);
            }
        }
        Ok(entries)
    }
}

/// Creating a file and then writing `d` at offset 0 leaves a stored
/// blob that decrypts to exactly `d`, and reading `d.len()` bytes at
/// offset 0 out of that body returns exactly `d`: create, write, read
/// round-trips every payload.
pub proof fn lemma_create_write_read(key: Seq<u8>, d: Seq<u8>, blob0: Seq<u8>, blob1: Seq<u8>)
    requires
        envelope_of(key, Seq::empty(), blob0),
        envelope_of(key, spec_patch(Seq::empty(), 0, d), blob1),
    ensures
        decrypt_spec(key, blob0) == Ok::<Seq<u8>, CryptoError>(Seq::<u8>::empty()),
        spec_patch(Seq::empty(), 0, d) == d,
        decrypt_spec(key, blob1) == Ok::<Seq<u8>, CryptoError>(d),
        spec_read_slice(d, 0, d.len() as int) == d,
{
    assert(spec_patch(Seq::empty(), 0, d) =~= d);
    assert(spec_read_slice(d, 0, d.len() as int) =~= d);
}

/// Map a decryption failure to its kernel-visible error.
fn fs_error_of_crypto(ce: CryptoError) -> (r: FsError)
    ensures
        r == crypto_fs_error(ce),
{
    match ce {
        CryptoError::MalformedCiphertext => FsError::MalformedCiphertext,
        CryptoError::AuthenticationFailure => FsError::AuthenticationFailure,
    }
}

} // verus!
