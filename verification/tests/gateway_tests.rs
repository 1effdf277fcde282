use aegis_fs::crypto::Encryptor;
use aegis_fs::gateway::{errno_of, FileKind, FsError, Gateway};
use aegis_fs::inode::ROOT_INO;
use aegis_fs::memstore::MemStore;
use aegis_fs::storage::StorageBackend;

fn mount(store: MemStore, key: Vec<u8>) -> Gateway<MemStore> {
    Gateway::new(store, Encryptor::new(key), 1000, 1000)
}

fn key1() -> Vec<u8> {
    vec![7u8; 32]
}

fn all_keys(store: &MemStore) -> Vec<Vec<u8>> {
    let mut keys = store.list(&Vec::new()).unwrap();
    keys.sort();
    keys
}

#[test]
fn create_write_read_returns_the_payload() {
    let mut gw = mount(MemStore::new(), key1());
    let attr = gw.create(ROOT_INO, &b"f".to_vec()).unwrap();
    assert_eq!(attr.size, 0);
    assert_eq!(attr.kind, FileKind::RegularFile);
    let payload = b"some payload".to_vec();
    let n = gw.write(attr.ino, 0, &payload).unwrap();
    assert_eq!(n as usize, payload.len());
    let back = gw.read(attr.ino, 0, payload.len() as u32).unwrap();
    assert_eq!(back, payload);
}

#[test]
fn create_and_read_matches_bucket_layout() {
    let mut gw = mount(MemStore::new(), key1());
    let attr = gw.create(ROOT_INO, &b"greeting".to_vec()).unwrap();
    gw.write(attr.ino, 0, &b"hello".to_vec()).unwrap();
    let back = gw.read(attr.ino, 0, 100).unwrap();
    assert_eq!(back, b"hello".to_vec());
    let store = gw.into_store();
    let keys = all_keys(&store);
    assert_eq!(keys, vec![b"greeting".to_vec()]);
    let blob = store.get(&b"greeting".to_vec()).unwrap().unwrap();
    assert_eq!(blob.len(), 5 + 28);
}

#[test]
fn write_beyond_end_zero_extends() {
    let mut gw = mount(MemStore::new(), key1());
    let attr = gw.create(ROOT_INO, &b"f".to_vec()).unwrap();
    gw.write(attr.ino, 5, &b"XY".to_vec()).unwrap();
    let attr2 = gw.getattr(attr.ino).unwrap();
    assert_eq!(attr2.size, 7);
    let back = gw.read(attr.ino, 0, 100).unwrap();
    assert_eq!(back, b"\x00\x00\x00\x00\x00XY".to_vec());
}

#[test]
fn overwrite_in_the_middle_keeps_the_rest() {
    let mut gw = mount(MemStore::new(), key1());
    let attr = gw.create(ROOT_INO, &b"f".to_vec()).unwrap();
    gw.write(attr.ino, 0, &b"abcdefgh".to_vec()).unwrap();
    gw.write(attr.ino, 2, &b"XY".to_vec()).unwrap();
    let back = gw.read(attr.ino, 0, 100).unwrap();
    assert_eq!(back, b"abXYefgh".to_vec());
}

#[test]
fn read_honours_offset_and_size() {
    let mut gw = mount(MemStore::new(), key1());
    let attr = gw.create(ROOT_INO, &b"f".to_vec()).unwrap();
    gw.write(attr.ino, 0, &b"0123456789".to_vec()).unwrap();
    assert_eq!(gw.read(attr.ino, 2, 3).unwrap(), b"234".to_vec());
    assert_eq!(gw.read(attr.ino, 8, 10).unwrap(), b"89".to_vec());
    assert_eq!(gw.read(attr.ino, 10, 5).unwrap(), Vec::<u8>::new());
    assert_eq!(gw.read(attr.ino, 99, 5).unwrap(), Vec::<u8>::new());
}

#[test]
fn root_rejects_read_and_write() {
    let mut gw = mount(MemStore::new(), key1());
    assert_eq!(gw.read(ROOT_INO, 0, 1), Err(FsError::IsADirectory));
    assert_eq!(gw.write(ROOT_INO, 0, &b"x".to_vec()), Err(FsError::IsADirectory));
    assert_eq!(errno_of(FsError::IsADirectory), 21);
}

#[test]
fn unknown_inode_is_not_found() {
    let gw = mount(MemStore::new(), key1());
    assert_eq!(gw.read(999, 0, 1), Err(FsError::NotFound));
    assert_eq!(gw.getattr(999), Err(FsError::NotFound));
    assert_eq!(errno_of(FsError::NotFound), 2);
}

#[test]
fn directory_synthesis_from_raw_keys() {
    let mut store = MemStore::new();
    store.put(&b"a/b/c".to_vec(), &b"raw object".to_vec()).unwrap();
    let mut gw = mount(store, key1());

    let root_entries = gw.readdir(ROOT_INO, 0).unwrap();
    assert_eq!(root_entries.len(), 3);
    assert_eq!(root_entries[0].name, b".".to_vec());
    assert_eq!(root_entries[1].name, b"..".to_vec());
    assert_eq!(root_entries[2].name, b"a".to_vec());
    assert_eq!(root_entries[2].kind, FileKind::Directory);

    let a = gw.lookup(ROOT_INO, &b"a".to_vec()).unwrap();
    assert_eq!(a.kind, FileKind::Directory);
    assert_eq!(a.perm, 0o755);
    assert_eq!(gw.getattr(a.ino).unwrap().kind, FileKind::Directory);

    let a_entries = gw.readdir(a.ino, 0).unwrap();
    assert_eq!(a_entries[2].name, b"b".to_vec());
    assert_eq!(a_entries[2].kind, FileKind::Directory);

    let b = gw.lookup(a.ino, &b"b".to_vec()).unwrap();
    let b_entries = gw.readdir(b.ino, 0).unwrap();
    assert_eq!(b_entries[2].name, b"c".to_vec());
    assert_eq!(b_entries[2].kind, FileKind::RegularFile);
}

#[test]
fn readdir_offsets_emit_each_entry_once() {
    let mut gw = mount(MemStore::new(), key1());
    gw.create(ROOT_INO, &b"x".to_vec()).unwrap();
    gw.create(ROOT_INO, &b"y".to_vec()).unwrap();
    let all = gw.readdir(ROOT_INO, 0).unwrap();
    assert_eq!(all.len(), 4);
    let mut seen = Vec::new();
    let mut offset = 0u64;
    loop {
        let page = gw.readdir(ROOT_INO, offset).unwrap();
        if page.is_empty() {
            break;
        }
        seen.push(page[0].name.clone());
        offset = page[0].next_offset;
    }
    let mut names: Vec<Vec<u8>> = seen;
    names.sort();
    assert_eq!(
        names,
        vec![b".".to_vec(), b"..".to_vec(), b"x".to_vec(), b"y".to_vec()]
    );
}

#[test]
fn dotdot_points_at_the_parent() {
    let mut gw = mount(MemStore::new(), key1());
    let d = gw.mkdir(ROOT_INO, &b"d".to_vec()).unwrap();
    let e = gw.mkdir(d.ino, &b"e".to_vec()).unwrap();
    let entries = gw.readdir(e.ino, 0).unwrap();
    assert_eq!(entries[0].ino, e.ino);
    assert_eq!(entries[1].ino, d.ino);
    let root_entries = gw.readdir(d.ino, 0).unwrap();
    assert_eq!(root_entries[1].ino, ROOT_INO);
}

#[test]
fn mkdir_and_rmdir_manage_the_marker() {
    let mut gw = mount(MemStore::new(), key1());
    let d = gw.mkdir(ROOT_INO, &b"d".to_vec()).unwrap();
    assert_eq!(d.kind, FileKind::Directory);
    assert_eq!(d.nlink, 2);

    let mut gw = {
        let store = gw.into_store();
        assert_eq!(all_keys(&store), vec![b"d/.dir".to_vec()]);
        let blob = store.get(&b"d/.dir".to_vec()).unwrap().unwrap();
        assert_eq!(blob.len(), 28);
        mount(store, key1())
    };
    let d = gw.lookup(ROOT_INO, &b"d".to_vec()).unwrap();
    let x = gw.create(d.ino, &b"x".to_vec()).unwrap();
    assert_eq!(x.kind, FileKind::RegularFile);

    let mut gw = {
        let store = gw.into_store();
        assert_eq!(all_keys(&store), vec![b"d/.dir".to_vec(), b"d/x".to_vec()]);
        mount(store, key1())
    };
    let d = gw.lookup(ROOT_INO, &b"d".to_vec()).unwrap();
    assert_eq!(gw.rmdir(ROOT_INO, &b"d".to_vec()), Ok(true));
    assert_eq!(gw.getattr(d.ino), Err(FsError::NotFound));
    let store = gw.into_store();
    assert_eq!(all_keys(&store), Vec::<Vec<u8>>::new());
}

#[test]
fn unlink_removes_object_and_binding() {
    let mut gw = mount(MemStore::new(), key1());
    let f = gw.create(ROOT_INO, &b"f".to_vec()).unwrap();
    gw.unlink(ROOT_INO, &b"f".to_vec()).unwrap();
    assert_eq!(gw.read(f.ino, 0, 1), Err(FsError::NotFound));
    let store = gw.into_store();
    assert_eq!(all_keys(&store), Vec::<Vec<u8>>::new());
}

#[test]
fn unlink_of_missing_object_is_not_an_error() {
    let mut gw = mount(MemStore::new(), key1());
    assert_eq!(gw.unlink(ROOT_INO, &b"ghost".to_vec()), Ok(()));
}

#[test]
fn tampered_object_reads_as_io_error() {
    let mut gw = mount(MemStore::new(), key1());
    let f = gw.create(ROOT_INO, &b"greeting".to_vec()).unwrap();
    gw.write(f.ino, 0, &b"hello".to_vec()).unwrap();

    let mut store = gw.into_store();
    let mut blob = store.get(&b"greeting".to_vec()).unwrap().unwrap();
    blob[20] ^= 0x01;
    store.put(&b"greeting".to_vec(), &blob).unwrap();

    let mut gw = mount(store, key1());
    let f = gw.lookup(ROOT_INO, &b"greeting".to_vec());
    assert_eq!(f, Err(FsError::AuthenticationFailure));
    assert_eq!(errno_of(FsError::AuthenticationFailure), 5);
}

#[test]
fn wrong_key_fails_reads_but_still_lists_names() {
    let mut gw = mount(MemStore::new(), key1());
    let f = gw.create(ROOT_INO, &b"greeting".to_vec()).unwrap();
    gw.write(f.ino, 0, &b"hello".to_vec()).unwrap();

    let store = gw.into_store();
    let mut gw2 = mount(store, vec![9u8; 32]);
    let entries = gw2.readdir(ROOT_INO, 0).unwrap();
    assert_eq!(entries[2].name, b"greeting".to_vec());
    let f2 = entries[2].ino;
    assert_eq!(gw2.read(f2, 0, 100), Err(FsError::AuthenticationFailure));
}

#[test]
fn lookup_missing_name_is_not_found() {
    let mut gw = mount(MemStore::new(), key1());
    assert_eq!(gw.lookup(ROOT_INO, &b"nope".to_vec()), Err(FsError::NotFound));
}

#[test]
fn lookup_dots_under_root_return_root() {
    let mut gw = mount(MemStore::new(), key1());
    let a = gw.lookup(ROOT_INO, &b".".to_vec()).unwrap();
    assert_eq!(a.ino, ROOT_INO);
    assert_eq!(a.kind, FileKind::Directory);
    let b = gw.lookup(ROOT_INO, &b"..".to_vec()).unwrap();
    assert_eq!(b.ino, ROOT_INO);
}

#[test]
fn a_path_that_is_file_and_prefix_reads_as_a_file() {
    let mut gw = mount(MemStore::new(), key1());
    let x = gw.create(ROOT_INO, &b"x".to_vec()).unwrap();
    gw.write(x.ino, 0, &b"body".to_vec()).unwrap();
    let mut store = gw.into_store();
    store.put(&b"x/y".to_vec(), &b"raw".to_vec()).unwrap();
    let mut gw = mount(store, key1());
    let looked = gw.lookup(ROOT_INO, &b"x".to_vec()).unwrap();
    assert_eq!(looked.kind, FileKind::RegularFile);
    assert_eq!(looked.size, 4);
    let entries = gw.readdir(ROOT_INO, 0).unwrap();
    assert_eq!(entries[2].name, b"x".to_vec());
    assert_eq!(entries[2].kind, FileKind::RegularFile);
}

#[test]
fn lookup_reports_the_decrypted_size() {
    let mut gw = mount(MemStore::new(), key1());
    let f = gw.create(ROOT_INO, &b"f".to_vec()).unwrap();
    gw.write(f.ino, 0, &b"twelve bytes".to_vec()).unwrap();
    let looked = gw.lookup(ROOT_INO, &b"f".to_vec()).unwrap();
    assert_eq!(looked.size, 12);
    assert_eq!(looked.ino, f.ino);
}

#[test]
fn readdir_of_unknown_inode_is_not_found() {
    let mut gw = mount(MemStore::new(), key1());
    assert!(matches!(gw.readdir(424242, 0), Err(FsError::NotFound)));
}

#[test]
fn store_probe_matches_contents() {
    let mut store = MemStore::new();
    assert_eq!(store.key_exists(&b"a".to_vec()).unwrap(), false);
    store.put(&b"a".to_vec(), &b"1".to_vec()).unwrap();
    assert_eq!(store.key_exists(&b"a".to_vec()).unwrap(), true);
    store.delete(&b"a".to_vec()).unwrap();
    assert_eq!(store.key_exists(&b"a".to_vec()).unwrap(), false);
    store.delete(&b"a".to_vec()).unwrap();
}

#[test]
fn file_attr_reports_size_and_blocks() {
    let mut gw = mount(MemStore::new(), key1());
    let f = gw.create(ROOT_INO, &b"f".to_vec()).unwrap();
    assert_eq!(f.perm, 0o644);
    assert_eq!(f.nlink, 1);
    assert_eq!(f.uid, 1000);
    assert_eq!(f.gid, 1000);
    let data = vec![0u8; 5000];
    gw.write(f.ino, 0, &data).unwrap();
    let a = gw.getattr(f.ino).unwrap();
    assert_eq!(a.size, 5000);
    assert_eq!(a.blocks, 2);
}
