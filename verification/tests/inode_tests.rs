use aegis_fs::inode::{InodeTable, ROOT_INO};

#[test]
fn fresh_table_knows_only_the_root() {
    let t = InodeTable::new();
    assert_eq!(t.path_of(ROOT_INO).unwrap(), Vec::<u8>::new());
    assert_eq!(t.path_of(2), None);
}

#[test]
fn resolve_assigns_monotonically_from_2() {
    let mut t = InodeTable::new();
    let a = t.resolve_or_assign(&b"a".to_vec()).unwrap();
    let b = t.resolve_or_assign(&b"b".to_vec()).unwrap();
    assert_eq!(a, 2);
    assert_eq!(b, 3);
}

#[test]
fn resolve_twice_returns_the_same_inode() {
    let mut t = InodeTable::new();
    let first = t.resolve_or_assign(&b"docs/readme".to_vec()).unwrap();
    let second = t.resolve_or_assign(&b"docs/readme".to_vec()).unwrap();
    assert_eq!(first, second);
}

#[test]
fn maps_stay_inverse_under_resolve_and_forget() {
    let mut t = InodeTable::new();
    let paths: Vec<Vec<u8>> = vec![
        b"a".to_vec(),
        b"a/b".to_vec(),
        b"c".to_vec(),
        b"d/e/f".to_vec(),
    ];
    let mut inos = Vec::new();
    for p in &paths {
        inos.push(t.resolve_or_assign(p).unwrap());
    }
    for (p, ino) in paths.iter().zip(inos.iter()) {
        assert_eq!(t.path_of(*ino).unwrap(), *p);
    }
    t.forget(&b"a/b".to_vec());
    assert_eq!(t.path_of(inos[1]), None);
    assert_eq!(t.path_of(inos[0]).unwrap(), b"a".to_vec());
    assert_eq!(t.path_of(inos[2]).unwrap(), b"c".to_vec());
}

#[test]
fn forgotten_inode_is_never_reissued() {
    let mut t = InodeTable::new();
    let a = t.resolve_or_assign(&b"a".to_vec()).unwrap();
    t.forget(&b"a".to_vec());
    let a2 = t.resolve_or_assign(&b"a".to_vec()).unwrap();
    assert_ne!(a, a2);
    assert!(a2 > a);
}

#[test]
fn forget_of_unknown_path_changes_nothing() {
    let mut t = InodeTable::new();
    let a = t.resolve_or_assign(&b"a".to_vec()).unwrap();
    t.forget(&b"missing".to_vec());
    assert_eq!(t.resolve_or_assign(&b"a".to_vec()).unwrap(), a);
}

#[test]
fn parent_inode_follows_the_longest_prefix() {
    let mut t = InodeTable::new();
    let a = t.resolve_or_assign(&b"a".to_vec()).unwrap();
    let _ab = t.resolve_or_assign(&b"a/b".to_vec()).unwrap();
    assert_eq!(t.parent_inode(&b"a/b".to_vec()), a);
    assert_eq!(t.parent_inode(&b"a".to_vec()), ROOT_INO);
    assert_eq!(t.parent_inode(&b"unknown/child".to_vec()), ROOT_INO);
}
