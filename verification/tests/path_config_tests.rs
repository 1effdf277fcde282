use aegis_fs::config::{algorithm_supported, Config};
use aegis_fs::path::{bytes_lt, join_path, object_key, split_parent, starts_with};

#[test]
fn object_key_prepends_prefix_and_trims_slashes() {
    assert_eq!(
        object_key(&b"pre/".to_vec(), &b"/a/b".to_vec()),
        b"pre/a/b".to_vec()
    );
    assert_eq!(object_key(&Vec::new(), &b"a".to_vec()), b"a".to_vec());
    assert_eq!(object_key(&b"p".to_vec(), &b"///x".to_vec()), b"px".to_vec());
    assert_eq!(object_key(&b"p/".to_vec(), &Vec::new()), b"p/".to_vec());
}

#[test]
fn join_path_handles_the_root() {
    assert_eq!(join_path(&Vec::new(), &b"a".to_vec()), b"a".to_vec());
    assert_eq!(join_path(&b"a".to_vec(), &b"b".to_vec()), b"a/b".to_vec());
    assert_eq!(
        join_path(&b"a/b".to_vec(), &b"c".to_vec()),
        b"a/b/c".to_vec()
    );
}

#[test]
fn split_parent_takes_the_longest_prefix() {
    assert_eq!(split_parent(&b"a/b/c".to_vec()).unwrap(), b"a/b".to_vec());
    assert_eq!(split_parent(&b"a/b".to_vec()).unwrap(), b"a".to_vec());
    assert_eq!(split_parent(&b"a".to_vec()), None);
    assert_eq!(split_parent(&Vec::new()), None);
}

#[test]
fn starts_with_is_a_prefix_test() {
    assert!(starts_with(&b"abc".to_vec(), &b"ab".to_vec()));
    assert!(starts_with(&b"abc".to_vec(), &Vec::new()));
    assert!(!starts_with(&b"ab".to_vec(), &b"abc".to_vec()));
    assert!(!starts_with(&b"abc".to_vec(), &b"ac".to_vec()));
}

#[test]
fn byte_order_is_lexicographic() {
    assert!(bytes_lt(&b"a".to_vec(), &b"b".to_vec()));
    assert!(bytes_lt(&b"a".to_vec(), &b"ab".to_vec()));
    assert!(!bytes_lt(&b"ab".to_vec(), &b"a".to_vec()));
    assert!(!bytes_lt(&b"a".to_vec(), &b"a".to_vec()));
    assert!(bytes_lt(&Vec::new(), &b"a".to_vec()));
    assert!(!bytes_lt(&Vec::new(), &Vec::new()));
    assert!(bytes_lt(&b"abc".to_vec(), &b"abd".to_vec()));
}

#[test]
fn only_aes256_gcm_is_supported() {
    assert!(algorithm_supported(&b"aes256-gcm".to_vec()));
    assert!(!algorithm_supported(&b"chacha20-poly1305".to_vec()));
    assert!(!algorithm_supported(&b"".to_vec()));
    assert!(!algorithm_supported(&b"AES256-GCM".to_vec()));
}

#[test]
fn default_config_names_the_required_options() {
    let text = Config::default_config();
    assert!(text.contains("[s3]"));
    assert!(text.contains("bucket = \"my-bucket\""));
    assert!(text.contains("[encryption]"));
    assert!(text.contains("key_file = \"aegis-fs.key\""));
    assert!(text.contains("algorithm = \"aes256-gcm\""));
}

#[test]
fn default_config_parses_as_toml() {
    let text = Config::default_config();
    let value: toml::Value = toml::from_str(&text).unwrap();
    assert_eq!(
        value["s3"]["region"].as_str().unwrap(),
        "us-east-1"
    );
    assert_eq!(value["cache"]["max_size_mb"].as_integer().unwrap(), 1024);
}
