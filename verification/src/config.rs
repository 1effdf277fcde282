//! The configuration surface: the options a mount recognises, and the
//! rules the core imposes on them.

use vstd::prelude::*;

use crate::path::bytes_eq;

verus! {

/// The whole configuration file.
#[derive(Debug, Clone)]
pub struct Config {
    pub s3: S3Config,
    pub encryption: EncryptionConfig,
    pub cache: Option<CacheConfig>,
}

/// The backend bucket, region and credentials.
#[derive(Debug, Clone)]
pub struct S3Config {
    pub bucket: String,
    pub region: String,
    pub endpoint: Option<String>,
    pub access_key_id: Option<String>,
    pub secret_access_key: Option<String>,
    pub prefix: Option<String>,
}

/// Where the key lives and which cipher seals the envelopes.
#[derive(Debug, Clone)]
pub struct EncryptionConfig {
    pub key_file: String,
    pub algorithm: Option<String>,
}

/// Reserved for an external cache collaborator; the core ignores it.
#[derive(Debug, Clone)]
pub struct CacheConfig {
    pub directory: String,
    pub max_size_mb: Option<u64>,
}

/// The name of the one cipher a mount accepts, as bytes.
pub open spec fn supported_algorithm_name() -> Seq<u8> {
    seq![97u8, 101u8, 115u8, 50u8, 53u8, 54u8, 45u8, 103u8, 99u8, 109u8]
}

/// Whether a configured `algorithm` value is one this build can honour:
/// only `aes256-gcm`.  An unknown value must fail the mount rather than
/// be silently ignored.
pub fn algorithm_supported(name: &Vec<u8>) -> (r: bool)
    ensures
        r <==> name@ == supported_algorithm_name(),
{
    let mut expected: Vec<u8> = Vec::new();
    expected.push(97);
    expected.push(101);
    expected.push(115);
    expected.push(50);
    expected.push(53);
    expected.push(54);
    expected.push(45);
    expected.push(103);
    expected.push(99);
    expected.push(109);
    proof {
        assert(expected@ =~= supported_algorithm_name());
    }
    bytes_eq(name, &expected)
}

impl Config {
    /// The template configuration file handed to new users.
    pub fn default_config() -> (r: String)
        ensures
            r@ == default_config_text(),
    {
        let text = "
[s3]
bucket = \"my-bucket\"
region = \"us-east-1\"
# endpoint = \"https://s3.amazonaws.com\"  # Optional custom endpoint
# access_key_id = \"your-access-key\"      # Optional, uses AWS credentials chain if not set
# secret_access_key = \"your-secret-key\"  # Optional, uses AWS credentials chain if not set
prefix = \"\"  # Optional prefix for all objects

[encryption]
key_file = \"aegis-fs.key\"
algorithm = \"aes256-gcm\"  # aes256-gcm or chacha20-poly1305

[cache]
directory = \"/tmp/aegis-fs-cache\"
max_size_mb = 1024
";
        text.to_owned()
    }
}

/// The text of the template configuration file.
pub open spec fn default_config_text() -> Seq<char> {
    "
[s3]
bucket = \"my-bucket\"
region = \"us-east-1\"
# endpoint = \"https://s3.amazonaws.com\"  # Optional custom endpoint
# access_key_id = \"your-access-key\"      # Optional, uses AWS credentials chain if not set
# secret_access_key = \"your-secret-key\"  # Optional, uses AWS credentials chain if not set
prefix = \"\"  # Optional prefix for all objects

[encryption]
key_file = \"aegis-fs.key\"
algorithm = \"aes256-gcm\"  # aes256-gcm or chacha20-poly1305

[cache]
directory = \"/tmp/aegis-fs-cache\"
max_size_mb = 1024
"@
}

} // verus!
