//! The node identity that the dissector decrypts with, and the configuration
//! that holds it.
use hex::FromHexError;
use vstd::prelude::*;
use vstd::string::StringExecFns;

verus! {

#[verifier::external_type_specification]
#[verifier::external_body]
pub struct ExFromHexError(FromHexError);

/// Node identity information.
#[derive(Clone, Debug, PartialEq, Eq)]
pub struct Identity {
    pub peer_id: String,
    pub public_key: String,
    pub secret_key: String,
    pub proof_of_work_stamp: String,
}

impl Identity {
    /// A copy with the same texts.
    pub fn copy(&self) -> (r: Identity)
        ensures
            r == *self,
    {
        Identity {
            peer_id: self.peer_id.clone(),
            public_key: self.public_key.clone(),
            secret_key: self.secret_key.clone(),
            proof_of_work_stamp: self.proof_of_work_stamp.clone(),
        }
    }
}

/// Why no identity could be had.
#[derive(Clone, Debug, PartialEq, Eq)]
pub enum IdentityError {
    /// No identity file was configured.
    NotLoaded,
    /// The identity file could not be read.
    Unreadable(String),
    /// The identity file is not a valid identity document.
    Malformed(String),
    /// The public key is not an even number of hexadecimal digits.
    BadPublicKey,
}

/// The dissector configuration: where the identity was read from, and the
/// identity itself.
#[derive(Clone, Debug, PartialEq, Eq)]
pub struct Config {
    pub identity_json_filepath: String,
    pub identity: Identity,
}

/// The identity file read when no other is configured.
pub open spec fn default_identity_filepath() -> Seq<char> {
    seq!['i', 'd', 'e', 'n', 't', 'i', 't', 'y', '/', 'i', 'd', 'e', 'n', 't', 'i', 't', 'y', '.', 'j', 's', 'o', 'n']
}

impl Config {
    /// The configuration for the default identity file, given the result of
    /// loading that file.
    pub fn default(loaded: Result<Identity, IdentityError>) -> (r: Result<Config, IdentityError>)
        ensures
            loaded matches Ok(id) ==> r matches Ok(c) && c.identity == id && c.identity_json_filepath@ == default_identity_filepath(),
            loaded matches Err(e) ==> r == Err::<Config, IdentityError>(e),
    {
        match loaded {
            Ok(identity) => {
                let path = String::from_str("identity/identity.json");
                proof {
                    reveal_strlit("identity/identity.json");
                }
                Ok(Config { identity_json_filepath: path, identity })
            },
            Err(e) => Err(e),
        }
    }

    /// A copy with the same texts.
    pub fn copy(&self) -> (r: Config)
        ensures
            r == *self,
    {
        Config { identity_json_filepath: self.identity_json_filepath.clone(), identity: self.identity.copy() }
    }
}

/// The configuration in force: initially none is loaded.
pub struct ConfigStore {
    pub current: Result<Config, IdentityError>,
}

impl ConfigStore {
    /// No configuration loaded yet.
    pub fn new() -> (r: ConfigStore)
        ensures
            r.current == Err::<Config, IdentityError>(IdentityError::NotLoaded),
    {
        ConfigStore { current: Err(IdentityError::NotLoaded) }
    }

    /// Called when the preferences change: `loaded` is the configured path
    /// with the result of loading the identity from it, or `None` when no
    /// path is configured.  A failed load leaves no configuration in force.
    pub fn preferences_update(&mut self, loaded: Option<(String, Result<Identity, IdentityError>)>)
        ensures
            loaded matches Some((path, Ok(id))) ==> final(self).current == Ok::<Config, IdentityError>(
                Config { identity_json_filepath: path, identity: id },
            ),
            loaded matches Some((_, Err(e))) ==> final(self).current == Err::<Config, IdentityError>(e),
            loaded is None ==> final(self).current == Err::<Config, IdentityError>(IdentityError::NotLoaded),
    {
        self.current = match loaded {
            Some((path, Ok(identity))) => Ok(Config { identity_json_filepath: path, identity }),
            Some((_, Err(e))) => Err(e),
            None => Err(IdentityError::NotLoaded),
        };
    }

    /// The configuration in force, if any.
    pub fn get_configuration(&self) -> (r: Option<Config>)
        ensures
            r == match self.current {
                Ok(c) => Some(c),
                Err(_) => None::<Config>,
            },
    {
        match &self.current {
            Ok(c) => Some(c.copy()),
            Err(_) => None,
        }
    }

    /// Runs `f` on the configuration in force (or on the reason why there
    /// is none).
    pub fn with_configuration<F, R>(&self, f: F) -> (r: R)
        where
            F: FnOnce(&Result<Config, IdentityError>) -> R,
        requires
            f.requires((&self.current,)),
        ensures
            f.ensures((&self.current,), r),
    {
        f(&self.current)
    }
}

// ---------------------------------------------------------------------------
// Public key
// ---------------------------------------------------------------------------

/// `c` is a hexadecimal digit (either case).
pub open spec fn is_hex_digit(c: char) -> bool {
    ('0' <= c <= '9') || ('a' <= c <= 'f') || ('A' <= c <= 'F')
}

/// The value of the hexadecimal digit `c`.
pub open spec fn hex_value(c: char) -> int {
    if '0' <= c <= '9' {
        c as int - '0' as int
    } else if 'a' <= c <= 'f' {
        c as int - 'a' as int + 10
    } else {
        c as int - 'A' as int + 10
    }
}

/// `s` is an even number of hexadecimal digits.
pub open spec fn is_hex_text(s: Seq<char>) -> bool {
    &&& s.len() % 2 == 0
    &&& forall|i: int| 0 <= i < s.len() ==> is_hex_digit(#[trigger] s[i])
}

/// The bytes written in hexadecimal by `s`, two digits each.
pub open spec fn hex_bytes(s: Seq<char>) -> Seq<u8> {
    Seq::new(s.len() / 2, |i: int| (hex_value(s[2 * i]) * 16 + hex_value(s[2 * i + 1])) as u8)
}

/// `hex::decode`.  The contract claims what the source does: an odd number
/// of bytes, or any byte that is not a hexadecimal digit, is an error;
/// otherwise each pair of digits becomes one byte, high digit first.
#[verifier::external_body]
fn hex_decode(s: &str) -> (r: Result<Vec<u8>, FromHexError>)
    ensures
        r is Ok <==> is_hex_text(s@),
        r matches Ok(v) ==> v@ == hex_bytes(s@),
{
    hex::decode(s)
}

/// The bytes of the public key of `identity`, written in hexadecimal there.
pub fn decode_public_key(identity: &Identity) -> (r: Result<Vec<u8>, IdentityError>)
    ensures
        r is Ok <==> is_hex_text(identity.public_key@),
        r matches Ok(v) ==> v@ == hex_bytes(identity.public_key@),
        r is Err ==> r == Err::<Vec<u8>, IdentityError>(IdentityError::BadPublicKey),
{
    match hex_decode(identity.public_key.as_str()) {
        Ok(v) => Ok(v),
        Err(_) => Err(IdentityError::BadPublicKey),
    }
}

} // verus!
