//! Server profiles and the store that holds them: which engine a profile reaches (a remote
//! `katago gtp` over SSH, or the engine on this device), its SSH settings and key, and which
//! profile is active.
use vstd::prelude::*;
use crate::error::AppError;
use crate::text::push_str;

verus! {

/// Whether a profile runs the engine over SSH or on this device. With `Local`, the SSH
/// fields mean nothing and are stored empty.
#[derive(Debug, Clone, Copy, PartialEq, Eq, Structural)]
pub enum ProfileKind {
    Ssh,
    Local,
}

impl Default for ProfileKind {
    fn default() -> (r: ProfileKind)
        ensures
            r == ProfileKind::Ssh,
    {
        ProfileKind::Ssh
    }
}

/// A stored server profile, private key text included (it never leaves the store; see
/// [`ServerProfileInfo`]).
#[derive(Debug, Clone)]
pub struct ServerProfile {
    pub id: String,
    pub name: String,
    pub kind: ProfileKind,
    pub host: String,
    pub port: u16,
    pub username: String,
    /// The SSH private key text.
    pub private_key: String,
    pub has_passphrase: bool,
    /// The command that starts the GTP engine on the server (`katago gtp` by default).
    pub engine_command: String,
    /// The host key fingerprint trusted on first connection, if any.
    pub host_key_fingerprint: Option<String>,
}

/// The text of an optional string.
pub open spec fn opt_view(o: Option<String>) -> Option<Seq<char>> {
    match o {
        Some(s) => Some(s@),
        None => None,
    }
}

/// What a profile holds, as texts.
pub struct ProfileModel {
    pub id: Seq<char>,
    pub name: Seq<char>,
    pub kind: ProfileKind,
    pub host: Seq<char>,
    pub port: u16,
    pub username: Seq<char>,
    pub private_key: Seq<char>,
    pub has_passphrase: bool,
    pub engine_command: Seq<char>,
    pub host_key_fingerprint: Option<Seq<char>>,
}

impl View for ServerProfile {
    type V = ProfileModel;

    open spec fn view(&self) -> ProfileModel {
        ProfileModel {
            id: self.id@,
            name: self.name@,
            kind: self.kind,
            host: self.host@,
            port: self.port,
            username: self.username@,
            private_key: self.private_key@,
            has_passphrase: self.has_passphrase,
            engine_command: self.engine_command@,
            host_key_fingerprint: opt_view(self.host_key_fingerprint),
        }
    }
}

/// A copy of an optional string.
fn copy_opt(o: &Option<String>) -> (r: Option<String>)
    ensures
        opt_view(r) == opt_view(*o),
{
    match o {
        Some(s) => Some(s.clone()),
        None => None,
    }
}

impl ServerProfile {
    /// A copy of this profile.
    pub fn copy(&self) -> (r: ServerProfile)
        ensures
            r@ == self@,
    {
        ServerProfile {
            id: self.id.clone(),
            name: self.name.clone(),
            kind: self.kind,
            host: self.host.clone(),
            port: self.port,
            username: self.username.clone(),
            private_key: self.private_key.clone(),
            has_passphrase: self.has_passphrase,
            engine_command: self.engine_command.clone(),
            host_key_fingerprint: copy_opt(&self.host_key_fingerprint),
        }
    }
}

/// The engine command a profile gets when none is given.
pub open spec fn default_engine_command_text() -> Seq<char> {
    "katago gtp"@
}

/// The engine command a profile gets when none is given: `katago gtp`.
pub fn default_engine_command() -> (r: String)
    ensures
        r@ == default_engine_command_text(),
{
    "katago gtp".to_owned()
}

/// What the profile form sends: with no `id` a new profile is made, otherwise the profile
/// with that id is replaced.
pub struct SaveProfileInput {
    pub id: Option<String>,
    pub name: String,
    pub kind: ProfileKind,
    pub host: String,
    pub port: u16,
    pub username: String,
    /// Empty when editing a profile means: keep the stored key.
    pub private_key: String,
    pub engine_command: String,
}

/// What a save request holds, as texts.
pub struct InputModel {
    pub id: Option<Seq<char>>,
    pub name: Seq<char>,
    pub kind: ProfileKind,
    pub host: Seq<char>,
    pub port: u16,
    pub username: Seq<char>,
    pub private_key: Seq<char>,
    pub engine_command: Seq<char>,
}

impl View for SaveProfileInput {
    type V = InputModel;

    open spec fn view(&self) -> InputModel {
        InputModel {
            id: opt_view(self.id),
            name: self.name@,
            kind: self.kind,
            host: self.host@,
            port: self.port,
            username: self.username@,
            private_key: self.private_key@,
            engine_command: self.engine_command@,
        }
    }
}

/// The summary of a profile that is safe to show: no key text.
pub struct ServerProfileInfo {
    pub id: String,
    pub name: String,
    pub kind: ProfileKind,
    pub host: String,
    pub port: u16,
    pub username: String,
    pub engine_command: String,
    pub has_passphrase: bool,
}

impl<'a> From<&'a ServerProfile> for ServerProfileInfo {
    fn from(p: &'a ServerProfile) -> (r: ServerProfileInfo) {
        ServerProfileInfo {
            id: p.id.clone(),
            name: p.name.clone(),
            kind: p.kind,
            host: p.host.clone(),
            port: p.port,
            username: p.username.clone(),
            engine_command: p.engine_command.clone(),
            has_passphrase: p.has_passphrase,
        }
    }
}

impl<'a> vstd::std_specs::convert::FromSpecImpl<&'a ServerProfile> for ServerProfileInfo {
    open spec fn obeys_from_spec() -> bool {
        true
    }

    open spec fn from_spec(p: &'a ServerProfile) -> ServerProfileInfo {
        ServerProfileInfo {
            id: p.id,
            name: p.name,
            kind: p.kind,
            host: p.host,
            port: p.port,
            username: p.username,
            engine_command: p.engine_command,
            has_passphrase: p.has_passphrase,
        }
    }
}

/// What `russh_keys::decode_secret_key` makes of a key text given no passphrase.
#[derive(Debug, Clone, Copy, PartialEq, Eq, Structural)]
pub enum KeyDecoding {
    /// The key was read.
    Decoded,
    /// The key is encrypted: it needs a passphrase.
    Encrypted,
    /// The text could not be read as a key.
    Failed,
}

/// The outcome of `russh_keys::decode_secret_key(key, None)` on the key text `key`.
pub uninterp spec fn secret_key_decoding(key: Seq<char>) -> KeyDecoding;

/// The key pair of a decoded SSH private key.
#[verifier::external_type_specification]
#[verifier::external_body]
pub struct ExKeyPair(russh_keys::key::KeyPair);

/// Why a key text could not be decoded: encrypted or unreadable, with the decoder's own
/// description of the error.
pub struct KeyDecodeError {
    pub kind: KeyDecoding,
    pub message: String,
}

/// Calls `russh_keys::decode_secret_key(key, None)`: `Ok` gives the key pair; an error is
/// told apart (`KeyIsEncrypted` is `Encrypted`, any other `Failed`) and carries the error's
/// `Display` text. The contract claims that which outcome comes is a function of the key
/// text (the decoding involves no passphrase, randomness or state); the error text is not
/// described.
#[verifier::external_body]
fn decode_secret_key_checked(key: &str) -> (r: Result<russh_keys::key::KeyPair, KeyDecodeError>)
    ensures
        match r {
            Ok(_) => secret_key_decoding(key@) == KeyDecoding::Decoded,
            Err(e) => e.kind == secret_key_decoding(key@) && e.kind != KeyDecoding::Decoded,
        },
{
    match russh_keys::decode_secret_key(key, None) {
        Ok(pair) => Ok(pair),
        Err(e @ russh_keys::Error::KeyIsEncrypted) => Err(
            KeyDecodeError { kind: KeyDecoding::Encrypted, message: e.to_string() },
        ),
        Err(e) => Err(KeyDecodeError { kind: KeyDecoding::Failed, message: e.to_string() }),
    }
}

/// Whether the key text needs a passphrase: decoding it without one reports that it is
/// encrypted.
pub fn detect_passphrase(private_key: &str) -> (r: bool)
    ensures
        r == (secret_key_decoding(private_key@) == KeyDecoding::Encrypted),
{
    match decode_secret_key_checked(private_key) {
        Ok(_) => false,
        Err(e) => match e.kind {
            KeyDecoding::Encrypted => true,
            _ => false,
        },
    }
}

/// The start of the message when a login key cannot be decoded.
pub open spec fn key_decode_failure_prefix() -> Seq<char> {
    "SSH key 디코딩 실패: "@
}

/// Decodes the login key of a profile before any connection is made: the key pair when the
/// text decodes without a passphrase, otherwise `SshAuthFailed` with a message that starts
/// with `SSH key 디코딩 실패: ` followed by the decoder's description.
pub fn decode_login_key(private_key: &str) -> (r: Result<russh_keys::key::KeyPair, AppError>)
    ensures
        r is Ok <==> secret_key_decoding(private_key@) == KeyDecoding::Decoded,
        r matches Err(e) ==> (e matches AppError::SshAuthFailed(m) && m@.len() >= key_decode_failure_prefix().len()
            && m@.subrange(0, key_decode_failure_prefix().len() as int) == key_decode_failure_prefix()),
{
    match decode_secret_key_checked(private_key) {
        Ok(pair) => Ok(pair),
        Err(e) => {
            let mut m = String::new();
            push_str(&mut m, "SSH key 디코딩 실패: ");
            let ghost head = m@;
            push_str(&mut m, e.message.as_str());
            assert(m@.subrange(0, head.len() as int) =~= head);
            Err(AppError::SshAuthFailed(m))
        },
    }
}

/// `c` is a lower-case hexadecimal digit.
pub open spec fn is_lower_hex(c: char) -> bool {
    ('0' <= c && c <= '9') || ('a' <= c && c <= 'f')
}

/// `s` is the hyphenated lower-case text of a version 4 UUID: 36 characters, `-` at
/// positions 8, 13, 18 and 23, the version digit `4` at 14, a variant digit `8`, `9`, `a`
/// or `b` at 19, and hexadecimal digits everywhere else.
pub open spec fn uuid_v4_text(s: Seq<char>) -> bool {
    &&& s.len() == 36
    &&& forall|i: int|
        0 <= i < 36 ==> if i == 8 || i == 13 || i == 18 || i == 23 {
            #[trigger] s[i] == '-'
        } else if i == 14 {
            s[i] == '4'
        } else if i == 19 {
            s[i] == '8' || s[i] == '9' || s[i] == 'a' || s[i] == 'b'
        } else {
            is_lower_hex(s[i])
        }
}

/// A fresh profile id: `uuid::Uuid::new_v4` printed by its `Display` (hyphenated, lower
/// case). The contract claims the shape of the text only: `new_v4` sets the version and
/// variant bits and takes the other bits from the system's random source, so that two ids
/// differ rests on chance and is not stated.
#[verifier::external_body]
pub(crate) fn new_profile_id() -> (r: String)
    ensures
        uuid_v4_text(r@),
{
    uuid::Uuid::new_v4().to_string()
}

} // verus!
