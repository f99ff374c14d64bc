//! Who one is: an ed25519 key, and what is signed with it.
//!
//! The key is held as its 32-byte seed. On disk it is an OpenSSH key file, with the
//! public key beside it.

use crate::crypto::{ed25519_accepts, ed25519_verify};
use crate::format::{lemma_raw_text_back, raw_text, text_from};
use crate::store::{file_at, join, join_path, with_file, Disk, DiskModel};
use crate::text::{begins_with, decimal, push_decimal, push_text};
use crate::value::Value;
use ed25519_dalek::{Signer, SigningKey, VerifyingKey};
use rand::rngs::OsRng;
use ssh_key::{LineEnding, PrivateKey, PublicKey};
use vstd::prelude::*;
use vstd::utf8::encode_utf8;

verus! {

/// The version of an envelope.
pub const ENVELOPE_VERSION: u8 = 0x01;

/// What stands before the content of an envelope: the version, the public key and
/// the signature.
pub const ENVELOPE_HEADER: usize = 97;

/// What can go wrong with keys and envelopes.
#[derive(Debug)]
pub enum IdentityError {
    Io(String),
    Format(String),
    BadSignature,
    NoKeypair,
    EnvelopeTooShort,
    UnknownVersion(u8),
}

/// The model of an [`IdentityError`].
pub enum IdentityErrorModel {
    Io(Seq<char>),
    Format(Seq<char>),
    BadSignature,
    NoKeypair,
    EnvelopeTooShort,
    UnknownVersion(u8),
}

impl DeepView for IdentityError {
    type V = IdentityErrorModel;

    open spec fn deep_view(&self) -> IdentityErrorModel {
        match self {
            IdentityError::Io(t) => IdentityErrorModel::Io(t@),
            IdentityError::Format(t) => IdentityErrorModel::Format(t@),
            IdentityError::BadSignature => IdentityErrorModel::BadSignature,
            IdentityError::NoKeypair => IdentityErrorModel::NoKeypair,
            IdentityError::EnvelopeTooShort => IdentityErrorModel::EnvelopeTooShort,
            IdentityError::UnknownVersion(v) => IdentityErrorModel::UnknownVersion(*v),
        }
    }
}

/// An error in words.
pub open spec fn identity_error_text(e: IdentityErrorModel) -> Seq<char> {
    match e {
        IdentityErrorModel::Io(t) => "io error: "@ + t,
        IdentityErrorModel::Format(t) => "key format error: "@ + t,
        IdentityErrorModel::BadSignature => "signature verification failed"@,
        IdentityErrorModel::NoKeypair => "no identity keypair found — run `loot keygen` to generate one"@,
        IdentityErrorModel::EnvelopeTooShort => "envelope too short: need at least 97 bytes"@,
        IdentityErrorModel::UnknownVersion(v) => "envelope version "@ + decimal(v as nat) + " not supported"@,
    }
}

impl IdentityError {
    /// The error in words.
    pub fn text(&self) -> (r: String)
        ensures
            r@ == identity_error_text(self.deep_view()),
    {
        match self {
            IdentityError::Io(t) => {
                let mut s = "io error: ".to_owned();
                push_text(&mut s, t.as_str());
                s
            },
            IdentityError::Format(t) => {
                let mut s = "key format error: ".to_owned();
                push_text(&mut s, t.as_str());
                s
            },
            IdentityError::BadSignature => "signature verification failed".to_owned(),
            IdentityError::NoKeypair => "no identity keypair found — run `loot keygen` to generate one".to_owned(),
            IdentityError::EnvelopeTooShort => "envelope too short: need at least 97 bytes".to_owned(),
            IdentityError::UnknownVersion(v) => {
                let mut s = "envelope version ".to_owned();
                push_decimal(&mut s, *v as u64);
                push_text(&mut s, " not supported");
                s
            },
        }
    }
}

// ---------------------------------------------------------------------------
// Keys
// ---------------------------------------------------------------------------

/// The public key of a seed.
pub uninterp spec fn ed25519_public(seed: Seq<u8>) -> Seq<u8>;

/// The signature of a seed over a message.
pub uninterp spec fn ed25519_signature(seed: Seq<u8>, message: Seq<u8>) -> Seq<u8>;

/// An ed25519 public key as an x25519 one, or why it is none.
pub uninterp spec fn x25519_of(key: Seq<u8>) -> Result<Seq<u8>, Seq<char>>;

/// The OpenSSH file of a seed with a comment, or why there is none.
pub uninterp spec fn openssh_private(seed: Seq<u8>, comment: Seq<char>) -> Result<Seq<char>, Seq<char>>;

/// The seed in an OpenSSH file: none if it holds another kind of key; or what is
/// wrong with the file.
pub uninterp spec fn openssh_seed(pem: Seq<char>) -> Result<Option<Seq<u8>>, Seq<char>>;

/// The OpenSSH line of a public key with a comment, or why there is none.
pub uninterp spec fn openssh_public(key: Seq<u8>, comment: Seq<char>) -> Result<Seq<char>, Seq<char>>;

/// An OpenSSH line, read and written again, or what is wrong with it.
pub uninterp spec fn openssh_again(line: Seq<char>) -> Result<Seq<char>, Seq<char>>;

/// The ed25519 key in an OpenSSH line: none if it holds another kind of key; or what
/// is wrong with the line.
pub uninterp spec fn openssh_key(line: Seq<char>) -> Result<Option<Seq<u8>>, Seq<char>>;

/// `SigningKey::generate` with `OsRng`: a fresh seed. Nothing is known of it. It does
/// not return where the operating system has no randomness to give.
#[verifier::external_body]
fn fresh_seed() -> (r: [u8; 32]) {
    SigningKey::generate(&mut OsRng).to_bytes()
}

/// `SigningKey::from_bytes` and `SigningKey::verifying_key`: the public key, which
/// the seed alone decides.
#[verifier::external_body]
fn public_of(seed: &[u8; 32]) -> (r: [u8; 32])
    ensures
        r@ == ed25519_public(seed@),
{
    SigningKey::from_bytes(seed).verifying_key().to_bytes()
}

/// `SigningKey::sign`: the signature, which the seed and the message alone decide.
/// The public key of the seed accepts it for that message.
#[verifier::external_body]
fn signature_of(seed: &[u8; 32], message: &[u8]) -> (r: [u8; 64])
    ensures
        r@ == ed25519_signature(seed@, message@),
        ed25519_accepts(ed25519_public(seed@), message@, r@),
{
    SigningKey::from_bytes(seed).sign(message).to_bytes()
}

/// `VerifyingKey::from_bytes` and `VerifyingKey::to_montgomery`: the x25519 key of an
/// ed25519 key, or the error in words for bytes that are no point of the curve. The
/// bytes alone decide.
#[verifier::external_body]
fn to_x25519(key: &[u8; 32]) -> (r: Result<[u8; 32], String>)
    ensures
        match r {
            Ok(x) => x25519_of(key@) == Ok::<Seq<u8>, Seq<char>>(x@),
            Err(e) => x25519_of(key@) == Err::<Seq<u8>, Seq<char>>(e@),
        },
{
    match VerifyingKey::from_bytes(key) {
        Ok(vk) => Ok(vk.to_montgomery().to_bytes()),
        Err(e) => Err(e.to_string()),
    }
}

/// There is an x25519 key, and it is this.
pub open spec fn x25519_key(key: Seq<u8>) -> Result<Seq<u8>, Seq<char>> {
    Ok(key)
}

/// `SigningKey::verifying_key` and `VerifyingKey::to_montgomery`: the x25519 key of a
/// seed's public key, which is always a point of the curve.
#[verifier::external_body]
fn x25519_of_seed(seed: &[u8; 32]) -> (r: [u8; 32])
    ensures
        x25519_of(ed25519_public(seed@)) == x25519_key(r@),
{
    SigningKey::from_bytes(seed).verifying_key().to_montgomery().to_bytes()
}

/// The longest comment of which it is said that its key file reads back.
pub const COMMENT_MAX: u64 = 0x10000;

/// `PrivateKey::new` and `PrivateKey::to_openssh`: the key file of a seed, or the
/// error in words. Seed and comment alone decide. With a comment of a usual length
/// the file reads back as that seed.
#[verifier::external_body]
fn private_text(seed: &[u8; 32], comment: &str) -> (r: Result<String, String>)
    ensures
        match r {
            Ok(t) => {
                &&& openssh_private(seed@, comment@) == Ok::<Seq<char>, Seq<char>>(t@)
                &&& encode_utf8(comment@).len() <= COMMENT_MAX ==> openssh_seed(t@) == Ok::<
                    Option<Seq<u8>>,
                    Seq<char>,
                >(Some(seed@))
            },
            Err(e) => openssh_private(seed@, comment@) == Err::<Seq<char>, Seq<char>>(e@),
        },
{
    let public = SigningKey::from_bytes(seed).verifying_key().to_bytes();
    let pair = ssh_key::private::Ed25519Keypair {
        public: ssh_key::public::Ed25519PublicKey(public),
        private: ssh_key::private::Ed25519PrivateKey::from_bytes(seed),
    };
    PrivateKey::new(ssh_key::private::KeypairData::Ed25519(pair), comment)
        .and_then(|k| k.to_openssh(LineEnding::LF))
        .map(|t| t.to_string())
        .map_err(|e| e.to_string())
}

/// `PrivateKey::from_openssh`: the seed of an ed25519 key file, none for a key of
/// another kind, or the error in words. The text alone decides.
#[verifier::external_body]
fn seed_in(pem: &str) -> (r: Result<Option<[u8; 32]>, String>)
    ensures
        match r {
            Ok(s) => openssh_seed(pem@) == Ok::<Option<Seq<u8>>, Seq<char>>(s.deep_view()),
            Err(e) => openssh_seed(pem@) == Err::<Option<Seq<u8>>, Seq<char>>(e@),
        },
{
    match PrivateKey::from_openssh(pem) {
        Ok(k) => Ok(k.key_data().ed25519().map(|p| p.private.to_bytes())),
        Err(e) => Err(e.to_string()),
    }
}

/// `PublicKey::new` and `PublicKey::to_openssh`: the line of a public key, or the
/// error in words. Key and comment alone decide, and the line reads back as the key.
#[verifier::external_body]
fn public_text(key: &[u8; 32], comment: &str) -> (r: Result<String, String>)
    ensures
        match r {
            Ok(t) => {
                &&& openssh_public(key@, comment@) == Ok::<Seq<char>, Seq<char>>(t@)
                &&& openssh_key(t@) == Ok::<Option<Seq<u8>>, Seq<char>>(Some(key@))
            },
            Err(e) => openssh_public(key@, comment@) == Err::<Seq<char>, Seq<char>>(e@),
        },
{
    let data = ssh_key::public::KeyData::Ed25519(ssh_key::public::Ed25519PublicKey(*key));
    PublicKey::new(data, comment).to_openssh().map_err(|e| e.to_string())
}

/// `PublicKey::from_openssh` and `PublicKey::to_openssh`: the line written again, or
/// the error in words. The line alone decides.
#[verifier::external_body]
fn public_again(line: &str) -> (r: Result<String, String>)
    ensures
        match r {
            Ok(t) => openssh_again(line@) == Ok::<Seq<char>, Seq<char>>(t@),
            Err(e) => openssh_again(line@) == Err::<Seq<char>, Seq<char>>(e@),
        },
{
    PublicKey::from_openssh(line).and_then(|k| k.to_openssh()).map_err(|e| e.to_string())
}

/// `PublicKey::from_openssh`: the ed25519 key of a line, none for a key of another
/// kind, or the error in words. The line alone decides.
#[verifier::external_body]
pub(crate) fn key_in(line: &str) -> (r: Result<Option<[u8; 32]>, String>)
    ensures
        match r {
            Ok(k) => openssh_key(line@) == Ok::<Option<Seq<u8>>, Seq<char>>(k.deep_view()),
            Err(e) => openssh_key(line@) == Err::<Option<Seq<u8>>, Seq<char>>(e@),
        },
{
    match PublicKey::from_openssh(line) {
        Ok(k) => Ok(k.key_data().ed25519().map(|p| p.0)),
        Err(e) => Err(e.to_string()),
    }
}

/// The x25519 key of an ed25519 key.
pub fn x25519_pubkey_from_ed25519_bytes(ed25519_pub: &[u8; 32]) -> (r: Result<[u8; 32], IdentityError>)
    ensures
        match x25519_of(ed25519_pub@) {
            Ok(x) => r matches Ok(k) && k@ == x,
            Err(e) => r matches Err(f) && f.deep_view() == IdentityErrorModel::Format(e),
        },
{
    match to_x25519(ed25519_pub) {
        Ok(x) => Ok(x),
        Err(e) => Err(IdentityError::Format(e)),
    }
}

/// Someone's key.
pub struct Identity {
    seed: [u8; 32],
}

impl DeepView for Identity {
    type V = Seq<u8>;

    closed spec fn deep_view(&self) -> Seq<u8> {
        self.seed@
    }
}

/// The identity in a key file.
pub open spec fn identity_in(pem: Seq<char>) -> Result<Seq<u8>, IdentityErrorModel> {
    match openssh_seed(pem) {
        Ok(Some(seed)) => Ok(seed),
        Ok(None) => Err(IdentityErrorModel::Format("expected ed25519 key"@)),
        Err(e) => Err(IdentityErrorModel::Format(e)),
    }
}

/// The identity in a file on a disk. A file that is not there, or holds no text, is
/// an error of reading.
pub open spec fn identity_at(d: DiskModel, path: Seq<char>) -> Result<Seq<u8>, IdentityErrorModel> {
    match file_at(d, path) {
        None => Err(IdentityErrorModel::Io("No such file or directory (os error 2)"@)),
        Some(b) => match raw_text(b) {
            Ok(pem) => identity_in(pem),
            Err(e) => Err(IdentityErrorModel::Io("stream did not contain valid UTF-8"@)),
        },
    }
}

/// The disk with the key files of an identity.
pub open spec fn with_identity(
    d: DiskModel,
    dot: Seq<char>,
    seed: Seq<u8>,
    comment: Seq<char>,
) -> Result<DiskModel, (DiskModel, IdentityErrorModel)> {
    match openssh_private(seed, comment) {
        Err(e) => Err((d, IdentityErrorModel::Format(e))),
        Ok(pem) => {
            let d1 = with_file(d, join_path(dot, "id"@), Some(encode_utf8(pem)));
            match openssh_public(ed25519_public(seed), comment) {
                Err(e) => Err((d1, IdentityErrorModel::Format(e))),
                Ok(line) => Ok(
                    with_file(d1, join_path(dot, "id.pub"@), Some(encode_utf8(line + "\n"@))),
                ),
            }
        },
    }
}

/// An envelope: the version, the public key, the signature, and the content.
pub open spec fn envelope(seed: Seq<u8>, bundle: Seq<u8>) -> Seq<u8> {
    seq![ENVELOPE_VERSION] + ed25519_public(seed) + ed25519_signature(seed, bundle) + bundle
}

/// Who signed an envelope, and what is in it.
pub open spec fn opened(data: Seq<u8>, allowed: Seq<Seq<u8>>) -> Result<
    (Seq<u8>, Seq<u8>),
    IdentityErrorModel,
> {
    if data.len() < ENVELOPE_HEADER {
        Err(IdentityErrorModel::EnvelopeTooShort)
    } else if data[0] != ENVELOPE_VERSION {
        Err(IdentityErrorModel::UnknownVersion(data[0]))
    } else {
        let key = data.subrange(1, 33);
        let signature = data.subrange(33, 97);
        let bundle = data.skip(97);
        if !ed25519_accepts(key, bundle, signature) {
            Err(IdentityErrorModel::BadSignature)
        } else if allowed.len() > 0 && !allowed.contains(key) {
            Err(IdentityErrorModel::BadSignature)
        } else {
            Ok((key, bundle))
        }
    }
}

/// The key and its public part are two files.
proof fn lemma_two_files(dot: Seq<char>)
    ensures
        join_path(dot, "id"@) != join_path(dot, "id.pub"@),
{
    reveal_strlit("id");
    reveal_strlit("id.pub");
    reveal_strlit("/");
    assert(!begins_with("id"@, "/"@)) by {
        assert("id"@.subrange(0, 1)[0] == 'i');
    }
    assert(!begins_with("id.pub"@, "/"@)) by {
        assert("id.pub"@.subrange(0, 1)[0] == 'i');
    }
    assert(join_path(dot, "id"@).len() != join_path(dot, "id.pub"@).len());
}

fn text_to_bytes(t: &str) -> (r: Vec<u8>)
    ensures
        r@ == encode_utf8(t@),
{
    let b = t.as_bytes();
    vstd::slice::slice_to_vec(b)
}

impl Identity {
    /// A fresh key.
    pub fn generate() -> (r: Self) {
        Identity { seed: fresh_seed() }
    }

    /// The key of a seed.
    pub fn from_seed(seed: [u8; 32]) -> (r: Self)
        ensures
            r.deep_view() == seed@,
    {
        Identity { seed }
    }

    /// The key in the text of a key file.
    pub fn from_openssh(pem: &str) -> (r: Result<Self, IdentityError>)
        ensures
            match r {
                Ok(x) => identity_in(pem@) == Ok::<Seq<u8>, IdentityErrorModel>(x.deep_view()),
                Err(e) => identity_in(pem@) == Err::<Seq<u8>, IdentityErrorModel>(e.deep_view()),
            },
    {
        match seed_in(pem) {
            Ok(Some(seed)) => {
                assert(seed.deep_view() =~= seed@);
                Ok(Identity { seed })
            },
            Ok(None) => Err(IdentityError::Format("expected ed25519 key".to_owned())),
            Err(e) => Err(IdentityError::Format(e)),
        }
    }

    /// The key in a file.
    pub fn load(disk: &Disk, path: &str) -> (r: Result<Self, IdentityError>)
        ensures
            match r {
                Ok(x) => identity_at(disk.deep_view(), path@) == Ok::<Seq<u8>, IdentityErrorModel>(x.deep_view()),
                Err(e) => identity_at(disk.deep_view(), path@) == Err::<Seq<u8>, IdentityErrorModel>(
                    e.deep_view(),
                ),
            },
    {
        match disk.read(&path.to_owned()) {
            None => Err(IdentityError::Io("No such file or directory (os error 2)".to_owned())),
            Some(b) => {
                assert(b.deep_view() =~= b@);
                match text_from(b.as_slice()) {
                    Ok(pem) => Self::from_openssh(pem.as_str()),
                    Err(_) => Err(IdentityError::Io("stream did not contain valid UTF-8".to_owned())),
                }
            },
        }
    }

    /// Writes the key to `id` and its public part to `id.pub`. With a comment of a
    /// usual length it can be loaded from there again.
    pub fn save(&self, disk: &mut Disk, dot: &str, comment: &str) -> (r: Result<(), IdentityError>)
        ensures
            match with_identity(old(disk).deep_view(), dot@, self.deep_view(), comment@) {
                Ok(d) => r is Ok && final(disk).deep_view() == d,
                Err((d, e)) => r is Err && r->Err_0.deep_view() == e && final(disk).deep_view() == d,
            },
            r is Ok && encode_utf8(comment@).len() <= COMMENT_MAX ==> identity_at(
                final(disk).deep_view(),
                join_path(dot@, "id"@),
            ) == Ok::<Seq<u8>, IdentityErrorModel>(self.deep_view()),
    {
        let pem = match private_text(&self.seed, comment) {
            Ok(t) => t,
            Err(e) => {
                return Err(IdentityError::Format(e));
            },
        };
        let b = text_to_bytes(pem.as_str());
        assert(b.deep_view() =~= b@);
        disk.put_file(join(dot, "id"), Some(b));
        let mut line = match public_text(&public_of(&self.seed), comment) {
            Ok(t) => t,
            Err(e) => {
                return Err(IdentityError::Format(e));
            },
        };
        push_text(&mut line, "\n");
        let b = text_to_bytes(line.as_str());
        assert(b.deep_view() =~= b@);
        disk.put_file(join(dot, "id.pub"), Some(b));
        proof {
            lemma_raw_text_back(pem@);
            lemma_two_files(dot@);
        }
        Ok(())
    }

    /// The public key.
    pub fn public_key_bytes(&self) -> (r: [u8; 32])
        ensures
            r@ == ed25519_public(self.deep_view()),
    {
        public_of(&self.seed)
    }

    /// The x25519 key that goes with the public key.
    pub fn x25519_pubkey_bytes(&self) -> (r: [u8; 32])
        ensures
            x25519_of(ed25519_public(self.deep_view())) == x25519_key(r@),
    {
        x25519_of_seed(&self.seed)
    }

    /// The OpenSSH line of the public key.
    pub fn public_key_openssh(&self, comment: &str) -> (r: Result<String, IdentityError>)
        ensures
            match openssh_public(ed25519_public(self.deep_view()), comment@) {
                Err(e) => r matches Err(f) && f.deep_view() == IdentityErrorModel::Format(e),
                Ok(line) => match openssh_again(line) {
                    Err(e) => r matches Err(f) && f.deep_view() == IdentityErrorModel::Format(e),
                    Ok(t) => r matches Ok(x) && x@ == t,
                },
            },
    {
        let line = match public_text(&public_of(&self.seed), comment) {
            Ok(t) => t,
            Err(e) => {
                return Err(IdentityError::Format(e));
            },
        };
        match public_again(line.as_str()) {
            Ok(t) => Ok(t),
            Err(e) => Err(IdentityError::Format(e)),
        }
    }

    /// The signature over a message. The public key accepts it.
    pub fn sign(&self, message: &[u8]) -> (r: [u8; 64])
        ensures
            r@ == ed25519_signature(self.deep_view(), message@),
            ed25519_accepts(ed25519_public(self.deep_view()), message@, r@),
    {
        signature_of(&self.seed, message)
    }

    /// Some bytes in a signed envelope. It opens to them, and to who signed it, for all
    /// who allow that key, or any.
    pub fn wrap_envelope(&self, bundle_bytes: &[u8]) -> (r: Vec<u8>)
        ensures
            r@ == envelope(self.deep_view(), bundle_bytes@),
            forall|allowed: Seq<Seq<u8>>|
                allowed.len() == 0 || allowed.contains(ed25519_public(self.deep_view())) ==> #[trigger] opened(
                    r@,
                    allowed,
                ) == Ok::<(Seq<u8>, Seq<u8>), IdentityErrorModel>(
                    (ed25519_public(self.deep_view()), bundle_bytes@),
                ),
    {
        let key = self.public_key_bytes();
        let signature = self.sign(bundle_bytes);
        let mut out: Vec<u8> = Vec::new();
        out.push(ENVELOPE_VERSION);
        crate::format::put_raw(&mut out, key.as_slice());
        crate::format::put_raw(&mut out, signature.as_slice());
        crate::format::put_raw(&mut out, bundle_bytes);
        assert(out@ =~= envelope(self.deep_view(), bundle_bytes@));
        proof {
            assert(out@.subrange(1, 33) =~= key@);
            assert(out@.subrange(33, 97) =~= signature@);
            assert(out@.skip(97) =~= bundle_bytes@);
        }
        out
    }
}

/// The keys of a list.
pub open spec fn key_models(allowed: Seq<[u8; 32]>) -> Seq<Seq<u8>> {
    Seq::new(allowed.len(), |i: int| allowed[i]@)
}

fn is_allowed(allowed: &[[u8; 32]], key: &[u8; 32]) -> (b: bool)
    ensures
        b == key_models(allowed@).contains(key@),
{
    let ghost ks = key_models(allowed@);
    let mut i: usize = 0;
    while i < allowed.len()
        invariant
            0 <= i <= allowed@.len(),
            ks == key_models(allowed@),
            forall|j: int| 0 <= j < i ==> ks[j] != key@,
        decreases allowed@.len() - i,
    {
        proof {
            assert(allowed@[i as int].deep_view() =~= allowed@[i as int]@);
            assert(key.deep_view() =~= key@);
        }
        if allowed[i].same(key) {
            assert(ks[i as int] == key@);
            return true;
        }
        i = i + 1;
    }
    false
}

/// Who signed an envelope, and what is in it. Where keys are listed, it must be one of
/// them.
pub fn unwrap_envelope<'a>(data: &'a [u8], allowed: &[[u8; 32]]) -> (r: Result<
    ([u8; 32], &'a [u8]),
    IdentityError,
>)
    ensures
        match r {
            Ok((key, bundle)) => opened(data@, key_models(allowed@)) == Ok::<
                (Seq<u8>, Seq<u8>),
                IdentityErrorModel,
            >((key@, bundle@)),
            Err(e) => opened(data@, key_models(allowed@)) == Err::<(Seq<u8>, Seq<u8>), IdentityErrorModel>(
                e.deep_view(),
            ),
        },
{
    let n: usize = data.len();
    if n < ENVELOPE_HEADER {
        return Err(IdentityError::EnvelopeTooShort);
    }
    let version = data[0];
    if version != ENVELOPE_VERSION {
        return Err(IdentityError::UnknownVersion(version));
    }
    let key = crate::format::array_of::<32>(vstd::slice::slice_subrange(data, 1, 33));
    let signature = crate::format::array_of::<64>(vstd::slice::slice_subrange(data, 33, 97));
    let bundle = vstd::slice::slice_subrange(data, 97, n);
    assert(bundle@ =~= data@.skip(97));
    if !ed25519_verify(&key, bundle, &signature) {
        return Err(IdentityError::BadSignature);
    }
    if allowed.len() > 0 && !is_allowed(allowed, &key) {
        return Err(IdentityError::BadSignature);
    }
    Ok((key, bundle))
}

/// Whether there is a key.
pub fn keypair_exists(disk: &Disk, dot: &str) -> (b: bool)
    ensures
        b == (file_at(disk.deep_view(), join_path(dot@, "id"@)) is Some),
{
    disk.read(&join(dot, "id")).is_some()
}

/// The key of a repository.
pub fn load_or_missing(disk: &Disk, dot: &str) -> (r: Result<Identity, IdentityError>)
    ensures
        if file_at(disk.deep_view(), join_path(dot@, "id"@)) is None {
            r matches Err(e) && e.deep_view() == IdentityErrorModel::NoKeypair
        } else {
            match r {
                Ok(x) => identity_at(disk.deep_view(), join_path(dot@, "id"@)) == Ok::<
                    Seq<u8>,
                    IdentityErrorModel,
                >(x.deep_view()),
                Err(e) => identity_at(disk.deep_view(), join_path(dot@, "id"@)) == Err::<
                    Seq<u8>,
                    IdentityErrorModel,
                >(e.deep_view()),
            }
        },
{
    if !keypair_exists(disk, dot) {
        return Err(IdentityError::NoKeypair);
    }
    Identity::load(disk, join(dot, "id").as_str())
}

/// The error of one who would write a key over another.
pub open spec fn keypair_there() -> IdentityErrorModel {
    IdentityErrorModel::Io("File exists (os error 17)"@)
}

/// Makes a fresh key and writes it. What is written is the key that is returned. Where
/// there is a key already, it stays as it is.
pub fn generate_and_save(disk: &mut Disk, dot: &str, comment: &str) -> (r: Result<Identity, IdentityError>)
    ensures
        file_at(old(disk).deep_view(), join_path(dot@, "id"@)) is Some ==> r is Err && r->Err_0.deep_view()
            == keypair_there() && final(disk).deep_view() == old(disk).deep_view(),
        file_at(old(disk).deep_view(), join_path(dot@, "id"@)) is None ==> match r {
            Ok(id) => with_identity(old(disk).deep_view(), dot@, id.deep_view(), comment@) == Ok::<
                DiskModel,
                (DiskModel, IdentityErrorModel),
            >(final(disk).deep_view()),
            Err(e) => exists|seed: Seq<u8>| #[trigger]
                with_identity(old(disk).deep_view(), dot@, seed, comment@) == Err::<
                    DiskModel,
                    (DiskModel, IdentityErrorModel),
                >((final(disk).deep_view(), e.deep_view())),
        },
{
    if keypair_exists(disk, dot) {
        return Err(IdentityError::Io("File exists (os error 17)".to_owned()));
    }
    let id = Identity::generate();
    let ghost seed = id.deep_view();
    match id.save(disk, dot, comment) {
        Ok(_) => Ok(id),
        Err(e) => {
            assert(with_identity(old(disk).deep_view(), dot@, seed, comment@) is Err);
            Err(e)
        },
    }
}

// ---------------------------------------------------------------------------
// Laws
// ---------------------------------------------------------------------------

/// What an envelope opens to was signed by the key that it names.
pub proof fn law_opened_was_signed(data: Seq<u8>, allowed: Seq<Seq<u8>>)
    requires
        opened(data, allowed) is Ok,
    ensures
        ed25519_accepts(
            opened(data, allowed)->Ok_0.0,
            opened(data, allowed)->Ok_0.1,
            data.subrange(33, 97),
        ),
        allowed.len() > 0 ==> allowed.contains(opened(data, allowed)->Ok_0.0),
{
}

/// A key that is not allowed opens nothing.
pub proof fn law_unlisted_key_is_refused(data: Seq<u8>, allowed: Seq<Seq<u8>>)
    requires
        data.len() >= ENVELOPE_HEADER,
        allowed.len() > 0,
        !allowed.contains(data.subrange(1, 33)),
    ensures
        opened(data, allowed) is Err,
{
}

/// An envelope opens just where it is whole, of the version that is known, and signed by the
/// key that it names, if that is allowed; and then to that key and all that follows the
/// signature. No key is left out where none is listed.
pub proof fn law_when_an_envelope_opens(key: Seq<u8>, signature: Seq<u8>, bundle: Seq<u8>, allowed: Seq<Seq<u8>>)
    requires
        key.len() == 32,
        signature.len() == 64,
    ensures
        ({
            let data = seq![ENVELOPE_VERSION] + key + signature + bundle;
            let r = opened(data, allowed);
            &&& r is Ok <==> ed25519_accepts(key, bundle, signature) && (allowed.len() == 0 || allowed.contains(key))
            &&& r is Ok ==> r->Ok_0.0 == key && r->Ok_0.1 == bundle
            &&& r is Err ==> r->Err_0 is BadSignature
        }),
{
    let data = seq![ENVELOPE_VERSION] + key + signature + bundle;
    assert(data.subrange(1, 33) =~= key);
    assert(data.subrange(33, 97) =~= signature);
    assert(data.skip(97) =~= bundle);
}

/// An envelope that is cut short, or of another version, is refused as such.
pub proof fn law_torn_envelope_is_refused(data: Seq<u8>, allowed: Seq<Seq<u8>>)
    ensures
        data.len() < 97 ==> opened(data, allowed) == Err::<(Seq<u8>, Seq<u8>), IdentityErrorModel>(
            IdentityErrorModel::EnvelopeTooShort,
        ),
        data.len() >= 97 && data[0] != ENVELOPE_VERSION ==> opened(data, allowed) == Err::<
            (Seq<u8>, Seq<u8>),
            IdentityErrorModel,
        >(IdentityErrorModel::UnknownVersion(data[0])),
{
}

} // verus!
