//! Sealed content: permission is possession of a key.
//!
//! [`seal`] turns plaintext and a visibility into a [`SealedObject`] and a fresh
//! content key. [`open`] is the one place that decides who may read: embargo
//! first, then visibility, then possession of the key. A sealed object never
//! holds a key; keys live in a [`Keyring`].

use crate::crypto::{
    aes_decrypt, aes_encrypt, aes_gcm_opened, aes_gcm_sealed, blake3_digest, blake3_hash, random_bytes,
    PLAIN_MAX,
};
use crate::format::put_raw;
use crate::sorted::SortedMap;
use crate::text::{push_text, same_text};
use crate::types::{ErrorModel, Oid, RepoError, Visibility, VisibilityModel};
use crate::value::{same_bytes, Value};
use vstd::prelude::*;

verus! {

/// A symmetric content key. It lives in a [`Keyring`], never in a [`SealedObject`].
pub type ContentKey = [u8; 32];

/// The grant id that means "everyone who can read the repository".
pub const ANYONE: &'static str = "*";

/// Encrypted content with its access policy, and no key.
#[derive(Debug, PartialEq, Eq)]
pub struct SealedObject {
    pub nonce: [u8; 12],
    pub ciphertext: Vec<u8>,
    pub vis: Visibility,
    /// The identities that may hold this content's key: names, never keys.
    pub grant_ids: Vec<String>,
    /// Whether the plaintext was compressed before it was sealed. The flag is
    /// carried with the object; [`seal`] does not compress.
    pub compressed: bool,
}

/// The model of a [`SealedObject`].
pub struct SealedModel {
    pub nonce: Seq<u8>,
    pub ciphertext: Seq<u8>,
    pub vis: VisibilityModel,
    pub grant_ids: Seq<Seq<char>>,
    pub compressed: bool,
}

impl DeepView for SealedObject {
    type V = SealedModel;

    open spec fn deep_view(&self) -> SealedModel {
        SealedModel {
            nonce: self.nonce@,
            ciphertext: self.ciphertext@,
            vis: self.vis.deep_view(),
            grant_ids: self.grant_ids.deep_view(),
            compressed: self.compressed,
        }
    }
}

impl Value for SealedObject {
    fn dup(&self) -> (r: Self) {
        let ciphertext = vstd::slice::slice_to_vec(self.ciphertext.as_slice());
        SealedObject {
            nonce: self.nonce,
            ciphertext,
            vis: self.vis.dup(),
            grant_ids: self.grant_ids.dup(),
            compressed: self.compressed,
        }
    }

    fn same(&self, other: &Self) -> (b: bool) {
        same_bytes(self.nonce.as_slice(), other.nonce.as_slice()) && same_bytes(
            self.ciphertext.as_slice(),
            other.ciphertext.as_slice(),
        ) && self.vis.same(&other.vis) && self.grant_ids.same(&other.grant_ids) && self.compressed
            == other.compressed
    }
}

impl Clone for SealedObject {
    fn clone(&self) -> (r: Self)
        ensures
            r.deep_view() == self.deep_view(),
    {
        self.dup()
    }
}

/// The address of a sealed object: the digest of its nonce and ciphertext.
pub open spec fn address_of(o: SealedModel) -> Seq<u8> {
    blake3_digest(o.nonce + o.ciphertext)
}

impl SealedObject {
    /// The content address. Computed, not stored, so that an object and its
    /// address cannot drift apart.
    pub fn address(&self) -> (r: Oid)
        ensures
            r.deep_view() == address_of(self.deep_view()),
    {
        let mut b: Vec<u8> = Vec::new();
        put_raw(&mut b, self.nonce.as_slice());
        put_raw(&mut b, self.ciphertext.as_slice());
        assert(b@ =~= self.nonce@ + self.ciphertext@);
        Oid(blake3_hash(b.as_slice()))
    }
}

/// An identity's private custody of content keys.
#[derive(Debug)]
pub struct Keyring {
    keys: SortedMap<Oid, ContentKey>,
}

impl DeepView for Keyring {
    type V = Map<Seq<u8>, Seq<u8>>;

    closed spec fn deep_view(&self) -> Map<Seq<u8>, Seq<u8>> {
        self.keys.deep_view()
    }
}

impl Keyring {
    pub fn new() -> (r: Self)
        ensures
            r.deep_view() == Map::<Seq<u8>, Seq<u8>>::empty(),
    {
        Keyring { keys: SortedMap::new() }
    }

    /// A keyring of these keys.
    pub fn from_map(keys: SortedMap<Oid, ContentKey>) -> (r: Self)
        ensures
            r.deep_view() == keys.deep_view(),
    {
        Keyring { keys }
    }

    /// The keys by address.
    pub fn as_map(&self) -> (r: &SortedMap<Oid, ContentKey>)
        ensures
            r.deep_view() == self.deep_view(),
    {
        &self.keys
    }

    /// Files a content key under its object's address.
    pub fn insert(&mut self, oid: Oid, key: ContentKey)
        ensures
            final(self).deep_view() == old(self).deep_view().insert(oid.deep_view(), key@),
    {
        assert(key.deep_view() =~= key@);
        self.keys.insert(oid, key);
    }

    /// Takes the key for `oid` out, if it is held.
    pub fn remove(&mut self, oid: &Oid)
        ensures
            final(self).deep_view() == old(self).deep_view().remove(oid.deep_view()),
    {
        self.keys.remove(oid);
    }

    /// Whether this keyring holds the key for `oid`.
    pub fn holds(&self, oid: &Oid) -> (b: bool)
        ensures
            b == self.deep_view().contains_key(oid.deep_view()),
    {
        self.keys.contains_key(oid)
    }

    /// A copy of the key for `oid`, if it is held.
    pub fn key_for(&self, oid: &Oid) -> (r: Option<ContentKey>)
        ensures
            match r {
                Some(k) => self.deep_view().contains_key(oid.deep_view())
                    && self.deep_view()[oid.deep_view()] == k@,
                None => !self.deep_view().contains_key(oid.deep_view()),
            },
    {
        match self.keys.get(oid) {
            Some(k) => {
                assert(k.deep_view() =~= k@);
                Some(*k)
            },
            None => None,
        }
    }
}

impl Default for Keyring {
    fn default() -> (r: Self)
        ensures
            r.deep_view() == Map::<Seq<u8>, Seq<u8>>::empty(),
    {
        Keyring::new()
    }
}

impl Clone for Keyring {
    fn clone(&self) -> (r: Self)
        ensures
            r.deep_view() == self.deep_view(),
    {
        Keyring { keys: self.keys.dup() }
    }
}

/// The grant ids that a visibility implies.
pub open spec fn grant_ids_of(vis: VisibilityModel) -> Seq<Seq<char>> {
    match vis {
        VisibilityModel::Restricted(ids) => ids,
        _ => seq![ANYONE@],
    }
}

/// Grant ids implied by a visibility policy.
pub fn grant_ids(vis: &Visibility) -> (r: Vec<String>)
    ensures
        r.deep_view() == grant_ids_of(vis.deep_view()),
{
    match vis {
        Visibility::Restricted(ids) => ids.dup(),
        _ => {
            let mut r: Vec<String> = Vec::new();
            r.push(ANYONE.to_owned());
            assert(r.deep_view() =~= seq![ANYONE@]);
            r
        },
    }
}

/// Content with these grant ids is open to everyone.
pub open spec fn granted_to_anyone(ids: Seq<Seq<char>>) -> bool {
    ids.contains(ANYONE@)
}

/// Content with these grant ids may be read by `reader`.
pub open spec fn granted_to(ids: Seq<Seq<char>>, reader: Seq<char>) -> bool {
    ids.contains(ANYONE@) || ids.contains(reader)
}

/// Whether `name` is one of `ids`.
pub fn names_contain(ids: &Vec<String>, name: &str) -> (b: bool)
    ensures
        b == ids.deep_view().contains(name@),
{
    let mut i: usize = 0;
    while i < ids.len()
        invariant
            0 <= i <= ids@.len(),
            forall|j: int| 0 <= j < i ==> #[trigger] ids.deep_view()[j] != name@,
        decreases ids@.len() - i,
    {
        if same_text(ids[i].as_str(), name) {
            assert(ids.deep_view()[i as int] == name@);
            return true;
        }
        i = i + 1;
    }
    false
}

/// Whether content with these grant ids is open to everyone.
pub fn is_granted_to_anyone(ids: &Vec<String>) -> (b: bool)
    ensures
        b == granted_to_anyone(ids.deep_view()),
{
    names_contain(ids, ANYONE)
}

/// Whether content with these grant ids may be read by `reader`.
pub fn is_granted_to(ids: &Vec<String>, reader: &str) -> (b: bool)
    ensures
        b == granted_to(ids.deep_view(), reader@),
{
    names_contain(ids, ANYONE) || names_contain(ids, reader)
}

/// The object that sealing `plain` under `vis` with this key and nonce makes.
pub open spec fn sealed_with(
    plain: Seq<u8>,
    vis: VisibilityModel,
    key: Seq<u8>,
    nonce: Seq<u8>,
) -> SealedModel {
    SealedModel {
        nonce,
        ciphertext: aes_gcm_sealed(key, nonce, plain),
        vis,
        grant_ids: grant_ids_of(vis),
        compressed: false,
    }
}

/// `o` is `plain` sealed under `vis` with `key`, and `key` opens it.
pub open spec fn is_sealing(
    plain: Seq<u8>,
    vis: VisibilityModel,
    o: SealedModel,
    key: Seq<u8>,
) -> bool {
    &&& key.len() == 32
    &&& o.nonce.len() == 12
    &&& o == sealed_with(plain, vis, key, o.nonce)
    &&& aes_gcm_opened(key, o.nonce, o.ciphertext) == Some(plain)
}

/// Seals `bytes` under the given key and nonce. It fails on content that is too
/// long for the cipher, and on no other.
pub fn seal_with(bytes: &[u8], vis: &Visibility, key: &ContentKey, nonce: [u8; 12]) -> (r: Result<
    (Oid, SealedObject),
    RepoError,
>)
    ensures
        r is Ok <==> bytes@.len() <= PLAIN_MAX,
        match r {
            Ok((addr, o)) => {
                &&& o.deep_view().nonce == nonce@
                &&& is_sealing(bytes@, vis.deep_view(), o.deep_view(), key@)
                &&& addr.deep_view() == address_of(o.deep_view())
            },
            Err(e) => e.deep_view() == ErrorModel::Backend("encrypt: "@ + "aead::Error"@),
        },
{
    match aes_encrypt(key, &nonce, bytes) {
        Ok(ciphertext) => {
            let o = SealedObject {
                nonce,
                ciphertext,
                vis: vis.dup(),
                grant_ids: grant_ids(vis),
                compressed: false,
            };
            let addr = o.address();
            Ok((addr, o))
        },
        Err(t) => {
            let mut text = "encrypt: ".to_owned();
            push_text(&mut text, t.as_str());
            Err(RepoError::Backend(text))
        },
    }
}

/// Encrypts `bytes` under a fresh content key. Returns the content address, the
/// sealed object and the key, which the caller files where it belongs. Whether
/// fresh bytes can be had is up to the operating system; content that is too long
/// for the cipher is refused in any case.
pub fn seal(bytes: &[u8], vis: &Visibility) -> (r: Result<(Oid, SealedObject, ContentKey), RepoError>)
    ensures
        match r {
            Ok((addr, o, key)) => {
                &&& bytes@.len() <= PLAIN_MAX
                &&& is_sealing(bytes@, vis.deep_view(), o.deep_view(), key@)
                &&& addr.deep_view() == address_of(o.deep_view())
            },
            Err(e) => e is Backend,
        },
{
    let key: ContentKey = random_bytes::<32>()?;
    let nonce: [u8; 12] = random_bytes::<12>()?;
    match seal_with(bytes, vis, &key, nonce) {
        Ok((addr, o)) => Ok((addr, o, key)),
        Err(e) => Err(e),
    }
}

/// What the key of a sealed object gives, once any embargo is over.
pub open spec fn opened_with_key(
    o: SealedModel,
    oid: Seq<u8>,
    keys: Map<Seq<u8>, Seq<u8>>,
    now: u64,
) -> Result<Seq<u8>, ErrorModel> {
    if o.vis matches VisibilityModel::Embargoed { reveal_at } && now < reveal_at {
        Err(ErrorModel::Embargoed(o.vis->reveal_at))
    } else if !keys.contains_key(oid) {
        Err(ErrorModel::Unauthorized(oid))
    } else {
        match aes_gcm_opened(keys[oid], o.nonce, o.ciphertext) {
            Some(plain) => Ok(plain),
            None => Err(ErrorModel::Backend("decrypt: "@ + "aead::Error"@)),
        }
    }
}

/// What a reader gets of a sealed object: the gates in their order.
pub open spec fn opened(
    o: SealedModel,
    oid: Seq<u8>,
    reader: Seq<char>,
    keys: Map<Seq<u8>, Seq<u8>>,
    now: u64,
) -> Result<Seq<u8>, ErrorModel> {
    if o.vis matches VisibilityModel::Embargoed { reveal_at } && now < reveal_at {
        Err(ErrorModel::Embargoed(o.vis->reveal_at))
    } else if !granted_to(o.grant_ids, reader) {
        Err(ErrorModel::Unauthorized(oid))
    } else {
        opened_with_key(o, oid, keys, now)
    }
}

/// The model of a result that carries bytes.
pub open spec fn bytes_result(r: Result<Vec<u8>, RepoError>) -> Result<Seq<u8>, ErrorModel> {
    match r {
        Ok(b) => Ok(b@),
        Err(e) => Err(e.deep_view()),
    }
}

/// The plaintext for a reader who needs no more than the key.
pub fn open_with_key(sealed: &SealedObject, oid: &Oid, keyring: &Keyring, now: u64) -> (r: Result<Vec<u8>, RepoError>)
    ensures
        bytes_result(r) == opened_with_key(sealed.deep_view(), oid.deep_view(), keyring.deep_view(), now),
{
    if let Visibility::Embargoed { reveal_at } = &sealed.vis {
        if now < *reveal_at {
            return Err(RepoError::Embargoed(*reveal_at));
        }
    }
    match keyring.key_for(oid) {
        None => Err(RepoError::Unauthorized(*oid)),
        Some(key) => match aes_decrypt(&key, &sealed.nonce, sealed.ciphertext.as_slice()) {
            Ok(plain) => Ok(plain),
            Err(t) => {
                let mut text = "decrypt: ".to_owned();
                push_text(&mut text, t.as_str());
                Err(RepoError::Backend(text))
            },
        },
    }
}

/// The single authorization gate: the plaintext, if `reader` may see it now.
pub fn open(sealed: &SealedObject, oid: &Oid, reader: &str, keyring: &Keyring, now: u64) -> (r: Result<
    Vec<u8>,
    RepoError,
>)
    ensures
        bytes_result(r) == opened(
            sealed.deep_view(),
            oid.deep_view(),
            reader@,
            keyring.deep_view(),
            now,
        ),
{
    if let Visibility::Embargoed { reveal_at } = &sealed.vis {
        if now < *reveal_at {
            return Err(RepoError::Embargoed(*reveal_at));
        }
    }
    if !is_granted_to(&sealed.grant_ids, reader) {
        return Err(RepoError::Unauthorized(*oid));
    }
    open_with_key(sealed, oid, keyring, now)
}

/// Sealed content comes back to a granted reader who holds its key, once any
/// embargo is over.
pub proof fn law_open_undoes_seal(
    plain: Seq<u8>,
    vis: VisibilityModel,
    o: SealedModel,
    key: Seq<u8>,
    oid: Seq<u8>,
    reader: Seq<char>,
    keys: Map<Seq<u8>, Seq<u8>>,
    now: u64,
)
    requires
        is_sealing(plain, vis, o, key),
        keys.contains_key(oid),
        keys[oid] == key,
        granted_to(grant_ids_of(vis), reader),
        vis matches VisibilityModel::Embargoed { reveal_at } ==> reveal_at <= now,
    ensures
        opened(o, oid, reader, keys, now) == Ok::<Seq<u8>, ErrorModel>(plain),
{
}

/// Before its reveal time embargoed content is refused to everyone, keyholders
/// as well.
pub proof fn law_embargo_binds_everyone(
    o: SealedModel,
    oid: Seq<u8>,
    reader: Seq<char>,
    keys: Map<Seq<u8>, Seq<u8>>,
    now: u64,
)
    requires
        o.vis is Embargoed,
        now < o.vis->reveal_at,
    ensures
        opened(o, oid, reader, keys, now) == Err::<Seq<u8>, ErrorModel>(
            ErrorModel::Embargoed(o.vis->reveal_at),
        ),
{
}

/// Without the key nobody reads, whoever they are and whatever time it is.
pub proof fn law_no_key_no_read(
    o: SealedModel,
    oid: Seq<u8>,
    reader: Seq<char>,
    keys: Map<Seq<u8>, Seq<u8>>,
    now: u64,
)
    requires
        !keys.contains_key(oid),
    ensures
        opened(o, oid, reader, keys, now) is Err,
{
}

/// A reader who is not granted the content is refused even with its key in the
/// keyring.
pub proof fn law_key_does_not_replace_grant(
    o: SealedModel,
    oid: Seq<u8>,
    reader: Seq<char>,
    keys: Map<Seq<u8>, Seq<u8>>,
    now: u64,
)
    requires
        !granted_to(o.grant_ids, reader),
    ensures
        opened(o, oid, reader, keys, now) is Err,
{
}

} // verus!
