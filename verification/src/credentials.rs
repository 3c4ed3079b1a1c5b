//! Credentials: the password-encrypted vault format, the in-memory vault and
//! the index of registered aliases.

use vstd::prelude::*;
use vstd::utf8::{decode_utf8, encode_utf8, valid_utf8};
use crate::seal::{strings_view, strings_contain};
use crate::text::{chars_of, chars_eq, lit, string_of, trim, trim_exec};
use crate::paths::{join_path, join_path_exec};

verus! {

broadcast use vstd::utf8::encode_utf8_valid_utf8, vstd::utf8::encode_utf8_decode_utf8;

/// A stored secret and what kind of secret it is.
#[derive(Clone, Debug)]
pub struct Credential {
    pub alias: String,
    pub cred_type: String,
    pub secret: String,
    pub extra: Option<String>,
}

/// The mathematical value of a [`Credential`].
pub struct CredentialView {
    pub alias: Seq<char>,
    pub cred_type: Seq<char>,
    pub secret: Seq<char>,
    pub extra: Option<Seq<char>>,
}

impl View for Credential {
    type V = CredentialView;

    open spec fn view(&self) -> CredentialView {
        CredentialView {
            alias: self.alias@,
            cred_type: self.cred_type@,
            secret: self.secret@,
            extra: match self.extra {
                Some(e) => Some(e@),
                None => None,
            },
        }
    }
}

impl Credential {
    /// A copy of this credential.
    pub fn duplicate(&self) -> (r: Credential)
        ensures
            r@ == self@,
    {
        Credential {
            alias: self.alias.clone(),
            cred_type: self.cred_type.clone(),
            secret: self.secret.clone(),
            extra: match &self.extra {
                Some(e) => Some(e.clone()),
                None => None,
            },
        }
    }
}

/// PBKDF2 iterations used to derive the vault key.
pub const PBKDF2_ROUNDS: u32 = 100000;

/// Length of the random salt at the start of a vault file.
pub const SALT_LEN: usize = 16;

/// Length of the AES-GCM nonce that follows the salt.
pub const NONCE_LEN: usize = 12;

/// Length of the AES-GCM authentication tag at the end of the ciphertext.
pub const TAG_LEN: usize = 16;

/// Length of the derived AES-256 key.
pub const KEY_LEN: usize = 32;

/// Largest plaintext AES-GCM accepts, in bytes.
pub const MAX_PLAINTEXT: u64 = 0x10_0000_0000;

/// The key PBKDF2-HMAC-SHA256 derives from a password and salt.
pub uninterp spec fn pbkdf2_sha256(password: Seq<u8>, salt: Seq<u8>, rounds: u32, len: nat) -> Seq<u8>;

/// The AES-256-GCM ciphertext (with its tag) of a plaintext under a key and nonce.
pub uninterp spec fn aes256gcm_sealed(key: Seq<u8>, nonce: Seq<u8>, plaintext: Seq<u8>) -> Seq<u8>;

/// The plaintext AES-256-GCM recovers from a ciphertext, `None` when authentication fails.
pub uninterp spec fn aes256gcm_opened(key: Seq<u8>, nonce: Seq<u8>, ciphertext: Seq<u8>) -> Option<Seq<u8>>;

/// Calls `pbkdf2::pbkdf2_hmac::<sha2::Sha256>` into a buffer of `len` bytes.
/// Claims the result is the derived key, of that length.
#[verifier::external_body]
fn derive_key(password: &[u8], salt: &[u8], rounds: u32, len: usize) -> (r: Vec<u8>)
    ensures
        r@ == pbkdf2_sha256(password@, salt@, rounds, len as nat),
        r@.len() == len,
{
    let mut key = vec![0u8; len];
    pbkdf2::pbkdf2_hmac::<sha2::Sha256>(password, salt, rounds, &mut key);
    key
}

/// Calls `aes_gcm::Aes256Gcm::encrypt` with no associated data. The key must be
/// 32 bytes and the nonce 12 (their types' sizes) and the plaintext within the
/// AES-GCM limit, where encryption does not fail. Claims the result is the
/// ciphertext, which is as long as the plaintext plus the 16-byte tag, and that
/// decrypting it under the same key and nonce gives the plaintext back.
#[verifier::external_body]
fn aes_encrypt(key: &[u8], nonce: &[u8], plaintext: &[u8]) -> (r: Vec<u8>)
    requires
        key@.len() == 32,
        nonce@.len() == 12,
        plaintext@.len() <= MAX_PLAINTEXT,
    ensures
        r@ == aes256gcm_sealed(key@, nonce@, plaintext@),
        r@.len() == plaintext@.len() + TAG_LEN,
        aes256gcm_opened(key@, nonce@, r@) == Some(plaintext@),
{
    let cipher = <aes_gcm::Aes256Gcm as aes_gcm::aead::KeyInit>::new(
        aes_gcm::Key::<aes_gcm::Aes256Gcm>::from_slice(key),
    );
    match aes_gcm::aead::Aead::encrypt(&cipher, aes_gcm::Nonce::from_slice(nonce), plaintext) {
        Ok(v) => v,
        Err(_) => Vec::new(),
    }
}

/// Calls `aes_gcm::Aes256Gcm::decrypt` with no associated data. The key must be
/// 32 bytes and the nonce 12. Claims the result is what decryption yields,
/// `None` when it reports an error, which it always does for a ciphertext
/// shorter than the 16-byte tag; a plaintext it yields is the ciphertext's
/// length less the tag.
#[verifier::external_body]
fn aes_decrypt(key: &[u8], nonce: &[u8], ciphertext: &[u8]) -> (r: Option<Vec<u8>>)
    requires
        key@.len() == 32,
        nonce@.len() == 12,
    ensures
        match r {
            Some(v) => aes256gcm_opened(key@, nonce@, ciphertext@) == Some(v@),
            None => aes256gcm_opened(key@, nonce@, ciphertext@) is None,
        },
        ciphertext@.len() < TAG_LEN ==> r is None,
        r matches Some(v) ==> v@.len() + TAG_LEN == ciphertext@.len(),
{
    let cipher = <aes_gcm::Aes256Gcm as aes_gcm::aead::KeyInit>::new(
        aes_gcm::Key::<aes_gcm::Aes256Gcm>::from_slice(key),
    );
    match aes_gcm::aead::Aead::decrypt(&cipher, aes_gcm::Nonce::from_slice(nonce), ciphertext) {
        Ok(v) => Some(v),
        Err(_) => None,
    }
}

/// Calls `rand::thread_rng().fill_bytes` on `n` bytes. Claims only the length:
/// the bytes are random.
#[verifier::external_body]
fn random_bytes(n: usize) -> (r: Vec<u8>)
    ensures
        r@.len() == n,
{
    let mut v = vec![0u8; n];
    rand::RngCore::fill_bytes(&mut rand::thread_rng(), &mut v);
    v
}

/// Calls `String::from_utf8`. Claims, as its documentation says, that it
/// succeeds exactly on valid UTF-8 and then holds the text those bytes encode.
#[verifier::external_body]
fn utf8_to_string(bytes: Vec<u8>) -> (r: Option<String>)
    ensures
        r is Some <==> valid_utf8(bytes@),
        r matches Some(s) ==> s@ == decode_utf8(bytes@),
{
    match String::from_utf8(bytes) {
        Ok(s) => Some(s),
        Err(_) => None,
    }
}

fn copy_bytes(src: &[u8], a: usize, b: usize) -> (r: Vec<u8>)
    requires
        a <= b <= src@.len(),
    ensures
        r@ == src@.subrange(a as int, b as int),
{
    let mut r: Vec<u8> = Vec::new();
    let mut i = a;
    while i < b
        invariant
            a <= i <= b <= src@.len(),
            r@ == src@.subrange(a as int, i as int),
        decreases b - i,
    {
        r.push(src[i]);
        i += 1;
    }
    r
}

fn append_bytes(out: &mut Vec<u8>, src: &[u8])
    ensures
        final(out)@ == old(out)@ + src@,
{
    let mut i: usize = 0;
    while i < src.len()
        invariant
            0 <= i <= src@.len(),
            out@ == old(out)@ + src@.subrange(0, i as int),
        decreases src@.len() - i,
    {
        out.push(src[i]);
        i += 1;
        proof {
            assert(src@.subrange(0, i as int) =~= src@.subrange(0, i - 1).push(src@[i - 1]));
        }
    }
    proof {
        assert(src@.subrange(0, i as int) =~= src@);
    }
}

/// The key of a vault whose file starts with `salt`.
pub open spec fn vault_key(password: Seq<char>, salt: Seq<u8>) -> Seq<u8> {
    pbkdf2_sha256(encode_utf8(password), salt, PBKDF2_ROUNDS, KEY_LEN as nat)
}

/// What opening vault bytes with a password gives: the error message, or the stored text.
pub open spec fn vault_contents(data: Seq<u8>, password: Seq<char>) -> Result<Seq<char>, Seq<char>> {
    if data.len() < 28 {
        Err("Invalid vault data"@)
    } else if data.len() < 28 + TAG_LEN {
        Err("Invalid password or corrupted vault"@)
    } else {
        match aes256gcm_opened(
            vault_key(password, data.subrange(0, 16)),
            data.subrange(16, 28),
            data.subrange(28, data.len() as int),
        ) {
            None => Err("Invalid password or corrupted vault"@),
            Some(pt) => if valid_utf8(pt) {
                Ok(decode_utf8(pt))
            } else {
                Err("Invalid UTF-8 in vault"@)
            },
        }
    }
}

/// Encrypts the vault text under a key derived from the password: a fresh
/// random salt, then a fresh random nonce, then the AES-256-GCM ciphertext.
/// Opening the result with the same password gives the text back.
pub fn encrypt_vault(data: &str, password: &str) -> (r: Vec<u8>)
    requires
        encode_utf8(data@).len() <= MAX_PLAINTEXT,
    ensures
        r@.len() == 28 + encode_utf8(data@).len() + TAG_LEN,
        r@.subrange(28, r@.len() as int) == aes256gcm_sealed(
            vault_key(password@, r@.subrange(0, 16)),
            r@.subrange(16, 28),
            encode_utf8(data@),
        ),
        vault_contents(r@, password@) == Ok::<Seq<char>, Seq<char>>(data@),
{
    let salt = random_bytes(SALT_LEN);
    let key = derive_key(password.as_bytes(), salt.as_slice(), PBKDF2_ROUNDS, KEY_LEN);
    let nonce = random_bytes(NONCE_LEN);
    let pt = data.as_bytes();
    let ct = aes_encrypt(key.as_slice(), nonce.as_slice(), pt);
    let mut out: Vec<u8> = Vec::new();
    append_bytes(&mut out, salt.as_slice());
    append_bytes(&mut out, nonce.as_slice());
    append_bytes(&mut out, ct.as_slice());
    proof {
        assert(out@.subrange(0, 16) =~= salt@);
        assert(out@.subrange(16, 28) =~= nonce@);
        assert(out@.subrange(28, out@.len() as int) =~= ct@);
    }
    out
}

/// Opens vault bytes with a password, giving the stored text or the reason it failed.
pub fn decrypt_vault(data: &[u8], password: &str) -> (r: Result<String, String>)
    ensures
        match r {
            Ok(s) => vault_contents(data@, password@) == Ok::<Seq<char>, Seq<char>>(s@),
            Err(e) => vault_contents(data@, password@) == Err::<Seq<char>, Seq<char>>(e@),
        },
{
    if data.len() < 28 {
        return Err(string_of(lit("Invalid vault data").as_slice()));
    }
    let salt = copy_bytes(data, 0, 16);
    let nonce = copy_bytes(data, 16, 28);
    let ct = copy_bytes(data, 28, data.len());
    let key = derive_key(password.as_bytes(), salt.as_slice(), PBKDF2_ROUNDS, KEY_LEN);
    match aes_decrypt(key.as_slice(), nonce.as_slice(), ct.as_slice()) {
        None => Err(string_of(lit("Invalid password or corrupted vault").as_slice())),
        Some(pt) => match utf8_to_string(pt) {
            Some(s) => Ok(s),
            None => Err(string_of(lit("Invalid UTF-8 in vault").as_slice())),
        },
    }
}

/// One vault slot: the alias it is stored under and the credential.
#[derive(Clone, Debug)]
pub struct VaultEntry {
    pub key: String,
    pub credential: Credential,
}

/// The decrypted vault: credentials by alias.
#[derive(Clone, Debug)]
pub struct Vault {
    pub entries: Vec<VaultEntry>,
}

/// The mathematical value of vault slots.
pub open spec fn slots_view(es: Seq<VaultEntry>) -> Seq<(Seq<char>, CredentialView)> {
    es.map_values(|e: VaultEntry| (e.key@, e.credential@))
}

/// The credential stored under `key`: that of its first slot, if any.
pub open spec fn lookup(es: Seq<(Seq<char>, CredentialView)>, key: Seq<char>) -> Option<CredentialView>
    decreases es.len(),
{
    if es.len() == 0 {
        None
    } else if es[0].0 == key {
        Some(es[0].1)
    } else {
        lookup(es.drop_first(), key)
    }
}

proof fn lemma_lookup_push(es: Seq<(Seq<char>, CredentialView)>, x: (Seq<char>, CredentialView), key: Seq<char>)
    ensures
        lookup(es.push(x), key) == (if lookup(es, key) is Some {
            lookup(es, key)
        } else if x.0 == key {
            Some(x.1)
        } else {
            None
        }),
    decreases es.len(),
{
    if es.len() > 0 {
        assert(es.push(x)[0] == es[0]);
        assert(es.push(x).drop_first() =~= es.drop_first().push(x));
        lemma_lookup_push(es.drop_first(), x, key);
    } else {
        assert(es.push(x).drop_first() =~= Seq::<(Seq<char>, CredentialView)>::empty());
        assert(lookup(es.push(x).drop_first(), key) is None);
        assert(es.push(x)[0] == x);
    }
}

/// The slots left once every slot stored under `key` is taken out, in order.
pub open spec fn without_key(es: Seq<(Seq<char>, CredentialView)>, key: Seq<char>) -> Seq<(Seq<char>, CredentialView)>
    decreases es.len(),
{
    if es.len() == 0 {
        seq![]
    } else {
        let r = without_key(es.drop_last(), key);
        if es.last().0 == key {
            r
        } else {
            r.push(es.last())
        }
    }
}

/// The slots after storing `cred` under `key`: the other slots in order, then the new one.
pub open spec fn inserted(
    es: Seq<(Seq<char>, CredentialView)>,
    key: Seq<char>,
    cred: CredentialView,
) -> Seq<(Seq<char>, CredentialView)> {
    without_key(es, key).push((key, cred))
}

/// Whether no alias has two slots.
pub open spec fn keys_distinct(es: Seq<(Seq<char>, CredentialView)>) -> bool {
    forall|i: int, j: int| 0 <= i < j < es.len() ==> #[trigger] es[i].0 != #[trigger] es[j].0
}

proof fn lemma_without_key_push(es: Seq<(Seq<char>, CredentialView)>, x: (Seq<char>, CredentialView), key: Seq<char>)
    ensures
        without_key(es.push(x), key) == if x.0 == key {
            without_key(es, key)
        } else {
            without_key(es, key).push(x)
        },
{
    assert(es.push(x).drop_last() =~= es);
    assert(es.push(x).last() == x);
}

proof fn lemma_lookup_without_key(es: Seq<(Seq<char>, CredentialView)>, key: Seq<char>, k: Seq<char>)
    ensures
        lookup(without_key(es, key), k) == if k == key { None } else { lookup(es, k) },
    decreases es.len(),
{
    if es.len() > 0 {
        let rest = es.drop_last();
        let x = es.last();
        assert(rest.push(x) =~= es);
        lemma_lookup_without_key(rest, key, k);
        lemma_lookup_push(rest, x, k);
        if x.0 != key {
            lemma_lookup_push(without_key(rest, key), x, k);
        }
    }
}

proof fn lemma_without_key_shape(es: Seq<(Seq<char>, CredentialView)>, key: Seq<char>)
    ensures
        forall|i: int| 0 <= i < without_key(es, key).len() ==> (#[trigger] without_key(es, key)[i]).0 != key,
        forall|i: int| 0 <= i < without_key(es, key).len() ==> es.contains(#[trigger] without_key(es, key)[i]),
        keys_distinct(es) ==> keys_distinct(without_key(es, key)),
    decreases es.len(),
{
    if es.len() > 0 {
        let rest = es.drop_last();
        let x = es.last();
        let r = without_key(rest, key);
        lemma_without_key_shape(rest, key);
        assert forall|i: int| 0 <= i < r.len() implies es.contains(#[trigger] r[i]) by {
            let j = choose|j: int| 0 <= j < rest.len() && rest[j] == r[i];
            assert(es[j] == r[i]);
        }
        assert(es[es.len() - 1] == x);
        if x.0 != key {
            let r2 = r.push(x);
            assert forall|i: int| 0 <= i < r2.len() implies es.contains(#[trigger] r2[i]) by {
                if i < r.len() {
                    assert(r2[i] == r[i]);
                }
            }
            if keys_distinct(es) {
                assert(keys_distinct(rest)) by {
                    assert forall|i: int, j: int| 0 <= i < j < rest.len() implies #[trigger] rest[i].0 != #[trigger] rest[j].0 by {
                        assert(es[i] == rest[i] && es[j] == rest[j]);
                    }
                }
                assert forall|i: int, j: int| 0 <= i < j < r2.len() implies #[trigger] r2[i].0 != #[trigger] r2[j].0 by {
                    if j == r.len() {
                        let m = choose|m: int| 0 <= m < rest.len() && rest[m] == r[i];
                        assert(es[m] == r[i]);
                        assert(es[m].0 != es[es.len() - 1].0);
                    } else {
                        assert(r2[i] == r[i] && r2[j] == r[j]);
                    }
                }
            }
        } else if keys_distinct(es) {
            assert(keys_distinct(rest)) by {
                assert forall|i: int, j: int| 0 <= i < j < rest.len() implies #[trigger] rest[i].0 != #[trigger] rest[j].0 by {
                    assert(es[i] == rest[i] && es[j] == rest[j]);
                }
            }
        }
    }
}

impl Vault {
    /// The credential stored under `key`.
    pub open spec fn get_spec(&self, key: Seq<char>) -> Option<CredentialView> {
        lookup(slots_view(self.entries@), key)
    }

    /// An empty vault.
    pub fn new() -> (r: Vault)
        ensures
            forall|k: Seq<char>| #[trigger] r.get_spec(k) is None,
            keys_distinct(slots_view(r.entries@)),
    {
        let r = Vault { entries: Vec::new() };
        assert(slots_view(r.entries@) =~= Seq::<(Seq<char>, CredentialView)>::empty());
        r
    }

    /// Removes the credential stored under `alias`; returns whether there was one.
    pub fn remove(&mut self, alias: &str) -> (r: bool)
        ensures
            r == old(self).get_spec(alias@) is Some,
            slots_view(final(self).entries@) == without_key(slots_view(old(self).entries@), alias@),
            forall|k: Seq<char>| #[trigger] final(self).get_spec(k) == if k == alias@ {
                None
            } else {
                old(self).get_spec(k)
            },
            keys_distinct(slots_view(old(self).entries@)) ==> keys_distinct(slots_view(final(self).entries@)),
    {
        let ghost old_slots = slots_view(self.entries@);
        let key = string_of(crate::text::chars_of(alias).as_slice());
        let mut kept: Vec<VaultEntry> = Vec::new();
        let mut found = false;
        let mut i: usize = 0;
        assert(slots_view(kept@) =~= Seq::<(Seq<char>, CredentialView)>::empty());
        while i < self.entries.len()
            invariant
                old_slots == slots_view(self.entries@),
                key@ == alias@,
                0 <= i <= self.entries@.len(),
                found == lookup(old_slots.subrange(0, i as int), alias@) is Some,
                slots_view(kept@) == without_key(old_slots.subrange(0, i as int), alias@),
                forall|k: Seq<char>| #[trigger] lookup(slots_view(kept@), k) == if k == alias@ {
                    None
                } else {
                    lookup(old_slots.subrange(0, i as int), k)
                },
            decreases self.entries@.len() - i,
        {
            let ghost before = slots_view(kept@);
            let ghost x = old_slots[i as int];
            proof {
                assert(old_slots.subrange(0, i + 1) =~= old_slots.subrange(0, i as int).push(x));
                assert forall|k: Seq<char>| true implies #[trigger] lookup(old_slots.subrange(0, i + 1), k)
                    == (if lookup(old_slots.subrange(0, i as int), k) is Some {
                        lookup(old_slots.subrange(0, i as int), k)
                    } else if x.0 == k {
                        Some(x.1)
                    } else {
                        None
                    }) by {
                    lemma_lookup_push(old_slots.subrange(0, i as int), x, k);
                }
                lemma_without_key_push(old_slots.subrange(0, i as int), x, alias@);
            }
            if self.entries[i].key == key {
                found = true;
            } else {
                let e = VaultEntry {
                    key: self.entries[i].key.clone(),
                    credential: self.entries[i].credential.duplicate(),
                };
                kept.push(e);
                proof {
                    assert(slots_view(kept@) =~= before.push(x));
                    assert forall|k: Seq<char>| true implies #[trigger] lookup(slots_view(kept@), k)
                        == if k == alias@ {
                        None
                    } else {
                        lookup(old_slots.subrange(0, i + 1), k)
                    } by {
                        lemma_lookup_push(before, x, k);
                    }
                }
            }
            i += 1;
        }
        assert(old_slots.subrange(0, i as int) =~= old_slots);
        proof {
            lemma_without_key_shape(old_slots, alias@);
        }
        self.entries = kept;
        found
    }

    /// Stores `cred` under `key`, replacing what was stored there.
    pub fn insert(&mut self, key: String, cred: Credential)
        ensures
            slots_view(final(self).entries@) == inserted(slots_view(old(self).entries@), key@, cred@),
            keys_distinct(slots_view(old(self).entries@)) ==> keys_distinct(slots_view(final(self).entries@)),
            forall|k: Seq<char>| #[trigger] final(self).get_spec(k) == if k == key@ {
                Some(cred@)
            } else {
                old(self).get_spec(k)
            },
    {
        let ghost key_v = key@;
        let ghost start = slots_view(self.entries@);
        let _ = self.remove(key.as_str());
        assert(self.get_spec(key_v) is None);
        let ghost mid = *self;
        let ghost before = slots_view(self.entries@);
        let ghost x = (key@, cred@);
        self.entries.push(VaultEntry { key, credential: cred });
        proof {
            assert(slots_view(self.entries@) =~= before.push(x));
            lemma_without_key_shape(start, key_v);
            if keys_distinct(start) {
                let fin = slots_view(self.entries@);
                assert forall|i: int, j: int| 0 <= i < j < fin.len() implies #[trigger] fin[i].0 != #[trigger] fin[j].0 by {
                    if j == before.len() {
                        assert(before[i].0 != key_v);
                    } else {
                        assert(fin[i] == before[i] && fin[j] == before[j]);
                    }
                }
            }
            assert forall|k: Seq<char>| true implies #[trigger] lookup(slots_view(self.entries@), k)
                == (if k == key_v { Some(x.1) } else { lookup(before, k) }) by {
                lemma_lookup_push(before, x, k);
            }
            assert forall|k: Seq<char>| true implies #[trigger] self.get_spec(k) == if k == key_v {
                Some(cred@)
            } else {
                old(self).get_spec(k)
            } by {
                assert(mid.get_spec(k) == lookup(before, k));
                assert(lookup(slots_view(self.entries@), k) == (if k == key_v { Some(x.1) } else { lookup(before, k) }));
            }
        }
    }

    /// The credential stored under `alias`.
    pub fn get(&self, alias: &str) -> (r: Result<Credential, String>)
        ensures
            match r {
                Ok(c) => self.get_spec(alias@) == Some(c@),
                Err(e) => self.get_spec(alias@) is None && e@ == "Alias not found in vault"@,
            },
    {
        let ghost slots = slots_view(self.entries@);
        let key = string_of(crate::text::chars_of(alias).as_slice());
        let mut i: usize = 0;
        assert(slots.subrange(0, slots.len() as int) =~= slots);
        while i < self.entries.len()
            invariant
                slots == slots_view(self.entries@),
                key@ == alias@,
                0 <= i <= self.entries@.len(),
                lookup(slots, alias@) == lookup(slots.subrange(i as int, slots.len() as int), alias@),
            decreases self.entries@.len() - i,
        {
            let ghost rest = slots.subrange(i as int, slots.len() as int);
            assert(rest[0] == slots[i as int]);
            assert(rest.drop_first() =~= slots.subrange(i + 1, slots.len() as int));
            if self.entries[i].key == key {
                return Ok(self.entries[i].credential.duplicate());
            }
            i += 1;
        }
        assert(slots.subrange(i as int, slots.len() as int) =~= Seq::<(Seq<char>, CredentialView)>::empty());
        Err(string_of(lit("Alias not found in vault").as_slice()))
    }
}

/// Reading a credential back from a vault after storing it under a key gives
/// that credential, and every other alias still gives what it gave before:
/// `Vault::get` reads `lookup` of the slots that `Vault::insert` leaves.
pub proof fn law_vault_read_after_write(
    slots: Seq<(Seq<char>, CredentialView)>,
    key: Seq<char>,
    cred: CredentialView,
    other: Seq<char>,
)
    requires
        other != key,
    ensures
        lookup(inserted(slots, key, cred), key) == Some(cred),
        lookup(inserted(slots, key, cred), other) == lookup(slots, other),
{
    lemma_lookup_without_key(slots, key, key);
    lemma_lookup_without_key(slots, key, other);
    lemma_lookup_push(without_key(slots, key), (key, cred), key);
    lemma_lookup_push(without_key(slots, key), (key, cred), other);
}

/// Removing an alias from a vault leaves nothing under it, and every other
/// alias still gives what it gave before.
pub proof fn law_vault_remove(
    slots: Seq<(Seq<char>, CredentialView)>,
    key: Seq<char>,
    other: Seq<char>,
)
    requires
        other != key,
    ensures
        lookup(without_key(slots, key), key) is None,
        lookup(without_key(slots, key), other) == lookup(slots, other),
{
    lemma_lookup_without_key(slots, key, key);
    lemma_lookup_without_key(slots, key, other);
}

/// Storing a credential keeps every alias in at most one slot.
pub proof fn law_insert_keeps_aliases_distinct(
    slots: Seq<(Seq<char>, CredentialView)>,
    key: Seq<char>,
    cred: CredentialView,
)
    requires
        keys_distinct(slots),
    ensures
        keys_distinct(inserted(slots, key, cred)),
{
    lemma_without_key_shape(slots, key);
    let w = without_key(slots, key);
    let fin = inserted(slots, key, cred);
    assert forall|i: int, j: int| 0 <= i < j < fin.len() implies #[trigger] fin[i].0 != #[trigger] fin[j].0 by {
        if j == w.len() {
            assert(fin[i] == w[i]);
            assert(w[i].0 != key);
        } else {
            assert(fin[i] == w[i] && fin[j] == w[j]);
        }
    }
}

/// The home directory the configuration lives under: `HOME` when set,
/// else `USERPROFILE`, else the current directory.
pub open spec fn home_of(home: Option<Seq<char>>, user_profile: Option<Seq<char>>) -> Seq<char> {
    match home {
        Some(h) => h,
        None => match user_profile {
            Some(u) => u,
            None => "."@,
        },
    }
}

/// The directory of the global configuration: `.damconfig` under the home directory.
pub fn global_dir(home: Option<&str>, user_profile: Option<&str>) -> (r: String)
    ensures
        r@ == join_path(
            home_of(
                match home {
                    Some(h) => Some(h@),
                    None => None,
                },
                match user_profile {
                    Some(u) => Some(u@),
                    None => None,
                },
            ),
            ".damconfig"@,
        ),
{
    let base = match home {
        Some(h) => chars_of(h),
        None => match user_profile {
            Some(u) => chars_of(u),
            None => lit("."),
        },
    };
    let name = lit(".damconfig");
    string_of(join_path_exec(base.as_slice(), name.as_slice()).as_slice())
}

/// The file that lists the registered aliases, inside the global directory.
pub fn index_path(global_dir: &str) -> (r: String)
    ensures
        r@ == join_path(global_dir@, "aliases.json"@),
{
    let base = chars_of(global_dir);
    let name = lit("aliases.json");
    string_of(join_path_exec(base.as_slice(), name.as_slice()).as_slice())
}

/// Registers an alias in the index unless it is there already; returns whether it was added.
pub fn add_alias(aliases: &mut Vec<String>, alias: &str) -> (added: bool)
    ensures
        added == !strings_view(old(aliases)@).contains(alias@),
        added ==> strings_view(final(aliases)@) == strings_view(old(aliases)@).push(alias@),
        !added ==> final(aliases)@ == old(aliases)@,
{
    let a = string_of(chars_of(alias).as_slice());
    if strings_contain(aliases, &a) {
        false
    } else {
        let ghost before = strings_view(aliases@);
        aliases.push(a);
        assert(strings_view(aliases@) =~= before.push(alias@));
        true
    }
}

/// `s` without any occurrence of `x`, order kept.
pub open spec fn without(s: Seq<Seq<char>>, x: Seq<char>) -> Seq<Seq<char>>
    decreases s.len(),
{
    if s.len() == 0 {
        seq![]
    } else if s.last() == x {
        without(s.drop_last(), x)
    } else {
        without(s.drop_last(), x).push(s.last())
    }
}

/// Drops every occurrence of an alias from the index.
pub fn remove_alias(aliases: &mut Vec<String>, alias: &str)
    ensures
        strings_view(final(aliases)@) == without(strings_view(old(aliases)@), alias@),
{
    let ghost old_v = strings_view(aliases@);
    let a = string_of(chars_of(alias).as_slice());
    let mut kept: Vec<String> = Vec::new();
    let mut i: usize = 0;
    assert(strings_view(kept@) =~= Seq::<Seq<char>>::empty());
    assert(old_v.subrange(0, 0) =~= Seq::<Seq<char>>::empty());
    while i < aliases.len()
        invariant
            old_v == strings_view(aliases@),
            a@ == alias@,
            0 <= i <= aliases@.len(),
            strings_view(kept@) == without(old_v.subrange(0, i as int), alias@),
        decreases aliases@.len() - i,
    {
        let ghost before = strings_view(kept@);
        proof {
            assert(old_v.subrange(0, i + 1).drop_last() =~= old_v.subrange(0, i as int));
            assert(old_v.subrange(0, i + 1).last() == aliases@[i as int]@);
        }
        if !(aliases[i] == a) {
            kept.push(aliases[i].clone());
            assert(strings_view(kept@) =~= before.push(old_v[i as int]));
        }
        i += 1;
    }
    assert(old_v.subrange(0, i as int) =~= old_v);
    *aliases = kept;
}

proof fn lemma_without_lacks(s: Seq<Seq<char>>, x: Seq<char>)
    ensures
        !without(s, x).contains(x),
    decreases s.len(),
{
    if s.len() > 0 {
        lemma_without_lacks(s.drop_last(), x);
        let w = without(s.drop_last(), x);
        if s.last() != x {
            if w.push(s.last()).contains(x) {
                let k = choose|k: int| 0 <= k < w.push(s.last()).len() && w.push(s.last())[k] == x;
                assert(k < w.len());
                assert(w[k] == x);
            }
        }
    }
}

/// After registering an alias the index holds it; after dropping it the index does not.
pub proof fn law_alias_registration(aliases: Seq<Seq<char>>, alias: Seq<char>)
    ensures
        aliases.push(alias).contains(alias),
        !without(aliases, alias).contains(alias),
{
    assert(aliases.push(alias)[aliases.len() as int] == alias);
    lemma_without_lacks(aliases, alias);
}

/// Stores a credential in the vault under its alias, and registers the alias
/// in the index unless it is there already.
pub fn save_credential(vault: &mut Vault, aliases: &mut Vec<String>, cred: Credential)
    ensures
        forall|k: Seq<char>| #[trigger] final(vault).get_spec(k) == if k == cred.alias@ {
            Some(cred@)
        } else {
            old(vault).get_spec(k)
        },
        strings_view(final(aliases)@) == if strings_view(old(aliases)@).contains(cred.alias@) {
            strings_view(old(aliases)@)
        } else {
            strings_view(old(aliases)@).push(cred.alias@)
        },
{
    let key = cred.alias.clone();
    let name = cred.alias.clone();
    vault.insert(key, cred);
    add_alias(aliases, name.as_str());
}

/// Removes the credential stored under `alias`. When there was one, the alias
/// leaves the index and the result is true: the vault is to be written back.
pub fn delete_credential(vault: &mut Vault, aliases: &mut Vec<String>, alias: &str) -> (r: bool)
    ensures
        r == old(vault).get_spec(alias@) is Some,
        forall|k: Seq<char>| #[trigger] final(vault).get_spec(k) == if k == alias@ {
            None
        } else {
            old(vault).get_spec(k)
        },
        r ==> strings_view(final(aliases)@) == without(strings_view(old(aliases)@), alias@),
        !r ==> final(aliases)@ == old(aliases)@,
{
    let found = vault.remove(alias);
    if found {
        remove_alias(aliases, alias);
    }
    found
}

/// The kind of credential a menu answer picks: `1` a fine-grained token, `2`
/// a classic token, `3` an SSH key (whose path is entered), anything else a
/// generic secret; spaces around the answer are ignored.
pub fn credential_kind(choice: &str) -> (r: &'static str)
    ensures
        r@ == if trim(choice@) == "1"@ {
            "FineGrainedToken"@
        } else if trim(choice@) == "2"@ {
            "ClassicToken"@
        } else if trim(choice@) == "3"@ {
            "SshKey"@
        } else {
            "Generic"@
        },
{
    let t = trim_exec(chars_of(choice).as_slice());
    if chars_eq(t.as_slice(), lit("1").as_slice()) {
        "FineGrainedToken"
    } else if chars_eq(t.as_slice(), lit("2").as_slice()) {
        "ClassicToken"
    } else if chars_eq(t.as_slice(), lit("3").as_slice()) {
        "SshKey"
    } else {
        "Generic"
    }
}

/// A new credential: the secret as entered without surrounding spaces, and nothing extra.
pub fn new_credential(alias: &str, cred_type: &str, secret: &str) -> (r: Credential)
    ensures
        r@ == (CredentialView {
            alias: alias@,
            cred_type: cred_type@,
            secret: trim(secret@),
            extra: None,
        }),
{
    Credential {
        alias: string_of(chars_of(alias).as_slice()),
        cred_type: string_of(chars_of(cred_type).as_slice()),
        secret: string_of(trim_exec(chars_of(secret).as_slice()).as_slice()),
        extra: None,
    }
}

} // verus!


