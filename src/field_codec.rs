use aes_gcm::aead::{Aead, NewAead};
use std::hash::BuildHasher;
use vstd::prelude::*;
use vstd::slice::slice_to_vec;
use vstd::utf8::{decode_utf8, encode_utf8, valid_utf8};

use crate::error::DbError;
use crate::text::{decimal, decimal_string};

verus! {

/// The longest plaintext, in bytes, that this store seals: GCM's own limit,
/// 2^36 - 32. Beyond it the cipher's 32-bit block counter would run out.
pub const MAX_PLAINTEXT: u64 = 0xF_FFFF_FFE0;

/// The length of the authentication tag that follows each ciphertext.
pub const TAG_LEN: u64 = 16;

/// The byte between two field chunks of an encrypted row file.
pub const SEALED_DELIMITER: u8 = 44;

/// The byte between two fields of an unencrypted row file, a newline.
pub const PLAIN_DELIMITER: u8 = 10;

/// How the fields of a row are stored.
#[derive(Clone, Copy, Debug)]
pub enum Cipher {
    /// Each field is stored as its UTF-8 text.
    Plain,
    /// Each field is sealed with AES-128-GCM under this key.
    Aes128Gcm([u8; 16]),
}

/// What AES-128-GCM produces for `plain` under `key` and `nonce`: the
/// ciphertext followed by the 16-byte tag.
pub uninterp spec fn sealed(key: Seq<u8>, nonce: Seq<u8>, plain: Seq<u8>) -> Seq<u8>;

/// What AES-128-GCM recovers from `chunk` under `key` and `nonce`, if its tag verifies.
pub uninterp spec fn opened(key: Seq<u8>, nonce: Seq<u8>, chunk: Seq<u8>) -> Option<Seq<u8>>;

/// The 64-bit digest that std's `DefaultHasher` gives a text.
pub uninterp spec fn text_digest(s: Seq<char>) -> u64;

/// Relies on aes_gcm 0.9's `Aes128Gcm::new` and `Aead::encrypt` with no
/// associated data: for a plaintext within GCM's limit of 2^36 - 32 bytes it
/// succeeds, returning ciphertext and tag (plaintext length plus 16 bytes) as a
/// function of key, nonce and plaintext. Longer plaintexts are kept out, since
/// the block counter check in `ctr` panics on some of them.
#[verifier::external_body]
fn aes_gcm_seal(key: &[u8; 16], nonce: &[u8], plain: &[u8]) -> (r: Option<Vec<u8>>)
    requires
        nonce@.len() == 12,
        plain@.len() <= MAX_PLAINTEXT,
    ensures
        r is Some,
        r matches Some(c) ==> c@ == sealed(key@, nonce@, plain@),
        r matches Some(c) ==> c@.len() == plain@.len() + TAG_LEN,
{
    let cipher = aes_gcm::Aes128Gcm::new(aes_gcm::Key::from_slice(key));
    cipher.encrypt(aes_gcm::Nonce::from_slice(nonce), plain).ok()
}

/// Relies on aes_gcm 0.9's `Aes128Gcm::new` and `Aead::decrypt` with no
/// associated data: the result depends on key, nonce and chunk alone, and a
/// chunk that `encrypt` made under the same key and nonce opens to its
/// plaintext. Chunks over the plaintext limit plus the tag are kept out, since
/// the block counter check in `ctr` panics on some of them.
#[verifier::external_body]
fn aes_gcm_open(key: &[u8; 16], nonce: &[u8], chunk: &[u8]) -> (r: Option<Vec<u8>>)
    requires
        nonce@.len() == 12,
        chunk@.len() <= MAX_PLAINTEXT + TAG_LEN,
    ensures
        match r {
            Some(p) => opened(key@, nonce@, chunk@) == Some(p@),
            None => opened(key@, nonce@, chunk@) is None,
        },
        forall|p: Seq<u8>|
            p.len() <= MAX_PLAINTEXT && #[trigger] sealed(key@, nonce@, p) == chunk@
                ==> r is Some && r->0@ == p,
{
    let cipher = aes_gcm::Aes128Gcm::new(aes_gcm::Key::from_slice(key));
    cipher.decrypt(aes_gcm::Nonce::from_slice(nonce), chunk).ok()
}

/// Relies on std's `BuildHasher::hash_one` over `BuildHasherDefault<DefaultHasher>`:
/// every `DefaultHasher` made by `new` or `default` starts from the same keys, so
/// the digest depends on the text alone.
#[verifier::external_body]
pub(crate) fn digest_text(s: &str) -> (r: u64)
    ensures
        r == text_digest(s@),
{
    std::hash::BuildHasherDefault::<std::collections::hash_map::DefaultHasher>::default().hash_one(s)
}

/// Relies on std's `String::from_utf8`: it succeeds exactly on valid UTF-8,
/// and then holds the text whose UTF-8 encoding is the bytes given.
#[verifier::external_body]
pub(crate) fn text_from_utf8(b: Vec<u8>) -> (r: Option<String>)
    ensures
        r is Some <==> valid_utf8(b@),
        r matches Some(s) ==> encode_utf8(s@) == b@,
{
    String::from_utf8(b).ok()
}

/// The text that names a field position: `"{table}-{row}-{field}"`.
pub open spec fn position_id(t: nat, r: nat, f: nat) -> Seq<char> {
    decimal(t) + seq!['-'] + decimal(r) + seq!['-'] + decimal(f)
}

/// The nonce of a field position: the first 12 characters of the decimal
/// rendering of the digest of its position text, taken as bytes. A digest under
/// 10^11 has fewer than 12 digits and gives no nonce.
///
/// The nonce depends on the position alone: rewriting a field in place reuses
/// it under the same key.
pub open spec fn nonce_of(t: nat, r: nat, f: nat) -> Option<Seq<u8>> {
    let d = decimal(text_digest(position_id(t, r, f)) as nat);
    if d.len() >= 12 {
        Some(d.take(12).map_values(|c: char| c as u8))
    } else {
        None
    }
}

impl Cipher {
    pub open spec fn delimiter_spec(self) -> u8 {
        match self {
            Cipher::Plain => PLAIN_DELIMITER,
            Cipher::Aes128Gcm(_) => SEALED_DELIMITER,
        }
    }

    /// The byte that separates the field chunks of a row file.
    pub fn delimiter(&self) -> (d: u8)
        ensures
            d == self.delimiter_spec(),
    {
        match self {
            Cipher::Plain => PLAIN_DELIMITER,
            Cipher::Aes128Gcm(_) => SEALED_DELIMITER,
        }
    }
}

/// The chunk of field `f` of row `r` in table `t` holding `text`, or `None`
/// when it cannot be sealed: no nonce for the position, or a text over the
/// limit. (A sealed chunk is always the plaintext length plus the tag, as
/// `aes_gcm_seal` states; the condition only carries that length along.)
pub open spec fn field_chunk(c: Cipher, t: nat, r: nat, f: nat, text: Seq<char>) -> Option<Seq<u8>> {
    let p = encode_utf8(text);
    match c {
        Cipher::Plain => Some(p),
        Cipher::Aes128Gcm(key) => match nonce_of(t, r, f) {
            Some(n) => if p.len() <= MAX_PLAINTEXT && sealed(key@, n, p).len() == p.len()
                + TAG_LEN {
                Some(sealed(key@, n, p))
            } else {
                None
            },
            None => None,
        },
    }
}

/// The text of field `f` of row `r` in table `t` stored as `chunk`, or `None`
/// when the chunk is over the limit, does not open, or does not hold UTF-8.
pub open spec fn field_text(c: Cipher, t: nat, r: nat, f: nat, chunk: Seq<u8>) -> Option<Seq<char>> {
    let p = match c {
        Cipher::Plain => Some(chunk),
        Cipher::Aes128Gcm(key) => match nonce_of(t, r, f) {
            Some(n) => if chunk.len() <= MAX_PLAINTEXT + TAG_LEN {
                opened(key@, n, chunk)
            } else {
                None
            },
            None => None,
        },
    };
    match p {
        Some(b) => if valid_utf8(b) {
            Some(decode_utf8(b))
        } else {
            None
        },
        None => None,
    }
}

/// The nonce of a field position, as `nonce_of` describes it.
pub fn derive_nonce(t: usize, r: usize, f: usize) -> (n: Option<Vec<u8>>)
    ensures
        match n {
            Some(v) => nonce_of(t as nat, r as nat, f as nat) == Some(v@),
            None => nonce_of(t as nat, r as nat, f as nat) is None,
        },
{
    let dash = "-";
    proof {
        reveal_strlit("-");
    }
    let mut id = decimal_string(t as u64);
    id.append(dash);
    let rs = decimal_string(r as u64);
    id.append(rs.as_str());
    id.append(dash);
    let fs = decimal_string(f as u64);
    id.append(fs.as_str());
    proof {
        assert(id@ =~= position_id(t as nat, r as nat, f as nat));
    }
    let h = digest_text(id.as_str());
    let d = decimal_string(h);
    let len = d.as_str().unicode_len();
    if len < 12 {
        return None;
    }
    let mut out: Vec<u8> = Vec::new();
    let mut i: usize = 0;
    while i < 12
        invariant
            i <= 12,
            len == d@.len(),
            len >= 12,
            out@ == d@.take(i as int).map_values(|c: char| c as u8),
        decreases 12 - i,
    {
        let c = d.as_str().get_char(i);
        out.push(c as u8);
        proof {
            assert(d@.take(i + 1).map_values(|c: char| c as u8) =~= d@.take(i as int).map_values(
                |c: char| c as u8,
            ).push(c as u8));
        }
        i = i + 1;
    }
    Some(out)
}

/// Encodes `text` as field `f` of row `r` in table `t`: its UTF-8 bytes in the
/// plain mode, sealed under the position's nonce in the encrypted one.
pub fn encode_field(c: &Cipher, t: usize, r: usize, f: usize, text: &str) -> (res: Result<
    Vec<u8>,
    DbError,
>)
    ensures
        match res {
            Ok(b) => field_chunk(*c, t as nat, r as nat, f as nat, text@) == Some(b@),
            Err(e) => e == DbError::CryptoError && field_chunk(
                *c,
                t as nat,
                r as nat,
                f as nat,
                text@,
            ) is None,
        },
{
    let plain = text.as_bytes_vec();
    match c {
        Cipher::Plain => Ok(plain),
        Cipher::Aes128Gcm(key) => {
            if plain.len() as u64 > MAX_PLAINTEXT {
                return Err(DbError::CryptoError);
            }
            let nonce = derive_nonce(t, r, f);
            match nonce {
                Some(n) => {
                    let sealed_chunk = aes_gcm_seal(key, n.as_slice(), plain.as_slice());
                    match sealed_chunk {
                        Some(b) => Ok(b),
                        None => Err(DbError::CryptoError),
                    }
                },
                None => Err(DbError::CryptoError),
            }
        },
    }
}

/// Decodes the chunk of field `f` of row `r` in table `t` back into its text.
pub fn decode_field(c: &Cipher, t: usize, r: usize, f: usize, chunk: &[u8]) -> (res: Result<
    String,
    DbError,
>)
    ensures
        match res {
            Ok(s) => field_text(*c, t as nat, r as nat, f as nat, chunk@) == Some(s@),
            Err(e) => e == DbError::CryptoError && field_text(
                *c,
                t as nat,
                r as nat,
                f as nat,
                chunk@,
            ) is None,
        },
        forall|s: Seq<char>|
            #[trigger] field_chunk(*c, t as nat, r as nat, f as nat, s) == Some(chunk@)
                ==> res is Ok && res->Ok_0@ == s,
{
    let plain: Option<Vec<u8>> = match c {
        Cipher::Plain => Some(slice_to_vec(chunk)),
        Cipher::Aes128Gcm(key) => {
            let nonce = derive_nonce(t, r, f);
            match nonce {
                Some(n) => if chunk.len() as u64 <= MAX_PLAINTEXT + TAG_LEN {
                    aes_gcm_open(key, n.as_slice(), chunk)
                } else {
                    None
                },
                None => None,
            }
        },
    };
    match plain {
        Some(b) => {
            let ghost bytes = b@;
            proof {
                assert forall|s: Seq<char>|
                    #[trigger] field_chunk(*c, t as nat, r as nat, f as nat, s) == Some(
                        chunk@,
                    ) implies bytes == encode_utf8(s) && valid_utf8(bytes) by {
                    vstd::utf8::encode_utf8_valid_utf8(s);
                }
            }
            match text_from_utf8(b) {
                Some(st) => {
                    proof {
                        vstd::utf8::encode_utf8_decode_utf8(st@);
                        assert forall|s: Seq<char>|
                            #[trigger] field_chunk(*c, t as nat, r as nat, f as nat, s) == Some(
                                chunk@,
                            ) implies st@ == s by {
                            vstd::utf8::encode_utf8_decode_utf8(s);
                        }
                    }
                    Ok(st)
                },
                None => Err(DbError::CryptoError),
            }
        },
        None => Err(DbError::CryptoError),
    }
}

} // verus!
