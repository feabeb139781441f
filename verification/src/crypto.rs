//! Encryption and signing of shares between parties: a share travels as the decimal
//! text of its value, sealed with the receiver's public key and the sender's secret
//! key under a fresh nonce; nonce and cipher travel as lists of bytes.
use vstd::prelude::*;
use crate::common::{int_text, int_to_text, parse_i64_bytes, parse_i64_spec, all_ascii, ascii_chars};
use crate::hooks::{debug_text, dec_bytes_list, json_to_bytes, parsed_bytes};

verus! {

/// A sealed message: the nonce and the cipher, each as the text of its bytes.
pub struct Encrypted {
    pub nonce: String,
    pub cipher: String,
}

/// A share as it travels: sealed when sodium is on, else the decimal text of its value.
pub enum ShareText {
    Sealed(Encrypted),
    Plain(String),
}

/// Why a share could not be read.
pub enum CryptoError {
    BadNonce,
    BadCipher,
    BadKey,
    Forged,
    NotANumber,
}

/// The ASCII bytes of a text.
pub open spec fn ascii_bytes(t: Seq<char>) -> Seq<u8> {
    t.map_values(|c: char| c as u8)
}

/// The public key that belongs to a secret key: what
/// `sodiumoxide::crypto::box_::SecretKey::public_key` computes for it.
pub uninterp spec fn public_of(sk: Seq<u8>) -> Seq<u8>;

/// What `sodiumoxide::crypto::box_::precompute` returns for a public and a secret
/// key: the shared key of the box (left all zero when the keys give no shared point).
pub uninterp spec fn box_key(pk: Seq<u8>, sk: Seq<u8>) -> Seq<u8>;

/// What `sodiumoxide::crypto::box_::seal_precomputed` returns for a message, a nonce
/// and a shared key.
pub uninterp spec fn sealed_with(m: Seq<u8>, nonce: Seq<u8>, k: Seq<u8>) -> Seq<u8>;

/// A message sealed with the receiver's public key and the sender's secret key: sealed
/// with the shared key of the two.
pub open spec fn sealed_box(m: Seq<u8>, nonce: Seq<u8>, pk: Seq<u8>, sk: Seq<u8>) -> Seq<u8> {
    sealed_with(m, nonce, box_key(pk, sk))
}

/// What `sodiumoxide::crypto::box_::open` returns for a cipher, nonce, public key and
/// secret key: the message, or none when the cipher does not authenticate.
pub uninterp spec fn opened_box(c: Seq<u8>, nonce: Seq<u8>, pk: Seq<u8>, sk: Seq<u8>) -> Option<Seq<u8>>;

/// Calls `sodiumoxide::crypto::box_::gen_nonce`, which draws a random nonce of 24
/// bytes; only the length is stated.
#[verifier::external_body]
fn gen_nonce_bytes() -> (r: Vec<u8>)
    ensures
        r@.len() == 24,
{
    sodiumoxide::crypto::box_::gen_nonce().0.to_vec()
}

/// Calls `sodiumoxide::crypto::box_::precompute`, which starts from a zeroed key and
/// writes the shared key of the two keys into it; its result is named `box_key`, and
/// is 32 bytes long.
#[verifier::external_body]
fn box_key_bytes(pk: &Vec<u8>, sk: &Vec<u8>) -> (r: Vec<u8>)
    requires
        pk@.len() == 32,
        sk@.len() == 32,
    ensures
        r@ == box_key(pk@, sk@),
        r@.len() == 32,
{
    let mut p = [0u8; 32];
    p.copy_from_slice(pk);
    let mut s = [0u8; 32];
    s.copy_from_slice(sk);
    let k = sodiumoxide::crypto::box_::precompute(&sodiumoxide::crypto::box_::PublicKey(p), &sodiumoxide::crypto::box_::SecretKey(s));
    k.0.to_vec()
}

/// Calls `sodiumoxide::crypto::box_::seal_precomputed`; its result is named
/// `sealed_with`, and is 16 bytes (the authenticator) longer than the message.
#[verifier::external_body]
fn seal_bytes(m: &Vec<u8>, nonce: &Vec<u8>, k: &Vec<u8>) -> (r: Vec<u8>)
    requires
        nonce@.len() == 24,
        k@.len() == 32,
        m@.len() <= usize::MAX - 16,
    ensures
        r@ == sealed_with(m@, nonce@, k@),
        r@.len() == m@.len() + 16,
{
    let mut n = [0u8; 24];
    n.copy_from_slice(nonce);
    let mut key = [0u8; 32];
    key.copy_from_slice(k);
    let (n, key) = (sodiumoxide::crypto::box_::Nonce(n), sodiumoxide::crypto::box_::PrecomputedKey(key));
    sodiumoxide::crypto::box_::seal_precomputed(m, &n, &key)
}

/// Calls `sodiumoxide::crypto::box_::open`; its result is named `opened_box`. As the
/// crate documents (its example seals with the receiver's public key and the sender's
/// secret key, and opens with the sender's public key and the receiver's secret key),
/// opening gives back the message that was sealed with the shared key of a key pair
/// whose public key is the one given here and the receiver's public key.
#[verifier::external_body]
fn open_bytes(c: &Vec<u8>, nonce: &Vec<u8>, pk: &Vec<u8>, sk: &Vec<u8>) -> (r: Option<Vec<u8>>)
    requires
        nonce@.len() == 24,
        pk@.len() == 32,
        sk@.len() == 32,
    ensures
        r is Some ==> opened_box(c@, nonce@, pk@, sk@) == Some(r->0@),
        r is None ==> opened_box(c@, nonce@, pk@, sk@) is None,
        forall|m: Seq<u8>, ska: Seq<u8>|
            #![trigger sealed_with(m, nonce@, box_key(public_of(sk@), ska))]
            ska.len() == 32 && pk@ == public_of(ska) && c@ == sealed_with(m, nonce@, box_key(public_of(sk@), ska))
                ==> r is Some && r->0@ == m,
{
    let mut n = [0u8; 24];
    n.copy_from_slice(nonce);
    let mut p = [0u8; 32];
    p.copy_from_slice(pk);
    let mut s = [0u8; 32];
    s.copy_from_slice(sk);
    let (n, p, s) = (sodiumoxide::crypto::box_::Nonce(n), sodiumoxide::crypto::box_::PublicKey(p), sodiumoxide::crypto::box_::SecretKey(s));
    match sodiumoxide::crypto::box_::open(c, &n, &p, &s) {
        Ok(v) => Some(v),
        Err(_) => None,
    }
}

/// Writes a list of bytes as `{:?}` does: `[`, the bytes in decimal separated by
/// `, `, and `]`.
fn debug_bytes(v: &Vec<u8>) -> (r: String)
    ensures
        r@ == debug_text(v@),
{
    let mut s = String::new();
    s.append("[");
    proof {
        reveal_strlit("[");
    }
    let mut i: usize = 0;
    while i < v.len()
        invariant
            i <= v@.len(),
            s@ == seq!['['] + dec_bytes_list(v@.subrange(0, i as int), seq![',', ' ']),
        decreases v.len() - i,
    {
        let ghost pre = v@.subrange(0, i as int);
        if i > 0 {
            s.append(", ");
            proof {
                reveal_strlit(", ");
            }
        }
        crate::common::push_dec(&mut s, v[i] as u64);
        proof {
            let next = v@.subrange(0, i + 1 as int);
            assert(next.drop_last() =~= pre);
            assert(next.last() == v@[i as int]);
            assert(s@ =~= seq!['['] + dec_bytes_list(next, seq![',', ' ']));
        }
        i = i + 1;
    }
    s.append("]");
    proof {
        reveal_strlit("]");
        assert(v@.subrange(0, v@.len() as int) =~= v@);
    }
    s
}

/// The ASCII bytes of a text of ASCII characters.
fn text_bytes(s: &String) -> (r: Vec<u8>)
    requires
        forall|i: int| 0 <= i < s@.len() ==> (#[trigger] s@[i]) as int <= 127,
    ensures
        r@ == ascii_bytes(s@),
{
    let len = s.as_str().unicode_len();
    let mut r: Vec<u8> = Vec::new();
    let mut i: usize = 0;
    while i < len
        invariant
            i <= len,
            len == s@.len(),
            r@ == ascii_bytes(s@.subrange(0, i as int)),
        decreases len - i,
    {
        let c = s.as_str().get_char(i);
        r.push(c as u8);
        i = i + 1;
        assert(r@ =~= ascii_bytes(s@.subrange(0, i as int)));
    }
    assert(s@.subrange(0, len as int) =~= s@);
    r
}

/// The characters of the decimal text of a number are ASCII.
proof fn lemma_int_text_ascii(n: int)
    ensures
        forall|i: int| 0 <= i < int_text(n).len() ==> (#[trigger] int_text(n)[i]) as int <= 127,
{
    crate::common::lemma_int_text_digits(n);
}

/// The power `10^k`.
pub open spec fn ten_pow(k: nat) -> nat
    decreases k,
{
    if k == 0 {
        1
    } else {
        10 * ten_pow((k - 1) as nat)
    }
}

/// A number below `10^k` has at most `k` digits.
proof fn lemma_dec_text_short(n: nat, k: nat)
    requires
        k >= 1,
        n < ten_pow(k),
    ensures
        crate::common::dec_text(n).len() <= k,
    decreases n,
{
    if n >= 10 {
        assert(k >= 2) by {
            if k == 1 {
                assert(ten_pow(1) == 10 * ten_pow(0));
            }
        }
        assert(ten_pow(k) == 10 * ten_pow((k - 1) as nat));
        assert(n / 10 < ten_pow((k - 1) as nat));
        lemma_dec_text_short(n / 10, (k - 1) as nat);
    }
}

/// The decimal text of an `i64` has at most 20 characters.
proof fn lemma_int_text_short(n: i64)
    ensures
        int_text(n as int).len() <= 20,
{
    assert(ten_pow(19) == 10000000000000000000nat) by {
        reveal_with_fuel(ten_pow, 20);
    }
    if n < 0 {
        lemma_dec_text_short((-n) as nat, 19);
    } else {
        lemma_dec_text_short(n as nat, 19);
    }
}

/// The ASCII bytes of the decimal text of an `i64` read back as that `i64`.
proof fn lemma_text_bytes_value(v: i64)
    ensures
        share_value_of(ascii_bytes(int_text(v as int))) == Some(v as int),
{
    let t = int_text(v as int);
    let b = ascii_bytes(t);
    lemma_int_text_ascii(v as int);
    assert forall|i: int| 0 <= i < t.len() implies #[trigger] ascii_chars(b)[i] == t[i] && b[i] < 128 by {
        let c = t[i];
        assert(c as int <= 127);
        let x = c as u32;
        vstd::utf8::char_is_scalar(c);
        vstd::utf8::char_u32_cast(c, x);
        assert((x as char) as int == x as int);
        assert(x as int == c as int);
        assert(x <= 127);
        assert((x as u8) as u32 == x) by (bit_vector)
            requires
                x <= 127,
        ;
        assert(c as u8 == x as u8);
        assert(((c as u8) as char) as int == c as int);
        assert((c as u8) as char == c);
    }
    assert(ascii_chars(b) =~= t);
    crate::common::lemma_parse_int_text(v as int);
}

/// Seals the decimal text of `msg` under `nonce`, with the receiver's public key and
/// the sender's secret key.
pub fn encrypt_with_nonce(
    msg: i64,
    nonce: &Vec<u8>,
    encryption_public_key: &Vec<u8>,
    signing_private_key: &Vec<u8>,
) -> (r: Encrypted)
    requires
        nonce@.len() == 24,
        encryption_public_key@.len() == 32,
        signing_private_key@.len() == 32,
    ensures
        r.nonce@ == debug_text(nonce@),
        r.cipher@ == debug_text(
            sealed_box(
                ascii_bytes(int_text(msg as int)),
                nonce@,
                encryption_public_key@,
                signing_private_key@,
            ),
        ),
{
    let text = int_to_text(msg);
    proof {
        lemma_int_text_ascii(msg as int);
        lemma_int_text_short(msg);
    }
    let plain = text_bytes(&text);
    let key = box_key_bytes(encryption_public_key, signing_private_key);
    let cipher = seal_bytes(&plain, nonce, &key);
    Encrypted { nonce: debug_bytes(nonce), cipher: debug_bytes(&cipher) }
}

/// Seals the decimal text of `msg` under a fresh nonce, with the receiver's public key
/// and the sender's secret key.
pub fn encrypt_and_sign(msg: i64, encryption_public_key: &Vec<u8>, signing_private_key: &Vec<u8>) -> (r:
    Encrypted)
    requires
        encryption_public_key@.len() == 32,
        signing_private_key@.len() == 32,
    ensures
        exists|n: Seq<u8>|
            n.len() == 24 && r.nonce@ == debug_text(n) && r.cipher@ == debug_text(
                sealed_box(
                    ascii_bytes(int_text(msg as int)),
                    n,
                    encryption_public_key@,
                    signing_private_key@,
                ),
            ),
{
    let nonce = gen_nonce_bytes();
    encrypt_with_nonce(msg, &nonce, encryption_public_key, signing_private_key)
}

/// `msg` is the message `m` sealed under the nonce `n` with the public key `pk` and the
/// secret key `sk`, as `encrypt_with_nonce` writes it.
pub open spec fn sealed_by(msg: Encrypted, m: Seq<u8>, n: Seq<u8>, pk: Seq<u8>, sk: Seq<u8>) -> bool {
    &&& n.len() == 24
    &&& msg.nonce@ == debug_text(n)
    &&& msg.cipher@ == debug_text(sealed_box(m, n, pk, sk))
}

/// What reading a sealed share gives: the plain bytes, or why they cannot be had.
pub open spec fn decrypt_spec(msg: Encrypted, secret_key: Seq<u8>, signing_public_key: Seq<u8>) -> Result<
    Seq<u8>,
    CryptoError,
> {
    match parsed_bytes(msg.nonce@) {
        None => Err(CryptoError::BadNonce),
        Some(n) => if n.len() != 24 {
            Err(CryptoError::BadNonce)
        } else {
            match parsed_bytes(msg.cipher@) {
                None => Err(CryptoError::BadCipher),
                Some(c) => if signing_public_key.len() != 32 || secret_key.len() != 32 {
                    Err(CryptoError::BadKey)
                } else {
                    match opened_box(c, n, signing_public_key, secret_key) {
                        None => Err(CryptoError::Forged),
                        Some(m) => Ok(m),
                    }
                },
            }
        },
    }
}

/// Opens a sealed message with the receiver's secret key and the sender's public key.
pub fn decrypt_and_sign(msg: &Encrypted, secret_key: &Vec<u8>, signing_public_key: &Vec<u8>) -> (r: Result<
    Vec<u8>,
    CryptoError,
>)
    ensures
        match decrypt_spec(*msg, secret_key@, signing_public_key@) {
            Ok(m) => r matches Ok(v) && v@ == m,
            Err(e) => r == Err::<Vec<u8>, CryptoError>(e),
        },
        forall|m: Seq<u8>, n: Seq<u8>, ska: Seq<u8>|
            #![trigger sealed_box(m, n, public_of(secret_key@), ska)]
            sealed_by(*msg, m, n, public_of(secret_key@), ska) && secret_key@.len() == 32 && ska.len()
                == 32 && signing_public_key@ == public_of(ska) && signing_public_key@.len() == 32 ==> (r is Ok
                && r->Ok_0@ == m),
{
    let nonce = match json_to_bytes(msg.nonce.as_str()) {
        Some(n) => n,
        None => {
            return Err(CryptoError::BadNonce);
        },
    };
    if nonce.len() != 24 {
        return Err(CryptoError::BadNonce);
    }
    let cipher = match json_to_bytes(msg.cipher.as_str()) {
        Some(c) => c,
        None => {
            return Err(CryptoError::BadCipher);
        },
    };
    if signing_public_key.len() != 32 || secret_key.len() != 32 {
        return Err(CryptoError::BadKey);
    }
    match open_bytes(&cipher, &nonce, signing_public_key, secret_key) {
        Some(m) => Ok(m),
        None => Err(CryptoError::Forged),
    }
}

/// The value of a share read from its plain bytes.
pub open spec fn share_value_of(m: Seq<u8>) -> Option<int> {
    if all_ascii(m) {
        parse_i64_spec(ascii_chars(m))
    } else {
        None
    }
}

/// What reading a share gives: its value, or why it cannot be had.
pub open spec fn read_share_spec(sodium: bool, msg: ShareText, secret_key: Seq<u8>, signing_public_key: Seq<u8>) -> Result<int, CryptoError> {
    match msg {
        ShareText::Sealed(e) => if sodium {
            match decrypt_spec(e, secret_key, signing_public_key) {
                Err(err) => Err(err),
                Ok(m) => match share_value_of(m) {
                    Some(v) => Ok(v),
                    None => Err(CryptoError::NotANumber),
                },
            }
        } else {
            Err(CryptoError::NotANumber)
        },
        ShareText::Plain(t) => match parse_i64_spec(t@) {
            Some(v) => Ok(v),
            None => Err(CryptoError::NotANumber),
        },
    }
}

/// Makes a share ready to travel: sealed when sodium is on, else its decimal text.
pub fn encryptSign(sodium: bool, msg: i64, public_key: &Vec<u8>, secret_key: &Vec<u8>) -> (r: ShareText)
    requires
        sodium ==> public_key@.len() == 32 && secret_key@.len() == 32,
    ensures
        sodium ==> (r matches ShareText::Sealed(e) && exists|n: Seq<u8>|
            n.len() == 24 && e.nonce@ == debug_text(n) && e.cipher@ == debug_text(
                sealed_box(ascii_bytes(int_text(msg as int)), n, public_key@, secret_key@),
            )),
        !sodium ==> (r matches ShareText::Plain(t) && t@ == int_text(msg as int)),
{
    if sodium {
        ShareText::Sealed(encrypt_and_sign(msg, public_key, secret_key))
    } else {
        ShareText::Plain(int_to_text(msg))
    }
}

/// Reads the value of a share that arrived: opens it when sodium is on, then reads
/// the decimal text.
pub fn decryptSign(sodium: bool, msg: &ShareText, secret_key: &Vec<u8>, signing_public_key: &Vec<u8>) -> (r:
    Result<i64, CryptoError>)
    ensures
        match read_share_spec(sodium, *msg, secret_key@, signing_public_key@) {
            Ok(v) => r == Ok::<i64, CryptoError>(v as i64),
            Err(e) => r == Err::<i64, CryptoError>(e),
        },
        forall|v: i64, n: Seq<u8>, ska: Seq<u8>|
            #![trigger sealed_box(ascii_bytes(int_text(v as int)), n, public_of(secret_key@), ska)]
            sodium && (*msg matches ShareText::Sealed(e) && sealed_by(
                e,
                ascii_bytes(int_text(v as int)),
                n,
                public_of(secret_key@),
                ska,
            )) && secret_key@.len() == 32 && ska.len() == 32 && signing_public_key@ == public_of(ska)
                && signing_public_key@.len() == 32 ==> r == Ok::<i64, CryptoError>(v),
{
    proof {
        assert forall|v: i64| #[trigger] share_value_of(ascii_bytes(int_text(v as int))) == Some(v as int) by {
            lemma_text_bytes_value(v);
        }
    }
    match msg {
        ShareText::Sealed(e) => {
            if !sodium {
                return Err(CryptoError::NotANumber);
            }
            match decrypt_and_sign(e, secret_key, signing_public_key) {
                Err(err) => Err(err),
                Ok(m) => match parse_i64_bytes(&m) {
                    Some(v) => Ok(v),
                    None => Err(CryptoError::NotANumber),
                },
            }
        },
        ShareText::Plain(t) => {
            match crate::common::parse_i64_text(t) {
                Some(v) => Ok(v),
                None => Err(CryptoError::NotANumber),
            }
        },
    }
}

} // verus!
