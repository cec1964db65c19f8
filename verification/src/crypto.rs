//! Crypto primitives: SHA-256, HMAC and HKDF, hex codecs, Ed25519
//! signatures, Merkle-proof and hash-chain verification, and HKDF-based
//! service-key derivation.
//!
//! The hash and the curve operations come from outside crates behind
//! trusted wrappers; their results are named by uninterpreted functions
//! ([`sha256_of`], [`ed25519_verifies`], [`ed25519_pub_of_seed`],
//! [`ed25519_sig_of`]). HMAC, HKDF, the Merkle fold and the hash chain are
//! this crate's own verified logic over those names, as is all hex-string
//! handling around them.
use sha2::Digest;
use vstd::prelude::*;

use crate::text::str_eq;
use crate::types::SplError;

verus! {

/// The SHA-256 digest of a byte string.
pub uninterp spec fn sha256_of(data: Seq<u8>) -> Seq<u8>;

/// Relies on sha2::Sha256 through the Digest trait: a 32-byte digest that
/// is a function of the input bytes alone.
#[verifier::external_body]
pub fn sha256(data: &[u8]) -> (r: Vec<u8>)
    ensures
        r@ == sha256_of(data@),
        r@.len() == 32,
{
    sha2::Sha256::digest(data).to_vec()
}

pub open spec fn hex_digit_of(n: int) -> char {
    if n < 10 {
        ((48 + n) as u8) as char
    } else {
        ((87 + n) as u8) as char
    }
}

/// The lowercase hex rendering of a byte string, two digits per byte.
pub open spec fn hex_of(bytes: Seq<u8>) -> Seq<char>
    decreases bytes,
{
    if bytes.len() == 0 {
        Seq::empty()
    } else {
        hex_of(bytes.drop_last()) + seq![
            hex_digit_of(bytes.last() as int / 16),
            hex_digit_of(bytes.last() as int % 16),
        ]
    }
}

pub open spec fn is_hex_digit(c: char) -> bool {
    ('0' <= c && c <= '9') || ('a' <= c && c <= 'f') || ('A' <= c && c <= 'F')
}

pub open spec fn hex_val(c: char) -> int {
    if '0' <= c && c <= '9' {
        c as int - 48
    } else if 'a' <= c && c <= 'f' {
        c as int - 87
    } else {
        c as int - 55
    }
}

/// What hex::decode accepts: an even number of hex digits, of either case.
pub open spec fn valid_hex(s: Seq<char>) -> bool {
    s.len() % 2 == 0 && (forall|i: int| 0 <= i < s.len() ==> is_hex_digit(#[trigger] s[i]))
}

/// The bytes a valid hex string denotes.
pub open spec fn hex_decode_spec(s: Seq<char>) -> Seq<u8>
    decreases s.len(),
{
    if s.len() < 2 {
        Seq::empty()
    } else {
        seq![(hex_val(s[0]) * 16 + hex_val(s[1])) as u8] + hex_decode_spec(s.skip(2))
    }
}

/// Relies on hex::encode: two lowercase digits per byte.
#[verifier::external_body]
pub(crate) fn hex_encode(b: &[u8]) -> (r: String)
    ensures
        r@ == hex_of(b@),
{
    hex::encode(b)
}

/// Relies on hex::decode: succeeds exactly on an even number of hex digits
/// of either case, returning the bytes they denote.
#[verifier::external_body]
pub(crate) fn hex_decode(s: &str) -> (r: Option<Vec<u8>>)
    ensures
        match r {
            Some(v) => valid_hex(s@) && v@ == hex_decode_spec(s@),
            None => !valid_hex(s@),
        },
{
    hex::decode(s).ok()
}

/// Whether strict Ed25519 verification of this signature over this message
/// under this public key succeeds; false wherever the signature is not 64
/// bytes, the key is not 32 bytes, or the key is no valid curve point.
pub uninterp spec fn ed25519_verifies(msg: Seq<u8>, sig: Seq<u8>, pk: Seq<u8>) -> bool;

/// Relies on ed25519_dalek::Signature::from_slice,
/// VerifyingKey::from_bytes and VerifyingKey::verify_strict: the outcome
/// depends on the three byte strings alone, and any malformed signature or
/// key fails.
#[verifier::external_body]
fn ed25519_verify_raw(msg: &[u8], sig: &[u8], pk: &[u8]) -> (r: bool)
    ensures
        r == ed25519_verifies(msg@, sig@, pk@),
{
    let Ok(signature) = ed25519_dalek::Signature::from_slice(sig) else {
        return false;
    };
    let Ok(arr): Result<[u8; 32], _> = pk.try_into() else {
        return false;
    };
    let Ok(key) = ed25519_dalek::VerifyingKey::from_bytes(&arr) else {
        return false;
    };
    key.verify_strict(msg, &signature).is_ok()
}

/// The public key derived from a 32-byte Ed25519 seed; 32 bytes.
pub uninterp spec fn ed25519_pub_of_seed(seed: Seq<u8>) -> Seq<u8>;

/// Relies on ed25519_dalek::SigningKey::from_bytes and verifying_key: the
/// 32-byte public key is a function of the seed alone.
#[verifier::external_body]
pub(crate) fn ed25519_public_key(seed: &[u8]) -> (r: Vec<u8>)
    requires
        seed@.len() == 32,
    ensures
        r@ == ed25519_pub_of_seed(seed@),
        r@.len() == 32,
{
    let arr: [u8; 32] = seed.try_into().unwrap();
    let sk = ed25519_dalek::SigningKey::from_bytes(&arr);
    sk.verifying_key().as_bytes().to_vec()
}

/// The Ed25519 signature of a message under a 32-byte seed; 64 bytes.
pub uninterp spec fn ed25519_sig_of(seed: Seq<u8>, msg: Seq<u8>) -> Seq<u8>;

/// Relies on ed25519_dalek::SigningKey::sign: Ed25519 signing is
/// deterministic (RFC 8032), so the 64-byte signature is a function of the
/// seed and the message alone.
#[verifier::external_body]
pub(crate) fn ed25519_sign(seed: &[u8], msg: &[u8]) -> (r: Vec<u8>)
    requires
        seed@.len() == 32,
    ensures
        r@ == ed25519_sig_of(seed@, msg@),
        r@.len() == 64,
{
    let arr: [u8; 32] = seed.try_into().unwrap();
    let sk = ed25519_dalek::SigningKey::from_bytes(&arr);
    ed25519_dalek::Signer::sign(&sk, msg).to_bytes().to_vec()
}

/// Relies on getrandom::fill: fills the buffer with operating-system
/// randomness. Nothing is assumed of the values; false reports an OS
/// failure.
#[verifier::external_body]
pub(crate) fn fill_random(buf: &mut Vec<u8>) -> (r: bool)
    ensures
        final(buf)@.len() == old(buf)@.len(),
{
    getrandom::fill(buf.as_mut_slice()).is_ok()
}

/// A fresh byte vector holding `a` then `b`.
fn concat_bytes(a: &[u8], b: &[u8]) -> (r: Vec<u8>)
    ensures
        r@ == a@ + b@,
{
    let mut out: Vec<u8> = Vec::new();
    let mut i: usize = 0;
    let an = a.len();
    while i < an
        invariant
            an == a@.len(),
            0 <= i <= an,
            out@ =~= a@.take(i as int),
        decreases an - i,
    {
        out.push(a[i]);
        i += 1;
    }
    let bn = b.len();
    let mut j: usize = 0;
    while j < bn
        invariant
            bn == b@.len(),
            0 <= j <= bn,
            out@ =~= a@ + b@.take(j as int),
        decreases bn - j,
    {
        out.push(b[j]);
        j += 1;
    }
    proof {
        assert(a@ + b@.take(bn as int) =~= a@ + b@);
    }
    out
}

/// Verifies an Ed25519 signature over a message, both signature and key
/// given as hex. Any malformed hex fails.
pub fn verify_ed25519(message: &[u8], signature_hex: &str, public_key_hex: &str) -> (r: bool)
    ensures
        r == (valid_hex(signature_hex@) && valid_hex(public_key_hex@) && ed25519_verifies(
            message@,
            hex_decode_spec(signature_hex@),
            hex_decode_spec(public_key_hex@),
        )),
{
    let sig = match hex_decode(signature_hex) {
        Some(v) => v,
        None => {
            return false;
        }
    };
    let pk = match hex_decode(public_key_hex) {
        Some(v) => v,
        None => {
            return false;
        }
    };
    ed25519_verify_raw(message, sig.as_slice(), pk.as_slice())
}

/// The SHA-256 digest of a byte string, in lowercase hex.
pub fn sha256_hex(data: &[u8]) -> (r: String)
    ensures
        r@ == hex_of(sha256_of(data@)),
{
    let h = sha256(data);
    hex_encode(h.as_slice())
}

/// A step in a Merkle proof: a sibling digest in hex and its side.
pub struct MerkleProofStep {
    pub hash: String,
    /// `"left"` or `"right"`: the side the sibling stands on.
    pub position: String,
}

impl View for MerkleProofStep {
    type V = (Seq<char>, Seq<char>);

    open spec fn view(&self) -> (Seq<char>, Seq<char>) {
        (self.hash@, self.position@)
    }
}

/// One Merkle combination: the sibling to the right means
/// `SHA-256(current ∥ sibling)`, any other side `SHA-256(sibling ∥
/// current)`.
pub open spec fn merkle_step(cur: Seq<u8>, sib: Seq<u8>, right: bool) -> Seq<u8> {
    if right {
        sha256_of(cur + sib)
    } else {
        sha256_of(sib + cur)
    }
}

/// The digest a Merkle proof folds to from `cur`, if every sibling decodes.
pub open spec fn merkle_fold(cur: Seq<u8>, steps: Seq<(Seq<char>, Seq<char>)>) -> Option<Seq<u8>>
    decreases steps.len(),
{
    if steps.len() == 0 {
        Some(cur)
    } else if !valid_hex(steps[0].0) {
        None
    } else {
        merkle_fold(
            merkle_step(cur, hex_decode_spec(steps[0].0), steps[0].1 == "right"@),
            steps.drop_first(),
        )
    }
}

/// What a Merkle proof check means: the leaf's digest folded through the
/// steps renders in hex as the root; any hex-decode failure is false.
pub open spec fn spec_verify_merkle(
    leaf: Seq<char>,
    steps: Seq<(Seq<char>, Seq<char>)>,
    root: Seq<char>,
) -> bool {
    match merkle_fold(sha256_of(vstd::utf8::encode_utf8(leaf)), steps) {
        None => false,
        Some(h) => hex_of(h) == root,
    }
}

/// The views of a run of proof steps, elementwise.
pub open spec fn views_of_steps(steps: Seq<MerkleProofStep>) -> Seq<(Seq<char>, Seq<char>)>
    decreases steps,
{
    if steps.len() == 0 {
        Seq::empty()
    } else {
        views_of_steps(steps.drop_last()).push(steps.last()@)
    }
}

pub proof fn lemma_views_of_steps(steps: Seq<MerkleProofStep>)
    ensures
        views_of_steps(steps).len() == steps.len(),
        forall|i: int| 0 <= i < steps.len() ==> views_of_steps(steps)[i] == steps[i]@,
    decreases steps,
{
    if steps.len() > 0 {
        lemma_views_of_steps(steps.drop_last());
        assert forall|i: int| 0 <= i < steps.len() implies views_of_steps(steps)[i]
            == steps[i]@ by {
            if i < steps.len() - 1 {
                assert(views_of_steps(steps.drop_last()).push(steps.last()@)[i]
                    == views_of_steps(steps.drop_last())[i]);
                assert(steps.drop_last()[i] == steps[i]);
            }
        }
    }
}

/// Verifies a Merkle membership proof for `leaf_data` against `root_hex`.
pub fn verify_merkle_proof(leaf_data: &str, steps: &[MerkleProofStep], root_hex: &str) -> (r:
    bool)
    ensures
        r == spec_verify_merkle(leaf_data@, views_of_steps(steps@), root_hex@),
{
    let ghost sv = views_of_steps(steps@);
    proof {
        lemma_views_of_steps(steps@);
    }
    let mut current = sha256(leaf_data.as_bytes());
    let n = steps.len();
    let mut i: usize = 0;
    proof {
        assert(sv.skip(0) =~= sv);
    }
    while i < n
        invariant
            sv == views_of_steps(steps@),
            sv.len() == n,
            n == steps@.len(),
            forall|k: int| 0 <= k < n ==> sv[k] == steps@[k]@,
            0 <= i <= n,
            merkle_fold(sha256_of(vstd::utf8::encode_utf8(leaf_data@)), sv) == merkle_fold(
                current@,
                sv.skip(i as int),
            ),
        decreases n - i,
    {
        proof {
            assert(sv.skip(i as int)[0] == sv[i as int]);
            assert(sv.skip(i as int).drop_first() =~= sv.skip(i + 1));
        }
        let step = &steps[i];
        let sib = match hex_decode(step.hash.as_str()) {
            Some(v) => v,
            None => {
                return false;
            }
        };
        let combined = if str_eq(step.position.as_str(), "right") {
            concat_bytes(current.as_slice(), sib.as_slice())
        } else {
            concat_bytes(sib.as_slice(), current.as_slice())
        };
        current = sha256(combined.as_slice());
        i += 1;
    }
    proof {
        assert(sv.skip(n as int).len() == 0);
    }
    let rendered = hex_encode(current.as_slice());
    str_eq(rendered.as_str(), root_hex)
}

/// `k` rounds of SHA-256 applied to `b`.
pub open spec fn iter_sha(b: Seq<u8>, k: nat) -> Seq<u8>
    decreases k,
{
    if k == 0 {
        b
    } else {
        sha256_of(iter_sha(b, (k - 1) as nat))
    }
}

/// What a hash-chain check means: the preimage decodes, the index lies
/// within the chain, and hashing it `chain_length - index` times renders in
/// hex as the commitment.
pub open spec fn spec_verify_hash_chain(
    commitment: Seq<char>,
    preimage: Seq<char>,
    index: int,
    chain_length: int,
) -> bool {
    valid_hex(preimage) && index <= chain_length && hex_of(
        iter_sha(hex_decode_spec(preimage), (chain_length - index) as nat),
    ) == commitment
}

/// A run of `n` zero bytes.
pub open spec fn zero_bytes(n: nat) -> Seq<u8> {
    Seq::new(n, |i: int| 0u8)
}

/// The 64-byte HMAC key block: a key longer than the block is hashed
/// first, then padded with zeros.
pub open spec fn key_block(key: Seq<u8>) -> Seq<u8> {
    let k = if key.len() > 64 {
        sha256_of(key)
    } else {
        key
    };
    if k.len() <= 64 {
        k + zero_bytes((64 - k.len()) as nat)
    } else {
        k.take(64)
    }
}

pub open spec fn xor_bytes(s: Seq<u8>, x: u8) -> Seq<u8> {
    Seq::new(s.len(), |i: int| s[i] ^ x)
}

/// HMAC-SHA-256 with a 64-byte block: the outer hash over the `0x5c` pad
/// and the inner hash over the `0x36` pad and the data.
pub open spec fn hmac_of(key: Seq<u8>, data: Seq<u8>) -> Seq<u8> {
    sha256_of(
        xor_bytes(key_block(key), 0x5c) + sha256_of(xor_bytes(key_block(key), 0x36) + data),
    )
}

/// HMAC-SHA-256.
pub fn hmac_sha256(key: &[u8], data: &[u8]) -> (r: Vec<u8>)
    ensures
        r@ == hmac_of(key@, data@),
        r@.len() == 32,
{
    let hashed;
    let base: &[u8] = if key.len() > 64 {
        hashed = sha256(key);
        hashed.as_slice()
    } else {
        key
    };
    let mut kb: Vec<u8> = Vec::new();
    let bn = base.len();
    let mut i: usize = 0;
    while i < bn
        invariant
            bn == base@.len(),
            bn <= 64,
            0 <= i <= bn,
            kb@ =~= base@.take(i as int),
        decreases bn - i,
    {
        kb.push(base[i]);
        i += 1;
    }
    while kb.len() < 64
        invariant
            base@.len() <= 64,
            base@.len() <= kb@.len() <= 64,
            kb@ =~= base@ + zero_bytes((kb@.len() - base@.len()) as nat),
        decreases 64 - kb.len(),
    {
        kb.push(0);
        proof {
            assert(kb@ =~= base@ + zero_bytes((kb@.len() - base@.len()) as nat));
        }
    }
    proof {
        assert(kb@ =~= key_block(key@));
    }
    let mut ipad: Vec<u8> = Vec::new();
    let mut opad: Vec<u8> = Vec::new();
    let mut j: usize = 0;
    while j < 64
        invariant
            kb@.len() == 64,
            kb@ == key_block(key@),
            0 <= j <= 64,
            ipad@ =~= xor_bytes(kb@, 0x36).take(j as int),
            opad@ =~= xor_bytes(kb@, 0x5c).take(j as int),
        decreases 64 - j,
    {
        ipad.push(kb[j] ^ 0x36);
        opad.push(kb[j] ^ 0x5c);
        j += 1;
    }
    proof {
        assert(ipad@ =~= xor_bytes(kb@, 0x36));
        assert(opad@ =~= xor_bytes(kb@, 0x5c));
    }
    let inner_input = concat_bytes(ipad.as_slice(), data);
    let inner = sha256(inner_input.as_slice());
    let outer_input = concat_bytes(opad.as_slice(), inner.as_slice());
    sha256(outer_input.as_slice())
}

/// The HKDF block `T(i)`: `T(0)` is empty, and
/// `T(i) = HMAC(prk, T(i-1) ∥ info ∥ [i])`.
pub open spec fn hkdf_t(prk: Seq<u8>, info: Seq<u8>, i: nat) -> Seq<u8>
    decreases i,
{
    if i == 0 {
        Seq::empty()
    } else {
        hmac_of(prk, hkdf_t(prk, info, (i - 1) as nat) + info + seq![i as u8])
    }
}

/// The concatenation `T(1) ∥ … ∥ T(n)`.
pub open spec fn hkdf_stream(prk: Seq<u8>, info: Seq<u8>, n: nat) -> Seq<u8>
    decreases n,
{
    if n == 0 {
        Seq::empty()
    } else {
        hkdf_stream(prk, info, (n - 1) as nat) + hkdf_t(prk, info, n)
    }
}

/// HKDF-SHA-256 (RFC 5869): extract with the salt (32 zero bytes when
/// empty), then expand to `len` bytes.
pub open spec fn hkdf_of(ikm: Seq<u8>, salt: Seq<u8>, info: Seq<u8>, len: nat) -> Seq<u8> {
    let s = if salt.len() == 0 {
        zero_bytes(32)
    } else {
        salt
    };
    let prk = hmac_of(s, ikm);
    hkdf_stream(prk, info, ((len + 31) / 32) as nat).take(len as int)
}

proof fn lemma_hkdf_stream_len(prk: Seq<u8>, info: Seq<u8>, n: nat)
    requires
        forall|i: nat| 1 <= i <= n ==> (#[trigger] hkdf_t(prk, info, i)).len() == 32,
    ensures
        hkdf_stream(prk, info, n).len() == 32 * n,
    decreases n,
{
    if n > 0 {
        lemma_hkdf_stream_len(prk, info, (n - 1) as nat);
    }
}

/// HKDF-SHA-256 extract-and-expand.
pub fn hkdf_sha256(ikm: &[u8], salt: &[u8], info: &[u8], length: usize) -> (r: Vec<u8>)
    requires
        length <= 8160,
    ensures
        r@ == hkdf_of(ikm@, salt@, info@, length as nat),
        r@.len() == length,
{
    let prk = if salt.len() == 0 {
        let mut z: Vec<u8> = Vec::new();
        let mut i: usize = 0;
        while i < 32
            invariant
                0 <= i <= 32,
                z@ =~= zero_bytes(i as nat),
            decreases 32 - i,
        {
            z.push(0);
            proof {
                assert(z@ =~= zero_bytes((i + 1) as nat));
            }
            i += 1;
        }
        hmac_sha256(z.as_slice(), ikm)
    } else {
        hmac_sha256(salt, ikm)
    };
    let ghost prkv = prk@;
    let mut out: Vec<u8> = Vec::new();
    let mut prev: Vec<u8> = Vec::new();
    let mut i: u32 = 1;
    proof {
        assert(hkdf_stream(prkv, info@, 0) =~= Seq::<u8>::empty());
    }
    while (out.len() < length)
        invariant
            length <= 8160,
            prkv == (if salt@.len() == 0 {
                hmac_of(zero_bytes(32), ikm@)
            } else {
                hmac_of(salt@, ikm@)
            }),
            1 <= i <= 256,
            prk@ == prkv,
            out@ == hkdf_stream(prkv, info@, (i - 1) as nat),
            out@.len() == 32 * (i - 1),
            prev@ == hkdf_t(prkv, info@, (i - 1) as nat),
            out@.len() < length + 32,
            forall|k: nat| 1 <= k <= i - 1 ==> (#[trigger] hkdf_t(prkv, info@, k)).len() == 32,
        decreases length + 32 - out.len(),
    {
        proof {
            assert(i <= 255) by (nonlinear_arith)
                requires
                    32 * (i - 1) < 8160,
                    i >= 1,
            ;
        }
        let step1 = concat_bytes(prev.as_slice(), info);
        let mut input = step1;
        input.push(i as u8);
        proof {
            reveal_with_fuel(hkdf_t, 2);
            reveal_with_fuel(hkdf_stream, 2);
            assert(input@ =~= prev@ + info@ + seq![i as u8]);
            assert((i as nat - 1) as nat == (i - 1) as nat);
            assert(hkdf_t(prkv, info@, i as nat) == hmac_of(
                prkv,
                hkdf_t(prkv, info@, (i - 1) as nat) + info@ + seq![i as u8],
            ));
        }
        let block = hmac_sha256(prk.as_slice(), input.as_slice());
        prev = block;
        let mut out2 = concat_bytes(out.as_slice(), prev.as_slice());
        proof {
            reveal_with_fuel(hkdf_stream, 2);
            assert(hkdf_stream(prkv, info@, i as nat) == hkdf_stream(
                prkv,
                info@,
                (i - 1) as nat,
            ) + hkdf_t(prkv, info@, i as nat));
            assert(out2@ == hkdf_stream(prkv, info@, i as nat));
        }
        out = out2;
        i += 1;
    }
    proof {
        assert(32 * ((length as int + 31) / 32) >= length && (length as int + 31) / 32 <= i - 1)
            by (nonlinear_arith)
            requires
                0 <= length <= 8160,
                32 * (i - 1) >= length,
                i >= 1,
        ;
        assert((length as int + 31) / 32 >= 0);
    }
    let ghost want: nat = ((length as nat + 31) / 32) as nat;
    proof {
        if want < (i - 1) as nat {
            lemma_hkdf_stream_prefix(prkv, info@, want, (i - 1) as nat);
        }
        assert(hkdf_stream(prkv, info@, want).take(length as int) =~= out@.take(
            length as int,
        )) by {
            lemma_hkdf_stream_len(prkv, info@, want);
            assert(32 * want >= length) by (nonlinear_arith)
                requires
                    want == (length as int + 31) / 32,
                    0 <= length,
            ;
        }
    }
    out.truncate(length);
    proof {
        assert(out@ == hkdf_of(ikm@, salt@, info@, length as nat));
    }
    out
}

/// An earlier HKDF stream is a prefix of a later one.
proof fn lemma_hkdf_stream_prefix(prk: Seq<u8>, info: Seq<u8>, m: nat, n: nat)
    requires
        m <= n,
    ensures
        hkdf_stream(prk, info, n).take(hkdf_stream(prk, info, m).len() as int) == hkdf_stream(
            prk,
            info,
            m,
        ),
        hkdf_stream(prk, info, n).len() >= hkdf_stream(prk, info, m).len(),
    decreases n - m,
{
    if m < n {
        lemma_hkdf_stream_prefix(prk, info, m, (n - 1) as nat);
        assert(hkdf_stream(prk, info, n) == hkdf_stream(prk, info, (n - 1) as nat) + hkdf_t(
            prk,
            info,
            n,
        ));
        assert(hkdf_stream(prk, info, n).take(hkdf_stream(prk, info, m).len() as int)
            =~= hkdf_stream(prk, info, (n - 1) as nat).take(
            hkdf_stream(prk, info, m).len() as int,
        ));
    } else {
        assert(hkdf_stream(prk, info, n).take(hkdf_stream(prk, info, m).len() as int)
            =~= hkdf_stream(prk, info, m));
    }
}

/// The Ed25519 seed that service-key derivation computes for a master key
/// and a service domain.
pub open spec fn derived_seed(master: Seq<u8>, domain: Seq<char>) -> Seq<u8> {
    hkdf_of(
        master,
        vstd::utf8::encode_utf8("agent-safe-v1"@),
        vstd::utf8::encode_utf8(domain),
        32,
    )
}

/// Derives a service-specific Ed25519 keypair from a master key with
/// HKDF-SHA-256, giving each service domain its own unlinkable public key.
/// Returns `(public_key_hex, private_key_hex)`; the result is a function of
/// the master key and the domain alone. A master key that is not valid hex
/// is rejected.
pub fn derive_service_key(master_key_hex: &str, service_domain: &str) -> (r: Result<
    (String, String),
    SplError,
>)
    ensures
        match r {
            Ok((pub_hex, priv_hex)) => valid_hex(master_key_hex@) && ({
                let seed = derived_seed(hex_decode_spec(master_key_hex@), service_domain@);
                priv_hex@ == hex_of(seed) && pub_hex@ == hex_of(ed25519_pub_of_seed(seed))
            }),
            Err(e) => !valid_hex(master_key_hex@) && e@ == "invalid master key hex"@,
        },
{
    let master = match hex_decode(master_key_hex) {
        Some(v) => v,
        None => {
            return Err(SplError(String::from_str("invalid master key hex")));
        }
    };
    let salt = "agent-safe-v1".as_bytes();
    let info = service_domain.as_bytes();
    let seed = hkdf_sha256(master.as_slice(), salt, info, 32);
    let public = ed25519_public_key(seed.as_slice());
    Ok((hex_encode(public.as_slice()), hex_encode(seed.as_slice())))
}

/// Service-key derivation is deterministic: any two results that satisfy
/// [`derive_service_key`]'s contract for the same master key and domain are
/// the same pair of hex strings.
pub proof fn lemma_derive_service_key_deterministic(
    master: Seq<char>,
    domain: Seq<char>,
    r1: (Seq<char>, Seq<char>),
    r2: (Seq<char>, Seq<char>),
)
    requires
        r1.0 == hex_of(ed25519_pub_of_seed(derived_seed(hex_decode_spec(master), domain))),
        r1.1 == hex_of(derived_seed(hex_decode_spec(master), domain)),
        r2.0 == hex_of(ed25519_pub_of_seed(derived_seed(hex_decode_spec(master), domain))),
        r2.1 == hex_of(derived_seed(hex_decode_spec(master), domain)),
    ensures
        r1 == r2,
{
}

/// Generates a fresh Ed25519 keypair from operating-system randomness.
/// Returns `(public_key_hex, private_key_hex)`; the private key is the hex
/// of a 32-byte seed and the public key belongs to exactly that seed. Fails
/// only when the OS randomness source does.
pub fn generate_keypair() -> (r: Result<(String, String), SplError>)
    ensures
        match r {
            Ok((pub_hex, priv_hex)) => exists|seed: Seq<u8>|
                seed.len() == 32 && priv_hex@ == hex_of(seed) && pub_hex@ == hex_of(
                    #[trigger] ed25519_pub_of_seed(seed),
                ),
            Err(e) => e@ == "OS RNG failed"@,
        },
{
    let mut seed: Vec<u8> = Vec::new();
    let mut i: usize = 0;
    while i < 32
        invariant
            seed@.len() == i,
            0 <= i <= 32,
        decreases 32 - i,
    {
        seed.push(0);
        i += 1;
    }
    if !fill_random(&mut seed) {
        return Err(SplError(String::from_str("OS RNG failed")));
    }
    let public = ed25519_public_key(seed.as_slice());
    let pub_hex = hex_encode(public.as_slice());
    let priv_hex = hex_encode(seed.as_slice());
    proof {
        assert(seed@.len() == 32 && priv_hex@ == hex_of(seed@) && pub_hex@ == hex_of(
            ed25519_pub_of_seed(seed@),
        ));
    }
    Ok((pub_hex, priv_hex))
}

/// Verifies a hash-chain receipt: an index beyond the chain length fails
/// rather than anything worse.
pub fn verify_hash_chain(commitment: &str, preimage_hex: &str, index: usize, chain_length: usize)
    -> (r: bool)
    ensures
        r == spec_verify_hash_chain(commitment@, preimage_hex@, index as int, chain_length as int),
{
    let mut current = match hex_decode(preimage_hex) {
        Some(v) => v,
        None => {
            return false;
        }
    };
    if index > chain_length {
        return false;
    }
    let ghost p0 = current@;
    let steps = chain_length - index;
    let mut k: usize = 0;
    while k < steps
        invariant
            0 <= k <= steps,
            current@ == iter_sha(p0, k as nat),
        decreases steps - k,
    {
        current = sha256(current.as_slice());
        k += 1;
    }
    let rendered = hex_encode(current.as_slice());
    str_eq(rendered.as_str(), commitment)
}

} // verus!
