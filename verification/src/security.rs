//! Who may write what: keys, signatures and access lists.

use crate::state_store::Envelope;
use crate::state_store::StoreOp;
use crate::str_map::StrMap;
use crate::text;
use ed25519_dalek::Verifier;
use vstd::prelude::*;

verus! {

/// The Ed25519 verifying keys of nodes, by name.  Every envelope of a node with a
/// key must be signed; other nodes are trusted.
pub type KeyRegistry = StrMap<[u8; 32]>;

/// The prefixes of the names that nodes may write.  A node without an entry may
/// write everything.
pub type Acl = StrMap<Vec<String>>;

/// Why an envelope of a node with a key was turned down.
#[derive(Debug, PartialEq, Eq, Clone, Copy, Structural)]
pub enum SignatureError {
    /// There is no signature.
    Missing,
    /// The signature does not have 64 bytes.
    Length,
    /// The key on record is not a verifying key.
    Key,
    /// What is to be signed could not be put together.
    Payload,
    /// The signature does not verify.
    Invalid,
}

impl SignatureError {
    /// The error in words.
    pub fn message(&self) -> (text: &'static str)
        ensures
            text@ == match self {
                SignatureError::Missing => "missing signature from registered node"@,
                SignatureError::Length => "signature must be 64 bytes"@,
                SignatureError::Key => "invalid verifying key"@,
                SignatureError::Payload => "failed to serialise payload"@,
                SignatureError::Invalid => "invalid signature"@,
            },
    {
        match self {
            SignatureError::Missing => "missing signature from registered node",
            SignatureError::Length => "signature must be 64 bytes",
            SignatureError::Key => "invalid verifying key",
            SignatureError::Payload => "failed to serialise payload",
            SignatureError::Invalid => "invalid signature",
        }
    }
}

/// The 32 bytes are the encoding of an Ed25519 verifying key.
pub uninterp spec fn is_verifying_key(key: Seq<u8>) -> bool;

/// The signature of the message verifies under the key.
pub uninterp spec fn signature_verifies(
    key: Seq<u8>,
    message: Seq<u8>,
    signature: Seq<u8>,
) -> bool;

/// Whether `ed25519_dalek::VerifyingKey::from_bytes` accepts `key`.
///
/// Stated is that this depends on the bytes alone, by the name
/// [`is_verifying_key`]; which bytes encode a key is not stated.
#[verifier::external_body]
fn accepts_key(key: &[u8; 32]) -> (accepted: bool)
    ensures
        accepted == is_verifying_key(key@),
{
    ed25519_dalek::VerifyingKey::from_bytes(key).is_ok()
}

/// Whether `ed25519_dalek::VerifyingKey::verify` accepts `signature` for `message`
/// under `key`; never so if `key` is not a key.
///
/// Stated is that this depends on the three alone, by the name
/// [`signature_verifies`]; for which signatures it holds is not stated.
#[verifier::external_body]
fn accepts_signature(key: &[u8; 32], message: &Vec<u8>, signature: &Vec<u8>) -> (accepted: bool)
    requires
        signature@.len() == 64,
    ensures
        accepted == signature_verifies(key@, message@, signature@),
{
    match (ed25519_dalek::VerifyingKey::from_bytes(key), signature.as_slice().try_into()) {
        (Ok(verifying_key), Ok(bytes)) => verifying_key
            .verify(message, &ed25519_dalek::Signature::from_bytes(bytes))
            .is_ok(),
        _ => false,
    }
}

/// What comes of checking a signature: of a node with the key `key`, over
/// `payload`, `None` if that could not be put together.
pub open spec fn signature_verdict(
    key: Seq<u8>,
    signature: Option<Seq<u8>>,
    payload: Option<Seq<u8>>,
) -> Result<(), SignatureError> {
    match signature {
        None => Err(SignatureError::Missing),
        Some(bytes) => if bytes.len() != 64 {
            Err(SignatureError::Length)
        } else if !is_verifying_key(key) {
            Err(SignatureError::Key)
        } else if payload is None {
            Err(SignatureError::Payload)
        } else if signature_verifies(key, payload->0, bytes) {
            Ok(())
        } else {
            Err(SignatureError::Invalid)
        },
    }
}

/// The bytes, if there are any.
pub open spec fn opt_bytes(bytes: Option<Vec<u8>>) -> Option<Seq<u8>> {
    match bytes {
        Some(b) => Some(b@),
        None => None,
    }
}

/// Checks the signature of `env` over `payload`, the encoding of the rest of the
/// envelope (`None` if it could not be encoded).
///
/// An envelope of a node without a key is accepted as it is.
pub fn verify_envelope_signature(
    key_registry: &KeyRegistry,
    env: &Envelope,
    payload: &Option<Vec<u8>>,
) -> (verdict: Result<(), SignatureError>)
    ensures
        verdict == if key_registry@.contains_key(env.node_id@) {
            signature_verdict(
                key_registry@[env.node_id@]@,
                opt_bytes(env.signature),
                opt_bytes(*payload),
            )
        } else {
            Ok(())
        },
{
    match key_registry.get(env.node_id.as_str()) {
        None => Ok(()),
        Some(key) => check_signature(key, &env.signature, payload),
    }
}

/// Checks a signature of a node with the given key.
pub fn check_signature(
    key: &[u8; 32],
    signature: &Option<Vec<u8>>,
    payload: &Option<Vec<u8>>,
) -> (verdict: Result<(), SignatureError>)
    ensures
        verdict == signature_verdict(key@, opt_bytes(*signature), opt_bytes(*payload)),
{
    match signature {
        None => Err(SignatureError::Missing),
        Some(bytes) => {
            if bytes.len() != 64 {
                return Err(SignatureError::Length);
            }
            let key_ok = accepts_key(key);
            match payload {
                None => judge(key_ok, None),
                Some(message) => judge(key_ok, Some(accepts_signature(key, message, bytes))),
            }
        },
    }
}

/// The verdict on a signature of the right length: `key_ok` says whether the key is
/// one, `verified` whether the signature verifies, if there was a payload.
pub fn judge(key_ok: bool, verified: Option<bool>) -> (verdict: Result<(), SignatureError>)
    ensures
        verdict == if !key_ok {
            Err::<(), SignatureError>(SignatureError::Key)
        } else {
            match verified {
                None => Err(SignatureError::Payload),
                Some(true) => Ok(()),
                Some(false) => Err(SignatureError::Invalid),
            }
        },
{
    if !key_ok {
        return Err(SignatureError::Key);
    }
    match verified {
        None => Err(SignatureError::Payload),
        Some(ok) => if ok {
            Ok(())
        } else {
            Err(SignatureError::Invalid)
        },
    }
}

/// `key` starts with one of the prefixes.
pub open spec fn matches_prefix(prefixes: Seq<String>, key: Seq<char>) -> bool {
    exists|i: int| 0 <= i < prefixes.len() && (#[trigger] prefixes[i])@.is_prefix_of(key)
}

/// The node may write `key`.
pub open spec fn may_write(
    acl: Map<Seq<char>, Vec<String>>,
    node: Seq<char>,
    key: Seq<char>,
) -> bool {
    acl.contains_key(node) ==> matches_prefix(acl[node]@, key)
}

/// Whether the node may write `key`: it has no entry in the access list, or an entry
/// with a prefix of `key` (`key` itself is one).
pub fn acl_allows(acl: &Acl, node_id: &str, key: &str) -> (allowed: bool)
    ensures
        allowed == may_write(acl@, node_id@, key@),
        !acl@.contains_key(node_id@) ==> allowed,
        acl@.contains_key(node_id@) ==> (allowed <==> exists|i: int|
            0 <= i < acl@[node_id@]@.len() && (#[trigger] acl@[node_id@]@[i])@.is_prefix_of(
                key@,
            )),
{
    match acl.get(node_id) {
        None => true,
        Some(prefixes) => {
            let mut i: usize = 0;
            while i < prefixes.len()
                invariant
                    i <= prefixes.len(),
                    acl@.contains_key(node_id@),
                    acl@[node_id@] == *prefixes,
                    forall|j: int|
                        0 <= j < i ==> !(#[trigger] prefixes@[j])@.is_prefix_of(key@),
                decreases prefixes.len() - i,
            {
                if text::starts_with(key, prefixes[i].as_str()) {
                    assert(prefixes@[i as int]@.is_prefix_of(key@));
                    return true;
                }
                i += 1;
            }
            false
        },
    }
}

/// The name of what the envelope is about.
pub fn envelope_key(env: &Envelope) -> (key: &str)
    ensures
        key@ == env@.op.key(),
{
    match &env.op {
        StoreOp::Register { key, .. } => key.as_str(),
        StoreOp::OrSet { key, .. } => key.as_str(),
        StoreOp::Sequence { key, .. } => key.as_str(),
    }
}

/// The value of the hexadecimal digit with code `b`, if it is one.
pub open spec fn nibble(b: int) -> Option<u8> {
    if 0x30 <= b <= 0x39 {
        Some((b - 0x30) as u8)
    } else if 0x61 <= b <= 0x66 {
        Some((b - 0x61 + 10) as u8)
    } else if 0x41 <= b <= 0x46 {
        Some((b - 0x41 + 10) as u8)
    } else {
        None
    }
}

/// The value of the hexadecimal digit `b`.
pub fn hex_nibble(b: u8) -> (value: Result<u8, ()>)
    ensures
        match value {
            Ok(v) => nibble(b as int) == Some(v),
            Err(_) => nibble(b as int) is None,
        },
{
    if b >= 0x30 && b <= 0x39 {
        Ok(b - 0x30)
    } else if b >= 0x61 && b <= 0x66 {
        Ok(b - 0x61 + 10)
    } else if b >= 0x41 && b <= 0x46 {
        Ok(b - 0x41 + 10)
    } else {
        Err(())
    }
}

/// `s` consists of 64 hexadecimal digits.
pub open spec fn is_hex_64(s: Seq<char>) -> bool {
    s.len() == 64 && forall|i: int| 0 <= i < 64 ==> nibble((#[trigger] s[i]) as int) is Some
}

/// The byte number `i` that the hexadecimal digits `s` stand for.
pub open spec fn hex_byte(s: Seq<char>, i: int) -> int {
    16 * nibble(s[2 * i] as int)->0 + nibble(s[2 * i + 1] as int)->0
}

/// The value of the hexadecimal digit `c`.
fn hex_digit(c: char) -> (value: Result<u8, ()>)
    ensures
        match value {
            Ok(v) => nibble(c as int) == Some(v) && v < 16,
            Err(_) => nibble(c as int) is None,
        },
{
    if c as u32 <= 127 {
        hex_nibble(c as u8)
    } else {
        Err(())
    }
}

/// The 32 bytes that `s`, white space around it aside, gives in 64 hexadecimal
/// digits.
pub fn hex_decode_32(s: &str) -> (bytes: Result<[u8; 32], ()>)
    ensures
        match bytes {
            Ok(b) => is_hex_64(text::trimmed(s@)) && forall|i: int|
                0 <= i < 32 ==> (#[trigger] b@[i]) == hex_byte(text::trimmed(s@), i),
            Err(_) => !is_hex_64(text::trimmed(s@)),
        },
{
    let digits = text::chars_of(text::trim(s));
    if digits.len() != 64 {
        return Err(());
    }
    let mut out: [u8; 32] = [0u8; 32];
    let mut i: usize = 0;
    while i < 32
        invariant
            i <= 32,
            digits.len() == 64,
            digits@ == text::trimmed(s@),
            forall|j: int| 0 <= j < 2 * i ==> nibble((#[trigger] digits@[j]) as int) is Some,
            forall|j: int| 0 <= j < i ==> (#[trigger] out@[j]) == hex_byte(digits@, j),
        decreases 32 - i,
    {
        let hi: u8 = match hex_digit(digits[2 * i]) {
            Ok(v) => v,
            Err(_) => {
                return Err(());
            },
        };
        let lo: u8 = match hex_digit(digits[2 * i + 1]) {
            Ok(v) => v,
            Err(_) => {
                return Err(());
            },
        };
        out[i] = 16 * hi + lo;
        i += 1;
    }
    Ok(out)
}

/// A node without an access list may write everything; one with a list may write the names
/// that start with any one of its prefixes, and no others.
pub proof fn law_any_prefix_on_the_list_permits(
    acl: Map<Seq<char>, Vec<String>>,
    node: Seq<char>,
    key: Seq<char>,
)
    ensures
        !acl.contains_key(node) ==> may_write(acl, node, key),
        acl.contains_key(node) ==> {
            &&& forall|i: int|
                #![trigger acl[node]@[i]]
                0 <= i < acl[node]@.len() && acl[node]@[i]@.len() <= key.len() && key.take(
                    acl[node]@[i]@.len() as int,
                ) == acl[node]@[i]@ ==> may_write(acl, node, key)
            &&& may_write(acl, node, key) ==> exists|i: int|
                #![trigger acl[node]@[i]]
                0 <= i < acl[node]@.len() && acl[node]@[i]@.len() <= key.len() && key.take(
                    acl[node]@[i]@.len() as int,
                ) == acl[node]@[i]@
        },
{
    if acl.contains_key(node) {
        let prefixes = acl[node]@;
        assert forall|i: int|
            0 <= i < prefixes.len() implies (#[trigger] prefixes[i])@.is_prefix_of(key) == (
        prefixes[i]@.len() <= key.len() && key.take(prefixes[i]@.len() as int)
            == prefixes[i]@) by {}
    }
}

/// More prefixes never take a permission away: what a node may write under a list it may
/// write under any list with the same prefixes and others, in whatever order.
pub proof fn law_more_prefixes_permit_more(
    a: Map<Seq<char>, Vec<String>>,
    b: Map<Seq<char>, Vec<String>>,
    node: Seq<char>,
    key: Seq<char>,
)
    requires
        b.contains_key(node) ==> a.contains_key(node) && forall|i: int|
            0 <= i < a[node]@.len() ==> exists|j: int|
                0 <= j < b[node]@.len() && (#[trigger] b[node]@[j])@ == (
                #[trigger] a[node]@[i])@,
        may_write(a, node, key),
    ensures
        may_write(b, node, key),
{
    if b.contains_key(node) {
        let i = choose|i: int|
            0 <= i < a[node]@.len() && (#[trigger] a[node]@[i])@.is_prefix_of(key);
        let j = choose|j: int|
            0 <= j < b[node]@.len() && (#[trigger] b[node]@[j])@ == a[node]@[i]@;
        assert(b[node]@[j]@.is_prefix_of(key));
    }
}

/// Everything that a node may write stays so for longer names with the same beginning.
pub proof fn law_permission_extends_to_longer_names(
    acl: Map<Seq<char>, Vec<String>>,
    node: Seq<char>,
    key: Seq<char>,
    more: Seq<char>,
)
    requires
        may_write(acl, node, key),
    ensures
        may_write(acl, node, key + more),
{
    if acl.contains_key(node) {
        let i = choose|i: int|
            0 <= i < acl[node]@.len() && (#[trigger] acl[node]@[i])@.is_prefix_of(key);
        assert((key + more).subrange(0, acl[node]@[i]@.len() as int) =~= key.subrange(
            0,
            acl[node]@[i]@.len() as int,
        ));
        assert(acl[node]@[i]@.is_prefix_of(key + more));
    }
}

/// A signature is accepted exactly if it has 64 bytes, the key is one, and it verifies
/// over the payload; each other outcome says what is wrong first.
pub proof fn law_signatures_are_judged_in_order(
    key: Seq<u8>,
    signature: Option<Vec<u8>>,
    payload: Option<Vec<u8>>,
)
    ensures
        ({
            let verdict = signature_verdict(key, opt_bytes(signature), opt_bytes(payload));
            &&& verdict is Ok <==> {
                &&& signature is Some
                &&& signature->0@.len() == 64
                &&& is_verifying_key(key)
                &&& payload is Some
                &&& signature_verifies(key, payload->0@, signature->0@)
            }
            &&& verdict == Err::<(), SignatureError>(SignatureError::Missing) <==> signature is None
            &&& verdict == Err::<(), SignatureError>(SignatureError::Length) <==> signature is Some
                && signature->0@.len() != 64
            &&& verdict == Err::<(), SignatureError>(SignatureError::Key) <==> signature is Some
                && signature->0@.len() == 64 && !is_verifying_key(key)
            &&& verdict == Err::<(), SignatureError>(SignatureError::Payload) <==> signature is Some
                && signature->0@.len() == 64 && is_verifying_key(key) && payload is None
        }),
{
}

/// The hexadecimal digits are the sixteen of either case, in the order of their values,
/// and nothing else is one.
pub proof fn law_hexadecimal_digits(c: char, v: int)
    ensures
        0 <= v < 16 ==> nibble("0123456789abcdef"@[v] as int) == Some(v as u8),
        0 <= v < 16 ==> nibble("0123456789ABCDEF"@[v] as int) == Some(v as u8),
        nibble(c as int) is Some <==> "0123456789abcdef"@.contains(c)
            || "0123456789ABCDEF"@.contains(c),
{
    reveal_strlit("0123456789abcdef");
    reveal_strlit("0123456789ABCDEF");
    let lower = "0123456789abcdef"@;
    let upper = "0123456789ABCDEF"@;
    if nibble(c as int) is Some {
        let d = nibble(c as int)->0 as int;
        if c as int <= 0x39 {
            assert(lower[d] == c);
        } else if c as int >= 0x61 {
            assert(lower[d] == c);
        } else {
            assert(upper[d] == c);
        }
    }
    if lower.contains(c) {
        let i = choose|i: int| 0 <= i < lower.len() && lower[i] == c;
        assert(nibble(c as int) is Some);
    }
    if upper.contains(c) {
        let i = choose|i: int| 0 <= i < upper.len() && upper[i] == c;
        assert(nibble(c as int) is Some);
    }
}

/// What is written in hexadecimal digits is read back: the text of 32 bytes, two digits
/// for each, the higher first, is one that is read, and gives these bytes.
pub proof fn law_hexadecimal_reads_back(bytes: Seq<u8>, s: Seq<char>)
    requires
        bytes.len() == 32,
        s.len() == 64,
        forall|i: int|
            #![trigger bytes[i]]
            0 <= i < 32 ==> s[2 * i] == "0123456789abcdef"@[bytes[i] as int / 16] && s[2 * i + 1]
                == "0123456789abcdef"@[bytes[i] as int % 16],
    ensures
        is_hex_64(s),
        forall|i: int| 0 <= i < 32 ==> #[trigger] hex_byte(s, i) == bytes[i],
{
    assert forall|i: int| 0 <= i < 32 implies #[trigger] hex_byte(s, i) == bytes[i] && nibble(
        s[2 * i] as int,
    ) is Some && nibble(s[2 * i + 1] as int) is Some by {
        let b = bytes[i] as int;
        law_hexadecimal_digits('0', b / 16);
        law_hexadecimal_digits('0', b % 16);
    }
    assert forall|j: int| 0 <= j < 64 implies nibble((#[trigger] s[j]) as int) is Some by {
        let i = j / 2;
        assert(hex_byte(s, i) == bytes[i]);
        assert(j == 2 * i || j == 2 * i + 1);
    }
}

/// A text is one of 32 bytes exactly if it has 64 characters, all of them digits; the case
/// of the digits does not matter.
pub proof fn law_what_is_hexadecimal(s: Seq<char>)
    ensures
        is_hex_64(s) <==> s.len() == 64 && forall|i: int|
            0 <= i < 64 ==> "0123456789abcdef"@.contains(#[trigger] s[i])
                || "0123456789ABCDEF"@.contains(s[i]),
{
    assert forall|i: int| 0 <= i < 64 implies (nibble((#[trigger] s[i]) as int) is Some <==> (
    "0123456789abcdef"@.contains(s[i]) || "0123456789ABCDEF"@.contains(s[i]))) by {
        law_hexadecimal_digits(s[i], 0);
    }
}

/// The name of what an envelope is about is that of its operation.
pub proof fn law_envelopes_are_about_one_name(env: Envelope)
    ensures
        env@.op.key() == match env.op {
            StoreOp::Register { key, .. } => key@,
            StoreOp::OrSet { key, .. } => key@,
            StoreOp::Sequence { key, .. } => key@,
        },
        env@.timestamp == env.timestamp,
        env@.node == env.node_id@,
{
}

} // verus!
