//! How an action is signed: hashes, hexadecimal text, and the typed data that the exchange
//! expects a signature over.
use k256::ecdsa::SigningKey;
use sha3::{Digest, Keccak256};
use vstd::prelude::*;
use vstd::utf8::{encode_utf8, is_ascii_chars, is_ascii_chars_encode_utf8};

use crate::text::{strip_front, without_front};

verus! {

// ---- hashes -------------------------------------------------------------------------------

/// The Keccak-256 hash of some bytes.
pub uninterp spec fn keccak(data: Seq<u8>) -> Seq<u8>;

/// `sha3::Keccak256`, fed with the bytes at once: the hash is a function of them.
#[verifier::external_body]
pub(crate) fn keccak256(data: &[u8]) -> (r: [u8; 32])
    ensures
        r@ == keccak(data@),
{
    Keccak256::digest(data).into()
}

/// Some bytes with zeros in front of them, 32 in all.
pub open spec fn left_padded(bytes: Seq<u8>) -> Seq<u8> {
    Seq::new((32 - bytes.len()) as nat, |i: int| 0u8) + bytes
}

/// Some bytes with zeros in front of them, 32 in all.
pub fn left_pad_32(bytes: &[u8]) -> (r: [u8; 32])
    requires
        bytes@.len() <= 32,
    ensures
        r@ == left_padded(bytes@),
{
    let mut out = [0u8; 32];
    let start: usize = 32 - bytes.len();
    let mut i: usize = 0;
    while i < bytes.len()
        invariant
            i <= bytes@.len() <= 32,
            start + bytes@.len() == 32,
            forall|k: int| 0 <= k < start ==> out@[k] == 0,
            forall|k: int| start <= k < start + i ==> out@[k] == bytes@[k - start],
        decreases bytes@.len() - i,
    {
        out[start + i] = bytes[i];
        i = i + 1;
    }
    assert(out@ =~= left_padded(bytes@));
    out
}

/// The hash of a text.
pub open spec fn text_hash(s: Seq<char>) -> Seq<u8> {
    keccak(encode_utf8(s))
}

/// The hash of a text.
pub fn hash_string(value: &str) -> (r: [u8; 32])
    ensures
        r@ == text_hash(value@),
{
    keccak256(value.as_bytes())
}

/// The last `k` bytes of a number, the most significant first.
pub open spec fn big_endian(n: nat, k: nat) -> Seq<u8>
    decreases k,
{
    if k == 0 {
        Seq::empty()
    } else {
        big_endian(n / 256, (k - 1) as nat).push((n % 256) as u8)
    }
}

/// Appends the last `k` bytes of a number.
fn push_big_endian(v: &mut Vec<u8>, n: u64, k: usize)
    ensures
        final(v)@ == old(v)@ + big_endian(n as nat, k as nat),
    decreases k,
{
    if k > 0 {
        push_big_endian(v, n / 256, k - 1);
        v.push((n % 256) as u8);
    }
    assert(v@ == old(v)@ + big_endian(n as nat, k as nat));
}

proof fn lemma_big_endian_len(n: nat, k: nat)
    ensures
        big_endian(n, k).len() == k,
    decreases k,
{
    if k > 0 {
        lemma_big_endian_len(n / 256, (k - 1) as nat);
    }
}

/// A number as a word of 32 bytes.
pub fn encode_u64_word(value: u64) -> (r: [u8; 32])
    ensures
        r@ == left_padded(big_endian(value as nat, 8)),
{
    let mut v: Vec<u8> = Vec::new();
    push_big_endian(&mut v, value, 8);
    proof {
        lemma_big_endian_len(value as nat, 8);
    }
    assert(v@ == big_endian(value as nat, 8));
    left_pad_32(v.as_slice())
}

/// Appends some bytes.
fn push_bytes(v: &mut Vec<u8>, bytes: &[u8])
    ensures
        final(v)@ == old(v)@ + bytes@,
{
    let mut i: usize = 0;
    while i < bytes.len()
        invariant
            i <= bytes@.len(),
            v@ == old(v)@ + bytes@.take(i as int),
        decreases bytes@.len() - i,
    {
        v.push(bytes[i]);
        assert(bytes@.take(i + 1) == bytes@.take(i as int).push(bytes@[i as int]));
        i = i + 1;
    }
    assert(bytes@.take(bytes@.len() as int) == bytes@);
}

// ---- hexadecimal text ---------------------------------------------------------------------

/// Why a text is not hexadecimal.
#[derive(Clone, Copy, Debug, PartialEq, Eq, Structural)]
pub enum HexError {
    /// A byte that is no digit, as a character, and its place.
    BadCharacter { c: char, index: usize },
    OddLength,
    WrongLength,
}

/// A hexadecimal digit in lower case.
pub open spec fn hex_digit(n: u8) -> char {
    if n < 10 {
        (48 + n) as char
    } else {
        (87 + n) as char
    }
}

/// Some bytes in hexadecimal, two digits each.
pub open spec fn hex_text(bytes: Seq<u8>) -> Seq<char> {
    Seq::new(
        2 * bytes.len(),
        |i: int|
            if i % 2 == 0 {
                hex_digit(bytes[i / 2] / 16)
            } else {
                hex_digit((bytes[i / 2] % 16) as u8)
            },
    )
}

/// `hex::encode`: two digits in lower case for each byte.
#[verifier::external_body]
pub(crate) fn encode_hex(bytes: &[u8]) -> (r: String)
    ensures
        r@ == hex_text(bytes@),
{
    hex::encode(bytes)
}

/// The value of a hexadecimal digit, in either case.
pub open spec fn hex_value(b: u8) -> Option<u8> {
    if 48 <= b <= 57 {
        Some((b - 48) as u8)
    } else if 65 <= b <= 70 {
        Some((b - 55) as u8)
    } else if 97 <= b <= 102 {
        Some((b - 87) as u8)
    } else {
        None
    }
}

/// The first byte from the place `from` on that is no digit.
pub open spec fn first_bad(s: Seq<u8>, from: int) -> Option<int>
    decreases s.len() - from,
{
    if from >= s.len() {
        None
    } else if hex_value(s[from]) is None {
        Some(from)
    } else {
        first_bad(s, from + 1)
    }
}

/// The bytes that some text stands for: two digits each.
pub open spec fn hex_bytes(s: Seq<u8>) -> Result<Seq<u8>, HexError> {
    if s.len() % 2 != 0 {
        Err(HexError::OddLength)
    } else {
        match first_bad(s, 0) {
            Some(i) => Err(HexError::BadCharacter { c: s[i] as char, index: i as usize }),
            None => Ok(
                Seq::new(
                    s.len() / 2,
                    |i: int| (hex_value(s[2 * i])->0 * 16 + hex_value(s[2 * i + 1])->0) as u8,
                ),
            ),
        }
    }
}

/// `hex::decode`, with the variants of its error: the bytes, or that their number is odd, or
/// the first that is no digit.
#[verifier::external_body]
pub(crate) fn decode_hex(text: &[u8]) -> (r: Result<Vec<u8>, HexError>)
    ensures
        match r {
            Ok(v) => hex_bytes(text@) == Ok::<Seq<u8>, HexError>(v@),
            Err(e) => hex_bytes(text@) == Err::<Seq<u8>, HexError>(e),
        },
{
    match hex::decode(text) {
        Ok(v) => Ok(v),
        Err(hex::FromHexError::InvalidHexCharacter { c, index }) => Err(
            HexError::BadCharacter { c, index },
        ),
        Err(hex::FromHexError::OddLength) => Err(HexError::OddLength),
        Err(hex::FromHexError::InvalidStringLength) => Err(HexError::WrongLength),
    }
}

proof fn lemma_no_bad(s: Seq<u8>, from: int)
    requires
        0 <= from,
        forall|i: int| 0 <= i < s.len() ==> hex_value(#[trigger] s[i]) is Some,
    ensures
        first_bad(s, from) is None,
    decreases s.len() - from,
{
    if from < s.len() {
        lemma_no_bad(s, from + 1);
    }
}

/// Bytes that are written in hexadecimal are read back as they were.
pub proof fn hex_reads_what_it_wrote(bytes: Seq<u8>)
    ensures
        hex_bytes(encode_utf8(hex_text(bytes))) == Ok::<Seq<u8>, HexError>(bytes),
{
    let text = hex_text(bytes);
    assert(is_ascii_chars(text));
    is_ascii_chars_encode_utf8(text);
    let s = encode_utf8(text);
    assert forall|i: int| 0 <= i < s.len() implies hex_value(#[trigger] s[i]) == Some(
        (if i % 2 == 0 {
            bytes[i / 2] / 16
        } else {
            bytes[i / 2] % 16
        }) as u8,
    ) by {
        assert(text[i] as u8 == s[i]);
    }
    lemma_no_bad(s, 0);
    let back = Seq::new(
        s.len() / 2,
        |i: int| (hex_value(s[2 * i])->0 * 16 + hex_value(s[2 * i + 1])->0) as u8,
    );
    assert forall|i: int| 0 <= i < bytes.len() implies back[i] == bytes[i] by {
        assert(hex_value(s[2 * i]) == Some((bytes[i] / 16) as u8));
        assert(hex_value(s[2 * i + 1]) == Some((bytes[i] % 16) as u8));
    }
    assert(back =~= bytes);
}

/// The bytes of a text that may start with `0x`.
pub open spec fn prefixed_bytes(s: Seq<char>) -> Result<Seq<u8>, HexError> {
    hex_bytes(encode_utf8(without_front(s, "0x"@)))
}

/// The bytes of a text that may start with `0x`.
pub fn decode_prefixed(s: &str) -> (r: Result<Vec<u8>, HexError>)
    ensures
        match r {
            Ok(v) => prefixed_bytes(s@) == Ok::<Seq<u8>, HexError>(v@),
            Err(e) => prefixed_bytes(s@) == Err::<Seq<u8>, HexError>(e),
        },
{
    let body = strip_front(s, "0x");
    decode_hex(body.as_str().as_bytes())
}

// ---- keys -----------------------------------------------------------------------------------

/// The number that some bytes spell, the most significant first.
pub open spec fn big_endian_value(s: Seq<u8>) -> nat
    decreases s.len(),
{
    if s.len() == 0 {
        0
    } else {
        big_endian_value(s.drop_last()) * 256 + s.last() as nat
    }
}

/// The order of the curve secp256k1.
pub open spec fn curve_order() -> nat {
    0xFFFFFFFFFFFFFFFFFFFFFFFFFFFFFFFEBAAEDCE6AF48A03BBFD25E8CD0364141nat
}

/// Some bytes that are a private key: 24 to 32 of them, spelling a number other than zero and
/// below the order of the curve.
pub open spec fn is_key(bytes: Seq<u8>) -> bool {
    24 <= bytes.len() <= 32 && 0 < big_endian_value(bytes) < curve_order()
}

/// `k256::ecdsa::SigningKey::from_slice`: which bytes it accepts.
#[verifier::external_body]
pub(crate) fn accepts_key(bytes: &[u8]) -> (r: bool)
    ensures
        r == is_key(bytes@),
{
    SigningKey::from_slice(bytes).is_ok()
}

/// Why a text is not a private key.
#[derive(Clone, Copy, Debug, PartialEq, Eq, Structural)]
pub enum KeyError {
    Hex(HexError),
    Invalid,
}

/// The private key that a text holds.
pub open spec fn key_of(text: Seq<char>) -> Result<Seq<u8>, KeyError> {
    match prefixed_bytes(text) {
        Err(e) => Err(KeyError::Hex(e)),
        Ok(v) => if is_key(v) {
            Ok(v)
        } else {
            Err(KeyError::Invalid)
        },
    }
}

/// The private key that a text holds.
pub fn read_key(text: &str) -> (r: Result<Vec<u8>, KeyError>)
    ensures
        match r {
            Ok(v) => key_of(text@) == Ok::<Seq<u8>, KeyError>(v@) && is_key(v@),
            Err(e) => key_of(text@) == Err::<Seq<u8>, KeyError>(e),
        },
{
    match decode_prefixed(text) {
        Err(e) => Err(KeyError::Hex(e)),
        Ok(v) => {
            if accepts_key(v.as_slice()) {
                Ok(v)
            } else {
                Err(KeyError::Invalid)
            }
        },
    }
}

// ---- signatures -------------------------------------------------------------------------------

/// The signature of a digest by a key: 64 bytes, and the number that tells which of the
/// possible public keys made it; nothing where none can be made.
pub uninterp spec fn signed(key: Seq<u8>, digest: Seq<u8>) -> Option<(Seq<u8>, u8)>;

/// `k256::ecdsa::SigningKey::sign_prehash_recoverable`, for the key that `from_slice` makes of
/// the bytes: the nonce is derived from key and digest, so the signature is a function of
/// them. It has 64 bytes, and its recovery id is at most three.
#[verifier::external_body]
pub(crate) fn sign_digest(key: &[u8], digest: &[u8; 32]) -> (r: Option<([u8; 64], u8)>)
    requires
        is_key(key@),
    ensures
        r is Some <==> signed(key@, digest@) is Some,
        r matches Some((bytes, id)) ==> signed(key@, digest@) == Some((bytes@, id)) && id <= 3,
{
    let key = SigningKey::from_slice(key).ok()?;
    let (signature, id) = key.sign_prehash_recoverable(digest).ok()?;
    Some((signature.to_bytes().into(), id.to_byte()))
}

/// A signature as the exchange wants it
#[derive(Clone, Debug)]
pub struct ApiSignature {
    pub r: String,
    pub s: String,
    pub v: u8,
}

/// A signature with its texts as characters.
#[verifier::ext_equal]
pub struct SignatureView {
    pub r: Seq<char>,
    pub s: Seq<char>,
    pub v: u8,
}

impl View for ApiSignature {
    type V = SignatureView;

    open spec fn view(&self) -> SignatureView {
        SignatureView { r: self.r@, s: self.s@, v: self.v }
    }
}

/// The two halves of a signature in hexadecimal, and its recovery id from 27 on.
pub open spec fn signature_text(bytes: Seq<u8>, id: u8) -> SignatureView {
    SignatureView {
        r: "0x"@ + hex_text(bytes.take(32)),
        s: "0x"@ + hex_text(bytes.skip(32)),
        v: (id + 27) as u8,
    }
}

/// Writes a signature as the exchange wants it.
pub fn format_signature(bytes: &[u8; 64], id: u8) -> (r: ApiSignature)
    requires
        id <= 228,
    ensures
        r@ == signature_text(bytes@, id),
{
    let mut left: Vec<u8> = Vec::new();
    let mut right: Vec<u8> = Vec::new();
    let mut i: usize = 0;
    while i < 32
        invariant
            i <= 32,
            left@ == bytes@.subrange(0, i as int),
            right@ == bytes@.subrange(32, 32 + i as int),
        decreases 32 - i,
    {
        left.push(bytes[i]);
        right.push(bytes[32 + i]);
        i = i + 1;
    }
    assert(left@ == bytes@.take(32));
    assert(right@ == bytes@.skip(32));
    let mut r = "0x".to_owned();
    let first = encode_hex(left.as_slice());
    r.push_str(first.as_str());
    let mut s = "0x".to_owned();
    let second = encode_hex(right.as_slice());
    s.push_str(second.as_str());
    ApiSignature { r, s, v: id + 27 }
}

/// The hash of the signing domain: the name "Exchange", version one, chain 1337, and the zero
/// address.
pub open spec fn domain_hash() -> Seq<u8> {
    keccak(
        text_hash(
            "EIP712Domain(string name,string version,uint256 chainId,address verifyingContract)"@,
        ) + text_hash("Exchange"@) + text_hash("1"@) + left_padded(big_endian(1337, 8)) + Seq::new(
            32,
            |i: int| 0u8,
        ),
    )
}

/// The hash of the signing domain.
pub fn eip712_domain_hash() -> (r: [u8; 32])
    ensures
        r@ == domain_hash(),
{
    let mut encoded: Vec<u8> = Vec::new();
    let type_hash = hash_string(
        "EIP712Domain(string name,string version,uint256 chainId,address verifyingContract)",
    );
    let name_hash = hash_string("Exchange");
    let version_hash = hash_string("1");
    let chain_id = encode_u64_word(1337);
    let verifying_contract = [0u8; 32];
    push_bytes(&mut encoded, &type_hash);
    push_bytes(&mut encoded, &name_hash);
    push_bytes(&mut encoded, &version_hash);
    push_bytes(&mut encoded, &chain_id);
    push_bytes(&mut encoded, &verifying_contract);
    proof {
        assert(verifying_contract@ =~= Seq::new(32, |i: int| 0u8));
        assert(encoded@ =~= type_hash@ + name_hash@ + version_hash@ + chain_id@
            + verifying_contract@);
    }
    keccak256(encoded.as_slice())
}

/// The hash of the agent that stands for an action: its source tells the main net from the
/// test net.
pub open spec fn agent_hash(connection_id: Seq<u8>, is_mainnet: bool) -> Seq<u8> {
    keccak(
        text_hash("Agent(string source,bytes32 connectionId)"@) + text_hash(
            if is_mainnet {
                "a"@
            } else {
                "b"@
            },
        ) + connection_id,
    )
}

/// The hash of the agent that stands for an action.
pub fn agent_struct_hash(connection_id: &[u8; 32], is_mainnet: bool) -> (r: [u8; 32])
    ensures
        r@ == agent_hash(connection_id@, is_mainnet),
{
    let mut encoded: Vec<u8> = Vec::new();
    let type_hash = hash_string("Agent(string source,bytes32 connectionId)");
    let source_hash = hash_string(
        if is_mainnet {
            "a"
        } else {
            "b"
        },
    );
    push_bytes(&mut encoded, &type_hash);
    push_bytes(&mut encoded, &source_hash);
    push_bytes(&mut encoded, connection_id);
    assert(encoded@ =~= type_hash@ + source_hash@ + connection_id@);
    keccak256(encoded.as_slice())
}

/// The digest that is signed for an action.
pub open spec fn action_digest(connection_id: Seq<u8>, is_mainnet: bool) -> Seq<u8> {
    keccak(seq![0x19u8, 0x01u8] + domain_hash() + agent_hash(connection_id, is_mainnet))
}

/// The digest that is signed for an action.
pub fn digest_of(connection_id: &[u8; 32], is_mainnet: bool) -> (r: [u8; 32])
    ensures
        r@ == action_digest(connection_id@, is_mainnet),
{
    let domain_hash = eip712_domain_hash();
    let struct_hash = agent_struct_hash(connection_id, is_mainnet);
    let mut input: Vec<u8> = Vec::new();
    input.push(0x19);
    input.push(0x01);
    push_bytes(&mut input, &domain_hash);
    push_bytes(&mut input, &struct_hash);
    assert(input@ =~= seq![0x19u8, 0x01u8] + domain_hash@ + struct_hash@);
    keccak256(input.as_slice())
}

/// The signature of an action by a key.
pub open spec fn action_signature(key: Seq<u8>, connection_id: Seq<u8>, is_mainnet: bool) -> Option<
    SignatureView,
> {
    match signed(key, action_digest(connection_id, is_mainnet)) {
        Some((bytes, id)) => Some(signature_text(bytes, id)),
        None => None,
    }
}

/// Signs an action by a key.
pub fn sign_action(key: &[u8], connection_id: &[u8; 32], is_mainnet: bool) -> (r: Option<
    ApiSignature,
>)
    requires
        is_key(key@),
    ensures
        r is Some <==> action_signature(key@, connection_id@, is_mainnet) is Some,
        r matches Some(s) ==> action_signature(key@, connection_id@, is_mainnet) == Some(s@),
{
    let digest = digest_of(connection_id, is_mainnet);
    match sign_digest(key, &digest) {
        Some((bytes, id)) => Some(format_signature(&bytes, id)),
        None => None,
    }
}

// ---- connection ids ------------------------------------------------------------------------------

/// What is hashed for an action: its encoding, the nonce, and the vault behind a mark.
pub open spec fn action_preimage(packed: Seq<u8>, nonce: u64, vault: Option<Seq<u8>>) -> Seq<u8> {
    packed + big_endian(nonce as nat, 8) + match vault {
        Some(address) => seq![1u8] + address,
        None => seq![0u8],
    }
}

/// Why an action has no connection id.
#[derive(Clone, Copy, Debug, PartialEq, Eq, Structural)]
pub enum VaultError {
    Hex(HexError),
    /// The address has not 20 bytes.
    Length,
}

/// The address of a vault.
pub open spec fn vault_of(text: Option<Seq<char>>) -> Result<Option<Seq<u8>>, VaultError> {
    match text {
        None => Ok(None),
        Some(s) => match prefixed_bytes(s) {
            Err(e) => Err(VaultError::Hex(e)),
            Ok(v) => if v.len() == 20 {
                Ok(Some(v))
            } else {
                Err(VaultError::Length)
            },
        },
    }
}

/// The id under which an action is signed.
pub open spec fn connection_id(packed: Seq<u8>, nonce: u64, vault: Option<Seq<char>>) -> Result<
    Seq<u8>,
    VaultError,
> {
    match vault_of(vault) {
        Err(e) => Err(e),
        Ok(v) => Ok(keccak(action_preimage(packed, nonce, v))),
    }
}

/// The characters of an optional text.
pub open spec fn optional_text(o: Option<&str>) -> Option<Seq<char>> {
    match o {
        Some(s) => Some(s@),
        None => None,
    }
}

/// What is hashed for an action.
pub fn frame_action(packed: &[u8], nonce: u64, vault: Option<&[u8]>) -> (r: Vec<u8>)
    ensures
        r@ == action_preimage(
            packed@,
            nonce,
            match vault {
                Some(v) => Some(v@),
                None => None,
            },
        ),
{
    let mut bytes: Vec<u8> = Vec::new();
    push_bytes(&mut bytes, packed);
    push_big_endian(&mut bytes, nonce, 8);
    match vault {
        Some(address) => {
            bytes.push(1);
            push_bytes(&mut bytes, address);
            assert(bytes@ =~= packed@ + big_endian(nonce as nat, 8) + (seq![1u8] + address@));
        },
        None => {
            bytes.push(0);
            assert(bytes@ =~= packed@ + big_endian(nonce as nat, 8) + seq![0u8]);
        },
    }
    bytes
}

/// The id under which an action is signed, out of its encoding.
pub fn action_connection_id(packed: &[u8], nonce: u64, vault_address: Option<&str>) -> (r: Result<
    [u8; 32],
    VaultError,
>)
    ensures
        match r {
            Ok(id) => connection_id(packed@, nonce, optional_text(vault_address)) == Ok::<
                Seq<u8>,
                VaultError,
            >(id@),
            Err(e) => connection_id(packed@, nonce, optional_text(vault_address)) == Err::<
                Seq<u8>,
                VaultError,
            >(e),
        },
{
    match vault_address {
        Some(text) => match decode_prefixed(text) {
            Err(e) => Err(VaultError::Hex(e)),
            Ok(address) => {
                if address.len() != 20 {
                    return Err(VaultError::Length);
                }
                let bytes = frame_action(packed, nonce, Some(address.as_slice()));
                Ok(keccak256(bytes.as_slice()))
            },
        },
        None => {
            let bytes = frame_action(packed, nonce, None);
            Ok(keccak256(bytes.as_slice()))
        },
    }
}

} // verus!
