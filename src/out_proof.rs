//! Out-proofs: proving and verifying that a transaction output pays an address,
//! and the text form of proofs.
use vstd::prelude::*;
use vstd::string::StringSliceAdditionalSpecFns;
use vstd::slice::slice_subrange;
use crate::crypto::{
    append, base_point, base_point_bytes, commit, commitment_point, keccak256, keccak_of, point_add,
    point_mul, point_plus, point_times, scalar_bytes, scalar_mul, scalar_of, scalar_reduce,
    scalar_sub, wipe_bytes,
};
use crate::shared_key_derivations::{
    decrypt_spec, hash_to_scalar, payment_id_xor_spec, shared_key_spec, uniqueness_data,
    view_tag_spec, EncryptedAmount, SharedKeyDerivations, TxInput,
};
use crate::base58::{
    as_chars, decode_bytes, decode_spec, encode, encode_spec, encoded_len, lemma_block_lens,
    lemma_decode_encode, lemma_decode_rejects_non_symbol, lemma_encode_len, push_char, digit_of,
};

verus! {

/// The bytes of the tag that every proof text starts with, `OutProofV2`.
pub open spec fn prefix() -> Seq<u8> {
    seq![79u8, 117, 116, 80, 114, 111, 111, 102, 86, 50]
}

/// Symbols that encode the 32 bytes of a point.
pub const POINT_TEXT_LEN: usize = 44;

/// Symbols that encode the 64 bytes of a challenge and a response.
pub const SIGNATURE_TEXT_LEN: usize = 88;

/// The order of the prime-order subgroup of Ed25519.
pub open spec fn group_order() -> nat {
    vstd::arithmetic::power2::pow2(252) + 27742317777372353535851937790883648493nat
}

/// The little-endian value of the bytes `s`.
pub open spec fn le_value(s: Seq<u8>) -> nat
    decreases s.len(),
{
    if s.len() == 0 {
        0
    } else {
        s[0] as nat + 256 * le_value(s.drop_first())
    }
}

/// `s` is the canonical encoding of a scalar: 32 bytes whose value is reduced.
pub open spec fn is_canonical_scalar(s: Seq<u8>) -> bool {
    s.len() == 32 && le_value(s) < group_order()
}

/// Whether `b` is the canonical encoding of an Ed25519 point.
pub uninterp spec fn is_point_encoding(b: Seq<u8>) -> bool;

/// Relies on monero-ed25519's `CompressedPoint::decompress`, which accepts exactly
/// the canonical encodings of Ed25519 points.
#[verifier::external_body]
fn point_decodes(b: [u8; 32]) -> (r: bool)
    ensures
        r == is_point_encoding(b@),
{
    monero_wallet::ed25519::CompressedPoint::from(b).decompress().is_some()
}

/// Relies on monero-ed25519's `Scalar::read`, which accepts 32 bytes when they
/// are a reduced scalar (curve25519-dalek's `Scalar::from_canonical_bytes`).
#[verifier::external_body]
fn scalar_decodes(b: [u8; 32]) -> (r: bool)
    ensures
        r == is_canonical_scalar(b@),
{
    monero_wallet::ed25519::Scalar::read(&mut b.as_slice()).is_ok()
}

/// rand_core's `OsRng`, the operating system's generator, carried as an opaque value.
#[verifier::external_type_specification]
#[verifier::external_body]
pub struct ExOsRng(rand_core::OsRng);

/// Relies on curve25519-dalek's `Scalar::random`: a scalar drawn from the
/// operating system's generator, reduced.
#[verifier::external_body]
fn random_scalar(rng: &mut rand_core::OsRng) -> (r: [u8; 32])
    ensures
        is_canonical_scalar(r@),
{
    curve25519_dalek::Scalar::random(rng).to_bytes()
}

/// Relies on `String::push_str`: appends `t` at the end of `s`.
#[verifier::external_body]
fn push_str(s: &mut String, t: &str)
    ensures
        final(s)@ == old(s)@ + t@,
{
    s.push_str(t)
}

/// A proof that an output of a transaction pays a given address: the shared
/// Diffie-Hellman point, the challenge and the response, each in its canonical
/// 32-byte encoding.
#[derive(Clone, Copy, Debug, PartialEq, Eq)]
pub struct OutProof {
    pub ecdh: [u8; 32],
    pub c: [u8; 32],
    pub s: [u8; 32],
}

impl View for OutProof {
    type V = (Seq<u8>, Seq<u8>, Seq<u8>);

    open spec fn view(&self) -> (Seq<u8>, Seq<u8>, Seq<u8>) {
        (self.ecdh@, self.c@, self.s@)
    }
}

/// The encodings hold a point and two reduced scalars.
pub open spec fn proof_wf(p: (Seq<u8>, Seq<u8>, Seq<u8>)) -> bool {
    p.0.len() == 32 && is_point_encoding(p.0) && is_canonical_scalar(p.1) && is_canonical_scalar(p.2)
}

/// The text of one proof after the tag: the point's encoding, then the encoding of
/// the challenge and the response together.
pub open spec fn proof_text(p: (Seq<u8>, Seq<u8>, Seq<u8>)) -> Seq<u8> {
    encode_spec(p.0) + encode_spec(p.1 + p.2)
}

/// The texts of the proofs `ps`, one after the other.
pub open spec fn proofs_text(ps: Seq<(Seq<u8>, Seq<u8>, Seq<u8>)>) -> Seq<u8>
    decreases ps.len(),
{
    if ps.len() == 0 {
        seq![]
    } else {
        proofs_text(ps.drop_last()) + proof_text(ps.last())
    }
}

/// The text of the proofs `ps`: the tag, then each proof.
pub open spec fn write_spec(ps: Seq<(Seq<u8>, Seq<u8>, Seq<u8>)>) -> Seq<u8> {
    prefix() + proofs_text(ps)
}

/// The proof whose point is encoded by `e` and whose challenge and response by `g`.
pub open spec fn proof_from(e: Seq<u8>, g: Seq<u8>) -> Option<(Seq<u8>, Seq<u8>, Seq<u8>)> {
    match (decode_spec(e), decode_spec(g)) {
        (Some(eb), Some(gb)) => {
            let p = (eb, gb.take(32), gb.skip(32));
            if eb.len() == 32 && gb.len() == 64 && proof_wf(p) {
                Some(p)
            } else {
                None
            }
        },
        _ => None,
    }
}

/// The proofs in the text `t` that follows the tag: `None` if any is malformed or
/// the text ends inside one.
pub open spec fn parse_spec(t: Seq<u8>) -> Option<Seq<(Seq<u8>, Seq<u8>, Seq<u8>)>>
    decreases t.len(),
{
    if t.len() == 0 {
        Some(seq![])
    } else if t.len() < 132 {
        None
    } else {
        match proof_from(t.take(44), t.subrange(44, 132)) {
            Some(p) => match parse_spec(t.skip(132)) {
                Some(ps) => Some(seq![p] + ps),
                None => None,
            },
            None => None,
        }
    }
}

/// The proofs in the text `t`: none if it does not start with the tag.
pub open spec fn read_spec(t: Seq<u8>) -> Option<Seq<(Seq<u8>, Seq<u8>, Seq<u8>)>> {
    if t.len() >= 10 && t.take(10) == prefix() {
        parse_spec(t.skip(10))
    } else {
        Some(seq![])
    }
}

/// The views of the proofs `ps`.
pub open spec fn views(ps: Seq<OutProof>) -> Seq<(Seq<u8>, Seq<u8>, Seq<u8>)> {
    ps.map_values(|p: OutProof| p@)
}

/// The bytes of `a` followed by those of `b`.
fn concat_bytes(a: &[u8; 32], b: &[u8; 32]) -> (r: Vec<u8>)
    ensures
        r@ == a@ + b@,
{
    let mut r: Vec<u8> = Vec::new();
    let mut i: usize = 0;
    while i < 32
        invariant
            i <= 32,
            r@ == a@.take(i as int),
        decreases 32 - i,
    {
        r.push(a[i]);
        proof {
            assert(a@.take(i + 1) =~= a@.take(i as int).push(a@[i as int]));
        }
        i = i + 1;
    }
    let mut j: usize = 0;
    while j < 32
        invariant
            j <= 32,
            r@ == a@ + b@.take(j as int),
        decreases 32 - j,
    {
        r.push(b[j]);
        proof {
            assert(a@ + b@.take(j + 1) =~= (a@ + b@.take(j as int)).push(b@[j as int]));
        }
        j = j + 1;
    }
    assert(a@.take(32) =~= a@);
    assert(b@.take(32) =~= b@);
    r
}

/// The 32 bytes of `v` from `at` on.
fn bytes_32(v: &Vec<u8>, at: usize) -> (r: [u8; 32])
    requires
        at + 32 <= v@.len(),
    ensures
        r@ == v@.subrange(at as int, at + 32),
{
    let mut r: [u8; 32] = [0u8; 32];
    let n: usize = v.len();
    let mut i: usize = 0;
    while i < 32
        invariant
            i <= 32,
            n == v@.len(),
            at + 32 <= v@.len(),
            forall|k: int| 0 <= k < i ==> r@[k] == v@[at + k],
        decreases 32 - i,
    {
        r[i] = v[at + i];
        i = i + 1;
    }
    assert(r@ =~= v@.subrange(at as int, at + 32));
    r
}

/// Appends the text of `p` to `res`.
fn push_proof(res: &mut String, p: &OutProof)
    ensures
        final(res)@ == old(res)@ + as_chars(proof_text(p@)),
{
    let e = encode(&p.ecdh);
    push_str(res, e.as_str());
    let sig = concat_bytes(&p.c, &p.s);
    let g = encode(sig.as_slice());
    push_str(res, g.as_str());
    assert(as_chars(proof_text(p@)) =~= as_chars(encode_spec(p.ecdh@)) + as_chars(encode_spec(sig@)));
}

/// `d` followed by the proofs of `r`, if `r` is there.
pub open spec fn prepend_proofs(
    d: Seq<(Seq<u8>, Seq<u8>, Seq<u8>)>,
    r: Option<Seq<(Seq<u8>, Seq<u8>, Seq<u8>)>>,
) -> Option<Seq<(Seq<u8>, Seq<u8>, Seq<u8>)>> {
    match r {
        Some(x) => Some(d + x),
        None => None,
    }
}

/// Whether `t` starts with the tag.
fn starts_with_tag(t: &[u8]) -> (r: bool)
    ensures
        r == (t@.len() >= 10 && t@.take(10) == prefix()),
{
    if t.len() < 10 {
        return false;
    }
    let tag: Vec<u8> = vec![79u8, 117, 116, 80, 114, 111, 111, 102, 86, 50];
    let mut i: usize = 0;
    while i < 10
        invariant
            tag@ == prefix(),
            t@.len() >= 10,
            i <= 10,
            t@.take(i as int) == tag@.take(i as int),
        decreases 10 - i,
    {
        if t[i] != tag[i] {
            assert(t@.take(10)[i as int] != prefix()[i as int]);
            return false;
        }
        assert(t@.take(i + 1) =~= tag@.take(i + 1));
        i = i + 1;
    }
    assert(tag@.take(10) =~= tag@);
    true
}

proof fn lemma_proofs_text_front(ps: Seq<(Seq<u8>, Seq<u8>, Seq<u8>)>)
    requires
        ps.len() > 0,
    ensures
        proofs_text(ps) == proof_text(ps[0]) + proofs_text(ps.drop_first()),
    decreases ps.len(),
{
    if ps.len() == 1 {
        assert(ps.drop_last() =~= seq![]);
        assert(ps.drop_first() =~= seq![]);
        assert(proof_text(ps[0]) + Seq::<u8>::empty() =~= proof_text(ps[0]));
    } else {
        lemma_proofs_text_front(ps.drop_last());
        assert(ps.drop_last().drop_first() =~= ps.drop_first().drop_last());
        assert(ps.drop_first().last() == ps.last());
        assert(proof_text(ps[0]) + proofs_text(ps.drop_first().drop_last()) + proof_text(ps.last())
            =~= proof_text(ps[0]) + (proofs_text(ps.drop_first().drop_last()) + proof_text(ps.last())));
    }
}

proof fn lemma_proof_text(p: (Seq<u8>, Seq<u8>, Seq<u8>))
    requires
        proof_wf(p),
    ensures
        proof_text(p).len() == 132,
        proof_from(proof_text(p).take(44), proof_text(p).subrange(44, 132)) == Some(p),
{
    let t = proof_text(p);
    let g = p.1 + p.2;
    lemma_block_lens();
    lemma_encode_len(p.0);
    lemma_encode_len(g);
    assert(encoded_len(32) == 44);
    assert(encoded_len(64) == 88);
    assert(t.take(44) =~= encode_spec(p.0));
    assert(t.subrange(44, 132) =~= encode_spec(g));
    lemma_decode_encode(p.0);
    lemma_decode_encode(g);
    assert(g.take(32) =~= p.1);
    assert(g.skip(32) =~= p.2);
}

proof fn lemma_parse_proofs_text(ps: Seq<(Seq<u8>, Seq<u8>, Seq<u8>)>)
    requires
        forall|i: int| 0 <= i < ps.len() ==> proof_wf(#[trigger] ps[i]),
    ensures
        parse_spec(proofs_text(ps)) == Some(ps),
    decreases ps.len(),
{
    if ps.len() == 0 {
        assert(ps =~= seq![]);
    } else {
        let t = proofs_text(ps);
        let rest = ps.drop_first();
        lemma_proofs_text_front(ps);
        lemma_proof_text(ps[0]);
        assert forall|i: int| 0 <= i < rest.len() implies proof_wf(#[trigger] rest[i]) by {
            assert(rest[i] == ps[i + 1]);
        }
        lemma_parse_proofs_text(rest);
        let pt = proof_text(ps[0]);
        assert(t.take(44) =~= pt.take(44));
        assert(t.subrange(44, 132) =~= pt.subrange(44, 132));
        assert(t.skip(132) =~= proofs_text(rest));
        assert(seq![ps[0]] + rest =~= ps);
    }
}

/// Reading the text of well-formed proofs gives back the same proofs, in order.
pub proof fn lemma_read_write(ps: Seq<(Seq<u8>, Seq<u8>, Seq<u8>)>)
    requires
        forall|i: int| 0 <= i < ps.len() ==> proof_wf(#[trigger] ps[i]),
    ensures
        read_spec(write_spec(ps)) == Some(ps),
{
    let t = write_spec(ps);
    assert(t.take(10) =~= prefix());
    assert(t.skip(10) =~= proofs_text(ps));
    lemma_parse_proofs_text(ps);
}

proof fn lemma_parse_rejects_non_symbol(t: Seq<u8>, i: int)
    requires
        0 <= i < t.len(),
        digit_of(t[i]) is None,
    ensures
        parse_spec(t) is None,
    decreases t.len(),
{
    if t.len() >= 132 {
        if i < 44 {
            assert(t.take(44)[i] == t[i]);
            lemma_decode_rejects_non_symbol(t.take(44), i);
        } else if i < 132 {
            assert(t.subrange(44, 132)[i - 44] == t[i]);
            lemma_decode_rejects_non_symbol(t.subrange(44, 132), i - 44);
        } else {
            assert(t.skip(132)[i - 132] == t[i]);
            lemma_parse_rejects_non_symbol(t.skip(132), i - 132);
        }
    }
}

/// A tagged text with a byte outside the alphabet anywhere after the tag reads as
/// a failure, not as a shorter list.
pub proof fn lemma_read_rejects_non_symbol(t: Seq<u8>, i: int)
    requires
        t.len() >= 10,
        t.take(10) == prefix(),
        10 <= i < t.len(),
        digit_of(t[i]) is None,
    ensures
        read_spec(t) is None,
{
    assert(t.skip(10)[i - 10] == t[i]);
    lemma_parse_rejects_non_symbol(t.skip(10), i - 10);
}

/// A text that does not start with the tag reads as no proofs, not as a failure.
pub proof fn lemma_read_untagged(t: Seq<u8>)
    requires
        !(t.len() >= 10 && t.take(10) == prefix()),
    ensures
        read_spec(t) == Some(Seq::<(Seq<u8>, Seq<u8>, Seq<u8>)>::empty()),
{
}

/// A recipient's address, as far as proofs read it.
#[derive(Clone, Copy, Debug)]
pub struct ProofAddress {
    /// The encoding of the view public key.
    pub view: [u8; 32],
    /// The encoding of the spend public key.
    pub spend: [u8; 32],
    pub is_subaddress: bool,
    pub is_guaranteed: bool,
    /// The payment id the address expects, if any.
    pub payment_id: Option<[u8; 8]>,
}

/// An output of a transaction.
#[derive(Clone, Copy, Debug)]
pub struct TxOutput {
    /// The plain amount of a coinbase or pre-RingCT output.
    pub amount: Option<u64>,
    pub view_tag: Option<u8>,
}

/// The RingCT data of a transaction: one commitment and one encrypted amount
/// per output.
#[derive(Debug)]
pub struct RctData {
    pub commitments: Vec<[u8; 32]>,
    pub encrypted_amounts: Vec<EncryptedAmount>,
}

/// The transaction public keys of the extra field: the primary ones, and one
/// additional key per output if there are any.
#[derive(Debug)]
pub struct ExtraKeys {
    pub primary: Vec<[u8; 32]>,
    pub additional: Option<Vec<[u8; 32]>>,
}

/// A transaction, as far as proofs read it.
#[derive(Debug)]
pub struct TxData {
    pub inputs: Vec<TxInput>,
    pub outputs: Vec<TxOutput>,
    /// The keys of the extra field; `None` if it does not parse or holds none.
    pub keys: Option<ExtraKeys>,
    /// The encrypted payment id of the extra field, if it holds one.
    pub payment_id: Option<[u8; 8]>,
    /// The RingCT data; `None` for a transaction without it.
    pub proofs: Option<RctData>,
}

/// The bytes of `TXPROOF_V2`.
pub open spec fn proof_tag() -> Seq<u8> {
    seq![84u8, 88, 80, 82, 79, 79, 70, 95, 86, 50]
}

/// The bytes of `TXPROOF_V2_GUARANTEED`.
pub open spec fn guaranteed_proof_tag() -> Seq<u8> {
    proof_tag() + seq![95u8, 71, 85, 65, 82, 65, 78, 84, 69, 69, 68]
}

/// The keys of the address decode.
pub open spec fn address_wf(a: ProofAddress) -> bool {
    is_point_encoding(a.view@) && is_point_encoding(a.spend@)
}

/// The point that commitments to the ephemeral key are made with: the spend key of
/// a subaddress, else the base point.
pub open spec fn generator_spec(a: ProofAddress) -> Seq<u8> {
    if a.is_subaddress {
        a.spend@
    } else {
        base_point()
    }
}

/// The data hashed into the challenge.
pub open spec fn challenge_data(
    a: ProofAddress,
    x: Seq<u8>,
    y: Seq<u8>,
    r: Seq<u8>,
    d: Seq<u8>,
    message: Seq<u8>,
) -> Seq<u8> {
    keccak_of(message) + d + x + y + (if a.is_guaranteed {
        keccak_of(guaranteed_proof_tag())
    } else {
        keccak_of(proof_tag())
    }) + r + a.view@ + (if a.is_subaddress {
        a.spend@
    } else {
        Seq::new(32, |i: int| 0u8)
    })
}

/// The challenge of the nonce commitments `x`, `y`, the ephemeral key commitment
/// `r` and the shared point `d`, for `message`.
pub open spec fn challenge_spec(
    a: ProofAddress,
    x: Seq<u8>,
    y: Seq<u8>,
    r: Seq<u8>,
    d: Seq<u8>,
    message: Seq<u8>,
) -> Seq<u8> {
    hash_to_scalar(challenge_data(a, x, y, r, d, message))
}

/// The proof made with `nonce` for `address`, the ephemeral key `e` and `message`.
pub open spec fn prove_spec(
    nonce: Seq<u8>,
    a: ProofAddress,
    e: Seq<u8>,
    message: Seq<u8>,
) -> (Seq<u8>, Seq<u8>, Seq<u8>) {
    let g = generator_spec(a);
    let d = point_times(a.view@, e);
    let c = challenge_spec(
        a,
        point_times(g, nonce),
        point_times(a.view@, nonce),
        point_times(g, e),
        d,
        message,
    );
    let ce = scalar_of((le_value(c) * le_value(e)) as int);
    (d, c, scalar_bytes(scalar_of(le_value(nonce) - ce)))
}

/// The proof `p` holds for `key` as the transaction key: its challenge is that of
/// the commitments rebuilt from its response.
pub open spec fn accepts(
    p: (Seq<u8>, Seq<u8>, Seq<u8>),
    a: ProofAddress,
    key: Seq<u8>,
    message: Seq<u8>,
) -> bool {
    let g = generator_spec(a);
    let x = point_plus(point_times(g, p.2), point_times(key, p.1));
    let y = point_plus(point_times(a.view@, p.2), point_times(p.0, p.1));
    is_point_encoding(key) && challenge_spec(a, x, y, key, p.0, message) == p.1
}

/// The transaction keys to try, in order: the primary ones, then the additional
/// key of output `o` if there is one.
pub open spec fn candidates(k: ExtraKeys, o: nat) -> Seq<Seq<u8>> {
    let primary = k.primary@.map_values(|x: [u8; 32]| x@);
    match k.additional {
        Some(add) => if o < add@.len() {
            primary.push(add@[o as int]@)
        } else {
            primary
        },
        None => primary,
    }
}

/// Whether `p` holds for one of `keys`.
pub open spec fn any_accepts(
    p: (Seq<u8>, Seq<u8>, Seq<u8>),
    a: ProofAddress,
    keys: Seq<Seq<u8>>,
    message: Seq<u8>,
) -> bool {
    exists|i: int| 0 <= i < keys.len() && accepts(p, a, #[trigger] keys[i], message)
}

/// `e` under the mask `m`, byte by byte.
pub open spec fn xor8(e: Seq<u8>, m: Seq<u8>) -> Seq<u8> {
    Seq::new(8, |i: int| e[i] ^ m[i])
}

/// The amount of output `o`, once a transaction key is accepted: `None` if the
/// output is missing, its view tag or the payment id do not match, or its
/// commitment does not open to the decrypted amount.
pub open spec fn amount_spec(ecdh: Seq<u8>, tx: TxData, o: nat, a: ProofAddress) -> Option<u64> {
    if o >= tx.outputs@.len() {
        None
    } else {
        let out = tx.outputs@[o as int];
        let u = if a.is_guaranteed {
            Some(keccak_of(uniqueness_data(tx.inputs@)))
        } else {
            None
        };
        let key = shared_key_spec(u, ecdh, o);
        let tag_ok = match out.view_tag {
            Some(t) => t == view_tag_spec(ecdh, o),
            None => true,
        };
        let pid_ok = match a.payment_id {
            Some(pid) => match tx.payment_id {
                Some(enc) => pid@ == xor8(enc@, payment_id_xor_spec(ecdh)),
                None => false,
            },
            None => true,
        };
        if !tag_ok || !pid_ok {
            None
        } else {
            match out.amount {
                Some(x) => Some(x),
                None => match tx.proofs {
                    Some(rct) => if o < rct.encrypted_amounts@.len() && o < rct.commitments@.len() {
                        let opened = decrypt_spec(key, rct.encrypted_amounts@[o as int]);
                        if commitment_point(opened.0, opened.1) == rct.commitments@[o as int]@ {
                            Some(opened.1)
                        } else {
                            None
                        }
                    } else {
                        None
                    },
                    None => None,
                },
            }
        }
    }
}

/// What verifying `p` against output `o` of `tx`, paying `a`, for `message`
/// returns: the amount if the proof holds for one of the transaction keys and
/// the output checks out, else `None`.
pub open spec fn verify_spec(
    p: (Seq<u8>, Seq<u8>, Seq<u8>),
    tx: TxData,
    o: nat,
    a: ProofAddress,
    message: Seq<u8>,
) -> Option<u64> {
    if !is_point_encoding(p.0) || !address_wf(a) {
        None
    } else {
        match tx.keys {
            Some(k) => if any_accepts(p, a, candidates(k, o), message) {
                amount_spec(p.0, tx, o, a)
            } else {
                None
            },
            None => None,
        }
    }
}

/// Whether `b` is the canonical encoding of an Ed25519 point.
pub fn decodes_to_point(b: [u8; 32]) -> (r: bool)
    ensures
        r == is_point_encoding(b@),
{
    point_decodes(b)
}

/// Whether both keys of `address` decode, as `prove` asks.
pub fn address_decodes(address: &ProofAddress) -> (r: bool)
    ensures
        r == address_wf(*address),
{
    point_decodes(address.view) && point_decodes(address.spend)
}

/// Whether `a` and `b` hold the same bytes.
fn same_bytes(a: &[u8; 32], b: &[u8; 32]) -> (r: bool)
    ensures
        r == (a@ == b@),
{
    let mut i: usize = 0;
    while i < 32
        invariant
            i <= 32,
            forall|k: int| 0 <= k < i ==> a@[k] == b@[k],
        decreases 32 - i,
    {
        if a[i] != b[i] {
            return false;
        }
        i = i + 1;
    }
    assert(a@ =~= b@);
    true
}

/// Thirty-two zero bytes.
fn zero_bytes() -> (r: [u8; 32])
    ensures
        r@ == Seq::new(32, |i: int| 0u8),
{
    let r: [u8; 32] = [0u8; 32];
    assert(r@ =~= Seq::new(32, |i: int| 0u8));
    r
}

/// Whether the payment id `pid` is the encrypted `enc` under the mask of `ecdh`.
fn payment_id_matches(pid: &[u8; 8], enc: &[u8; 8], ecdh: [u8; 32]) -> (r: bool)
    requires
        is_point_encoding(ecdh@),
    ensures
        r == (pid@ == xor8(enc@, payment_id_xor_spec(ecdh@))),
{
    let m = SharedKeyDerivations::payment_id_xor(ecdh);
    let mut i: usize = 0;
    while i < 8
        invariant
            i <= 8,
            m@ == payment_id_xor_spec(ecdh@),
            forall|k: int| 0 <= k < i ==> pid@[k] == xor8(enc@, m@)[k],
        decreases 8 - i,
    {
        if pid[i] != enc[i] ^ m[i] {
            assert(pid@[i as int] != xor8(enc@, m@)[i as int]);
            return false;
        }
        i = i + 1;
    }
    assert(pid@ =~= xor8(enc@, m@));
    true
}

/// The amount of output `o` of `tx` once a transaction key is accepted.
fn output_amount(ecdh: [u8; 32], tx: &TxData, o: usize, address: &ProofAddress) -> (r: Option<u64>)
    requires
        is_point_encoding(ecdh@),
    ensures
        r == amount_spec(ecdh@, *tx, o as nat, *address),
{
    if o >= tx.outputs.len() {
        return None;
    }
    let output = tx.outputs[o];
    let uniqueness = if address.is_guaranteed {
        Some(SharedKeyDerivations::uniqueness(tx.inputs.as_slice()))
    } else {
        None
    };
    let derivations = SharedKeyDerivations::output_derivations(uniqueness, ecdh, o);
    if let Some(actual) = output.view_tag {
        if actual != derivations.view_tag {
            return None;
        }
    }
    if let Some(pid) = &address.payment_id {
        match &tx.payment_id {
            Some(enc) => {
                if !payment_id_matches(pid, enc, ecdh) {
                    return None;
                }
            },
            None => {
                return None;
            },
        }
    }
    match output.amount {
        Some(amount) => Some(amount),
        None => match &tx.proofs {
            Some(rct) => {
                if o >= rct.encrypted_amounts.len() || o >= rct.commitments.len() {
                    return None;
                }
                let opened = derivations.decrypt(&rct.encrypted_amounts[o]);
                let rebuilt = commit(opened.mask, opened.amount);
                if same_bytes(&rebuilt, &rct.commitments[o]) {
                    Some(opened.amount)
                } else {
                    None
                }
            },
            None => None,
        },
    }
}

impl OutProof {
    /// The challenge of the nonce commitments `x`, `y`, the ephemeral key
    /// commitment `r` and the shared point `d`, for `message`.
    pub fn challenge(
        address: &ProofAddress,
        x: [u8; 32],
        y: [u8; 32],
        r: [u8; 32],
        d: [u8; 32],
        message: &[u8],
    ) -> (c: [u8; 32])
        ensures
            c@ == challenge_spec(*address, x@, y@, r@, d@, message@),
            is_canonical_scalar(c@),
    {
        let mut data: Vec<u8> = Vec::new();
        let m = keccak256(message);
        append(&mut data, m.as_slice());
        append(&mut data, d.as_slice());
        append(&mut data, x.as_slice());
        append(&mut data, y.as_slice());
        let tag: Vec<u8> = if address.is_guaranteed {
            vec![84u8, 88, 80, 82, 79, 79, 70, 95, 86, 50, 95, 71, 85, 65, 82, 65, 78, 84, 69, 69, 68]
        } else {
            vec![84u8, 88, 80, 82, 79, 79, 70, 95, 86, 50]
        };
        assert(tag@ == if address.is_guaranteed { guaranteed_proof_tag() } else { proof_tag() });
        let t = keccak256(tag.as_slice());
        append(&mut data, t.as_slice());
        append(&mut data, r.as_slice());
        append(&mut data, address.view.as_slice());
        if address.is_subaddress {
            append(&mut data, address.spend.as_slice());
        } else {
            let z = zero_bytes();
            append(&mut data, z.as_slice());
        }
        assert(data@ =~= challenge_data(*address, x@, y@, r@, d@, message@));
        scalar_reduce(keccak256(data.as_slice()))
    }

    /// The proof, made with `nonce`, that the ephemeral key `ephemeral_key` pays
    /// `address`, bound to `message`.
    pub fn prove_with_nonce(
        nonce: [u8; 32],
        address: &ProofAddress,
        ephemeral_key: [u8; 32],
        message: &[u8],
    ) -> (r: OutProof)
        requires
            address_wf(*address),
        ensures
            r@ == prove_spec(nonce@, *address, ephemeral_key@, message@),
            proof_wf(r@),
    {
        let generator = if address.is_subaddress {
            address.spend
        } else {
            base_point_bytes()
        };
        let x = point_mul(generator, nonce);
        let y = point_mul(address.view, nonce);
        let r = point_mul(generator, ephemeral_key);
        let ecdh = point_mul(address.view, ephemeral_key);
        let c = OutProof::challenge(address, x, y, r, ecdh, message);
        let mut ce = scalar_mul(c, ephemeral_key);
        let s = scalar_sub(nonce, ce);
        wipe_bytes(&mut ce);
        OutProof { ecdh, c, s }
    }

    /// A proof that the ephemeral key `ephemeral_key` pays `address`, bound to
    /// `message`, made with a nonce drawn from `rng`.
    pub fn prove(
        rng: &mut rand_core::OsRng,
        address: &ProofAddress,
        ephemeral_key: [u8; 32],
        message: &[u8],
    ) -> (r: OutProof)
        requires
            address_wf(*address),
        ensures
            proof_wf(r@),
            exists|nonce: Seq<u8>|
                is_canonical_scalar(nonce) && r@ == prove_spec(nonce, *address, ephemeral_key@, message@),
    {
        let mut nonce = random_scalar(rng);
        let r = OutProof::prove_with_nonce(nonce, address, ephemeral_key, message);
        wipe_bytes(&mut nonce);
        r
    }

    /// `prove`, for an address whose keys may not decode: `None` exactly when
    /// they do not.
    pub fn try_prove(
        rng: &mut rand_core::OsRng,
        address: &ProofAddress,
        ephemeral_key: [u8; 32],
        message: &[u8],
    ) -> (r: Option<OutProof>)
        ensures
            r is None <==> !address_wf(*address),
            r matches Some(p) ==> proof_wf(p@) && exists|nonce: Seq<u8>|
                is_canonical_scalar(nonce) && p@ == prove_spec(nonce, *address, ephemeral_key@, message@),
    {
        if !address_decodes(address) {
            return None;
        }
        Some(OutProof::prove(rng, address, ephemeral_key, message))
    }

    /// Whether this proof holds for `key` as the transaction key.
    fn holds_for(&self, address: &ProofAddress, key: [u8; 32], message: &[u8]) -> (r: bool)
        requires
            address_wf(*address),
            is_point_encoding(self.ecdh@),
        ensures
            r == accepts(self@, *address, key@, message@),
    {
        if !point_decodes(key) {
            return false;
        }
        let generator = if address.is_subaddress {
            address.spend
        } else {
            base_point_bytes()
        };
        let x = point_add(point_mul(generator, self.s), point_mul(key, self.c));
        let y = point_add(point_mul(address.view, self.s), point_mul(self.ecdh, self.c));
        let c = OutProof::challenge(address, x, y, key, self.ecdh, message);
        same_bytes(&c, &self.c)
    }

    /// The amount that output `output_index` of `tx` carries, if this proof shows
    /// that it pays `address`, bound to `message`; `None` otherwise, whatever
    /// check failed.
    pub fn verify(&self, tx: &TxData, output_index: usize, address: &ProofAddress, message: &[u8]) -> (r: Option<u64>)
        ensures
            r == verify_spec(self@, *tx, output_index as nat, *address, message@),
    {
        if !point_decodes(self.ecdh) || !point_decodes(address.view) || !point_decodes(address.spend) {
            return None;
        }
        let keys = match &tx.keys {
            Some(k) => k,
            None => {
                return None;
            },
        };
        let ghost cands = candidates(*keys, output_index as nat);
        let n: usize = keys.primary.len();
        let mut found = false;
        let mut i: usize = 0;
        while i < n && !found
            invariant
                n == keys.primary@.len(),
                i <= n,
                cands == candidates(*keys, output_index as nat),
                address_wf(*address),
                is_point_encoding(self.ecdh@),
                found <==> exists|j: int| 0 <= j < i && accepts(self@, *address, #[trigger] cands[j], message@),
                forall|j: int| 0 <= j < n ==> #[trigger] cands[j] == keys.primary@[j]@,
            decreases n - i,
        {
            let ok = self.holds_for(address, keys.primary[i], message);
            assert(cands[i as int] == keys.primary@[i as int]@);
            if ok {
                found = true;
            }
            i = i + 1;
        }
        if !found {
            match &keys.additional {
                Some(add) => {
                    if output_index < add.len() {
                        found = self.holds_for(address, add[output_index], message);
                        assert(cands[n as int] == add@[output_index as int]@);
                    }
                },
                None => {},
            }
        }
        assert(found == any_accepts(self@, *address, cands, message@));
        if !found {
            return None;
        }
        output_amount(self.ecdh, tx, output_index, address)
    }

    /// The text of the proofs `proofs`: the tag `OutProofV2`, then for each proof
    /// the encoding of its point and the encoding of its challenge and response.
    pub fn write(proofs: &[OutProof]) -> (r: String)
        ensures
            r@ == as_chars(write_spec(views(proofs@))),
    {
        let mut res = String::new();
        let tag: Vec<u8> = vec![79u8, 117, 116, 80, 114, 111, 111, 102, 86, 50];
        let mut i: usize = 0;
        while i < tag.len()
            invariant
                tag@ == prefix(),
                i <= tag@.len(),
                res@ == as_chars(tag@.take(i as int)),
            decreases tag@.len() - i,
        {
            push_char(&mut res, tag[i]);
            proof {
                assert(tag@.take(i + 1) =~= tag@.take(i as int).push(tag@[i as int]));
                assert(as_chars(tag@.take(i + 1)) =~= as_chars(tag@.take(i as int)).push(tag@[i as int] as char));
            }
            i = i + 1;
        }
        assert(tag@.take(10) =~= tag@);
        let ghost ps = views(proofs@);
        let mut j: usize = 0;
        assert(ps.take(0) =~= seq![]);
        assert(prefix() + Seq::<u8>::empty() =~= prefix());
        while j < proofs.len()
            invariant
                ps == views(proofs@),
                j <= proofs@.len(),
                res@ == as_chars(prefix() + proofs_text(ps.take(j as int))),
            decreases proofs@.len() - j,
        {
            push_proof(&mut res, &proofs[j]);
            proof {
                assert(ps.take(j + 1).drop_last() =~= ps.take(j as int));
                assert(prefix() + proofs_text(ps.take(j + 1))
                    =~= prefix() + proofs_text(ps.take(j as int)) + proof_text(proofs@[j as int]@));
                assert(as_chars(prefix() + proofs_text(ps.take(j + 1)))
                    =~= as_chars(prefix() + proofs_text(ps.take(j as int))) + as_chars(proof_text(proofs@[j as int]@)));
            }
            j = j + 1;
        }
        assert(ps.take(j as int) =~= ps);
        res
    }

    /// The proofs in the text `proofs`: `None` if the text after the tag is not a
    /// sequence of well-formed proofs; an empty list if the text does not start
    /// with the tag at all.
    pub fn read(proofs: &str) -> (r: Option<Vec<OutProof>>)
        ensures
            match r {
                Some(v) => read_spec(proofs.spec_bytes()) == Some(views(v@)),
                None => read_spec(proofs.spec_bytes()) is None,
            },
    {
        let t: &[u8] = proofs.as_bytes();
        let len: usize = t.len();
        let mut res: Vec<OutProof> = Vec::new();
        if !starts_with_tag(t) {
            assert(views(res@) =~= seq![]);
            return Some(res);
        }
        let mut pos: usize = 10;
        assert(views(res@) + parse_spec(t@.skip(10)).unwrap_or(seq![]) =~= parse_spec(t@.skip(10)).unwrap_or(seq![]));
        assert(read_spec(t@) == prepend_proofs(views(res@), parse_spec(t@.skip(pos as int))));
        while pos < len
            invariant
                len == t@.len(),
                t@ == proofs.spec_bytes(),
                10 <= pos <= len,
                read_spec(t@) == prepend_proofs(views(res@), parse_spec(t@.skip(pos as int))),
            decreases len - pos,
        {
            let ghost rest = t@.skip(pos as int);
            assert(rest.len() == len - pos);
            if len - pos < POINT_TEXT_LEN + SIGNATURE_TEXT_LEN {
                assert(parse_spec(rest) is None);
                return None;
            }
            assert(rest.take(44) =~= t@.subrange(pos as int, pos + 44));
            assert(rest.subrange(44, 132) =~= t@.subrange(pos + 44, pos + 132));
            assert(rest.skip(132) =~= t@.skip(pos + 132));
            let e = decode_bytes(slice_subrange(t, pos, pos + POINT_TEXT_LEN));
            if e.is_none() {
                assert(decode_spec(rest.take(44)) is None);
                assert(proof_from(rest.take(44), rest.subrange(44, 132)) is None);
                assert(parse_spec(rest) is None);
                return None;
            }
            let e = e.unwrap();
            let g = decode_bytes(slice_subrange(t, pos + POINT_TEXT_LEN, pos + POINT_TEXT_LEN + SIGNATURE_TEXT_LEN));
            if g.is_none() {
                assert(decode_spec(rest.subrange(44, 132)) is None);
                assert(proof_from(rest.take(44), rest.subrange(44, 132)) is None);
                assert(parse_spec(rest) is None);
                return None;
            }
            let g = g.unwrap();
            if e.len() != 32 || g.len() != 64 {
                return None;
            }
            let ecdh = bytes_32(&e, 0);
            let c = bytes_32(&g, 0);
            let s = bytes_32(&g, 32);
            assert(e@.subrange(0, 32) =~= e@);
            assert(g@.subrange(0, 32) =~= g@.take(32));
            assert(g@.subrange(32, 64) =~= g@.skip(32));
            if !point_decodes(ecdh) || !scalar_decodes(c) || !scalar_decodes(s) {
                return None;
            }
            let p = OutProof { ecdh, c, s };
            let ghost before = views(res@);
            res.push(p);
            proof {
                assert(views(res@) =~= before.push(p@));
                match parse_spec(t@.skip(pos + 132)) {
                    Some(z) => {
                        assert(before + (seq![p@] + z) =~= before.push(p@) + z);
                    },
                    None => {},
                }
            }
            pos = pos + POINT_TEXT_LEN + SIGNATURE_TEXT_LEN;
        }
        proof {
            assert(t@.skip(pos as int) =~= seq![]);
            assert(views(res@) + seq![] =~= views(res@));
        }
        Some(res)
    }

    /// The text of this proof alone: the same as `write` of a list holding only it.
    pub fn to_text(&self) -> (r: String)
        ensures
            r@ == as_chars(write_spec(seq![self@])),
    {
        let proofs: Vec<OutProof> = vec![*self];
        let r = OutProof::write(proofs.as_slice());
        assert(views(proofs@) =~= seq![self@]);
        r
    }
}

} // verus!
