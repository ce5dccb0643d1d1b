//! The secrets derived from a shared Diffie-Hellman point and an output index: the
//! view tag, the output's shared key, and the masks that hide its amount.
use vstd::prelude::*;
use crate::base58::power;
use crate::crypto::{
    append, cofactor_times, keccak256, keccak_of, mul_by_cofactor, scalar_bytes, scalar_of,
    scalar_reduce, scalar_sub, wipe, wipe_bytes,
};
use crate::out_proof::{is_point_encoding, le_value};

verus! {

/// An input of a transaction, as far as the derivations read it.
#[derive(Clone, Copy, Debug)]
pub enum TxInput {
    /// A coinbase input, at this block height.
    Gen(u64),
    /// An input spending an output, with the encoding of its key image.
    ToKey([u8; 32]),
}

/// The encrypted amount of an output.
#[derive(Clone, Copy, Debug)]
#[allow(inconsistent_fields)]
pub enum EncryptedAmount {
    /// The format before view tags: a masked mask and a masked amount, as scalars.
    Original { mask: [u8; 32], amount: [u8; 32] },
    /// The compact format: the amount's eight bytes under a mask.
    Compact { amount: [u8; 8] },
}

/// The opening of a Pedersen commitment: its mask and its amount.
#[derive(Clone, Copy, Debug)]
pub struct Commitment {
    pub mask: [u8; 32],
    pub amount: u64,
}

/// The secrets of one output.
#[derive(Clone, Copy, Debug)]
pub struct SharedKeyDerivations {
    pub view_tag: u8,
    pub shared_key: [u8; 32],
}

/// Monero's variable-length encoding of `n`: seven bits per byte, least
/// significant first, the high bit set on every byte but the last.
pub open spec fn varint(n: nat) -> Seq<u8>
    decreases n,
{
    if n < 128 {
        seq![n as u8]
    } else {
        seq![(n % 128 + 128) as u8] + varint(n / 128)
    }
}

/// The bytes of `uniqueness`.
pub open spec fn uniqueness_tag() -> Seq<u8> {
    seq![117u8, 110, 105, 113, 117, 101, 110, 101, 115, 115]
}

/// The bytes of `view_tag`.
pub open spec fn view_tag_tag() -> Seq<u8> {
    seq![118u8, 105, 101, 119, 95, 116, 97, 103]
}

/// The bytes of `commitment_mask`.
pub open spec fn commitment_mask_tag() -> Seq<u8> {
    seq![99u8, 111, 109, 109, 105, 116, 109, 101, 110, 116, 95, 109, 97, 115, 107]
}

/// The bytes of `amount`.
pub open spec fn amount_tag() -> Seq<u8> {
    seq![97u8, 109, 111, 117, 110, 116]
}

/// What an input adds to the uniqueness: a height's varint, or a key image.
pub open spec fn input_bytes(i: TxInput) -> Seq<u8> {
    match i {
        TxInput::Gen(h) => varint(h as nat),
        TxInput::ToKey(k) => k@,
    }
}

/// The data hashed into the uniqueness of a transaction with inputs `inputs`.
pub open spec fn uniqueness_data(inputs: Seq<TxInput>) -> Seq<u8>
    decreases inputs.len(),
{
    if inputs.len() == 0 {
        uniqueness_tag()
    } else {
        uniqueness_data(inputs.drop_last()) + input_bytes(inputs.last())
    }
}

/// `8 * ecdh`, then the varint of the output index `o`.
pub open spec fn derivation(ecdh: Seq<u8>, o: nat) -> Seq<u8> {
    cofactor_times(ecdh) + varint(o)
}

/// The view tag of output `o`.
pub open spec fn view_tag_spec(ecdh: Seq<u8>, o: nat) -> u8 {
    keccak_of(view_tag_tag() + derivation(ecdh, o))[0]
}

/// The hash of `data` reduced to a scalar.
pub open spec fn hash_to_scalar(data: Seq<u8>) -> Seq<u8> {
    scalar_bytes(scalar_of(le_value(keccak_of(data)) as int))
}

/// The shared key of output `o`, bound to the uniqueness `u` if there is one.
pub open spec fn shared_key_spec(u: Option<Seq<u8>>, ecdh: Seq<u8>, o: nat) -> Seq<u8> {
    match u {
        Some(u) => hash_to_scalar(u + derivation(ecdh, o)),
        None => hash_to_scalar(derivation(ecdh, o)),
    }
}

/// The mask of an encrypted payment id.
pub open spec fn payment_id_xor_spec(ecdh: Seq<u8>) -> Seq<u8> {
    keccak_of(cofactor_times(ecdh).push(0x8d)).take(8)
}

/// The mask of the commitment of an output with shared key `k`.
pub open spec fn commitment_mask_spec(k: Seq<u8>) -> Seq<u8> {
    hash_to_scalar(commitment_mask_tag() + k)
}

/// The mask of a compact amount under shared key `k`.
pub open spec fn amount_mask_spec(k: Seq<u8>) -> u64 {
    le_value(keccak_of(amount_tag() + k).take(8)) as u64
}

/// The opening that `enc` hides under shared key `k`, as its mask and amount.
pub open spec fn decrypt_spec(k: Seq<u8>, enc: EncryptedAmount) -> (Seq<u8>, u64) {
    match enc {
        EncryptedAmount::Original { mask, amount } => {
            let h1 = keccak_of(k);
            let h2 = keccak_of(h1);
            let m = scalar_bytes(scalar_of(le_value(mask@) - le_value(h1)));
            let a = scalar_bytes(scalar_of(le_value(amount@) - le_value(h2)));
            (m, le_value(a.take(8)) as u64)
        },
        EncryptedAmount::Compact { amount } => (
            commitment_mask_spec(k),
            (le_value(amount@) as u64) ^ amount_mask_spec(k),
        ),
    }
}

proof fn lemma_le_value_bound(s: Seq<u8>)
    ensures
        le_value(s) < power(256, s.len()),
    decreases s.len(),
{
    if s.len() > 0 {
        let r = s.drop_first();
        lemma_le_value_bound(r);
        let x = le_value(r);
        let q = power(256, r.len());
        let f = s[0] as nat;
        assert(f + 256 * x < 256 * q) by (nonlinear_arith)
            requires
                x < q,
                f < 256,
        ;
    }
}

/// Appends the varint of `n` to `buf`.
pub fn write_varint(n: u64, buf: &mut Vec<u8>)
    ensures
        final(buf)@ == old(buf)@ + varint(n as nat),
{
    let ghost start = buf@;
    let mut v: u64 = n;
    let ghost mut done: Seq<u8> = seq![];
    while v >= 128
        invariant
            buf@ == start + done,
            done + varint(v as nat) == varint(n as nat),
        decreases v,
    {
        buf.push((v % 128 + 128) as u8);
        proof {
            assert(varint(v as nat) == seq![(v % 128 + 128) as u8] + varint((v / 128) as nat));
            assert(done + varint(v as nat) =~= done.push((v % 128 + 128) as u8) + varint((v / 128) as nat));
            done = done.push((v % 128 + 128) as u8);
        }
        v = v / 128;
    }
    buf.push(v as u8);
    proof {
        assert(varint(v as nat) == seq![v as u8]);
        assert(done + varint(v as nat) =~= done.push(v as u8));
    }
}

/// The integer of the eight little-endian bytes `b`.
fn u64_from_le(b: &[u8]) -> (r: u64)
    requires
        b@.len() == 8,
    ensures
        r == le_value(b@),
{
    let mut v: u64 = 0;
    let mut i: usize = 8;
    assert(b@.subrange(8, 8) =~= seq![]);
    while i > 0
        invariant
            i <= 8,
            b@.len() == 8,
            v == le_value(b@.subrange(i as int, 8)),
        decreases i,
    {
        proof {
            let s = b@.subrange(i - 1, 8);
            assert(s.drop_first() =~= b@.subrange(i as int, 8));
            lemma_le_value_bound(b@.subrange(i as int, 8));
            reveal_with_fuel(power, 9);
            assert(power(256, (8 - i) as nat) <= power(256, 7)) by {
                if i < 8 {
                    vstd::arithmetic::power::lemma_pow_increases(256, (8 - i) as nat, 7);
                }
            }
            assert(v < 0x100_0000_0000_0000);
        }
        v = b[i - 1] as u64 + 256 * v;
        i = i - 1;
    }
    assert(b@.subrange(0, 8) =~= b@);
    v
}

impl SharedKeyDerivations {
    /// The hash of `uniqueness`, then for each input its height's varint or its
    /// key image.
    pub fn uniqueness(inputs: &[TxInput]) -> (r: [u8; 32])
        ensures
            r@ == keccak_of(uniqueness_data(inputs@)),
    {
        let mut u: Vec<u8> = vec![117u8, 110, 105, 113, 117, 101, 110, 101, 115, 115];
        assert(u@ == uniqueness_data(inputs@.take(0)));
        let mut i: usize = 0;
        while i < inputs.len()
            invariant
                i <= inputs@.len(),
                u@ == uniqueness_data(inputs@.take(i as int)),
            decreases inputs@.len() - i,
        {
            match inputs[i] {
                TxInput::Gen(height) => write_varint(height, &mut u),
                TxInput::ToKey(key_image) => append(&mut u, key_image.as_slice()),
            }
            assert(inputs@.take(i + 1).drop_last() =~= inputs@.take(i as int));
            i = i + 1;
        }
        assert(inputs@.take(i as int) =~= inputs@);
        keccak256(u.as_slice())
    }

    /// The view tag and shared key of output `o` for the shared point `ecdh`, bound
    /// to `uniqueness` if it is given.
    pub fn output_derivations(uniqueness: Option<[u8; 32]>, ecdh: [u8; 32], o: usize) -> (r: SharedKeyDerivations)
        requires
            is_point_encoding(ecdh@),
        ensures
            r.view_tag == view_tag_spec(ecdh@, o as nat),
            r.shared_key@ == shared_key_spec(
                match uniqueness {
                    Some(u) => Some(u@),
                    None => None,
                },
                ecdh@,
                o as nat,
            ),
    {
        let mut d8 = mul_by_cofactor(ecdh);
        let mut derived: Vec<u8> = Vec::new();
        append(&mut derived, d8.as_slice());
        wipe_bytes(&mut d8);
        write_varint(o as u64, &mut derived);
        assert(derived@ =~= derivation(ecdh@, o as nat));
        let mut tagged: Vec<u8> = vec![118u8, 105, 101, 119, 95, 116, 97, 103];
        append(&mut tagged, derived.as_slice());
        let view_tag = keccak256(tagged.as_slice())[0];
        wipe(&mut tagged);
        let mut data: Vec<u8> = Vec::new();
        if let Some(u) = uniqueness {
            append(&mut data, u.as_slice());
        }
        append(&mut data, derived.as_slice());
        wipe(&mut derived);
        let mut h = keccak256(data.as_slice());
        wipe(&mut data);
        let shared_key = scalar_reduce(h);
        wipe_bytes(&mut h);
        SharedKeyDerivations { view_tag, shared_key }
    }

    /// The mask of an encrypted payment id: the first eight bytes of the hash of
    /// `8 * ecdh` and the byte `0x8d`.
    pub fn payment_id_xor(ecdh: [u8; 32]) -> (r: [u8; 8])
        requires
            is_point_encoding(ecdh@),
        ensures
            r@ == payment_id_xor_spec(ecdh@),
    {
        let mut d8 = mul_by_cofactor(ecdh);
        let mut data: Vec<u8> = Vec::new();
        append(&mut data, d8.as_slice());
        wipe_bytes(&mut d8);
        data.push(0x8d);
        let mut h = keccak256(data.as_slice());
        wipe(&mut data);
        let ghost digest = h@;
        let mut r: [u8; 8] = [0u8; 8];
        let mut i: usize = 0;
        while i < 8
            invariant
                i <= 8,
                h@ == digest,
                digest == keccak_of(cofactor_times(ecdh@).push(0x8d)),
                forall|k: int| 0 <= k < i ==> r@[k] == h@[k],
            decreases 8 - i,
        {
            r[i] = h[i];
            i = i + 1;
        }
        assert(r@ =~= digest.take(8));
        wipe_bytes(&mut h);
        r
    }

    /// The mask of this output's commitment.
    pub fn commitment_mask(&self) -> (r: [u8; 32])
        ensures
            r@ == commitment_mask_spec(self.shared_key@),
    {
        let mut data: Vec<u8> = vec![99u8, 111, 109, 109, 105, 116, 109, 101, 110, 116, 95, 109, 97, 115, 107];
        append(&mut data, self.shared_key.as_slice());
        let mut h = keccak256(data.as_slice());
        wipe(&mut data);
        let r = scalar_reduce(h);
        wipe_bytes(&mut h);
        r
    }

    /// `amount` under the compact mask of this output, or out of it: the mask is
    /// an exclusive or, its own inverse.
    pub fn compact_amount_encryption(&self, amount: u64) -> (r: u64)
        ensures
            r == amount ^ amount_mask_spec(self.shared_key@),
    {
        let mut data: Vec<u8> = vec![97u8, 109, 111, 117, 110, 116];
        append(&mut data, self.shared_key.as_slice());
        let mut h = keccak256(data.as_slice());
        wipe(&mut data);
        let mask = u64_from_le(vstd::slice::slice_subrange(h.as_slice(), 0, 8));
        assert(h@.subrange(0, 8) =~= h@.take(8));
        wipe_bytes(&mut h);
        amount ^ mask
    }

    /// The opening of the commitment that `enc_amount` hides under this output's
    /// shared key.
    pub fn decrypt(&self, enc_amount: &EncryptedAmount) -> (r: Commitment)
        ensures
            (r.mask@, r.amount) == decrypt_spec(self.shared_key@, *enc_amount),
    {
        match enc_amount {
            EncryptedAmount::Original { mask, amount } => {
                let mut mask_shared_sec = keccak256(self.shared_key.as_slice());
                let mask = scalar_sub(*mask, mask_shared_sec);
                let mut amount_shared_sec = keccak256(mask_shared_sec.as_slice());
                wipe_bytes(&mut mask_shared_sec);
                let mut amount_scalar = scalar_sub(*amount, amount_shared_sec);
                wipe_bytes(&mut amount_shared_sec);
                let amount = u64_from_le(vstd::slice::slice_subrange(amount_scalar.as_slice(), 0, 8));
                assert(amount_scalar@.subrange(0, 8) =~= amount_scalar@.take(8));
                wipe_bytes(&mut amount_scalar);
                Commitment { mask, amount }
            },
            EncryptedAmount::Compact { amount } => {
                let mask = self.commitment_mask();
                let amount = self.compact_amount_encryption(u64_from_le(amount.as_slice()));
                Commitment { mask, amount }
            },
        }
    }
}

} // verus!
