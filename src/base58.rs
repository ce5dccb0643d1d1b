//! A block-chunked base58 codec.
//!
//! Input is cut into blocks of eight bytes. Each block is read as a big-endian
//! integer and written with a fixed number of base58 symbols, which depends only on
//! the block's length. This is not canonical base58: leading zero bytes are kept,
//! as the fixed width of each block shows where they were.
use vstd::prelude::*;
use vstd::string::StringSliceAdditionalSpecFns;
use vstd::arithmetic::div_mod::{lemma_div_denominator, lemma_fundamental_div_mod};
use vstd::arithmetic::power2::pow2;
use vstd::bits::{lemma_u64_shl_is_mul, lemma_u64_pow2_no_overflow};

verus! {

/// Number of symbols in the alphabet.
pub const ALPHABET_LEN: u64 = 58;

/// Number of bytes in a full block.
pub const BLOCK_LEN: usize = 8;

/// Number of symbols that encode a full block.
pub const ENCODED_BLOCK_LEN: usize = 11;

/// `b` raised to the power `e`.
pub open spec fn power(b: nat, e: nat) -> nat
    decreases e,
{
    if e == 0 {
        1
    } else {
        b * power(b, (e - 1) as nat)
    }
}

/// How many divisions by 58 bring `m` down to zero.
pub open spec fn chars_for_max(m: nat) -> nat
    decreases m,
{
    if m == 0 {
        0
    } else {
        1 + chars_for_max(m / 58)
    }
}

/// Symbols used by a block of `r` bytes (`r <= 8`): enough to write the largest
/// value of `8 * r` bits.
pub open spec fn block_len(r: nat) -> nat {
    chars_for_max((pow2(8 * r) - 1) as nat)
}

/// Length of the encoding of `n` bytes.
pub open spec fn encoded_len(n: nat) -> nat {
    (n / 8) * 11 + block_len(n % 8)
}

proof fn lemma_pow2_bytes()
    ensures
        pow2(0) == 1,
        pow2(8) == 0x100,
        pow2(16) == 0x1_0000,
        pow2(24) == 0x100_0000,
        pow2(32) == 0x1_0000_0000,
        pow2(40) == 0x100_0000_0000,
        pow2(48) == 0x1_0000_0000_0000,
        pow2(56) == 0x100_0000_0000_0000,
        pow2(64) == 0x1_0000_0000_0000_0000,
{
    vstd::arithmetic::power2::lemma2_to64();
    vstd::arithmetic::power2::lemma2_to64_rest();
}

/// The widths of the blocks of each length.
pub proof fn lemma_block_lens()
    ensures
        block_len(0) == 0,
        block_len(1) == 2,
        block_len(2) == 3,
        block_len(3) == 5,
        block_len(4) == 6,
        block_len(5) == 7,
        block_len(6) == 9,
        block_len(7) == 10,
        block_len(8) == 11,
{
    lemma_pow2_bytes();
    reveal_with_fuel(chars_for_max, 12);
}

/// The most symbols that `bytes` bytes encode to.
///
/// Whole blocks take eleven symbols each; a partial block of `r` bytes takes as many
/// as the largest value of `8 * r` bits needs.
pub fn encoded_len_for_bytes(bytes: usize) -> (r: usize)
    requires
        encoded_len(bytes as nat) <= usize::MAX,
    ensures
        r == encoded_len(bytes as nat),
{
    let whole: usize = bytes / BLOCK_LEN;
    let rem: usize = bytes % BLOCK_LEN;
    proof {
        lemma_block_lens();
    }
    let mut i: usize = whole * ENCODED_BLOCK_LEN;
    let bits: u64 = (rem as u64) * 8;
    let mut max: u64 = if bits == 64 {
        u64::MAX
    } else {
        proof {
            lemma_u64_pow2_no_overflow(bits as nat);
            lemma_u64_shl_is_mul(1, bits);
        }
        (1u64 << bits) - 1
    };
    assert(max == pow2(8 * (rem as nat)) - 1);
    while max != 0
        invariant
            i + chars_for_max(max as nat) == encoded_len(bytes as nat),
            encoded_len(bytes as nat) <= usize::MAX,
        decreases max,
    {
        max = max / ALPHABET_LEN;
        i = i + 1;
    }
    i
}

/// The symbol of digit `d` (`d < 58`) in the alphabet
/// `123456789ABCDEFGHJKLMNPQRSTUVWXYZabcdefghijkmnopqrstuvwxyz`.
pub open spec fn symbol(d: nat) -> u8 {
    if d < 9 {
        (49 + d) as u8
    } else if d < 17 {
        (65 + d - 9) as u8
    } else if d < 22 {
        (74 + d - 17) as u8
    } else if d < 33 {
        (80 + d - 22) as u8
    } else if d < 44 {
        (97 + d - 33) as u8
    } else {
        (109 + d - 44) as u8
    }
}

/// The digit that byte `b` stands for, if it is a symbol of the alphabet.
pub open spec fn digit_of(b: u8) -> Option<nat> {
    if 49 <= b <= 57 {
        Some((b - 49) as nat)
    } else if 65 <= b <= 72 {
        Some((b - 65 + 9) as nat)
    } else if 74 <= b <= 78 {
        Some((b - 74 + 17) as nat)
    } else if 80 <= b <= 90 {
        Some((b - 80 + 22) as nat)
    } else if 97 <= b <= 107 {
        Some((b - 97 + 33) as nat)
    } else if 109 <= b <= 122 {
        Some((b - 109 + 44) as nat)
    } else {
        None
    }
}

/// The bytes of `s` as characters.
pub open spec fn as_chars(s: Seq<u8>) -> Seq<char> {
    s.map_values(|x: u8| x as char)
}

/// The big-endian value of the bytes `s`.
pub open spec fn be_value(s: Seq<u8>) -> nat
    decreases s.len(),
{
    if s.len() == 0 {
        0
    } else {
        be_value(s.drop_last()) * 256 + s.last() as nat
    }
}

/// The `k` lowest base58 digits of `v`, most significant first, as symbols.
pub open spec fn chunk_text(v: nat, k: nat) -> Seq<u8> {
    Seq::new(k, |t: int| symbol((v / power(58, (k - 1 - t) as nat)) % 58))
}

/// The encoding of one block of at most eight bytes.
pub open spec fn encode_block(c: Seq<u8>) -> Seq<u8> {
    chunk_text(be_value(c), block_len(c.len()))
}

/// The encoding of `b`, as bytes of the alphabet: its blocks of eight bytes (the
/// last may be shorter), each encoded alone, one after the other.
pub open spec fn encode_spec(b: Seq<u8>) -> Seq<u8>
    decreases b.len(),
{
    if b.len() == 0 {
        seq![]
    } else if b.len() <= 8 {
        encode_block(b)
    } else {
        encode_block(b.take(8)) + encode_spec(b.skip(8))
    }
}

proof fn lemma_power_positive(b: nat, e: nat)
    requires
        b > 0,
    ensures
        power(b, e) > 0,
    decreases e,
{
    if e > 0 {
        lemma_power_positive(b, (e - 1) as nat);
        assert(b * power(b, (e - 1) as nat) > 0) by (nonlinear_arith)
            requires
                b > 0,
                power(b, (e - 1) as nat) > 0,
        ;
    }
}

proof fn lemma_be_value_bound(s: Seq<u8>)
    ensures
        be_value(s) < power(256, s.len()),
    decreases s.len(),
{
    if s.len() > 0 {
        let p = s.drop_last();
        lemma_be_value_bound(p);
        let x = be_value(p);
        let q = power(256, p.len());
        let l = s.last();
        assert(x * 256 + l < 256 * q) by (nonlinear_arith)
            requires
                x < q,
                l < 256,
        ;
    }
}

proof fn lemma_block_encoded_len(n: nat)
    requires
        n <= 8,
    ensures
        encoded_len(n) == block_len(n),
        block_len(n) <= 11,
{
    lemma_block_lens();
    if n < 8 {
        assert(n / 8 == 0 && n % 8 == n);
    }
}

proof fn lemma_power_256_8()
    ensures
        power(256, 8) == 0x1_0000_0000_0000_0000,
{
    reveal_with_fuel(power, 9);
}

/// The symbol of digit `d`.
fn symbol_of(d: u64) -> (r: u8)
    requires
        d < 58,
    ensures
        r == symbol(d as nat),
{
    if d < 9 {
        49 + d as u8
    } else if d < 17 {
        65 + (d - 9) as u8
    } else if d < 22 {
        74 + (d - 17) as u8
    } else if d < 33 {
        80 + (d - 22) as u8
    } else if d < 44 {
        97 + (d - 33) as u8
    } else {
        109 + (d - 44) as u8
    }
}

/// Relies on String::push: appends one character at the end.
#[verifier::external_body]
pub(crate) fn push_char(s: &mut String, b: u8)
    ensures
        final(s)@ == old(s)@.push(b as char),
{
    s.push(char::from(b))
}

proof fn lemma_encode_ascii(b: Seq<u8>)
    ensures
        forall|i: int| 0 <= i < encode_spec(b).len() ==> #[trigger] encode_spec(b)[i] < 128,
    decreases b.len(),
{
    if b.len() > 8 {
        lemma_encode_ascii(b.skip(8));
        let e = encode_spec(b);
        let f = encode_block(b.take(8));
        assert forall|i: int| 0 <= i < e.len() implies #[trigger] e[i] < 128 by {
            if i >= f.len() {
                assert(e[i] == encode_spec(b.skip(8))[i - f.len()]);
            }
        }
    }
}

proof fn lemma_text_bytes(e: Seq<u8>)
    requires
        forall|i: int| 0 <= i < e.len() ==> #[trigger] e[i] < 128,
    ensures
        vstd::utf8::encode_utf8(as_chars(e)) == e,
{
    let c = as_chars(e);
    assert(vstd::utf8::is_ascii_chars(c));
    vstd::utf8::is_ascii_chars_encode_utf8(c);
    assert(vstd::utf8::encode_utf8(c) =~= e);
}

/// Encodes `bytes`, block by block.
pub fn encode(bytes: &[u8]) -> (r: String)
    ensures
        r@ == as_chars(encode_spec(bytes@)),
        vstd::utf8::encode_utf8(r@) == encode_spec(bytes@),
{
    let len: usize = bytes.len();
    let mut res = String::new();
    let ghost mut done: Seq<u8> = seq![];
    let mut pos: usize = 0;
    proof {
        lemma_block_lens();
        assert(bytes@.skip(0) =~= bytes@);
    }
    while pos < len
        invariant
            len == bytes@.len(),
            pos <= len,
            res@ == as_chars(done),
            done + encode_spec(bytes@.skip(pos as int)) == encode_spec(bytes@),
        decreases len - pos,
    {
        let n: usize = if len - pos < BLOCK_LEN {
            len - pos
        } else {
            BLOCK_LEN
        };
        let ghost block = bytes@.subrange(pos as int, pos + n);
        // The block as a big-endian integer.
        let mut val: u64 = 0;
        let mut j: usize = 0;
        while j < n
            invariant
                n <= 8,
                pos + n <= len,
                len == bytes@.len(),
                j <= n,
                val == be_value(bytes@.subrange(pos as int, pos + j)),
            decreases n - j,
        {
            let ghost part = bytes@.subrange(pos as int, pos + j + 1);
            proof {
                assert(part.drop_last() =~= bytes@.subrange(pos as int, pos + j));
                lemma_be_value_bound(bytes@.subrange(pos as int, pos + j));
                lemma_power_256_8();
                reveal_with_fuel(power, 9);
                assert(power(256, j as nat) <= power(256, 7));
                assert(val * 256 + 255 < 0x1_0000_0000_0000_0000) by (nonlinear_arith)
                    requires
                        val < power(256, 7),
                        power(256, 7) == 0x100_0000_0000_0000,
                ;
            }
            val = val * 256 + bytes[pos + j] as u64;
            j = j + 1;
        }
        assert(bytes@.subrange(pos as int, pos + j) == block);
        proof {
            lemma_block_encoded_len(n as nat);
        }
        let k: usize = encoded_len_for_bytes(n);
        // Its base58 digits, least significant first.
        let mut digits: Vec<u8> = Vec::new();
        let mut v: u64 = val;
        let mut i: usize = 0;
        assert(power(58, 0) == 1);
        assert(val as nat / 1 == val);
        while i < k
            invariant
                i <= k,
                digits@.len() == i,
                v == val as nat / power(58, i as nat),
                forall|t: int| 0 <= t < i ==> digits@[t] == symbol(((val as nat) / power(58, t as nat)) % 58),
            decreases k - i,
        {
            digits.push(symbol_of(v % ALPHABET_LEN));
            proof {
                lemma_power_positive(58, i as nat);
                lemma_div_denominator(val as int, power(58, i as nat) as int, 58);
                assert(power(58, (i + 1) as nat) == 58 * power(58, i as nat));
                assert(power(58, i as nat) * 58 == 58 * power(58, i as nat)) by (nonlinear_arith);
            }
            v = v / ALPHABET_LEN;
            i = i + 1;
        }
        // Most significant first.
        let ghost text = chunk_text(val as nat, k as nat);
        let mut t: usize = 0;
        while t < k
            invariant
                t <= k,
                digits@.len() == k,
                text == chunk_text(val as nat, k as nat),
                forall|u: int| 0 <= u < k ==> digits@[u] == symbol(((val as nat) / power(58, u as nat)) % 58),
                res@ == as_chars(done + text.take(t as int)),
            decreases k - t,
        {
            push_char(&mut res, digits[k - 1 - t]);
            proof {
                assert(done + text.take(t + 1) =~= (done + text.take(t as int)).push(text[t as int]));
                assert(as_chars((done + text.take(t as int)).push(text[t as int]))
                    =~= as_chars(done + text.take(t as int)).push(text[t as int] as char));
            }
            t = t + 1;
        }
        proof {
            assert(text.take(k as int) =~= text);
            assert(text == encode_block(block));
            let rest = bytes@.skip(pos as int);
            if rest.len() <= 8 {
                assert(rest =~= block);
                assert(bytes@.skip(pos + n) =~= seq![]);
                assert(encode_spec(rest) == text);
                assert(encode_spec(bytes@.skip(pos + n)) == Seq::<u8>::empty());
            } else {
                assert(rest.take(8) =~= block);
                assert(rest.skip(8) =~= bytes@.skip(pos + n));
            }
            assert(done + text + encode_spec(bytes@.skip(pos + n)) =~= done + encode_spec(rest));
            done = done + text;
        }
        pos = pos + n;
    }
    proof {
        assert(bytes@.skip(pos as int) =~= seq![]);
        assert(done + Seq::<u8>::empty() =~= done);
        lemma_encode_ascii(bytes@);
        lemma_text_bytes(encode_spec(bytes@));
    }
    res
}

/// The value of the symbols `s` read as base58 digits, most significant first (a
/// byte outside the alphabet counts as zero; `decode_block` rejects it).
pub open spec fn chunk_value(s: Seq<u8>) -> nat
    decreases s.len(),
{
    if s.len() == 0 {
        0
    } else {
        chunk_value(s.drop_last()) * 58 + match digit_of(s.last()) {
            Some(d) => d,
            None => 0,
        }
    }
}

/// Every byte of `s` is a symbol of the alphabet.
pub open spec fn all_symbols(s: Seq<u8>) -> bool {
    forall|i: int| 0 <= i < s.len() ==> (#[trigger] digit_of(s[i])) is Some
}

/// The least block length from `i` to 8 whose width is `k`, or 0 if none is.
pub open spec fn find_bytes(k: nat, i: nat) -> nat
    decreases 9 - i,
{
    if i > 8 || i == 0 {
        0
    } else if block_len(i) == k {
        i
    } else {
        find_bytes(k, i + 1)
    }
}

/// The length of the block that `k` symbols encode, or 0 if no block has that width.
pub open spec fn bytes_for_chars(k: nat) -> nat {
    find_bytes(k, 1)
}

/// The `n` low-order bytes of `v`, big-endian.
pub open spec fn be_bytes(v: nat, n: nat) -> Seq<u8> {
    Seq::new(n, |t: int| ((v / power(256, (n - 1 - t) as nat)) % 256) as u8)
}

/// The decoding of one chunk of at most eleven symbols: `None` if a byte is not a
/// symbol, the value does not fit in 64 bits, or no block has the chunk's width.
pub open spec fn decode_block(c: Seq<u8>) -> Option<Seq<u8>> {
    if all_symbols(c) && chunk_value(c) <= u64::MAX && bytes_for_chars(c.len()) > 0 {
        Some(be_bytes(chunk_value(c), bytes_for_chars(c.len())))
    } else {
        None
    }
}

/// `d` followed by `r`, if `r` is there.
pub open spec fn prepend(d: Seq<u8>, r: Option<Seq<u8>>) -> Option<Seq<u8>> {
    match r {
        Some(x) => Some(d + x),
        None => None,
    }
}

/// The decoding of the text `s`: its chunks of eleven symbols (the last may be
/// shorter), each decoded alone; `None` if any chunk fails.
pub open spec fn decode_spec(s: Seq<u8>) -> Option<Seq<u8>>
    decreases s.len(),
{
    if s.len() == 0 {
        Some(seq![])
    } else if s.len() <= 11 {
        decode_block(s)
    } else {
        match decode_block(s.take(11)) {
            Some(a) => prepend(a, decode_spec(s.skip(11))),
            None => None,
        }
    }
}

proof fn lemma_div_step(v: nat, b: nat, e: nat)
    requires
        b > 0,
    ensures
        (v / b) / power(b, e) == v / power(b, e + 1),
{
    lemma_power_positive(b, e);
    lemma_div_denominator(v as int, b as int, power(b, e) as int);
    assert(power(b, e + 1) == b * power(b, e));
}

proof fn lemma_chunk_value_prefix(s: Seq<u8>, j: int)
    requires
        0 <= j <= s.len(),
    ensures
        chunk_value(s.take(j)) <= chunk_value(s),
    decreases s.len(),
{
    if j == s.len() {
        assert(s.take(j) =~= s);
    } else {
        assert(s.take(j) =~= s.drop_last().take(j));
        lemma_chunk_value_prefix(s.drop_last(), j);
    }
}

proof fn lemma_symbol_digit(d: nat)
    requires
        d < 58,
    ensures
        digit_of(symbol(d)) == Some(d),
{
}

/// The digit of byte `b`, if it is a symbol of the alphabet.
fn digit_index(b: u8) -> (r: Option<u64>)
    ensures
        match r {
            Some(d) => digit_of(b) == Some(d as nat),
            None => digit_of(b) is None,
        },
{
    if 49 <= b && b <= 57 {
        Some((b - 49) as u64)
    } else if 65 <= b && b <= 72 {
        Some((b - 65 + 9) as u64)
    } else if 74 <= b && b <= 78 {
        Some((b - 74 + 17) as u64)
    } else if 80 <= b && b <= 90 {
        Some((b - 80 + 22) as u64)
    } else if 97 <= b && b <= 107 {
        Some((b - 97 + 33) as u64)
    } else if 109 <= b && b <= 122 {
        Some((b - 109 + 44) as u64)
    } else {
        None
    }
}

proof fn lemma_decode_spec_first_fails(s: Seq<u8>, n: int)
    requires
        s.len() > 0,
        n == if s.len() < 11 { s.len() as int } else { 11 },
        decode_block(s.take(n)) is None,
    ensures
        decode_spec(s) is None,
{
    if s.len() <= 11 {
        assert(s.take(n) =~= s);
    }
}

/// Decodes the text `data`, chunk by chunk.
pub fn decode_bytes(data: &[u8]) -> (r: Option<Vec<u8>>)
    ensures
        match r {
            Some(v) => decode_spec(data@) == Some(v@),
            None => decode_spec(data@) is None,
        },
{
    let len: usize = data.len();
    let mut res: Vec<u8> = Vec::new();
    let mut pos: usize = 0;
    proof {
        lemma_block_lens();
        assert(data@.skip(0) =~= data@);
        assert(Seq::<u8>::empty() + data@ =~= data@);
    }
    assert(decode_spec(data@) == prepend(res@, decode_spec(data@.skip(0))));
    while pos < len
        invariant
            len == data@.len(),
            pos <= len,
            decode_spec(data@) == prepend(res@, decode_spec(data@.skip(pos as int))),
        decreases len - pos,
    {
        let n: usize = if len - pos < ENCODED_BLOCK_LEN {
            len - pos
        } else {
            ENCODED_BLOCK_LEN
        };
        let ghost chunk = data@.subrange(pos as int, pos + n);
        let ghost rest = data@.skip(pos as int);
        assert(rest.take(n as int) =~= chunk);
        // The chunk's value.
        let mut sum: u64 = 0;
        let mut j: usize = 0;
        while j < n
            invariant
                pos + n <= len,
                len == data@.len(),
                j <= n,
                chunk == data@.subrange(pos as int, pos + n),
                sum == chunk_value(chunk.take(j as int)),
                all_symbols(chunk.take(j as int)),
                rest == data@.skip(pos as int),
                rest.take(n as int) == chunk,
                n == if rest.len() < 11 { rest.len() as int } else { 11 },
                decode_spec(data@) == prepend(res@, decode_spec(rest)),
            decreases n - j,
        {
            let ghost next = chunk.take(j + 1);
            proof {
                assert(next.drop_last() =~= chunk.take(j as int));
                assert(next.last() == data@[pos + j]);
            }
            let m = sum.checked_mul(ALPHABET_LEN);
            if m.is_none() {
                proof {
                    lemma_chunk_value_prefix(chunk, j + 1);
                    lemma_decode_spec_first_fails(rest, n as int);
                }
                return None;
            }
            let d = digit_index(data[pos + j]);
            if d.is_none() {
                proof {
                    assert(!all_symbols(chunk)) by {
                        assert(chunk[j as int] == data@[pos + j]);
                    }
                    lemma_decode_spec_first_fails(rest, n as int);
                }
                return None;
            }
            let a = m.unwrap().checked_add(d.unwrap());
            if a.is_none() {
                proof {
                    lemma_chunk_value_prefix(chunk, j + 1);
                    lemma_decode_spec_first_fails(rest, n as int);
                }
                return None;
            }
            sum = a.unwrap();
            proof {
                assert forall|i: int| 0 <= i < next.len() implies (#[trigger] digit_of(next[i])) is Some by {
                    if i < j {
                        assert(next[i] == chunk.take(j as int)[i]);
                    }
                }
            }
            j = j + 1;
        }
        assert(chunk.take(n as int) =~= chunk);
        // The length of the block it stands for.
        let mut used: usize = 0;
        let mut i: usize = 1;
        while i <= BLOCK_LEN && used == 0
            invariant
                1 <= i <= 9,
                n <= 11,
                used == 0 ==> find_bytes(n as nat, 1) == find_bytes(n as nat, i as nat),
                used != 0 ==> find_bytes(n as nat, 1) == used && 1 <= used <= 8,
            decreases 9 - i + if used == 0 { 1int } else { 0 },
        {
            proof {
                lemma_block_encoded_len(i as nat);
            }
            if encoded_len_for_bytes(i) == n {
                assert(find_bytes(n as nat, i as nat) == i as nat);
                used = i;
            } else {
                i = i + 1;
            }
        }
        if used == 0 {
            proof {
                assert(find_bytes(n as nat, 9) == 0);
                assert(bytes_for_chars(n as nat) == 0);
                lemma_decode_spec_first_fails(rest, n as int);
            }
            return None;
        }
        // Its `used` low-order bytes, least significant first.
        let mut low: Vec<u8> = Vec::new();
        let mut x: u64 = sum;
        let mut t: usize = 0;
        assert(power(256, 0) == 1);
        assert(sum as nat / 1 == sum);
        while t < used
            invariant
                t <= used,
                low@.len() == t,
                x == sum as nat / power(256, t as nat),
                forall|u: int| 0 <= u < t ==> low@[u] == ((sum as nat / power(256, u as nat)) % 256) as u8,
            decreases used - t,
        {
            low.push((x % 256) as u8);
            proof {
                lemma_div_step(sum as nat, 256, t as nat);
                assert(power(256, t as nat) * 256 == 256 * power(256, t as nat)) by (nonlinear_arith);
                lemma_power_positive(256, t as nat);
                lemma_div_denominator(sum as int, power(256, t as nat) as int, 256);
            }
            x = x / 256;
            t = t + 1;
        }
        let ghost block = be_bytes(sum as nat, used as nat);
        let ghost before = res@;
        let mut u: usize = 0;
        while u < used
            invariant
                u <= used,
                low@.len() == used,
                block == be_bytes(sum as nat, used as nat),
                forall|w: int| 0 <= w < used ==> low@[w] == ((sum as nat / power(256, w as nat)) % 256) as u8,
                res@ == before + block.take(u as int),
            decreases used - u,
        {
            res.push(low[used - 1 - u]);
            proof {
                assert(before + block.take(u + 1) =~= (before + block.take(u as int)).push(block[u as int]));
            }
            u = u + 1;
        }
        proof {
            assert(block.take(used as int) =~= block);
            assert(decode_block(chunk) == Some(block));
            if rest.len() <= 11 {
                assert(rest =~= chunk);
                assert(data@.skip(pos + n) =~= seq![]);
                assert(before + block + Seq::<u8>::empty() =~= before + block);
            } else {
                assert(rest.skip(11) =~= data@.skip(pos + n));
                match decode_spec(data@.skip(pos + n)) {
                    Some(z) => {
                        assert(before + (block + z) =~= before + block + z);
                    },
                    None => {},
                }
            }
        }
        pos = pos + n;
    }
    proof {
        assert(data@.skip(pos as int) =~= seq![]);
        assert(res@ + Seq::<u8>::empty() =~= res@);
    }
    Some(res)
}

/// Decodes the text `data`; `None` if it is not an encoding.
pub fn decode(data: &str) -> (r: Option<Vec<u8>>)
    ensures
        match r {
            Some(v) => decode_spec(data.spec_bytes()) == Some(v@),
            None => decode_spec(data.spec_bytes()) is None,
        },
{
    decode_bytes(data.as_bytes())
}

proof fn lemma_chars_for_max_bound(m: nat)
    ensures
        m < power(58, chars_for_max(m)),
    decreases m,
{
    if m > 0 {
        lemma_chars_for_max_bound(m / 58);
        let q = m / 58;
        let p = power(58, chars_for_max(q));
        assert(m < 58 * p) by (nonlinear_arith)
            requires
                q == m / 58,
                q < p,
        ;
    }
}

proof fn lemma_chunk_text_value(v: nat, k: nat)
    requires
        v < power(58, k),
    ensures
        all_symbols(chunk_text(v, k)),
        chunk_value(chunk_text(v, k)) == v,
    decreases k,
{
    let c = chunk_text(v, k);
    assert forall|i: int| 0 <= i < c.len() implies (#[trigger] digit_of(c[i])) is Some by {
        lemma_symbol_digit((v / power(58, (k - 1 - i) as nat)) % 58);
    }
    if k == 0 {
        assert(v == 0);
    } else {
        let q = v / 58;
        let p = power(58, (k - 1) as nat);
        assert(q < p) by (nonlinear_arith)
            requires
                q == v / 58,
                v < 58 * p,
        ;
        lemma_chunk_text_value(q, (k - 1) as nat);
        assert forall|t: int| 0 <= t < k - 1 implies #[trigger] c.drop_last()[t] == chunk_text(q, (k - 1) as nat)[t] by {
            lemma_div_step(v, 58, (k - 2 - t) as nat);
        }
        assert(c.drop_last() =~= chunk_text(q, (k - 1) as nat));
        assert(power(58, 0) == 1);
        assert(v / 1 == v);
        assert(c.last() == symbol(v % 58));
        lemma_symbol_digit(v % 58);
        lemma_fundamental_div_mod(v as int, 58);
    }
}

proof fn lemma_be_bytes_value(s: Seq<u8>)
    ensures
        be_bytes(be_value(s), s.len()) == s,
    decreases s.len(),
{
    let n = s.len();
    if n > 0 {
        let p = s.drop_last();
        let x = be_value(s);
        let y = be_value(p);
        let l = s.last() as nat;
        lemma_be_value_bound(s);
        lemma_be_bytes_value(p);
        assert(x / 256 == y && x % 256 == l) by (nonlinear_arith)
            requires
                x == y * 256 + l,
                l < 256,
        ;
        let b = be_bytes(x, n);
        assert forall|t: int| 0 <= t < n - 1 implies #[trigger] b.drop_last()[t] == be_bytes(y, (n - 1) as nat)[t] by {
            lemma_div_step(x, 256, (n - 2 - t) as nat);
        }
        assert(b.drop_last() =~= be_bytes(y, (n - 1) as nat));
        assert(power(256, 0) == 1);
        assert(x / 1 == x);
        assert(b.last() == s.last());
        assert forall|t: int| 0 <= t < n implies #[trigger] b[t] == s[t] by {
            if t < n - 1 {
                assert(b[t] == b.drop_last()[t]);
                assert(s[t] == p[t]);
            }
        }
        assert(b =~= s);
    } else {
        assert(be_bytes(be_value(s), 0) =~= s);
    }
}

proof fn lemma_bytes_for_block(n: nat)
    requires
        1 <= n <= 8,
    ensures
        bytes_for_chars(block_len(n)) == n,
{
    lemma_block_lens();
    reveal_with_fuel(find_bytes, 9);
}

proof fn lemma_decode_encode_block(c: Seq<u8>)
    requires
        1 <= c.len() <= 8,
    ensures
        decode_block(encode_block(c)) == Some(c),
        encode_block(c).len() == block_len(c.len()),
        2 <= block_len(c.len()) <= 11,
{
    let n = c.len();
    let v = be_value(c);
    let k = block_len(n);
    lemma_block_lens();
    lemma_pow2_bytes();
    reveal_with_fuel(power, 9);
    lemma_be_value_bound(c);
    assert(pow2(8 * n) == power(256, n));
    lemma_chars_for_max_bound((pow2(8 * n) - 1) as nat);
    lemma_power_positive(58, k);
    assert(v < power(58, k));
    lemma_chunk_text_value(v, k);
    lemma_bytes_for_block(n);
    lemma_power_256_8();
    assert(power(256, n) <= power(256, 8));
    lemma_be_bytes_value(c);
}

proof fn lemma_encode_nonempty(b: Seq<u8>)
    requires
        b.len() > 0,
    ensures
        encode_spec(b).len() > 0,
{
    if b.len() <= 8 {
        lemma_decode_encode_block(b);
    } else {
        lemma_decode_encode_block(b.take(8));
    }
}

/// Decoding an encoding gives back the bytes that were encoded.
pub proof fn lemma_decode_encode(b: Seq<u8>)
    ensures
        decode_spec(encode_spec(b)) == Some(b),
    decreases b.len(),
{
    if b.len() == 0 {
        assert(b =~= seq![]);
    } else if b.len() <= 8 {
        lemma_decode_encode_block(b);
    } else {
        let first = b.take(8);
        let rest = b.skip(8);
        let e = encode_spec(b);
        lemma_decode_encode_block(first);
        lemma_block_lens();
        lemma_encode_nonempty(rest);
        lemma_decode_encode(rest);
        assert(e.take(11) =~= encode_block(first));
        assert(e.skip(11) =~= encode_spec(rest));
        assert(first + rest =~= b);
    }
}

/// The encoding of any `n` bytes is `encoded_len(n)` symbols long.
pub proof fn lemma_encode_len(b: Seq<u8>)
    ensures
        encode_spec(b).len() == encoded_len(b.len()),
    decreases b.len(),
{
    if b.len() == 0 {
        lemma_block_lens();
    } else if b.len() <= 8 {
        lemma_decode_encode_block(b);
        lemma_block_encoded_len(b.len());
    } else {
        lemma_decode_encode_block(b.take(8));
        lemma_block_lens();
        lemma_encode_len(b.skip(8));
        let n = b.len();
        assert(n / 8 == (n - 8) / 8 + 1 && n % 8 == (n - 8) as nat % 8);
    }
}

/// A text holding a byte outside the alphabet does not decode.
pub proof fn lemma_decode_rejects_non_symbol(s: Seq<u8>, i: int)
    requires
        0 <= i < s.len(),
        digit_of(s[i]) is None,
    ensures
        decode_spec(s) is None,
    decreases s.len(),
{
    if s.len() <= 11 {
        assert(!all_symbols(s));
    } else if i < 11 {
        assert(s.take(11)[i] == s[i]);
        assert(!all_symbols(s.take(11)));
    } else {
        assert(s.skip(11)[i - 11] == s[i]);
        lemma_decode_rejects_non_symbol(s.skip(11), i - 11);
    }
}

} // verus!
