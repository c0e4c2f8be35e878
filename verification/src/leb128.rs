//! Unsigned LEB128: seven payload bits per byte, least significant group
//! first, high bit set on every byte but the last.

use vstd::arithmetic::power2::*;
use vstd::bits::*;
use vstd::prelude::*;

verus! {

/// Longest encoding of a `u64`.
pub const MAX_LEB128_LEN: usize = 10;

/// The LEB128 bytes of `v`.
pub open spec fn spec_encode_unsigned(v: nat) -> Seq<u8>
    decreases v,
{
    if v < 128 {
        seq![v as u8]
    } else {
        seq![((v % 128) + 128) as u8] + spec_encode_unsigned(v / 128)
    }
}

/// Where the first value ends when scanning from byte `i`: one past the first
/// byte below 0x80, if that byte lies in `data` and among its first ten bytes.
pub open spec fn leb_len_from(data: Seq<u8>, i: nat) -> Option<nat>
    decreases 10 - i,
{
    if i >= 10 || i >= data.len() {
        None
    } else if data[i as int] < 128 {
        Some(i + 1)
    } else {
        leb_len_from(data, i + 1)
    }
}

/// Length in bytes of the LEB128 value at the start of `data`, if it ends
/// within the data and within ten bytes.
pub open spec fn spec_leb_len(data: Seq<u8>) -> Option<nat> {
    leb_len_from(data, 0)
}

/// The number whose base-128 digits are the low seven bits of the first `n`
/// bytes, least significant first.
pub open spec fn leb_sum(data: Seq<u8>, n: nat) -> nat
    decreases n,
{
    if n == 0 || data.len() == 0 {
        0
    } else {
        (data[0] % 128) as nat + 128 * leb_sum(data.drop_first(), (n - 1) as nat)
    }
}

/// The value and length that a reader of the first LEB128 value in `data`
/// obtains; payload bits beyond 64 are dropped.
pub open spec fn spec_decode_unsigned(data: Seq<u8>) -> Option<(u64, nat)> {
    match spec_leb_len(data) {
        Some(n) => Some(((leb_sum(data, n) % pow2(64)) as u64, n)),
        None => None,
    }
}

/// Append the LEB128 encoding of `value` to `out`.
pub fn encode_unsigned(value: u64, out: &mut Vec<u8>)
    ensures
        final(out)@ == old(out)@ + spec_encode_unsigned(value as nat),
{
    let mut v: u64 = value;
    while v >= 0x80
        invariant
            out@ + spec_encode_unsigned(v as nat) == old(out)@ + spec_encode_unsigned(
                value as nat,
            ),
        decreases v,
    {
        let b: u8 = (v as u8) | 0x80;
        assert(b == ((v % 128) + 128) as u8) by (bit_vector)
            requires
                b == (v as u8) | 0x80u8,
        ;
        let ghost before = out@;
        out.push(b);
        assert(v >> 7 == v / 128) by (bit_vector);
        assert(spec_encode_unsigned(v as nat) == seq![b] + spec_encode_unsigned((v / 128) as nat));
        assert(out@ + spec_encode_unsigned((v / 128) as nat) == before + spec_encode_unsigned(
            v as nat,
        ));
        v = v >> 7;
    }
    out.push(v as u8);
}

proof fn lemma_low_bits(b: u8)
    ensures
        (b & 0x7f) == b % 128,
        ((b & 0x80) == 0) == (b < 128),
{
    assert((b & 0x7f) == b % 128) by (bit_vector);
    assert(((b & 0x80) == 0) == (b < 128)) by (bit_vector);
}

proof fn lemma_leb_sum_step(data: Seq<u8>, i: nat)
    requires
        i < data.len(),
    ensures
        leb_sum(data, i + 1) == leb_sum(data, i) + (data[i as int] % 128) as nat * pow2(7 * i),
    decreases i,
{
    if i == 0 {
        lemma2_to64();
        assert(leb_sum(data.drop_first(), 0) == 0);
    } else {
        lemma_leb_sum_step(data.drop_first(), (i - 1) as nat);
        assert(data.drop_first()[(i - 1) as int] == data[i as int]);
        lemma_pow2_adds(7, 7 * (i - 1) as nat);
        lemma2_to64();
        let x = (data[i as int] % 128) as nat;
        let p = pow2(7 * (i - 1) as nat);
        assert(7 + 7 * (i - 1) as nat == 7 * i);
        assert(pow2(7 * i) == 128 * p);
        assert(128 * (x * p) == x * (128 * p)) by (nonlinear_arith);
        assert(128 * (leb_sum(data.drop_first(), (i - 1) as nat) + x * p) == 128 * leb_sum(
            data.drop_first(),
            (i - 1) as nat,
        ) + 128 * (x * p)) by (nonlinear_arith);
    }
}

proof fn lemma_leb_sum_bound(data: Seq<u8>, n: nat)
    ensures
        leb_sum(data, n) < pow2(7 * n),
    decreases n,
{
    lemma2_to64();
    if n == 0 || data.len() == 0 {
        lemma_pow2_pos(7 * n);
    } else {
        lemma_leb_sum_bound(data.drop_first(), (n - 1) as nat);
        lemma_pow2_adds(7, 7 * (n - 1) as nat);
        assert(7 + 7 * (n - 1) as nat == 7 * n);
        let s = leb_sum(data.drop_first(), (n - 1) as nat);
        let p = pow2(7 * (n - 1) as nat);
        assert(s + 1 <= p);
        assert(128 * s + 128 <= 128 * p) by (nonlinear_arith)
            requires
                s + 1 <= p,
        ;
    }
}

proof fn lemma_leb_len_facts(data: Seq<u8>, i: nat)
    requires
        i <= 10,
        forall|j: int| 0 <= j < i ==> data[j] >= 128,
        i <= data.len(),
    ensures
        leb_len_from(data, i) == spec_leb_len(data),
    decreases i,
{
    if i > 0 {
        lemma_leb_len_facts(data, (i - 1) as nat);
    }
}

/// Decode the LEB128 value at the start of `data`: the value and the number of
/// bytes consumed, or `None` when the data ends first or the value runs past
/// ten bytes.
pub fn decode_unsigned(data: &[u8]) -> (r: Option<(u64, usize)>)
    ensures
        r == (match spec_decode_unsigned(data@) {
            Some((v, n)) => Some((v, n as usize)),
            None => None::<(u64, usize)>,
        }),
{
    let mut result: u64 = 0;
    let mut shift: u64 = 0;
    let mut pos: usize = 0;
    loop
        invariant
            pos <= 9,
            pos <= data.len(),
            shift == 7 * pos,
            result as nat == leb_sum(data@, pos as nat),
            forall|j: int| 0 <= j < pos ==> data@[j] >= 128,
        decreases 10 - pos,
    {
        proof {
            lemma_leb_len_facts(data@, pos as nat);
        }
        if pos >= data.len() {
            return None;
        }
        let byte = data[pos];
        let x: u64 = (byte & 0x7f) as u64;
        proof {
            lemma_low_bits(byte);
            lemma_leb_sum_step(data@, pos as nat);
            lemma_leb_sum_bound(data@, pos as nat);
            lemma2_to64();
            lemma2_to64_rest();
            lemma_u64_shl_is_mul(1, shift);
        }
        let add: u64 = x << shift;
        let ghost old_result = result;
        proof {
            assert(old_result < (1u64 << shift));
            assert(old_result | add == old_result + add) by (bit_vector)
                requires
                    old_result < (1u64 << shift),
                    add == x << shift,
                    shift < 64,
            ;
        }
        result = result | add;
        shift = shift + 7;
        pos = pos + 1;
        if pos <= 9 {
            proof {
                let p = pow2(7 * (pos - 1) as nat);
                assert(x * p <= 127 * p) by (nonlinear_arith)
                    requires
                        x < 128,
                ;
                if 7 * (pos - 1) < 56 {
                    lemma_pow2_strictly_increases(7 * (pos - 1) as nat, 56);
                }
                assert(127 * p <= 127 * pow2(56)) by (nonlinear_arith)
                    requires
                        p <= pow2(56),
                ;
                lemma_u64_shl_is_mul(x, (shift - 7) as u64);
                assert(result as nat == leb_sum(data@, pos as nat));
            }
        } else {
            proof {
                // The tenth byte contributes only its lowest bit at position 63.
                let s9 = leb_sum(data@, 9);
                let full = leb_sum(data@, 10);
                assert(pow2(63) == 0x8000_0000_0000_0000);
                assert(pow2(64) == 0x1_0000_0000_0000_0000);
                assert(add == (x % 2) * 0x8000_0000_0000_0000) by (bit_vector)
                    requires
                        add == x << 63u64,
                        x < 128,
                ;
                assert(full == s9 + x * 0x8000_0000_0000_0000);
                assert(x * 0x8000_0000_0000_0000 == (x / 2) * 0x1_0000_0000_0000_0000 + (x % 2)
                    * 0x8000_0000_0000_0000) by (nonlinear_arith);
                assert((s9 + (x % 2) * 0x8000_0000_0000_0000 + (x / 2) * 0x1_0000_0000_0000_0000)
                    % 0x1_0000_0000_0000_0000 == s9 + (x % 2) * 0x8000_0000_0000_0000)
                    by (nonlinear_arith)
                    requires
                        s9 + (x % 2) * 0x8000_0000_0000_0000 < 0x1_0000_0000_0000_0000,
                        s9 >= 0,
                        x >= 0,
                ;
            }
        }
        if byte & 0x80 == 0 {
            proof {
                lemma2_to64_rest();
                if pos <= 9 {
                    lemma_leb_sum_bound(data@, pos as nat);
                    lemma_pow2_strictly_increases(7 * pos as nat, 64);
                    vstd::arithmetic::div_mod::lemma_small_mod(
                        leb_sum(data@, pos as nat),
                        pow2(64),
                    );
                }
            }
            return Some((result, pos));
        }
        if pos >= 10 {
            proof {
                lemma_leb_len_facts(data@, 10);
            }
            return None;
        }
    }
}


/// Shape of an encoding: between one and ten bytes for a `u64`, every byte
/// but the last carries the continuation bit, and a single byte suffices
/// exactly for values below 128.
pub proof fn lemma_encode_shape(v: nat)
    ensures
        spec_encode_unsigned(v).len() >= 1,
        (spec_encode_unsigned(v).len() == 1) == (v < 128),
        v < pow2(64) ==> spec_encode_unsigned(v).len() <= 10,
        spec_encode_unsigned(v).last() < 128,
        forall|k: int|
            0 <= k < spec_encode_unsigned(v).len() - 1 ==> #[trigger] spec_encode_unsigned(v)[k]
                >= 128,
    decreases v,
{
    if v < pow2(64) {
        lemma2_to64_rest();
        lemma_pow2_strictly_increases(64, 70);
        lemma_encode_len_pow(v, 10);
    }
    if v >= 128 {
        lemma_encode_shape(v / 128);
        let t = spec_encode_unsigned(v / 128);
        assert forall|k: int| 0 <= k < spec_encode_unsigned(v).len() - 1 implies #[trigger]
            spec_encode_unsigned(v)[k] >= 128 by {
            if k > 0 {
                assert(spec_encode_unsigned(v)[k] == t[k - 1]);
            }
        }
    }
}

/// The encoding of `v` has at most `k` bytes whenever `v < 2^(7k)`.
proof fn lemma_encode_len_pow(v: nat, k: nat)
    requires
        1 <= k,
        v < pow2(7 * k),
    ensures
        spec_encode_unsigned(v).len() <= k,
    decreases v,
{
    if v >= 128 {
        lemma2_to64();
        if k == 1 {
            assert(false);
        } else {
            lemma_pow2_adds(7, 7 * (k - 1) as nat);
            assert(7 + 7 * (k - 1) as nat == 7 * k);
            let p = pow2(7 * (k - 1) as nat);
            assert(v / 128 < p) by (nonlinear_arith)
                requires
                    v < 128 * p,
            ;
            lemma_encode_len_pow(v / 128, (k - 1) as nat);
        }
    }
}

proof fn lemma_leb_len_at(d: Seq<u8>, j: nat, i: nat)
    requires
        i <= j,
        j < 10,
        j < d.len(),
        d[j as int] < 128,
        forall|k: int| 0 <= k < j ==> d[k] >= 128,
    ensures
        leb_len_from(d, i) == Some(j + 1),
    decreases j - i,
{
    if i < j {
        lemma_leb_len_at(d, j, i + 1);
    }
}

proof fn lemma_leb_sum_encode(v: nat, rest: Seq<u8>)
    ensures
        leb_sum(spec_encode_unsigned(v) + rest, spec_encode_unsigned(v).len()) == v,
    decreases v,
{
    let e = spec_encode_unsigned(v);
    if v >= 128 {
        lemma_leb_sum_encode(v / 128, rest);
        assert((e + rest).drop_first() == spec_encode_unsigned(v / 128) + rest);
        assert(((v % 128) + 128) as u8 % 128 == v % 128);
        assert((e + rest)[0] == e[0]);
        assert(e.len() - 1 == spec_encode_unsigned(v / 128).len());
        assert(leb_sum(e + rest, e.len()) == (v % 128) + 128 * leb_sum(
            spec_encode_unsigned(v / 128) + rest,
            spec_encode_unsigned(v / 128).len(),
        ));
    } else {
        assert((e + rest).drop_first() == rest);
        assert((e + rest)[0] == e[0]);
        assert(leb_sum(e + rest, 1) == (v % 128) + 128 * leb_sum(rest, 0));
    }
}

/// Reading back what was written: the value at the front of
/// `encode(v) ++ rest` is `v`, and exactly the encoding's bytes are consumed.
pub proof fn lemma_round_trip(v: u64, rest: Seq<u8>)
    ensures
        spec_decode_unsigned(spec_encode_unsigned(v as nat) + rest) == Some(
            (v, spec_encode_unsigned(v as nat).len()),
        ),
{
    let e = spec_encode_unsigned(v as nat);
    let d = e + rest;
    lemma2_to64_rest();
    lemma_encode_shape(v as nat);
    let j = (e.len() - 1) as nat;
    assert forall|k: int| 0 <= k < j implies d[k] >= 128 by {
        assert(d[k] == e[k]);
    }
    assert(d[j as int] == e.last());
    lemma_leb_len_at(d, j, 0);
    lemma_leb_sum_encode(v as nat, rest);
    vstd::arithmetic::div_mod::lemma_small_mod(v as nat, pow2(64));
}

proof fn lemma_leb_len_from_range(d: Seq<u8>, i: nat)
    ensures
        leb_len_from(d, i) matches Some(k) ==> i < k <= d.len() && k <= 10,
    decreases 10 - i,
{
    if i < 10 && i < d.len() && d[i as int] >= 128 {
        lemma_leb_len_from_range(d, i + 1);
    }
}

/// A decoded value occupies between one and ten bytes of the input.
pub proof fn lemma_decode_len(d: Seq<u8>)
    ensures
        spec_decode_unsigned(d) matches Some((_, n)) ==> 1 <= n <= d.len() && n <= 10,
{
    lemma_leb_len_from_range(d, 0);
}
} // verus!
