use crate::error::BeadsError;
use vstd::prelude::*;

verus! {

/// The base-128 encoding of `v`: seven bits to a byte, the low group first,
/// every byte but the last with the continuation bit `0x80`.
pub open spec fn vlq_bytes(v: nat) -> Seq<u8>
    decreases v,
{
    if v < 128 {
        seq![v as u8]
    } else {
        seq![(v % 128 + 128) as u8] + vlq_bytes(v / 128)
    }
}

/// What stands at the front of `bytes`: how many bytes the integer takes and
/// its value, if a byte without the continuation bit ends it.
pub open spec fn vlq_parse(bytes: Seq<u8>) -> Option<(nat, nat)>
    decreases bytes.len(),
{
    if bytes.len() == 0 {
        None
    } else if bytes[0] < 128 {
        Some((1nat, bytes[0] as nat))
    } else {
        match vlq_parse(bytes.skip(1)) {
            Some((n, v)) => Some((n + 1, (bytes[0] - 128) as nat + 128 * v)),
            None => None,
        }
    }
}

/// The longest encoding of a 128-bit value.
pub const MAX_VLQ_LEN: usize = 19;

/// What `read_vlq` returns on `bytes`: the integer at the front, unless it is
/// unterminated, longer than nineteen bytes or wider than 128 bits.
pub open spec fn vlq_read(bytes: Seq<u8>) -> Result<(nat, nat), BeadsError> {
    match vlq_parse(bytes) {
        Some((n, v)) => if n <= MAX_VLQ_LEN && v <= u128::MAX {
            Ok((n, v))
        } else {
            Err(BeadsError::InvalidVarint)
        },
        None => Err(BeadsError::InvalidVarint),
    }
}

/// The zig-zag image of a signed value: 0, -1, 1, -2, 2, ... go to 0, 1, 2, 3, 4, ...
pub open spec fn zigzag(n: int) -> nat {
    if n >= 0 {
        (2 * n) as nat
    } else {
        (-2 * n - 1) as nat
    }
}

/// The signed value with zig-zag image `u`.
pub open spec fn unzigzag(u: nat) -> int {
    if u % 2 == 0 {
        u as int / 2
    } else {
        -(u as int / 2) - 1
    }
}

/// 128 to the power `k`.
pub open spec fn pow128(k: nat) -> nat
    decreases k,
{
    if k == 0 {
        1
    } else {
        128 * pow128((k - 1) as nat)
    }
}

pub proof fn lemma_pow128_values()
    ensures
        pow128(0) == 1,
        pow128(1) == 0x80,
        pow128(2) == 0x4000,
        pow128(9) == 0x8000_0000_0000_0000,
        pow128(10) == 0x40_0000_0000_0000_0000,
        pow128(18) == 0x4000_0000_0000_0000_0000_0000_0000_0000,
        pow128(19) == 0x20_0000_0000_0000_0000_0000_0000_0000_0000,
{
    reveal_with_fuel(pow128, 20);
}

/// An encoding has at most `k` bytes when the value is below 128 to the `k`.
pub proof fn lemma_vlq_len_bound(v: nat, k: nat)
    requires
        k >= 1,
        v < pow128(k),
    ensures
        1 <= vlq_bytes(v).len() <= k,
    decreases k,
{
    if v >= 128 {
        assert(k >= 2) by {
            reveal_with_fuel(pow128, 2);
        }
        lemma_vlq_len_bound(v / 128, (k - 1) as nat);
    }
}

/// Every 128-bit value encodes in one to nineteen bytes.
pub proof fn lemma_vlq_len_u128(v: nat)
    requires
        v <= u128::MAX,
    ensures
        1 <= vlq_bytes(v).len() <= MAX_VLQ_LEN,
{
    lemma_pow128_values();
    lemma_vlq_len_bound(v, 19);
}

/// Reading an encoding gives back its length and the value, whatever follows it.
pub proof fn lemma_vlq_roundtrip(v: nat, rest: Seq<u8>)
    ensures
        vlq_parse(vlq_bytes(v) + rest) == Some((vlq_bytes(v).len(), v)),
    decreases v,
{
    let bytes = vlq_bytes(v) + rest;
    if v < 128 {
        assert(bytes[0] == v as u8);
    } else {
        assert(bytes[0] == (v % 128 + 128) as u8);
        assert(bytes.skip(1) =~= vlq_bytes(v / 128) + rest);
        lemma_vlq_roundtrip(v / 128, rest);
    }
}

/// A 128-bit value that was written is read back by `read_vlq`.
pub proof fn lemma_vlq_read_roundtrip(v: nat, rest: Seq<u8>)
    requires
        v <= u128::MAX,
    ensures
        vlq_read(vlq_bytes(v) + rest) == Ok::<(nat, nat), BeadsError>((vlq_bytes(v).len(), v)),
{
    lemma_vlq_roundtrip(v, rest);
    lemma_vlq_len_u128(v);
}

/// Zig-zag decoding undoes zig-zag encoding on every signed value.
pub proof fn lemma_zigzag_roundtrip(n: int)
    ensures
        unzigzag(zigzag(n)) == n,
{
}

/// Zig-zag encoding undoes zig-zag decoding.
pub proof fn lemma_unzigzag_roundtrip(u: nat)
    ensures
        zigzag(unzigzag(u)) == u,
{
}

/// Writes the encoding of `value` at the front of `buffer` and returns its length.
pub fn add_as_vlq(buffer: &mut [u8], value: u128) -> (n: usize)
    requires
        vlq_bytes(value as nat).len() <= old(buffer)@.len(),
    ensures
        n == vlq_bytes(value as nat).len(),
        final(buffer)@ == vlq_bytes(value as nat) + old(buffer)@.skip(n as int),
{
    let ghost before = buffer@;
    let mut rest: u128 = value;
    let mut index: usize = 0;
    while rest > 127
        invariant
            buffer@.len() == before.len(),
            vlq_bytes(value as nat).len() <= before.len(),
            index <= buffer@.len(),
            buffer@.subrange(0, index as int) + vlq_bytes(rest as nat) == vlq_bytes(value as nat),
            buffer@.skip(index as int) == before.skip(index as int),
        decreases rest,
    {
        let ghost prev = buffer@;
        let b: u8 = (rest % 128 + 128) as u8;
        assert(index < buffer@.len()) by {
            assert(vlq_bytes(rest as nat).len() >= 1);
            assert((buffer@.subrange(0, index as int) + vlq_bytes(rest as nat)).len() == index
                + vlq_bytes(rest as nat).len());
        }
        buffer[index] = b;
        proof {
            assert(buffer@.subrange(0, index + 1) =~= prev.subrange(0, index as int).push(b));
            assert(vlq_bytes(rest as nat) =~= seq![b] + vlq_bytes((rest / 128) as nat));
            assert(buffer@.subrange(0, index + 1) + vlq_bytes((rest / 128) as nat)
                =~= prev.subrange(0, index as int) + vlq_bytes(rest as nat));
            assert(buffer@.skip(index + 1) =~= prev.skip(index as int).skip(1));
            assert(before.skip(index + 1) =~= before.skip(index as int).skip(1));
        }
        index += 1;
        rest = rest / 128;
    }
    let ghost prev = buffer@;
    assert(index < buffer@.len()) by {
        assert((buffer@.subrange(0, index as int) + vlq_bytes(rest as nat)).len() == index
            + vlq_bytes(rest as nat).len());
    }
    buffer[index] = rest as u8;
    proof {
        assert(vlq_bytes(rest as nat) =~= seq![rest as u8]);
        assert(buffer@.subrange(0, index + 1) =~= prev.subrange(0, index as int) + vlq_bytes(
            rest as nat,
        ));
        assert(buffer@.skip(index + 1) =~= prev.skip(index as int).skip(1));
        assert(before.skip(index + 1) =~= before.skip(index as int).skip(1));
        assert(buffer@ =~= buffer@.subrange(0, index + 1) + buffer@.skip(index + 1));
    }
    index + 1
}

/// Appends the encoding of `value` to `out`.
pub fn push_vlq(out: &mut Vec<u8>, value: u128)
    ensures
        final(out)@ == old(out)@ + vlq_bytes(value as nat),
{
    let ghost before = out@;
    let mut rest: u128 = value;
    while rest > 127
        invariant
            out@ + vlq_bytes(rest as nat) == before + vlq_bytes(value as nat),
        decreases rest,
    {
        let ghost prev = out@;
        let b: u8 = (rest % 128 + 128) as u8;
        out.push(b);
        proof {
            assert(vlq_bytes(rest as nat) =~= seq![b] + vlq_bytes((rest / 128) as nat));
            assert(out@ + vlq_bytes((rest / 128) as nat) =~= prev + vlq_bytes(rest as nat));
        }
        rest = rest / 128;
    }
    let ghost prev = out@;
    out.push(rest as u8);
    proof {
        assert(vlq_bytes(rest as nat) =~= seq![rest as u8]);
        assert(out@ =~= prev + vlq_bytes(rest as nat));
    }
}

/// The zig-zag image of `value`: `(value >> 127) ^ (value << 1)` on 128 bits.
pub fn zigzag_encode(value: i128) -> (r: u128)
    ensures
        r == zigzag(value as int),
{
    if value >= 0 {
        2 * (value as u128)
    } else {
        let m: u128 = (-(value + 1)) as u128;
        2 * m + 1
    }
}

/// The signed value with zig-zag image `value`: `(value >> 1) ^ -(value & 1)`.
pub fn zigzag_decode(value: u128) -> (r: i128)
    ensures
        r == unzigzag(value as nat),
{
    let half: u128 = value / 2;
    if value % 2 == 0 {
        half as i128
    } else {
        -(half as i128) - 1
    }
}

/// Writes the zig-zag encoding of `value` at the front of `buffer` and returns its length.
pub fn add_as_vlqz(buffer: &mut [u8], value: i128) -> (n: usize)
    requires
        vlq_bytes(zigzag(value as int)).len() <= old(buffer)@.len(),
    ensures
        n == vlq_bytes(zigzag(value as int)).len(),
        final(buffer)@ == vlq_bytes(zigzag(value as int)) + old(buffer)@.skip(n as int),
{
    add_as_vlq(buffer, zigzag_encode(value))
}

/// Reads the integer at the front of `buffer`: its length in bytes and its value.
pub fn read_vlq(buffer: &[u8]) -> (r: Result<(usize, u128), BeadsError>)
    ensures
        match vlq_read(buffer@) {
            Ok((n, v)) => r == Ok::<(usize, u128), BeadsError>((n as usize, v as u128)),
            Err(e) => r == Err::<(usize, u128), BeadsError>(e),
        },
{
    let mut result: u128 = 0;
    let mut weight: u128 = 1;
    let mut index: usize = 0;
    proof {
        lemma_pow128_values();
        assert(buffer@.skip(0) =~= buffer@);
    }
    while index < buffer.len() && index < 18
        invariant
            index <= buffer@.len(),
            index <= 18,
            weight == pow128(index as nat),
            result < weight,
            forall|j: int| 0 <= j < index ==> buffer@[j] >= 128,
            vlq_parse(buffer@) == match vlq_parse(buffer@.skip(index as int)) {
                Some((n, v)) => Some((n + index as nat, result as nat + v * weight as nat)),
                None => None,
            },
        decreases buffer@.len() - index,
    {
        let b: u8 = buffer[index];
        let ghost tail = buffer@.skip(index as int);
        proof {
            assert(tail[0] == b);
            assert(tail.skip(1) =~= buffer@.skip(index + 1));
            lemma_pow128_bound(index as nat, 18);
            lemma_pow128_values();
        }
        if b < 128 {
            assert(result + b * weight < 128 * weight) by (nonlinear_arith)
                requires
                    result < weight,
                    b < 128,
            ;
            assert(128 * weight <= 0x4000_0000_0000_0000_0000_0000_0000_0000) by {
                lemma_pow128_bound(index as nat + 1, 18);
            }
            let value: u128 = result + (b as u128) * weight;
            return Ok((index + 1, value));
        }
        proof {
            let w = weight as nat;
            let r = result as nat;
            let d = (b - 128) as nat;
            assert(r + d * w < 128 * w) by (nonlinear_arith)
                requires
                    r < w,
                    d < 128,
            ;
            assert(128 * w == pow128(index as nat + 1));
            lemma_pow128_bound(index as nat + 1, 18);
            match vlq_parse(buffer@.skip(index + 1)) {
                Some((n, v)) => {
                    assert(r + (d + 128 * v) * w == (r + d * w) + v * (128 * w))
                        by (nonlinear_arith);
                },
                None => {},
            }
        }
        result = result + ((b - 128) as u128) * weight;
        weight = weight * 128;
        index += 1;
    }
    if index >= buffer.len() {
        return Err(BeadsError::InvalidVarint);
    }
    let b: u8 = buffer[index];
    let ghost tail = buffer@.skip(index as int);
    proof {
        assert(tail[0] == b);
        lemma_pow128_values();
        if b >= 128 {
            match vlq_parse(tail.skip(1)) {
                Some((n, v)) => {
                    assert(n >= 1) by {
                        lemma_vlq_parse_len(tail.skip(1));
                    }
                },
                None => {},
            }
        }
    }
    if b < 4 {
        let value: u128 = result + (b as u128) * weight;
        Ok((index + 1, value))
    } else {
        Err(BeadsError::InvalidVarint)
    }
}

/// A parsed integer takes at least one byte and no more than there are.
pub proof fn lemma_vlq_parse_len(bytes: Seq<u8>)
    ensures
        vlq_parse(bytes) matches Some((n, v)) ==> 1 <= n <= bytes.len(),
    decreases bytes.len(),
{
    if bytes.len() > 0 && bytes[0] >= 128 {
        lemma_vlq_parse_len(bytes.skip(1));
    }
}

/// Powers of 128 grow with the exponent.
pub proof fn lemma_pow128_bound(i: nat, k: nat)
    requires
        i <= k,
    ensures
        1 <= pow128(i) <= pow128(k),
    decreases k,
{
    if i < k {
        lemma_pow128_bound(i, (k - 1) as nat);
    } else if k > 0 {
        lemma_pow128_bound((i - 1) as nat, (k - 1) as nat);
    }
}

/// The length of the encoding of `value`, without writing it.
pub fn vlq_byte_size(value: usize) -> (n: usize)
    ensures
        n == vlq_bytes(value as nat).len(),
{
    let mut rest: usize = value;
    let mut n: usize = 1;
    proof {
        lemma_vlq_len_u128(value as nat);
    }
    while rest > 127
        invariant
            n + vlq_bytes(rest as nat).len() == vlq_bytes(value as nat).len() + 1,
            vlq_bytes(value as nat).len() <= MAX_VLQ_LEN,
        decreases rest,
    {
        rest = rest / 128;
        n += 1;
    }
    n
}

/// The integer at the front of `bytes` is read from its own bytes alone.
pub proof fn lemma_vlq_parse_prefix(bytes: Seq<u8>)
    ensures
        vlq_parse(bytes) matches Some((n, v)) ==> n <= bytes.len() && vlq_parse(
            bytes.take(n as int),
        ) == Some((n, v)),
    decreases bytes.len(),
{
    if bytes.len() > 0 && bytes[0] >= 128 {
        lemma_vlq_parse_prefix(bytes.skip(1));
        lemma_vlq_parse_len(bytes.skip(1));
        match vlq_parse(bytes.skip(1)) {
            Some((n, v)) => {
                assert(bytes.take(n as int + 1).skip(1) =~= bytes.skip(1).take(n as int));
            },
            None => {},
        }
    }
}

/// An integer that takes the whole of `bytes` is read the same with more bytes behind it.
pub proof fn lemma_vlq_parse_extend(bytes: Seq<u8>, rest: Seq<u8>)
    ensures
        vlq_parse(bytes) matches Some((n, v)) ==> vlq_parse(bytes + rest) == Some((n, v)),
    decreases bytes.len(),
{
    if bytes.len() > 0 && bytes[0] >= 128 {
        lemma_vlq_parse_extend(bytes.skip(1), rest);
        assert((bytes + rest).skip(1) =~= bytes.skip(1) + rest);
    }
}

} // verus!
