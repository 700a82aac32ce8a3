//! Variable-length integers: the unsigned base-128 encoding and its zigzag
//! variant for signed integers.
use vstd::prelude::*;
use vstd::slice::slice_subrange;
use crate::error::DecodeError;

verus! {

/// The encoding of `n`: its base-128 digits, least significant first, with
/// the top bit set on every byte but the last.
pub open spec fn varint(n: nat) -> Seq<u8>
    decreases n,
{
    if n < 128 {
        seq![n as u8]
    } else {
        seq![(128 + n % 128) as u8] + varint(n / 128)
    }
}

/// The number of bytes up to and including the first byte whose top bit is
/// clear, or `None` if every byte of `s` has its top bit set.
pub open spec fn varint_len(s: Seq<u8>) -> Option<nat>
    decreases s.len(),
{
    if s.len() == 0 {
        None
    } else if s[0] < 128 {
        Some(1nat)
    } else {
        match varint_len(s.skip(1)) {
            Some(k) => Some(k + 1),
            None => None,
        }
    }
}

/// The number whose base-128 digits, least significant first, are the low
/// seven bits of the bytes of `s`.
pub open spec fn groups_value(s: Seq<u8>) -> nat
    decreases s.len(),
{
    if s.len() == 0 {
        0
    } else {
        (s[0] % 128) as nat + 128 * groups_value(s.skip(1))
    }
}

/// Reading one unsigned variable-length integer from the front of `s`: the
/// value and the unread rest.
pub open spec fn parse_vlusize(s: Seq<u8>) -> Result<(usize, Seq<u8>), DecodeError> {
    match varint_len(s) {
        None => Err(DecodeError::TruncatedInput),
        Some(k) => {
            let v = groups_value(s.take(k as int));
            if v > usize::MAX {
                Err(DecodeError::IntegerOverflow)
            } else {
                Ok((v as usize, s.skip(k as int)))
            }
        },
    }
}

/// The zigzag image of a signed integer: non-negative numbers go to the even
/// numbers, negative ones to the odd numbers.
pub open spec fn zigzag(n: int) -> nat {
    if n >= 0 {
        (2 * n) as nat
    } else {
        (-2 * n - 1) as nat
    }
}

/// The inverse of [`zigzag`].
pub open spec fn unzigzag(u: nat) -> int {
    if u % 2 == 0 {
        u as int / 2
    } else {
        -(u as int / 2) - 1
    }
}

/// Reading one signed variable-length integer from the front of `s`.
pub open spec fn parse_vli64(s: Seq<u8>) -> Result<(i64, Seq<u8>), DecodeError> {
    match varint_len(s) {
        None => Err(DecodeError::TruncatedInput),
        Some(k) => {
            let v = groups_value(s.take(k as int));
            if v > u64::MAX {
                Err(DecodeError::IntegerOverflow)
            } else {
                Ok((unzigzag(v) as i64, s.skip(k as int)))
            }
        },
    }
}

/// Encodes a 64-bit number as an unsigned variable-length integer.
pub fn u64_to_bits(n: u64) -> (res: Vec<u8>)
    ensures
        res@ == varint(n as nat),
{
    let mut n: u64 = n;
    let ghost n0: u64 = n;
    let mut res: Vec<u8> = Vec::new();
    while n > 127
        invariant
            varint(n0 as nat) == res@ + varint(n as nat),
        decreases n,
    {
        let ghost before = res@;
        res.push((128 + n % 128) as u8);
        proof {
            assert(res@ + varint((n / 128) as nat) =~= before + varint(n as nat));
        }
        n = n / 128;
    }
    let ghost before = res@;
    res.push(n as u8);
    proof {
        assert(res@ =~= before + varint(n as nat));
    }
    res
}

/// Encodes `n` as an unsigned variable-length integer.
pub fn usize_to_bits(n: usize) -> (res: Vec<u8>)
    ensures
        res@ == varint(n as nat),
{
    u64_to_bits(n as u64)
}

/// Encodes `n` as a signed variable-length integer.
pub fn i64_to_bits(n: i64) -> (res: Vec<u8>)
    ensures
        res@ == varint(zigzag(n as int)),
{
    let u: u64 = if n >= 0 {
        (n as u64) * 2
    } else {
        ((-(n + 1)) as u64) * 2 + 1
    };
    u64_to_bits(u)
}

/// Adds up the 7-bit groups held in the low bits of `bits`, least significant
/// group first. Fails exactly when the sum does not fit in 64 bits.
pub fn bits_to_u64(bits: &[u8]) -> (res: Result<u64, DecodeError>)
    ensures
        groups_value(bits@) <= u64::MAX ==> res == Ok::<u64, DecodeError>(
            groups_value(bits@) as u64,
        ),
        groups_value(bits@) > u64::MAX ==> res == Err::<u64, DecodeError>(
            DecodeError::IntegerOverflow,
        ),
{
    let mut i: usize = bits.len();
    let mut acc: u64 = 0;
    let mut overflow: bool = false;
    while i > 0
        invariant
            i <= bits@.len(),
            overflow ==> groups_value(bits@.skip(i as int)) > u64::MAX,
            !overflow ==> acc == groups_value(bits@.skip(i as int)),
        decreases i,
    {
        i = i - 1;
        let g: u64 = (bits[i] % 128) as u64;
        proof {
            assert(bits@.skip(i as int).skip(1) =~= bits@.skip(i + 1));
        }
        if !overflow {
            if acc > (u64::MAX - g) / 128 {
                overflow = true;
            } else {
                acc = acc * 128 + g;
            }
        }
    }
    proof {
        assert(bits@.skip(0) =~= bits@);
    }
    if overflow {
        Err(DecodeError::IntegerOverflow)
    } else {
        Ok(acc)
    }
}

/// Adds up the 7-bit groups of `bits`, least significant group first. Fails
/// exactly when the sum does not fit in a `usize`.
pub fn bits_to_usize(bits: &[u8]) -> (res: Result<usize, DecodeError>)
    ensures
        groups_value(bits@) <= usize::MAX ==> res == Ok::<usize, DecodeError>(
            groups_value(bits@) as usize,
        ),
        groups_value(bits@) > usize::MAX ==> res == Err::<usize, DecodeError>(
            DecodeError::IntegerOverflow,
        ),
{
    match bits_to_u64(bits) {
        Ok(u) => {
            if u > usize::MAX as u64 {
                Err(DecodeError::IntegerOverflow)
            } else {
                Ok(u as usize)
            }
        },
        Err(e) => Err(e),
    }
}

/// Adds up the 7-bit groups of `bits` and undoes the zigzag mapping on the
/// sum. Fails exactly when the sum does not fit in 64 bits.
pub fn bits_to_i64(bits: &[u8]) -> (res: Result<i64, DecodeError>)
    ensures
        groups_value(bits@) <= u64::MAX ==> res == Ok::<i64, DecodeError>(
            unzigzag(groups_value(bits@)) as i64,
        ),
        groups_value(bits@) > u64::MAX ==> res == Err::<i64, DecodeError>(
            DecodeError::IntegerOverflow,
        ),
{
    match bits_to_u64(bits) {
        Ok(u) => {
            if u % 2 == 0 {
                Ok((u / 2) as i64)
            } else {
                Ok(-((u / 2) as i64) - 1)
            }
        },
        Err(e) => Err(e),
    }
}

/// Splits `input` after its first byte whose top bit is clear: the bytes of
/// one variable-length integer, and what follows them.
pub fn split_varint(input: &[u8]) -> (res: Option<(&[u8], &[u8])>)
    ensures
        match varint_len(input@) {
            Some(k) => res is Some && res->Some_0.0@ == input@.take(k as int)
                && res->Some_0.1@ == input@.skip(k as int),
            None => res is None,
        },
{
    let mut i: usize = 0;
    proof {
        assert(input@.skip(0) =~= input@);
    }
    while i < input.len() && input[i] >= 128
        invariant
            i <= input@.len(),
            varint_len(input@) == match varint_len(input@.skip(i as int)) {
                Some(k) => Some((k + i) as nat),
                None => None,
            },
        decreases input@.len() - i,
    {
        proof {
            assert(input@.skip(i as int).skip(1) =~= input@.skip(i + 1));
        }
        i = i + 1;
    }
    if i == input.len() {
        None
    } else {
        Some((slice_subrange(input, 0, i + 1), slice_subrange(input, i + 1, input.len())))
    }
}

/// Reads one unsigned variable-length integer from the front of `input` and
/// returns the unread rest with it.
pub fn vlusize(input: &[u8]) -> (res: Result<(&[u8], usize), DecodeError>)
    ensures
        match parse_vlusize(input@) {
            Ok((v, rest)) => res is Ok && res->Ok_0.1 == v && res->Ok_0.0@ == rest,
            Err(e) => res == Err::<(&[u8], usize), DecodeError>(e),
        },
{
    match split_varint(input) {
        None => Err(DecodeError::TruncatedInput),
        Some((bits, rest)) => match bits_to_usize(bits) {
            Ok(v) => Ok((rest, v)),
            Err(e) => Err(e),
        },
    }
}

/// Reads one signed variable-length integer from the front of `input` and
/// returns the unread rest with it.
pub fn vli64(input: &[u8]) -> (res: Result<(&[u8], i64), DecodeError>)
    ensures
        match parse_vli64(input@) {
            Ok((v, rest)) => res is Ok && res->Ok_0.1 == v && res->Ok_0.0@ == rest,
            Err(e) => res == Err::<(&[u8], i64), DecodeError>(e),
        },
{
    match split_varint(input) {
        None => Err(DecodeError::TruncatedInput),
        Some((bits, rest)) => match bits_to_i64(bits) {
            Ok(v) => Ok((rest, v)),
            Err(e) => Err(e),
        },
    }
}

/// An encoding ends exactly where its last byte stands, whatever follows it.
pub proof fn lemma_varint_len(n: nat, tail: Seq<u8>)
    ensures
        varint_len(varint(n) + tail) == Some(varint(n).len()),
    decreases n,
{
    let s = varint(n) + tail;
    if n < 128 {
        assert(s[0] == n as u8);
    } else {
        lemma_varint_len(n / 128, tail);
        assert(s[0] == (128 + n % 128) as u8);
        assert(s.skip(1) =~= varint(n / 128) + tail);
    }
}

/// The groups of the encoding of `n` add up to `n`.
pub proof fn lemma_varint_value(n: nat)
    ensures
        groups_value(varint(n)) == n,
    decreases n,
{
    let s = varint(n);
    if n < 128 {
        assert(s.skip(1) =~= Seq::<u8>::empty());
        assert(groups_value(s.skip(1)) == 0);
    } else {
        lemma_varint_value(n / 128);
        assert(s[0] == (128 + n % 128) as u8);
        assert(s.skip(1) =~= varint(n / 128));
    }
}

/// Reading back an encoded unsigned integer gives that integer, the whole
/// encoding is used up, and what followed it is left unread.
pub proof fn lemma_vlusize_round_trip(n: usize, tail: Seq<u8>)
    ensures
        parse_vlusize(varint(n as nat) + tail) == Ok::<(usize, Seq<u8>), DecodeError>((n, tail)),
{
    let s = varint(n as nat) + tail;
    let k = varint(n as nat).len() as int;
    lemma_varint_len(n as nat, tail);
    lemma_varint_value(n as nat);
    assert(s.take(k) =~= varint(n as nat));
    assert(s.skip(k) =~= tail);
}

/// The zigzag mapping loses nothing.
pub proof fn lemma_zigzag_inverse(n: int)
    ensures
        unzigzag(zigzag(n)) == n,
{
}

/// Every 64-bit number is the zigzag image of exactly one signed 64-bit
/// integer.
pub proof fn lemma_unzigzag_inverse(u: nat)
    requires
        u <= u64::MAX,
    ensures
        i64::MIN <= unzigzag(u) <= i64::MAX,
        zigzag(unzigzag(u)) == u,
{
}

/// Reading back an encoded signed integer gives that integer, over the full
/// 64-bit range, and leaves what followed it unread.
pub proof fn lemma_vli64_round_trip(n: i64, tail: Seq<u8>)
    ensures
        parse_vli64(varint(zigzag(n as int)) + tail) == Ok::<(i64, Seq<u8>), DecodeError>(
            (n, tail),
        ),
{
    let u = zigzag(n as int);
    let s = varint(u) + tail;
    let k = varint(u).len() as int;
    lemma_varint_len(u, tail);
    lemma_varint_value(u);
    lemma_zigzag_inverse(n as int);
    assert(s.take(k) =~= varint(u));
    assert(s.skip(k) =~= tail);
}

/// An encoding that is cut short has no end: every byte that is left
/// announces another.
pub proof fn lemma_varint_cut(n: nat, k: int)
    requires
        0 <= k < varint(n).len(),
    ensures
        varint_len(varint(n).take(k)) is None,
        parse_vlusize(varint(n).take(k)) == Err::<(usize, Seq<u8>), DecodeError>(
            DecodeError::TruncatedInput,
        ),
        parse_vli64(varint(n).take(k)) == Err::<(i64, Seq<u8>), DecodeError>(
            DecodeError::TruncatedInput,
        ),
    decreases n,
{
    let s = varint(n).take(k);
    if k > 0 {
        assert(n >= 128);
        lemma_varint_cut(n / 128, k - 1);
        assert(s[0] == (128 + n % 128) as u8);
        assert(s.skip(1) =~= varint(n / 128).take(k - 1));
    }
}

/// The zigzag image is the number shifted left by one bit, with every bit
/// flipped if the number is negative.
pub proof fn lemma_zigzag_bits(n: i64)
    ensures
        zigzag(n as int) == (((n << 1) ^ (n >> 63)) as u64) as nat,
{
    if n >= 0 {
        assert(n >= 0 ==> ((n << 1) ^ (n >> 63)) as u64 == 2 * (n as u64)) by (bit_vector);
    } else {
        assert(n < 0 ==> ((n << 1) ^ (n >> 63)) as u64 == 2 * ((-(n + 1)) as u64) + 1)
            by (bit_vector);
    }
}

/// A variable-length integer takes at least one byte, and no more than
/// there are.
pub proof fn lemma_varint_len_bounds(s: Seq<u8>)
    ensures
        varint_len(s) matches Some(k) ==> 1 <= k <= s.len(),
        parse_vlusize(s) matches Ok(r) ==> r.1.len() < s.len(),
        parse_vli64(s) matches Ok(r) ==> r.1.len() < s.len(),
    decreases s.len(),
{
    if s.len() > 0 && s[0] >= 128 {
        lemma_varint_len_bounds(s.skip(1));
    }
}

} // verus!
