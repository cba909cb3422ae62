//! Base32 with the "extended hex" alphabet, unpadded: the presentation form
//! of NSEC3 hashed owner names.

use vstd::prelude::*;

verus! {

/// The character for a five-bit value: `0`-`9`, then `A`-`V`.
pub open spec fn digit(v: u8) -> u8
    recommends
        v < 32,
{
    if v < 10 {
        (48 + v) as u8
    } else {
        (55 + v) as u8
    }
}

/// The eight characters of one five-byte group.
pub open spec fn group_chars(b0: u8, b1: u8, b2: u8, b3: u8, b4: u8) -> Seq<u8> {
    seq![
        digit(b0 >> 3),
        digit(((b0 & 7) << 2) | (b1 >> 6)),
        digit((b1 >> 1) & 31),
        digit(((b1 & 1) << 4) | (b2 >> 4)),
        digit(((b2 & 15) << 1) | (b3 >> 7)),
        digit((b3 >> 2) & 31),
        digit(((b3 & 3) << 3) | (b4 >> 5)),
        digit(b4 & 31),
    ]
}

/// How many characters encode a final group of `n` bytes (1 to 4).
pub open spec fn tail_chars(n: int) -> int {
    if n == 1 {
        2
    } else if n == 2 {
        4
    } else if n == 3 {
        5
    } else {
        7
    }
}

pub open spec fn byte_or_zero(s: Seq<u8>, i: int) -> u8 {
    if 0 <= i < s.len() {
        s[i]
    } else {
        0
    }
}

/// Unpadded base32hex of `s`: five-byte groups become eight characters; a
/// shorter final group is padded with zero bits and cut to the characters
/// that carry input bits.
pub open spec fn base32hex(s: Seq<u8>) -> Seq<u8>
    decreases s.len(),
{
    if s.len() == 0 {
        Seq::empty()
    } else if s.len() >= 5 {
        group_chars(s[0], s[1], s[2], s[3], s[4]) + base32hex(s.subrange(5, s.len() as int))
    } else {
        group_chars(
            byte_or_zero(s, 0),
            byte_or_zero(s, 1),
            byte_or_zero(s, 2),
            byte_or_zero(s, 3),
            byte_or_zero(s, 4),
        ).subrange(0, tail_chars(s.len() as int))
    }
}

fn digit_exec(v: u8) -> (r: u8)
    requires
        v < 32,
    ensures
        r == digit(v),
{
    if v < 10 {
        48 + v
    } else {
        55 + v
    }
}

fn push_group(out: &mut Vec<u8>, b0: u8, b1: u8, b2: u8, b3: u8, b4: u8)
    ensures
        final(out)@ == old(out)@ + group_chars(b0, b1, b2, b3, b4),
{
    let ghost start = out@;
    assert(b0 >> 3 < 32) by (bit_vector);
    assert((((b0 & 7) << 2) | (b1 >> 6)) < 32) by (bit_vector);
    assert(((b1 >> 1) & 31) < 32) by (bit_vector);
    assert((((b1 & 1) << 4) | (b2 >> 4)) < 32) by (bit_vector);
    assert((((b2 & 15) << 1) | (b3 >> 7)) < 32) by (bit_vector);
    assert(((b3 >> 2) & 31) < 32) by (bit_vector);
    assert((((b3 & 3) << 3) | (b4 >> 5)) < 32) by (bit_vector);
    assert((b4 & 31) < 32) by (bit_vector);
    out.push(digit_exec(b0 >> 3));
    out.push(digit_exec(((b0 & 7) << 2) | (b1 >> 6)));
    out.push(digit_exec((b1 >> 1) & 31));
    out.push(digit_exec(((b1 & 1) << 4) | (b2 >> 4)));
    out.push(digit_exec(((b2 & 15) << 1) | (b3 >> 7)));
    out.push(digit_exec((b3 >> 2) & 31));
    out.push(digit_exec(((b3 & 3) << 3) | (b4 >> 5)));
    out.push(digit_exec(b4 & 31));
    assert(out@ =~= start + group_chars(b0, b1, b2, b3, b4));
}

/// Encodes `data` as unpadded base32hex, upper case.
pub fn encode_base32hex(data: &[u8]) -> (r: Vec<u8>)
    ensures
        r@ == base32hex(data@),
{
    let n = data.len();
    let mut out: Vec<u8> = Vec::new();
    let mut i: usize = 0;
    assert(data@.subrange(0, n as int) =~= data@);
    while 5 <= n - i
        invariant
            n == data@.len(),
            i <= n,
            out@ + base32hex(data@.subrange(i as int, n as int)) == base32hex(data@),
        decreases n - i,
    {
        let ghost rest = data@.subrange(i as int, n as int);
        assert(rest.subrange(5, rest.len() as int) =~= data@.subrange(i + 5, n as int));
        let ghost before = out@;
        push_group(&mut out, data[i], data[i + 1], data[i + 2], data[i + 3], data[i + 4]);
        assert(out@ + base32hex(data@.subrange(i + 5, n as int)) =~= before + base32hex(rest));
        i = i + 5;
    }
    let ghost rest = data@.subrange(i as int, n as int);
    if i < n {
        let m = n - i;
        let b0 = data[i];
        let b1 = if m > 1 { data[i + 1] } else { 0 };
        let b2 = if m > 2 { data[i + 2] } else { 0 };
        let b3 = if m > 3 { data[i + 3] } else { 0 };
        assert(b0 == byte_or_zero(rest, 0));
        assert(b1 == byte_or_zero(rest, 1));
        assert(b2 == byte_or_zero(rest, 2));
        assert(b3 == byte_or_zero(rest, 3));
        assert(0u8 == byte_or_zero(rest, 4));
        let mut group: Vec<u8> = Vec::new();
        push_group(&mut group, b0, b1, b2, b3, 0);
        let keep: usize = if m == 1 {
            2
        } else if m == 2 {
            4
        } else if m == 3 {
            5
        } else {
            7
        };
        let ghost before = out@;
        let mut k: usize = 0;
        while k < keep
            invariant
                keep <= 8,
                group@.len() == 8,
                k <= keep,
                out@ == before + group@.subrange(0, k as int),
            decreases keep - k,
        {
            out.push(group[k]);
            assert(group@.subrange(0, k + 1) =~= group@.subrange(0, k as int).push(group@[k as int]));
            k = k + 1;
        }
        assert(group@ =~= Seq::<u8>::empty() + group_chars(b0, b1, b2, b3, 0));
    } else {
        assert(rest =~= Seq::<u8>::empty());
        assert(out@ =~= out@ + base32hex(rest));
    }
    out
}

} // verus!
