//! Canonical wire encodings that signatures are computed over (RFC 4034,
//! section 6): record data, whole records, and the NSEC3 type bitmap.

use vstd::prelude::*;
use crate::lex::lex_less;
use crate::nsec3::Nsec3;
use crate::name::wire_of;
use crate::record::{be16, dnskey_rdata, RecordData};

verus! {

/// Appends the bytes of `src`.
pub(crate) fn append_bytes(out: &mut Vec<u8>, src: &[u8])
    ensures
        final(out)@ == old(out)@ + src@,
{
    let ghost start = out@;
    let mut i: usize = 0;
    while i < src.len()
        invariant
            i <= src@.len(),
            out@ == start + src@.subrange(0, i as int),
        decreases src@.len() - i,
    {
        out.push(src[i]);
        assert(src@.subrange(0, i + 1) =~= src@.subrange(0, i as int).push(src@[i as int]));
        i = i + 1;
    }
    assert(src@.subrange(0, i as int) =~= src@);
}

pub(crate) fn push_u16(out: &mut Vec<u8>, x: u16)
    ensures
        final(out)@ == old(out)@ + seq![(x >> 8) as u8, x as u8],
{
    let ghost start = out@;
    out.push((x >> 8) as u8);
    out.push(x as u8);
    assert(out@ =~= start + seq![(x >> 8) as u8, x as u8]);
}

pub(crate) fn push_u32(out: &mut Vec<u8>, x: u32)
    ensures
        final(out)@ == old(out)@ + seq![(x >> 24) as u8, (x >> 16) as u8, (x >> 8) as u8, x as u8],
{
    let ghost start = out@;
    out.push((x >> 24) as u8);
    out.push((x >> 16) as u8);
    out.push((x >> 8) as u8);
    out.push(x as u8);
    assert(out@ =~= start + seq![(x >> 24) as u8, (x >> 16) as u8, (x >> 8) as u8, x as u8]);
}

/// Value of a base32hex character, either case; 0 for any other byte.
fn digit_value(c: u8) -> (r: u8)
    ensures
        r < 32,
{
    if 48 <= c && c <= 57 {
        c - 48
    } else if 65 <= c && c <= 86 {
        c - 55
    } else if 97 <= c && c <= 118 {
        c - 87
    } else {
        0
    }
}

fn digit_at(label: &[u8], i: usize, off: usize) -> (r: u64)
    requires
        i <= label@.len(),
    ensures
        r < 32,
{
    if off < label.len() - i {
        digit_value(label[i + off]) as u64
    } else {
        0
    }
}

/// The bytes that a base32hex label encodes: five bits per character, most
/// significant first; trailing bits that do not fill a byte are dropped.
pub(crate) fn decode_base32hex(label: &[u8]) -> (r: Vec<u8>)
{
    let mut out: Vec<u8> = Vec::new();
    let n = label.len();
    let mut i: usize = 0;
    while i < n
        invariant
            i <= n,
            n == label@.len(),
        decreases n - i,
    {
        let mut v: u64 = digit_at(label, i, 0);
        v = v * 32 + digit_at(label, i, 1);
        v = v * 32 + digit_at(label, i, 2);
        v = v * 32 + digit_at(label, i, 3);
        v = v * 32 + digit_at(label, i, 4);
        v = v * 32 + digit_at(label, i, 5);
        v = v * 32 + digit_at(label, i, 6);
        v = v * 32 + digit_at(label, i, 7);
        let m: usize = if n - i >= 8 { 8 } else { n - i };
        let keep: usize = m * 5 / 8;
        let group: [u8; 5] = [(v >> 32) as u8, (v >> 24) as u8, (v >> 16) as u8, (v >> 8) as u8, v as u8];
        let mut k: usize = 0;
        while k < keep
            invariant
                keep <= 5,
                k <= keep,
            decreases keep - k,
        {
            out.push(group[k]);
            k = k + 1;
        }
        i = i + m;
    }
    out
}

/// NSEC3 type bitmap for types below 256: window 0, just long enough for
/// the largest type present, bit `7 - t % 8` of byte `t / 8` set for each
/// type `t`. Empty when no type is present.
pub(crate) fn type_bitmap(types: &[u16]) -> (r: Vec<u8>)
{
    let mut max: u16 = 0;
    let mut any = false;
    let mut i: usize = 0;
    while i < types.len()
        invariant
            i <= types@.len(),
            max < 256,
            forall|j: int| 0 <= j < i && types@[j] < 256 ==> types@[j] <= max,
        decreases types@.len() - i,
    {
        if types[i] < 256 {
            any = true;
            if types[i] > max {
                max = types[i];
            }
        }
        i = i + 1;
    }
    let mut out: Vec<u8> = Vec::new();
    if !any {
        return out;
    }
    let len: usize = (max / 8 + 1) as usize;
    let mut bytes: Vec<u8> = Vec::new();
    let mut k: usize = 0;
    while k < len
        invariant
            k <= len,
            bytes@.len() == k,
        decreases len - k,
    {
        bytes.push(0u8);
        k = k + 1;
    }
    let mut i: usize = 0;
    while i < types.len()
        invariant
            i <= types@.len(),
            bytes@.len() == len,
            len == (max / 8 + 1) as usize,
            forall|j: int| 0 <= j < types@.len() && types@[j] < 256 ==> types@[j] <= max,
        decreases types@.len() - i,
    {
        let t = types[i];
        if t < 256 {
            let idx = (t / 8) as usize;
            let mask: u8 = 128u8 >> ((t % 8) as u8);
            let old_b = bytes[idx];
            bytes.set(idx, old_b | mask);
        }
        i = i + 1;
    }
    out.push(0u8);
    out.push(len as u8);
    append_bytes(&mut out, bytes.as_slice());
    out
}

/// Canonical wire form of record data.
pub(crate) fn rdata_wire(d: &RecordData) -> (r: Vec<u8>)
    ensures
        d matches RecordData::A(a) ==> r@ == seq![a[0], a[1], a[2], a[3]],
        d matches RecordData::Ds(ds) ==> r@ == be16(ds.key_tag) + seq![ds.algorithm, ds.digest_type] + ds.digest@,
        d matches RecordData::Dnskey(k) ==> r@ == dnskey_rdata(*k),
        d matches RecordData::Ns(n) ==> r@ == wire_of(n@, true),
{
    let mut out: Vec<u8> = Vec::new();
    match d {
        RecordData::A(addr) => {
            out.push(addr[0]);
            out.push(addr[1]);
            out.push(addr[2]);
            out.push(addr[3]);
            assert(out@ =~= seq![addr[0], addr[1], addr[2], addr[3]]);
        },
        RecordData::Ns(n) => {
            let w = n.canonical_wire();
            append_bytes(&mut out, w.as_slice());
            assert(out@ =~= wire_of(n@, true));
        },
        RecordData::Ds(ds) => {
            push_u16(&mut out, ds.key_tag);
            out.push(ds.algorithm);
            out.push(ds.digest_type);
            append_bytes(&mut out, ds.digest.as_slice());
            assert(out@ =~= be16(ds.key_tag) + seq![ds.algorithm, ds.digest_type] + ds.digest@);
        },
        RecordData::Dnskey(k) => {
            let w = k.rdata();
            append_bytes(&mut out, w.as_slice());
            assert(out@ =~= dnskey_rdata(*k));
        },
        RecordData::Rrsig(s) => {
            push_u16(&mut out, s.type_covered);
            out.push(s.algorithm);
            out.push(s.labels);
            push_u32(&mut out, s.original_ttl);
            push_u32(&mut out, s.expiration);
            push_u32(&mut out, s.inception);
            push_u16(&mut out, s.key_tag);
            let w = s.signer.canonical_wire();
            append_bytes(&mut out, w.as_slice());
            append_bytes(&mut out, s.signature.as_slice());
        },
        RecordData::Nsec3(n) => {
            nsec3_rdata(&mut out, n);
        },
        RecordData::Nsec3Param(p) => {
            out.push(p.hash_algorithm);
            out.push(p.flags);
            push_u16(&mut out, p.iterations);
            out.push(p.salt.len() as u8);
            append_bytes(&mut out, p.salt.as_slice());
        },
    }
    out
}

fn nsec3_rdata(out: &mut Vec<u8>, n: &Nsec3) {
    out.push(n.hash_algorithm);
    out.push(n.flags);
    push_u16(out, n.iterations);
    out.push(n.salt.len() as u8);
    append_bytes(out, n.salt.as_slice());
    let next = decode_base32hex(n.next_hashed_owner.as_slice());
    out.push(next.len() as u8);
    append_bytes(out, next.as_slice());
    let bitmap = type_bitmap(n.types.as_slice());
    append_bytes(out, bitmap.as_slice());
}

/// Sorts byte strings in byte-wise order, keeping every one of them.
pub(crate) fn sort_bytes(items: Vec<Vec<u8>>) -> (r: Vec<Vec<u8>>)
    ensures
        r@.len() == items@.len(),
        forall|i: int, j: int| 0 <= i < j < r@.len() ==> !crate::lex::lex_lt(r@[j]@, r@[i]@),
{
    let mut input = items;
    let mut out: Vec<Vec<u8>> = Vec::new();
    while input.len() > 0
        invariant
            out@.len() + input@.len() == items@.len(),
            forall|i: int, j: int| 0 <= i < j < out@.len() ==> !crate::lex::lex_lt(out@[j]@, out@[i]@),
        decreases input@.len(),
    {
        let last = input.len() - 1;
        let x = input.remove(last);
        let mut j: usize = 0;
        while j < out.len() && !lex_less(x.as_slice(), out[j].as_slice())
            invariant
                j <= out@.len(),
                forall|k: int| 0 <= k < j ==> !crate::lex::lex_lt(x@, #[trigger] out@[k]@),
            decreases out@.len() - j,
        {
            j = j + 1;
        }
        let ghost old_out = out@;
        out.insert(j, x);
        assert forall|a: int, b: int| 0 <= a < b < out@.len() implies !crate::lex::lex_lt(out@[b]@, out@[a]@) by {
            if b < j {
                assert(out@[a] == old_out[a] && out@[b] == old_out[b]);
            } else if b == j {
                assert(out@[a] == old_out[a]);
                crate::lex::lemma_lex_trichotomy(old_out[a]@, x@);
            } else if a == j {
                assert(out@[b] == old_out[b - 1]);
                crate::lex::lemma_lex_not_lt(old_out[b - 1]@, old_out[j as int]@);
                crate::lex::lemma_lex_lt_le(x@, old_out[j as int]@, old_out[b - 1]@);
                crate::lex::lemma_lex_trichotomy(x@, old_out[b - 1]@);
            } else if a < j {
                assert(out@[a] == old_out[a] && out@[b] == old_out[b - 1]);
            } else {
                assert(out@[a] == old_out[a - 1] && out@[b] == old_out[b - 1]);
            }
        }
    }
    out
}

/// Canonical wire form of a record: owner, type, class IN, TTL, data length
/// and data. `original_ttl` replaces the record's own TTL.
pub(crate) fn record_wire(owner_wire: &[u8], rtype: u16, original_ttl: u32, rdata: &[u8]) -> (r: Vec<u8>)
    ensures
        r@ == owner_wire@ + be16(rtype) + be16(1) + seq![(original_ttl >> 24) as u8, (original_ttl >> 16) as u8,
            (original_ttl >> 8) as u8, original_ttl as u8] + be16(rdata@.len() as u16) + rdata@,
{
    let mut out: Vec<u8> = Vec::new();
    append_bytes(&mut out, owner_wire);
    push_u16(&mut out, rtype);
    push_u16(&mut out, 1);
    push_u32(&mut out, original_ttl);
    push_u16(&mut out, rdata.len() as u16);
    append_bytes(&mut out, rdata);
    assert(out@ =~= owner_wire@ + be16(rtype) + be16(1) + seq![(original_ttl >> 24) as u8, (original_ttl >> 16) as u8,
            (original_ttl >> 8) as u8, original_ttl as u8] + be16(rdata@.len() as u16) + rdata@);
    out
}

} // verus!
