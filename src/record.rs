//! Resource records: the typed payloads a zone holds, their wire form, and
//! the DNSKEY / DS relation that links a child zone to its parent.

use vstd::prelude::*;
use crate::chain::Nsec3Param;
use crate::error::Error;
use crate::hash::{sha1, sha1_of};
use crate::lex::copy_bytes;
use crate::name::{wire_of, Fqdn};
use crate::nsec3::Nsec3;

verus! {

pub const TYPE_A: u16 = 1;
pub const TYPE_NS: u16 = 2;
pub const TYPE_MX: u16 = 15;
pub const TYPE_DS: u16 = 43;
pub const TYPE_RRSIG: u16 = 46;
pub const TYPE_DNSKEY: u16 = 48;
pub const TYPE_NSEC3: u16 = 50;
pub const TYPE_NSEC3PARAM: u16 = 51;

/// DNSKEY flags of a zone-signing key (Zone Key bit).
pub const ZSK_FLAGS: u16 = 256;
/// DNSKEY flags of a key-signing key (Zone Key and Secure Entry Point bits).
pub const KSK_FLAGS: u16 = 257;
/// DS digest type of SHA-1.
pub const DIGEST_SHA1: u8 = 1;

#[derive(Debug, Clone, PartialEq, Eq)]
pub struct Dnskey {
    pub flags: u16,
    pub protocol: u8,
    pub algorithm: u8,
    pub public_key: Vec<u8>,
}

#[derive(Debug, Clone, PartialEq, Eq)]
pub struct Ds {
    pub key_tag: u16,
    pub algorithm: u8,
    pub digest_type: u8,
    pub digest: Vec<u8>,
}

#[derive(Debug, Clone, PartialEq, Eq)]
pub struct Rrsig {
    pub type_covered: u16,
    pub algorithm: u8,
    pub labels: u8,
    pub original_ttl: u32,
    pub expiration: u32,
    pub inception: u32,
    pub key_tag: u16,
    pub signer: Fqdn,
    pub signature: Vec<u8>,
}

#[derive(Debug, Clone, PartialEq, Eq)]
pub enum RecordData {
    A([u8; 4]),
    Ns(Fqdn),
    Ds(Ds),
    Dnskey(Dnskey),
    Rrsig(Rrsig),
    Nsec3(Nsec3),
    Nsec3Param(Nsec3Param),
}

#[derive(Debug, Clone, PartialEq, Eq)]
pub struct Record {
    pub owner: Fqdn,
    pub ttl: u32,
    pub data: RecordData,
}

/// Two keys with the same contents.
pub open spec fn same_key(a: Dnskey, b: Dnskey) -> bool {
    &&& a.flags == b.flags
    &&& a.protocol == b.protocol
    &&& a.algorithm == b.algorithm
    &&& a.public_key@ == b.public_key@
}

/// The type code of a payload.
pub open spec fn type_of(d: RecordData) -> u16 {
    match d {
        RecordData::A(_) => TYPE_A,
        RecordData::Ns(_) => TYPE_NS,
        RecordData::Ds(_) => TYPE_DS,
        RecordData::Dnskey(_) => TYPE_DNSKEY,
        RecordData::Rrsig(_) => TYPE_RRSIG,
        RecordData::Nsec3(_) => TYPE_NSEC3,
        RecordData::Nsec3Param(_) => TYPE_NSEC3PARAM,
    }
}

/// Big-endian bytes of a 16-bit field.
pub open spec fn be16(x: u16) -> Seq<u8> {
    seq![(x >> 8) as u8, x as u8]
}

/// Wire form of DNSKEY data: flags, protocol, algorithm, public key.
pub open spec fn dnskey_rdata(k: Dnskey) -> Seq<u8> {
    be16(k.flags) + seq![k.protocol, k.algorithm] + k.public_key@
}

/// The weighted byte sum behind a key tag: bytes at even offsets count as
/// the high byte of a 16-bit word, bytes at odd offsets as the low byte.
pub open spec fn tag_sum(d: Seq<u8>) -> nat
    decreases d.len(),
{
    if d.len() == 0 {
        0
    } else {
        tag_sum(d.drop_last()) + (if (d.len() - 1) % 2 == 0 {
            d.last() as nat * 256
        } else {
            d.last() as nat
        })
    }
}

/// Key tag of key data (RFC 4034, appendix B): the word sum with its carry
/// folded back in once, taken modulo 2^16.
pub open spec fn key_tag_of(rdata: Seq<u8>) -> u16 {
    let s = tag_sum(rdata);
    ((s + (s / 65536) % 65536) % 65536) as u16
}

/// The DS data that a parent publishes for the key `k` of zone `owner`.
pub open spec fn ds_of(owner: Seq<Seq<u8>>, k: Dnskey) -> (u16, u8, u8, Seq<u8>) {
    (key_tag_of(dnskey_rdata(k)), k.algorithm, DIGEST_SHA1, sha1_of(wire_of(owner, true) + dnskey_rdata(k)))
}

proof fn lemma_tag_sum_bound(d: Seq<u8>)
    ensures
        tag_sum(d) <= d.len() * 65280,
    decreases d.len(),
{
    if d.len() > 0 {
        lemma_tag_sum_bound(d.drop_last());
    }
}

impl Dnskey {
    /// A copy of this key.
    pub fn clone_key(&self) -> (r: Dnskey)
        ensures
            same_key(r, *self),
    {
        let r = Dnskey { flags: self.flags, protocol: self.protocol, algorithm: self.algorithm, public_key: copy_bytes(self.public_key.as_slice()) };
        assert(r.public_key@ == self.public_key@);
        r
    }

    /// Secure Entry Point bit set: this is a key-signing key.
    pub fn is_key_signing_key(&self) -> (r: bool)
        ensures
            r == (self.flags % 2 == 1),
    {
        self.flags % 2 == 1
    }

    /// Wire form of this key's data.
    pub fn rdata(&self) -> (r: Vec<u8>)
        ensures
            r@ == dnskey_rdata(*self),
    {
        let mut out: Vec<u8> = Vec::new();
        out.push((self.flags >> 8) as u8);
        out.push(self.flags as u8);
        out.push(self.protocol);
        out.push(self.algorithm);
        let mut i: usize = 0;
        let ghost start = out@;
        while i < self.public_key.len()
            invariant
                i <= self.public_key@.len(),
                out@ == start + self.public_key@.subrange(0, i as int),
            decreases self.public_key@.len() - i,
        {
            out.push(self.public_key[i]);
            assert(self.public_key@.subrange(0, i + 1) =~= self.public_key@.subrange(0, i as int).push(self.public_key@[i as int]));
            i = i + 1;
        }
        assert(self.public_key@.subrange(0, i as int) =~= self.public_key@);
        assert(out@ =~= dnskey_rdata(*self));
        out
    }

    /// The key tag of this key.
    pub fn calculate_key_tag(&self) -> (r: u16)
        requires
            self.public_key@.len() <= 65531,
        ensures
            r == key_tag_of(dnskey_rdata(*self)),
    {
        let d = self.rdata();
        let mut ac: u64 = 0;
        let mut i: usize = 0;
        while i < d.len()
            invariant
                i <= d@.len(),
                d@.len() <= 65535,
                ac == tag_sum(d@.subrange(0, i as int)),
            decreases d@.len() - i,
        {
            proof {
                lemma_tag_sum_bound(d@.subrange(0, i as int));
                assert(d@.subrange(0, i + 1).drop_last() =~= d@.subrange(0, i as int));
            }
            if i % 2 == 0 {
                ac = ac + (d[i] as u64) * 256;
            } else {
                ac = ac + d[i] as u64;
            }
            i = i + 1;
        }
        assert(d@.subrange(0, i as int) =~= d@);
        proof { lemma_tag_sum_bound(d@); }
        let folded = ac + (ac / 65536) % 65536;
        (folded % 65536) as u16
    }
}

impl Ds {
    /// The DS record of key `key` of zone `owner`, with a SHA-1 digest.
    pub fn from_key(owner: &Fqdn, key: &Dnskey) -> (r: Ds)
        requires
            owner.wf(),
            key.public_key@.len() <= 65531,
        ensures
            (r.key_tag, r.algorithm, r.digest_type, r.digest@) == ds_of(owner@, *key),
    {
        let mut input = owner.canonical_wire();
        let rd = key.rdata();
        let mut i: usize = 0;
        let ghost start = input@;
        while i < rd.len()
            invariant
                i <= rd@.len(),
                input@ == start + rd@.subrange(0, i as int),
            decreases rd@.len() - i,
        {
            input.push(rd[i]);
            assert(rd@.subrange(0, i + 1) =~= rd@.subrange(0, i as int).push(rd@[i as int]));
            i = i + 1;
        }
        assert(rd@.subrange(0, i as int) =~= rd@);
        proof { crate::name::lemma_wire_bound(owner@); }
        let digest = sha1(input.as_slice());
        Ds { key_tag: key.calculate_key_tag(), algorithm: key.algorithm, digest_type: DIGEST_SHA1, digest }
    }

    /// Whether this DS record vouches for key `key` of zone `owner`: key tag,
    /// algorithm, digest type and digest all as computed from the key. A
    /// record altered in any of these fields does not validate.
    pub fn validates(&self, owner: &Fqdn, key: &Dnskey) -> (r: bool)
        requires
            owner.wf(),
            key.public_key@.len() <= 65531,
        ensures
            r == ((self.key_tag, self.algorithm, self.digest_type, self.digest@) == ds_of(owner@, *key)),
    {
        let expected = Ds::from_key(owner, key);
        self.key_tag == expected.key_tag && self.algorithm == expected.algorithm
            && self.digest_type == expected.digest_type
            && crate::lex::bytes_equal(self.digest.as_slice(), expected.digest.as_slice())
    }
}

impl Record {
    /// An address record.
    pub fn a(owner: Fqdn, addr: [u8; 4]) -> (r: Record)
        ensures
            r.owner == owner,
            r.data == RecordData::A(addr),
            r.ttl == 86400,
    {
        Record { owner, ttl: 86400, data: RecordData::A(addr) }
    }

    /// The type code of this record.
    pub fn record_type(&self) -> (r: u16)
        ensures
            r == type_of(self.data),
    {
        match &self.data {
            RecordData::A(_) => TYPE_A,
            RecordData::Ns(_) => TYPE_NS,
            RecordData::Ds(_) => TYPE_DS,
            RecordData::Dnskey(_) => TYPE_DNSKEY,
            RecordData::Rrsig(_) => TYPE_RRSIG,
            RecordData::Nsec3(_) => TYPE_NSEC3,
            RecordData::Nsec3Param(_) => TYPE_NSEC3PARAM,
        }
    }

    /// Narrows this record to its NSEC3 payload; `ConversionError` for any
    /// other type.
    pub fn try_into_nsec3(self) -> (r: Result<Nsec3, Error>)
        ensures
            match self.data {
                RecordData::Nsec3(n) => r == Ok::<Nsec3, Error>(n),
                _ => r == Err::<Nsec3, Error>(Error::ConversionError),
            },
    {
        match self.data {
            RecordData::Nsec3(n) => Ok(n),
            _ => Err(Error::ConversionError),
        }
    }

    /// Narrows this record to its DS payload; `ConversionError` for any
    /// other type.
    pub fn try_into_ds(self) -> (r: Result<Ds, Error>)
        ensures
            match self.data {
                RecordData::Ds(d) => r == Ok::<Ds, Error>(d),
                _ => r == Err::<Ds, Error>(Error::ConversionError),
            },
    {
        match self.data {
            RecordData::Ds(d) => Ok(d),
            _ => Err(Error::ConversionError),
        }
    }
}

} // verus!
