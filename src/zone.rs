//! Zones: a mutable record set, its delegations, and signing into an
//! immutable snapshot with DNSKEYs, an NSEC3 chain, NSEC3PARAM and RRSIGs.

use vstd::prelude::*;
use crate::base32::base32hex;
use crate::chain::{build_chain, from_some_name, hashes_distinct, in_chain, name_label, params_of, stands_for, Nsec3Param, OwnedTypes};
use crate::error::Error;
use crate::hash::{iterated_digest, SHA1_ALGORITHM};
use crate::lex::{bytes_equal, copy_bytes};
use crate::name::{labels_ok, lower_label, wire_of, Fqdn};
use crate::nsec3::{folded_from, folded_in, reaches, is_ring, owner_of, same_nsec3, sorted_by_owner, Nsec3, Nsec3Records};
use crate::record::{
    key_tag_of, dnskey_rdata, same_key, type_of, Dnskey, Ds, Record, RecordData, Rrsig, TYPE_DNSKEY, TYPE_NSEC3PARAM,
    TYPE_RRSIG,
};
use crate::wire::{append_bytes, push_u16, push_u32, rdata_wire, record_wire, sort_bytes};

verus! {

/// Parameters of signing.
#[derive(Debug, Clone, PartialEq, Eq)]
pub struct SignSettings {
    pub iterations: u16,
    pub salt: Vec<u8>,
    pub ttl: u32,
    pub inception: u32,
    pub expiration: u32,
}

impl Default for SignSettings {
    /// SHA-1 NSEC3 hashing with one extra iteration and no salt, a one-day
    /// TTL, and signatures valid from 2000 to 2100.
    fn default() -> (r: SignSettings)
        ensures
            r.iterations == 1,
            r.salt@.len() == 0,
            r.ttl == 86400,
    {
        SignSettings { iterations: 1, salt: Vec::new(), ttl: 86400, inception: 946684800, expiration: 4102444800 }
    }
}

/// A key with its private half, as handed to the signing primitive.
#[derive(Debug, Clone, PartialEq, Eq)]
pub struct KeyPair {
    pub public: Dnskey,
    pub private: Vec<u8>,
}

/// The key-signing and zone-signing keys of a zone.
#[derive(Debug, Clone, PartialEq, Eq)]
pub struct KeySet {
    pub ksk: KeyPair,
    pub zsk: KeyPair,
}

/// A key set that signing can use: the key-signing key has the Secure Entry
/// Point bit and the zone-signing key has not.
pub open spec fn keys_usable(k: KeySet) -> bool {
    &&& k.ksk.public.flags % 2 == 1
    &&& k.zsk.public.flags % 2 == 0
}

/// Both keys fit in a DNSKEY record.
pub open spec fn keys_fit(k: KeySet) -> bool {
    &&& k.ksk.public.public_key@.len() <= 65531
    &&& k.zsk.public.public_key@.len() <= 65531
}

/// `name` lies at or below `apex`: the apex's labels end the name's labels,
/// without regard to ASCII case.
pub open spec fn within(name: Seq<Seq<u8>>, apex: Seq<Seq<u8>>) -> bool {
    &&& apex.len() <= name.len()
    &&& forall|k: int| 0 <= k < apex.len() ==> lower_label(#[trigger] name[name.len() - apex.len() + k]) == lower_label(apex[k])
}

/// Every record of `s` lies at or below `apex`.
pub open spec fn all_within(s: Seq<Record>, apex: Seq<Seq<u8>>) -> bool {
    forall|k: int| 0 <= k < s.len() ==> within(#[trigger] s[k].owner@, apex)
}

proof fn lemma_within_self(a: Seq<Seq<u8>>)
    ensures
        within(a, a),
{
}

proof fn lemma_within_child(l: Seq<u8>, a: Seq<Seq<u8>>)
    ensures
        within(seq![l] + a, a),
{
    let n = seq![l] + a;
    assert forall|k: int| 0 <= k < a.len() implies lower_label(#[trigger] n[n.len() - a.len() + k]) == lower_label(a[k]) by {
        assert(n[n.len() - a.len() + k] == a[k]);
    }
}

/// Some record of `sigs` is an RRSIG over the RRset of `x`: same owner in
/// canonical form, covering `x`'s type.
pub open spec fn signed_in(x: Record, sigs: Seq<Record>) -> bool {
    exists|k: int| 0 <= k < sigs.len() && wire_of(sigs[k].owner@, true) == wire_of(x.owner@, true)
        && sigs[k].data is Rrsig && sigs[k].data->Rrsig_0.type_covered == type_of(x.data)
}

/// `x` has the owner of one of `records`.
pub open spec fn owner_from(x: Record, records: Seq<Record>) -> bool {
    exists|i: int| 0 <= i < records.len() && x.owner@ == records[i].owner@
}

fn labels_equal_folded(a: &Vec<u8>, b: &Vec<u8>) -> (r: bool)
    ensures
        r == (lower_label(a@) == lower_label(b@)),
{
    if a.len() != b.len() {
        assert(lower_label(a@).len() != lower_label(b@).len());
        return false;
    }
    let mut i: usize = 0;
    while i < a.len()
        invariant
            i <= a@.len(),
            a@.len() == b@.len(),
            forall|k: int| 0 <= k < i ==> lower_label(a@)[k] == lower_label(b@)[k],
        decreases a@.len() - i,
    {
        let x = a[i];
        let y = b[i];
        let lx: u8 = if 65 <= x && x <= 90 { x + 32 } else { x };
        let ly: u8 = if 65 <= y && y <= 90 { y + 32 } else { y };
        if lx != ly {
            assert(lower_label(a@)[i as int] != lower_label(b@)[i as int]);
            return false;
        }
        i = i + 1;
    }
    assert(lower_label(a@) =~= lower_label(b@));
    true
}

/// Decides `within`.
pub fn is_within(name: &Fqdn, apex: &Fqdn) -> (r: bool)
    ensures
        r == within(name@, apex@),
{
    let n = name.labels.len();
    let m = apex.labels.len();
    if m > n {
        return false;
    }
    let mut k: usize = 0;
    while k < m
        invariant
            m <= n,
            n == name@.len(),
            m == apex@.len(),
            k <= m,
            forall|j: int| 0 <= j < k ==> lower_label(#[trigger] name@[n - m + j]) == lower_label(apex@[j]),
        decreases m - k,
    {
        if !labels_equal_folded(&name.labels[n - m + k], &apex.labels[k]) {
            assert(lower_label(name@[n - m + k]) != lower_label(apex@[k as int]));
            return false;
        }
        k = k + 1;
    }
    true
}

/// A zone under construction: its apex and the records it will serve.
pub struct Zone {
    pub apex: Fqdn,
    pub records: Vec<Record>,
}

/// A signed, read-only zone: its records (as the fault-injection hook left
/// them), the keys it was signed with and its NSEC3 parameters.
pub struct SignedZone {
    pub apex: Fqdn,
    pub records: Vec<Record>,
    pub keys: KeySet,
    pub param: Nsec3Param,
}

impl Zone {
    /// An empty zone at `apex`.
    pub fn new(apex: Fqdn) -> (r: Zone)
        ensures
            r.apex == apex,
            r.records@.len() == 0,
    {
        Zone { apex, records: Vec::new() }
    }

    /// Adds a record.
    pub fn add(&mut self, record: Record)
        ensures
            final(self).apex == old(self).apex,
            final(self).records@ == old(self).records@.push(record),
    {
        self.records.push(record);
    }

    /// Delegates `child` to the name server `ns_name` at `addr`: an NS record
    /// at the child's apex and the glue address record of the server. A
    /// signed zone holds only names at or below its apex, so `ns_name` is
    /// expected to lie in this zone (see `SignedZone::from_records`).
    pub fn referral(&mut self, child: &Fqdn, ns_name: &Fqdn, addr: [u8; 4], ttl: u32)
        ensures
            final(self).apex == old(self).apex,
            final(self).records@.len() == old(self).records@.len() + 2,
            final(self).records@.subrange(0, old(self).records@.len() as int) == old(self).records@,
            ({
                let ns = final(self).records@[old(self).records@.len() as int];
                &&& ns.owner@ == child@
                &&& ns.ttl == ttl
                &&& ns.data matches RecordData::Ns(target) && target@ == ns_name@
            }),
            ({
                let glue = final(self).records@[old(self).records@.len() as int + 1];
                &&& glue.owner@ == ns_name@
                &&& glue.ttl == ttl
                &&& glue.data == RecordData::A(addr)
            }),
    {
        let ghost before = self.records@;
        self.records.push(Record { owner: child.duplicate(), ttl, data: RecordData::Ns(ns_name.duplicate()) });
        self.records.push(Record { owner: ns_name.duplicate(), ttl, data: RecordData::A(addr) });
        assert(self.records@.subrange(0, before.len() as int) =~= before);
    }
}

/// Canonical wire forms of `o` and of each ancestor of it that has at
/// least `m` labels, from `o` itself upwards.
pub open spec fn suffix_wires(o: Seq<Seq<u8>>, m: int) -> Seq<Seq<u8>> {
    Seq::new(
        if o.len() >= m { (o.len() - m + 1) as nat } else { 0 },
        |k: int| wire_of(o.subrange(k, o.len() as int), true),
    )
}

/// `suffix_wires` of every owner of `records`, in order.
pub open spec fn all_suffix_wires(records: Seq<Record>, m: int) -> Seq<Seq<u8>>
    decreases records.len(),
{
    if records.len() == 0 {
        Seq::empty()
    } else {
        all_suffix_wires(records.drop_last(), m) + suffix_wires(records.last().owner@, m)
    }
}

/// The existing names of a zone at `apex` holding `records`, in canonical
/// form: every owner name and every ancestor of it down to the apex depth,
/// so empty non-terminals count. Names that differ only in ASCII case are
/// one name.
pub open spec fn name_set(records: Seq<Record>, apex: Seq<Seq<u8>>) -> Set<Seq<u8>> {
    all_suffix_wires(records, apex.len() as int).to_set()
}

/// The NSEC3 hash label of a name given in canonical wire form.
pub open spec fn wire_hash(w: Seq<u8>, iterations: u16, salt: Seq<u8>) -> Seq<u8> {
    base32hex(iterated_digest(w, salt, iterations as nat))
}

/// No two of the names hash alike.
pub open spec fn hash_apart(names: Set<Seq<u8>>, iterations: u16, salt: Seq<u8>) -> bool {
    forall|a: Seq<u8>, b: Seq<u8>|
        names.contains(a) && names.contains(b) && a != b ==> wire_hash(a, iterations, salt) != wire_hash(b, iterations, salt)
}

spec fn byte_views(v: Seq<Vec<u8>>) -> Seq<Seq<u8>> {
    v.map_values(|b: Vec<u8>| b@)
}

/// Records `name` (wire form `w`) as an existing name, with type `t` when
/// given, unless it is already there, in which case `t` joins its types.
fn note_name(names: &mut Vec<Fqdn>, wires: &mut Vec<Vec<u8>>, types: &mut Vec<Vec<u16>>, name: Fqdn, w: Vec<u8>, t: Option<u16>)
    requires
        old(names)@.len() == old(wires)@.len(),
        old(types)@.len() == old(wires)@.len(),
        forall|k: int| 0 <= k < old(names)@.len() ==> (#[trigger] old(names)@[k]).wf(),
        byte_views(old(wires)@).no_duplicates(),
        forall|k: int| 0 <= k < old(names)@.len() ==> (#[trigger] old(wires)@[k])@ == wire_of(old(names)@[k]@, true),
        name.wf(),
        w@ == wire_of(name@, true),
    ensures
        final(names)@.len() == final(wires)@.len(),
        final(types)@.len() == final(wires)@.len(),
        final(names)@.len() > 0,
        forall|k: int| 0 <= k < final(names)@.len() ==> (#[trigger] final(names)@[k]).wf(),
        byte_views(final(wires)@).no_duplicates(),
        forall|k: int| 0 <= k < final(names)@.len() ==> (#[trigger] final(wires)@[k])@ == wire_of(final(names)@[k]@, true),
        byte_views(final(wires)@).to_set() == byte_views(old(wires)@).to_set().insert(w@),
{
    let ghost ws = byte_views(wires@);
    let mut j: usize = 0;
    while j < wires.len() && !bytes_equal(wires[j].as_slice(), w.as_slice())
        invariant
            j <= wires@.len(),
            forall|k: int| 0 <= k < j ==> wires@[k]@ != w@,
        decreases wires@.len() - j,
    {
        j = j + 1;
    }
    if j == wires.len() {
        names.push(name);
        wires.push(w);
        let mut ts: Vec<u16> = Vec::new();
        match t {
            Some(x) => ts.push(x),
            None => {},
        }
        types.push(ts);
        proof {
            assert(byte_views(wires@) =~= ws.push(w@));
            ws.lemma_push_to_set_commute(w@);
            assert forall|a: int, b: int| 0 <= a < b < byte_views(wires@).len() implies byte_views(wires@)[a] != byte_views(wires@)[b] by {
                if b == ws.len() {
                    assert(ws[a] == wires@[a]@);
                } else {
                    assert(ws[a] != ws[b]);
                }
            }
        }
    } else {
        assert(ws[j as int] == w@);
        assert(ws.to_set().contains(w@));
        assert(ws.to_set().insert(w@) =~= ws.to_set());
        match t {
            Some(x) => {
                let mut ts = types.remove(j);
                let mut present = false;
                let mut k: usize = 0;
                while k < ts.len()
                    invariant
                        k <= ts@.len(),
                    decreases ts@.len() - k,
                {
                    if ts[k] == x {
                        present = true;
                    }
                    k = k + 1;
                }
                if !present {
                    ts.push(x);
                }
                types.insert(j, ts);
            },
            None => {},
        }
    }
}

/// The existing names of the zone at `apex` holding `records` (see
/// `name_set`), each once, with the types present at each. Every name also
/// gets RRSIG, the apex also NSEC3PARAM: signing adds both.
#[verifier::loop_isolation(false)]
fn existing_names(records: &Vec<Record>, apex: &Fqdn) -> (r: Vec<OwnedTypes>)
    requires
        labels_ok(apex@),
        forall|i: int| 0 <= i < records@.len() ==> labels_ok(#[trigger] records@[i].owner@),
    ensures
        forall|k: int| 0 <= k < r@.len() ==> (#[trigger] r@[k]).name.wf(),
        r@.len() == name_set(records@, apex@).len(),
        (exists|i: int| 0 <= i < records@.len() && records@[i].owner@.len() >= apex@.len()) ==> r@.len() > 0,
        forall|k: int| 0 <= k < r@.len() ==> name_set(records@, apex@).contains(wire_of((#[trigger] r@[k]).name@, true)),
        forall|a: int, b: int| 0 <= a < b < r@.len() ==> wire_of(r@[a].name@, true) != wire_of(r@[b].name@, true),
        forall|w: Seq<u8>| #[trigger] name_set(records@, apex@).contains(w) ==> exists|k: int| 0 <= k < r@.len() && wire_of(r@[k].name@, true) == w,
{
    let m = apex.labels.len();
    let ghost mi = m as int;
    let mut names: Vec<Fqdn> = Vec::new();
    let mut wires: Vec<Vec<u8>> = Vec::new();
    let mut types: Vec<Vec<u16>> = Vec::new();
    let mut i: usize = 0;
    assert(all_suffix_wires(records@.subrange(0, 0), mi) =~= Seq::<Seq<u8>>::empty());
    assert(byte_views(wires@) =~= Seq::<Seq<u8>>::empty());
    while i < records.len()
        invariant
            i <= records@.len(),
            m == apex@.len(),
            names@.len() == wires@.len(),
            types@.len() == wires@.len(),
            forall|k: int| 0 <= k < names@.len() ==> (#[trigger] names@[k]).wf(),
            byte_views(wires@).no_duplicates(),
            byte_views(wires@).to_set() == all_suffix_wires(records@.subrange(0, i as int), mi).to_set(),
            forall|k: int| 0 <= k < names@.len() ==> (#[trigger] wires@[k])@ == wire_of(names@[k]@, true),
            (exists|j: int| 0 <= j < i && records@[j].owner@.len() >= apex@.len()) ==> names@.len() > 0,
        decreases records@.len() - i,
    {
        let rec = &records[i];
        let t = rec.record_type();
        let ghost o = rec.owner@;
        let ghost sw = suffix_wires(o, mi);
        let ghost before = all_suffix_wires(records@.subrange(0, i as int), mi);
        assert(records@.subrange(0, i + 1).drop_last() =~= records@.subrange(0, i as int));
        assert(all_suffix_wires(records@.subrange(0, i + 1), mi) == before + sw);
        let n = rec.owner.labels.len();
        assert(before + sw.subrange(0, 0) =~= before);
        if n >= m {
            let mut k: usize = 0;
            let mut more = true;
            let ghost mut p: int = 0;
            while more
                invariant
                    more ==> p == k && k <= n - m,
                    !more ==> p == n - m + 1,
                    n == o.len(),
                    n >= m,
                    0 <= p <= n - m + 1,
                    names@.len() == wires@.len(),
                    types@.len() == wires@.len(),
                    forall|k: int| 0 <= k < names@.len() ==> (#[trigger] names@[k]).wf(),
                    byte_views(wires@).no_duplicates(),
                    byte_views(wires@).to_set() == (before + sw.subrange(0, p)).to_set(),
                    forall|k: int| 0 <= k < names@.len() ==> (#[trigger] wires@[k])@ == wire_of(names@[k]@, true),
                    p > 0 ==> names@.len() > 0,
                decreases n - m + 1 - p,
            {
                let anc = rec.owner.suffix(k);
                let w = anc.canonical_wire();
                let tt = if k == 0 { Some(t) } else { None };
                proof {
                    assert(records@[i as int].owner@ == o);
                    assert(labels_ok(o));
                    assert(sw[k as int] == w@);
                    assert(before + sw.subrange(0, k + 1) =~= (before + sw.subrange(0, k as int)).push(w@));
                    (before + sw.subrange(0, k as int)).lemma_push_to_set_commute(w@);
                }
                note_name(&mut names, &mut wires, &mut types, anc, w, tt);
                proof { p = p + 1; }
                if k == n - m {
                    more = false;
                } else {
                    k = k + 1;
                }
            }
            assert(sw.subrange(0, p) =~= sw);
        } else {
            assert(sw =~= Seq::<Seq<u8>>::empty());
            assert(before + sw =~= before);
        }
        i = i + 1;
    }
    assert(records@.subrange(0, i as int) =~= records@);
    proof {
        byte_views(wires@).unique_seq_to_set();
    }
    let n = names.len();
    let ghost nm0 = names@;
    let ghost ws0 = byte_views(wires@);
    assert forall|k: int| 0 <= k < n implies ws0[k] == wire_of(nm0[k]@, true) && name_set(records@, apex@).contains(ws0[k]) by {
        assert(ws0.contains(ws0[k]));
    }
    let apex_wire = apex.canonical_wire();
    let mut out: Vec<OwnedTypes> = Vec::new();
    while names.len() > 0
        invariant
            names@.len() == wires@.len(),
            types@.len() == wires@.len(),
            out@.len() + names@.len() == n,
            names@ == nm0.subrange(out@.len() as int, n as int),
            forall|k: int| 0 <= k < out@.len() ==> (#[trigger] out@[k]).name == nm0[k],
            forall|k: int| 0 <= k < names@.len() ==> (#[trigger] names@[k]).wf(),
            forall|k: int| 0 <= k < out@.len() ==> (#[trigger] out@[k]).name.wf(),
        decreases names@.len(),
    {
        let ghost done = out@.len() as int;
        let name = names.remove(0);
        assert(name == nm0[done]);
        assert(names@ =~= nm0.subrange(done + 1, n as int));
        let w = wires.remove(0);
        let mut ts = types.remove(0);
        ts.push(TYPE_RRSIG);
        if bytes_equal(w.as_slice(), apex_wire.as_slice()) {
            ts.push(TYPE_NSEC3PARAM);
        }
        out.push(OwnedTypes { name, types: ts });
    }
    assert forall|a: int, b: int| 0 <= a < b < out@.len() implies wire_of(out@[a].name@, true) != wire_of(out@[b].name@, true) by {
        assert(ws0[a] != ws0[b]);
    }
    assert forall|k: int| 0 <= k < out@.len() implies name_set(records@, apex@).contains(wire_of((#[trigger] out@[k]).name@, true)) by {
        assert(out@[k].name == nm0[k]);
        assert(ws0[k] == wire_of(nm0[k]@, true) && name_set(records@, apex@).contains(ws0[k]));
    }
    assert forall|w: Seq<u8>| #[trigger] name_set(records@, apex@).contains(w) implies exists|k: int| 0 <= k < out@.len() && wire_of(out@[k].name@, true) == w by {
        assert(ws0.to_set().contains(w));
        let k = choose|k: int| 0 <= k < ws0.len() && ws0[k] == w;
        assert(out@[k].name == nm0[k]);
    }
    out
}

/// The owner name of a chain record: its hash label under the zone apex.
fn chain_owner(rec: &Nsec3) -> (r: Fqdn)
    ensures
        r@ == seq![rec.hashed_owner@] + rec.zone@,
{
    let mut labels: Vec<Vec<u8>> = Vec::new();
    labels.push(copy_bytes(rec.hashed_owner.as_slice()));
    let z = rec.zone.duplicate();
    let mut rest = z.labels;
    let ghost zl = rest@;
    let ghost mut i: int = 0;
    while rest.len() > 0
        invariant
            labels@.len() == 1 + i,
            labels@[0]@ == rec.hashed_owner@,
            0 <= i <= zl.len(),
            i + rest@.len() == zl.len(),
            rest@ == zl.subrange(i, zl.len() as int),
            forall|k: int| 0 <= k < i ==> (#[trigger] labels@[k + 1])@ == zl[k]@,
        decreases rest@.len(),
    {
        let l = rest.remove(0);
        labels.push(l);
        proof {
            assert(rest@ =~= zl.subrange(i + 1, zl.len() as int));
            i = i + 1;
        }
    }
    let r = Fqdn { labels };
    assert(z@ == rec.zone@);
    assert forall|k: int| 0 <= k < zl.len() implies r@[k + 1] == z@[k] by {
        assert(labels@[k + 1]@ == zl[k]@);
    }
    assert(r@ =~= seq![rec.hashed_owner@] + rec.zone@);
    r
}

/// The key that signs an RRset of type `t`: the key-signing key for the
/// DNSKEY set, the zone-signing key for everything else.
pub open spec fn signing_key(keys: KeySet, t: u16) -> KeyPair {
    if t == TYPE_DNSKEY {
        keys.ksk
    } else {
        keys.zsk
    }
}

/// The RRSIG label count of an owner name: its labels, not counting a
/// leading wildcard label `*` (RFC 4034, section 3.1.3).
fn signature_labels(owner: &Fqdn) -> (r: u8)
    ensures
        r == (if owner@.len() > 0 && owner@[0] == seq![42u8] { owner@.len() - 1 } else { owner@.len() as int }) as u8,
{
    let n = owner.labels.len();
    if n > 0 && owner.labels[0].len() == 1 && owner.labels[0][0] == 42u8 {
        assert(owner@[0] =~= seq![42u8]);
        (n - 1) as u8
    } else {
        assert(n > 0 ==> owner@[0] != seq![42u8] || owner@[0].len() == 1);
        n as u8
    }
}

/// RRSIG data before the signature, in wire form.
fn rrsig_prefix(s: &Rrsig) -> (r: Vec<u8>) {
    let mut out: Vec<u8> = Vec::new();
    push_u16(&mut out, s.type_covered);
    out.push(s.algorithm);
    out.push(s.labels);
    push_u32(&mut out, s.original_ttl);
    push_u32(&mut out, s.expiration);
    push_u32(&mut out, s.inception);
    push_u16(&mut out, s.key_tag);
    let w = s.signer.canonical_wire();
    append_bytes(&mut out, w.as_slice());
    out
}

/// One RRSIG per RRset of `records` (RRSIGs themselves excepted). The bytes
/// signed are the RRSIG data without signature followed by the RRset's
/// records in canonical form and order; `sign` is called once per RRset,
/// with the key that `signing_key` selects.
#[verifier::loop_isolation(false)]
fn sign_rrsets<S: Fn(&[u8], &KeyPair) -> Vec<u8>>(
    records: &Vec<Record>,
    apex: &Fqdn,
    keys: &KeySet,
    settings: &SignSettings,
    sign: &S,
) -> (r: Vec<Record>)
    requires
        keys_fit(*keys),
        forall|b: &[u8], k: &KeyPair| #[trigger] sign.requires((b, k)),
    ensures
        forall|i: int| 0 <= i < records@.len() && type_of(#[trigger] records@[i].data) != TYPE_RRSIG ==> signed_in(records@[i], r@),
        forall|k: int| 0 <= k < r@.len() ==> owner_from(#[trigger] r@[k], records@),
        forall|k: int| 0 <= k < r@.len() ==> {
            &&& (#[trigger] r@[k]).data is Rrsig
            &&& r@[k].data->Rrsig_0.type_covered != TYPE_RRSIG
            &&& r@[k].data->Rrsig_0.signer@ == apex@
            &&& r@[k].data->Rrsig_0.key_tag == key_tag_of(dnskey_rdata(signing_key(*keys, r@[k].data->Rrsig_0.type_covered).public))
        },
{
    let ksk_tag = keys.ksk.public.calculate_key_tag();
    let zsk_tag = keys.zsk.public.calculate_key_tag();
    let mut seen: Vec<(Vec<u8>, u16)> = Vec::new();
    let mut out: Vec<Record> = Vec::new();
    let n = records.len();
    let mut i: usize = 0;
    while i < n
        invariant
            n == records@.len(),
            i <= n,
            ksk_tag == key_tag_of(dnskey_rdata(keys.ksk.public)),
            zsk_tag == key_tag_of(dnskey_rdata(keys.zsk.public)),
            forall|b: &[u8], k: &KeyPair| #[trigger] sign.requires((b, k)),
            forall|j: int| 0 <= j < i && type_of(#[trigger] records@[j].data) != TYPE_RRSIG ==> signed_in(records@[j], out@),
            forall|m: int| 0 <= m < seen@.len() ==> exists|k: int| 0 <= k < out@.len() && wire_of(out@[k].owner@, true) == (#[trigger] seen@[m]).0@
                && out@[k].data is Rrsig && out@[k].data->Rrsig_0.type_covered == seen@[m].1,
            forall|k: int| 0 <= k < out@.len() ==> owner_from(#[trigger] out@[k], records@),
            forall|k: int| 0 <= k < out@.len() ==> {
                &&& (#[trigger] out@[k]).data is Rrsig
                &&& out@[k].data->Rrsig_0.type_covered != TYPE_RRSIG
                &&& out@[k].data->Rrsig_0.signer@ == apex@
                &&& out@[k].data->Rrsig_0.key_tag == key_tag_of(dnskey_rdata(signing_key(*keys, out@[k].data->Rrsig_0.type_covered).public))
            },
        decreases n - i,
    {
        let t = records[i].record_type();
        let w = records[i].owner.canonical_wire();
        let mut done = t == TYPE_RRSIG;
        let mut j: usize = 0;
        while j < seen.len()
            invariant
                j <= seen@.len(),
                t == TYPE_RRSIG ==> done,
                done ==> t == TYPE_RRSIG || exists|m: int| 0 <= m < j && seen@[m].0@ == w@ && seen@[m].1 == t,
            decreases seen@.len() - j,
        {
            if seen[j].1 == t && bytes_equal(seen[j].0.as_slice(), w.as_slice()) {
                done = true;
            }
            j = j + 1;
        }
        if !done {
            // Every record of this RRset, by its data in canonical form.
            let mut rdatas: Vec<Vec<u8>> = Vec::new();
            let mut j: usize = i;
            while j < n
                invariant
                    n == records@.len(),
                    i <= j <= n,
                decreases n - j,
            {
                if records[j].record_type() == t {
                    let wj = records[j].owner.canonical_wire();
                    if bytes_equal(wj.as_slice(), w.as_slice()) {
                        rdatas.push(rdata_wire(&records[j].data));
                    }
                }
                j = j + 1;
            }
            let rdatas = sort_bytes(rdatas);
            let key = if t == TYPE_DNSKEY { &keys.ksk } else { &keys.zsk };
            let tag = if t == TYPE_DNSKEY { ksk_tag } else { zsk_tag };
            let ttl = records[i].ttl;
            let mut rrsig = Rrsig {
                type_covered: t,
                algorithm: key.public.algorithm,
                labels: signature_labels(&records[i].owner),
                original_ttl: ttl,
                expiration: settings.expiration,
                inception: settings.inception,
                key_tag: tag,
                signer: apex.duplicate(),
                signature: Vec::new(),
            };
            let mut input = rrsig_prefix(&rrsig);
            let mut k: usize = 0;
            while k < rdatas.len()
                invariant
                    k <= rdatas@.len(),
                decreases rdatas@.len() - k,
            {
                let rr = record_wire(w.as_slice(), t, ttl, rdatas[k].as_slice());
                append_bytes(&mut input, rr.as_slice());
                k = k + 1;
            }
            rrsig.signature = sign(input.as_slice(), key);
            let owner = records[i].owner.duplicate();
            assert(owner@ == records@[i as int].owner@);
            let ghost out_before = out@;
            out.push(Record { owner, ttl, data: RecordData::Rrsig(rrsig) });
            assert forall|j: int| 0 <= j <= i && type_of(#[trigger] records@[j].data) != TYPE_RRSIG implies signed_in(records@[j], out@) by {
                if j < i {
                    let k = choose|k: int| 0 <= k < out_before.len() && wire_of(out_before[k].owner@, true) == wire_of(records@[j].owner@, true)
                        && out_before[k].data is Rrsig && out_before[k].data->Rrsig_0.type_covered == type_of(records@[j].data);
                    assert(out@[k] == out_before[k]);
                } else {
                    assert(out@[out_before.len() as int].owner@ == records@[j].owner@);
                }
            }
            let ghost seen_before = seen@;
            seen.push((w, t));
            assert forall|m: int| 0 <= m < seen@.len() implies exists|k: int| 0 <= k < out@.len() && wire_of(out@[k].owner@, true) == (#[trigger] seen@[m]).0@
                && out@[k].data is Rrsig && out@[k].data->Rrsig_0.type_covered == seen@[m].1 by {
                if m < seen_before.len() {
                    assert(seen@[m] == seen_before[m]);
                    let k = choose|k: int| 0 <= k < out_before.len() && wire_of(out_before[k].owner@, true) == seen_before[m].0@
                        && out_before[k].data is Rrsig && out_before[k].data->Rrsig_0.type_covered == seen_before[m].1;
                    assert(out@[k] == out_before[k]);
                } else {
                    assert(out@[out_before.len() as int].owner@ == records@[i as int].owner@);
                }
            }
        } else {
            proof {
                if t != TYPE_RRSIG {
                    let m = choose|m: int| 0 <= m < seen@.len() && seen@[m].0@ == w@ && seen@[m].1 == t;
                    assert(seen@[m].0@ == w@);
                    assert(signed_in(records@[i as int], out@));
                }
            }
        }
        i = i + 1;
    }
    out
}

impl Zone {
    /// Signs this zone with `keys`: adds the two DNSKEY records at the apex,
    /// the NSEC3 chain over the zone's names, the NSEC3PARAM record, and one
    /// RRSIG per RRset. Fails with `MissingKey` exactly when the key set has
    /// no key-signing key (Secure Entry Point bit) or its zone-signing key
    /// carries that bit.
    ///
    /// On success the records start with the zone's own records and the two
    /// DNSKEYs; every RRSIG after them is made with the key that
    /// `signing_key` selects; and the NSEC3 records after them number
    /// exactly the existing names of those first records, ordered by owner
    /// hash and circular (`chain_shape`), and a complete ring whenever those
    /// names hash apart.
    #[verifier::loop_isolation(false)]
    #[verifier::rlimit(100)]
    #[verifier::spinoff_prover]
    pub fn signed_records<S: Fn(&[u8], &KeyPair) -> Vec<u8>>(
        self,
        keys: &KeySet,
        settings: &SignSettings,
        sign: &S,
    ) -> (r: Result<Vec<Record>, Error>)
        requires
            labels_ok(self.apex@),
            forall|i: int| 0 <= i < self.records@.len() ==> labels_ok(#[trigger] self.records@[i].owner@),
            keys_fit(*keys),
            settings.salt@.len() <= 255,
            forall|b: &[u8], k: &KeyPair| #[trigger] sign.requires((b, k)),
        ensures
            r is Err <==> !keys_usable(*keys),
            r is Err ==> r == Err::<Vec<Record>, Error>(Error::MissingKey),
            r matches Ok(v) ==> signed_shape(self.records@, self.apex@, *keys, *settings, v@),
    {
        if !keys.ksk.public.is_key_signing_key() || keys.zsk.public.is_key_signing_key() {
            return Err(Error::MissingKey);
        }
        let ghost own = self.records@;
        let apex = self.apex;
        let mut records = self.records;
        records.push(Record { owner: apex.duplicate(), ttl: settings.ttl, data: RecordData::Dnskey(keys.ksk.public.clone_key()) });
        records.push(Record { owner: apex.duplicate(), ttl: settings.ttl, data: RecordData::Dnskey(keys.zsk.public.clone_key()) });
        assert(records@.subrange(0, own.len() as int) =~= own);
        let ghost n0 = own.len() as int;
        let ghost head = records@;
        assert(head.len() == n0 + 2);
        assert(head[n0].data matches RecordData::Dnskey(k) && same_key(k, keys.ksk.public));
        assert(head[n0 + 1].data matches RecordData::Dnskey(k) && same_key(k, keys.zsk.public));
        assert(records@[n0].owner@ == apex@);
        assert(exists|i: int| 0 <= i < records@.len() && records@[i].owner@.len() >= apex@.len());
        let names = existing_names(&records, &apex);
        proof {
            if hash_apart(name_set(head, apex@), settings.iterations, settings.salt@) {
                assert forall|a: int, b: int| 0 <= a < names@.len() && 0 <= b < names@.len() && a != b implies
                    name_label(names@, a, settings.iterations, settings.salt@) != name_label(names@, b, settings.iterations, settings.salt@) by {
                    assert(name_set(head, apex@).contains(wire_of(names@[a].name@, true)));
                    assert(name_set(head, apex@).contains(wire_of(names@[b].name@, true)));
                    if a < b {
                        assert(wire_of(names@[a].name@, true) != wire_of(names@[b].name@, true));
                    } else {
                        assert(wire_of(names@[b].name@, true) != wire_of(names@[a].name@, true));
                    }
                }
                assert(hashes_distinct(names@, settings.iterations, settings.salt@));
            }
        }
        let ghost ns = names@;
        let chain = build_chain(&apex, names, settings.iterations, &settings.salt, settings.ttl);
        let ghost ch = chain@;
        proof {
            let it = settings.iterations;
            let sa = settings.salt@;
            assert forall|i: int| 0 <= i < ch.len() implies hashes_some_name(#[trigger] ch[i], name_set(head, apex@), it, sa) by {
                assert(from_some_name(ch[i], ns, it, sa));
                let k = choose|k: int| stands_for(ch[i], ns, k, it, sa);
                assert(name_set(head, apex@).contains(wire_of(ns[k].name@, true)));
            }
            assert forall|w: Seq<u8>| #[trigger] name_set(head, apex@).contains(w) implies hashed_in(ch, w, it, sa) by {
                let k = choose|k: int| 0 <= k < ns.len() && wire_of(ns[k].name@, true) == w;
                assert(in_chain(ch, ns, k, it, sa));
            }
        }
        assert(chain_shape(ch, apex@, *settings));
        let mut chain_rest = chain;
        assert(records@.subrange(n0 + 2, records@.len() as int) =~= Seq::<Record>::empty());
        assert(ch.subrange(0, 0) =~= Seq::<Nsec3>::empty());
        assert(ch.subrange(0, ch.len() as int) =~= ch);
        while chain_rest.len() > 0
            invariant
                records@.len() >= n0 + 2,
                records@.subrange(0, n0 + 2) == head,
                forall|k: int| n0 + 2 <= k < records@.len() ==> !((#[trigger] records@[k]).data is Rrsig),
                chain_rest@.len() <= ch.len(),
                all_within(own, apex@) ==> all_within(records@, apex@),
                chain_rest@ == ch.subrange(ch.len() - chain_rest@.len(), ch.len() as int),
                nsec3_payloads(records@.subrange(n0 + 2, records@.len() as int)) == ch.subrange(0, ch.len() - chain_rest@.len()),
            decreases chain_rest@.len(),
        {
            let ghost k = ch.len() - chain_rest@.len();
            let rec = chain_rest.remove(0);
            assert(rec == ch[k]);
            let owner = chain_owner(&rec);
            proof {
                assert(params_of(ch[k], apex@, settings.iterations, settings.salt@, settings.ttl));
                lemma_within_child(rec.hashed_owner@, apex@);
            }
            let ghost before = records@;
            records.push(Record { owner, ttl: settings.ttl, data: RecordData::Nsec3(rec) });
            assert(records@.subrange(0, n0 + 2) =~= before.subrange(0, n0 + 2));
            assert(records@.subrange(n0 + 2, records@.len() as int).drop_last() =~= before.subrange(n0 + 2, before.len() as int));
            assert(ch.subrange(0, k + 1) =~= ch.subrange(0, k).push(ch[k]));
            assert(chain_rest@ =~= ch.subrange(k + 1, ch.len() as int));
        }
        assert(ch.subrange(0, ch.len() as int) =~= ch);
        let param = Nsec3Param {
            hash_algorithm: SHA1_ALGORITHM,
            flags: 0,
            iterations: settings.iterations,
            salt: copy_bytes(settings.salt.as_slice()),
        };
        let ghost before = records@;
        let ghost pi = records@.len() as int;
        records.push(Record { owner: apex.duplicate(), ttl: settings.ttl, data: RecordData::Nsec3Param(param) });
        let ghost prec = records@[pi];
        assert(param_record(prec, apex@, *settings));
        assert(records@.subrange(0, n0 + 2) =~= before.subrange(0, n0 + 2));
        assert(records@.subrange(n0 + 2, records@.len() as int).drop_last() =~= before.subrange(n0 + 2, before.len() as int));
        proof { lemma_within_self(apex@); }
        let ghost at_sign = records@;
        assert(all_within(own, apex@) ==> all_within(at_sign, apex@));
        let sigs = sign_rrsets(&records, &apex, keys, settings, sign);
        let mut sig_rest = sigs;
        while sig_rest.len() > 0
            invariant
                records@.len() >= n0 + 2,
                records@.subrange(0, n0 + 2) == head,
                forall|k: int| n0 + 2 <= k < records@.len() && (#[trigger] records@[k]).data is Rrsig ==>
                    records@[k].data->Rrsig_0.key_tag == key_tag_of(dnskey_rdata(signing_key(*keys, records@[k].data->Rrsig_0.type_covered).public)),
                nsec3_payloads(records@.subrange(n0 + 2, records@.len() as int)) == ch,
                n0 + 2 <= pi < records@.len(),
                records@[pi] == prec,
                all_within(own, apex@) ==> all_within(records@, apex@),
                forall|k: int| 0 <= k < sig_rest@.len() ==> owner_from(#[trigger] sig_rest@[k], at_sign),
                forall|k: int| 0 <= k < sig_rest@.len() ==> {
                    &&& (#[trigger] sig_rest@[k]).data is Rrsig
                    &&& sig_rest@[k].data->Rrsig_0.key_tag == key_tag_of(dnskey_rdata(signing_key(*keys, sig_rest@[k].data->Rrsig_0.type_covered).public))
                },
            decreases sig_rest@.len(),
        {
            let s = sig_rest.remove(0);
            proof {
                if all_within(own, apex@) {
                    assert(owner_from(s, at_sign));
                    let i = choose|i: int| 0 <= i < at_sign.len() && s.owner@ == at_sign[i].owner@;
                    assert(within(at_sign[i].owner@, apex@));
                }
            }
            let ghost before = records@;
            records.push(s);
            assert(records@.subrange(0, n0 + 2) =~= before.subrange(0, n0 + 2));
            assert(records@.subrange(n0 + 2, records@.len() as int).drop_last() =~= before.subrange(n0 + 2, before.len() as int));
        }
        assert(records@.subrange(0, n0 + 2)[n0] == records@[n0]);
        assert(records@.subrange(0, n0 + 2)[n0 + 1] == records@[n0 + 1]);
        assert(records@.subrange(0, n0) =~= head.subrange(0, n0));
        assert(head.subrange(0, n0) =~= own);
        Ok(records)
    }
}

/// The NSEC3 payloads among `records`, in order.
pub open spec fn nsec3_payloads(records: Seq<Record>) -> Seq<Nsec3>
    decreases records.len(),
{
    if records.len() == 0 {
        Seq::empty()
    } else {
        let rest = nsec3_payloads(records.drop_last());
        match records.last().data {
            RecordData::Nsec3(n) => rest.push(n),
            _ => rest,
        }
    }
}

/// The NSEC3 records among `records` (say, a response's authority
/// section), in order; the others are dropped.
pub fn nsec3_only(records: Vec<Record>) -> (r: Vec<Nsec3>)
    ensures
        r@ == nsec3_payloads(records@),
{
    let ghost all = records@;
    let mut rest = records;
    let mut out: Vec<Nsec3> = Vec::new();
    let ghost mut i: int = 0;
    assert(all.subrange(0, 0) =~= Seq::<Record>::empty());
    assert(all.subrange(0, all.len() as int) =~= all);
    while rest.len() > 0
        invariant
            0 <= i <= all.len(),
            rest@ == all.subrange(i, all.len() as int),
            out@ == nsec3_payloads(all.subrange(0, i)),
        decreases rest@.len(),
    {
        let rec = rest.remove(0);
        proof {
            assert(rec == all[i]);
            assert(all.subrange(0, i + 1).drop_last() =~= all.subrange(0, i));
            assert(rest@ =~= all.subrange(i + 1, all.len() as int));
        }
        match rec.data {
            RecordData::Nsec3(n) => out.push(n),
            _ => {},
        }
        proof { i = i + 1; }
    }
    assert(all.subrange(0, i) =~= all);
    out
}

/// What signing makes of a zone's NSEC3 records: at least one (the apex
/// always exists), ordered by owner hash, each pointing at the owner of the
/// next and the last at the first, all with the zone's NSEC3 parameters.
pub open spec fn chain_shape(c: Seq<Nsec3>, apex: Seq<Seq<u8>>, settings: SignSettings) -> bool {
    &&& c.len() > 0
    &&& sorted_by_owner(c)
    &&& forall|i: int| 0 <= i < c.len() ==> #[trigger] c[i].next_hashed_owner@ == owner_of(c, (i + 1) % (c.len() as int))
    &&& forall|i: int| 0 <= i < c.len() ==> params_of(#[trigger] c[i], apex, settings.iterations, settings.salt@, settings.ttl)
}

/// `x`'s owner is the hash of one of `names`.
pub open spec fn hashes_some_name(x: Nsec3, names: Set<Seq<u8>>, iterations: u16, salt: Seq<u8>) -> bool {
    exists|w: Seq<u8>| names.contains(w) && x.hashed_owner@ == wire_hash(w, iterations, salt)
}

/// Some record of `c` is owned by the hash of the name `w`.
pub open spec fn hashed_in(c: Seq<Nsec3>, w: Seq<u8>, iterations: u16, salt: Seq<u8>) -> bool {
    exists|i: int| 0 <= i < c.len() && c[i].hashed_owner@ == wire_hash(w, iterations, salt)
}

/// What signing `own`, the records of the zone at `apex`, with `keys` and
/// `settings` gives, before any fault injection:
/// - the zone's own records, then the key-signing and zone-signing DNSKEYs
///   at the apex;
/// - every RRSIG after them made with the key that `signing_key` selects;
/// - after them, the NSEC3PARAM record of the apex (`param_record`);
/// - when the zone's own records lie in the zone, every record does;
/// - the NSEC3 records after them: one per existing name of the zone (its
///   owner names and their ancestors down to the apex, empty non-terminals
///   included), each owned by the hash of a name and every name's hash
///   owning one, ordered and circular (`chain_shape`), and a complete ring
///   whenever the names hash apart.
pub open spec fn signed_shape(own: Seq<Record>, apex: Seq<Seq<u8>>, keys: KeySet, settings: SignSettings, v: Seq<Record>) -> bool {
    let n0 = own.len() as int;
    let c = nsec3_payloads(v.subrange(n0 + 2, v.len() as int));
    let names = name_set(v.subrange(0, n0 + 2), apex);
    &&& v.len() >= n0 + 2
    &&& v.subrange(0, n0) == own
    &&& v[n0].data matches RecordData::Dnskey(k) && same_key(k, keys.ksk.public)
    &&& v[n0 + 1].data matches RecordData::Dnskey(k) && same_key(k, keys.zsk.public)
    &&& v[n0].owner@ == apex
    &&& v[n0 + 1].owner@ == apex
    &&& forall|k: int| n0 + 2 <= k < v.len() && (#[trigger] v[k]).data is Rrsig ==>
            v[k].data->Rrsig_0.key_tag == key_tag_of(dnskey_rdata(signing_key(keys, v[k].data->Rrsig_0.type_covered).public))
    &&& chain_shape(c, apex, settings)
    &&& c.len() == names.len()
    &&& forall|i: int| 0 <= i < c.len() ==> hashes_some_name(#[trigger] c[i], names, settings.iterations, settings.salt@)
    &&& forall|w: Seq<u8>| #[trigger] names.contains(w) ==> hashed_in(c, w, settings.iterations, settings.salt@)
    &&& hash_apart(names, settings.iterations, settings.salt@) ==> is_ring(c)
    &&& exists|k: int| n0 + 2 <= k < v.len() && param_record(#[trigger] v[k], apex, settings)
    &&& all_within(own, apex) ==> all_within(v, apex)
}

/// The NSEC3PARAM record of a zone at `apex` signed with `settings`.
pub open spec fn param_record(r: Record, apex: Seq<Seq<u8>>, settings: SignSettings) -> bool {
    &&& r.owner@ == apex
    &&& r.data matches RecordData::Nsec3Param(q) && q.hash_algorithm == SHA1_ALGORITHM && q.flags == 0
        && q.iterations == settings.iterations && q.salt@ == settings.salt@
}

/// Two key sets with the same contents.
pub open spec fn same_keys(a: KeySet, b: KeySet) -> bool {
    &&& same_key(a.ksk.public, b.ksk.public)
    &&& a.ksk.private@ == b.ksk.private@
    &&& same_key(a.zsk.public, b.zsk.public)
    &&& a.zsk.private@ == b.zsk.private@
}

fn keys_equal(a: &Dnskey, b: &Dnskey) -> (r: bool)
    ensures
        r == same_key(*a, *b),
{
    a.flags == b.flags && a.protocol == b.protocol && a.algorithm == b.algorithm
        && bytes_equal(a.public_key.as_slice(), b.public_key.as_slice())
}

/// The keys a validating resolver starts from: an ordered set of public
/// keys, in the order they were first added.
pub struct TrustAnchor {
    pub keys: Vec<Dnskey>,
}

impl TrustAnchor {
    pub fn empty() -> (r: TrustAnchor)
        ensures
            r.keys@.len() == 0,
    {
        TrustAnchor { keys: Vec::new() }
    }

    /// Adds `key` unless a key with the same contents is already there.
    pub fn add(&mut self, key: Dnskey)
        ensures
            (exists|i: int| 0 <= i < old(self).keys@.len() && same_key(old(self).keys@[i], key))
                ==> final(self).keys@ == old(self).keys@,
            !(exists|i: int| 0 <= i < old(self).keys@.len() && same_key(old(self).keys@[i], key))
                ==> final(self).keys@ == old(self).keys@.push(key),
    {
        let mut i: usize = 0;
        while i < self.keys.len()
            invariant
                i <= self.keys@.len(),
                self.keys@ == old(self).keys@,
                forall|k: int| 0 <= k < i ==> !same_key(#[trigger] self.keys@[k], key),
            decreases self.keys@.len() - i,
        {
            if keys_equal(&self.keys[i], &key) {
                return;
            }
            i = i + 1;
        }
        self.keys.push(key);
    }

    pub fn len(&self) -> (r: usize)
        ensures
            r == self.keys@.len(),
    {
        self.keys.len()
    }
}

impl SignedZone {
    /// Freezes signed records into a snapshot. Fails with `InvalidMutation`
    /// exactly when some record's owner lies outside the zone.
    pub fn from_records(apex: Fqdn, keys: KeySet, param: Nsec3Param, records: Vec<Record>) -> (r: Result<SignedZone, Error>)
        ensures
            r is Ok <==> forall|i: int| 0 <= i < records@.len() ==> within(#[trigger] records@[i].owner@, apex@),
            r is Err ==> r == Err::<SignedZone, Error>(Error::InvalidMutation),
            r matches Ok(z) ==> z.apex == apex && z.keys == keys && z.param == param && z.records == records,
    {
        let mut i: usize = 0;
        while i < records.len()
            invariant
                i <= records@.len(),
                forall|k: int| 0 <= k < i ==> within(#[trigger] records@[k].owner@, apex@),
            decreases records@.len() - i,
        {
            if !is_within(&records[i].owner, &apex) {
                return Err(Error::InvalidMutation);
            }
            i = i + 1;
        }
        Ok(SignedZone { apex, records, keys, param })
    }

    /// The proof index over this zone's NSEC3 records.
    pub fn nsec3_records(&self) -> (r: Nsec3Records)
        ensures
            r.wf(),
            r.records@.len() == nsec3_payloads(self.records@).len(),
            forall|i: int| 0 <= i < r.records@.len() ==> folded_in(#[trigger] r.records@[i], nsec3_payloads(self.records@)),
            forall|j: int| 0 <= j < nsec3_payloads(self.records@).len() ==> reaches(r.records@, #[trigger] nsec3_payloads(self.records@)[j]),
    {
        let mut found: Vec<Nsec3> = Vec::new();
        let mut i: usize = 0;
        while i < self.records.len()
            invariant
                i <= self.records@.len(),
                found@.len() == nsec3_payloads(self.records@.subrange(0, i as int)).len(),
                forall|k: int| 0 <= k < found@.len() ==> same_nsec3(#[trigger] found@[k], nsec3_payloads(self.records@.subrange(0, i as int))[k]),
            decreases self.records@.len() - i,
        {
            assert(self.records@.subrange(0, i + 1).drop_last() =~= self.records@.subrange(0, i as int));
            match &self.records[i].data {
                RecordData::Nsec3(n) => {
                    found.push(n.duplicate());
                },
                _ => {},
            }
            i = i + 1;
        }
        assert(self.records@.subrange(0, i as int) =~= self.records@);
        let ghost f = found@;
        let ghost pl = nsec3_payloads(self.records@);
        let r = Nsec3Records::new(found);
        proof {
            assert forall|i: int| 0 <= i < r.records@.len() implies folded_in(#[trigger] r.records@[i], pl) by {
                assert(folded_in(r.records@[i], f));
                let j = choose|j: int| 0 <= j < f.len() && folded_from(r.records@[i], f[j]);
                assert(same_nsec3(f[j], pl[j]));
                assert(folded_from(r.records@[i], pl[j]));
            }
            assert forall|j: int| 0 <= j < pl.len() implies reaches(r.records@, #[trigger] pl[j]) by {
                assert(reaches(r.records@, f[j]));
                let i = choose|i: int| 0 <= i < r.records@.len() && folded_from(r.records@[i], f[j]);
                assert(same_nsec3(f[j], pl[j]));
                assert(folded_from(r.records@[i], pl[j]));
            }
        }
        r
    }

    /// The DS record of this zone's key-signing key, for the parent zone.
    pub fn ds(&self) -> (r: Ds)
        requires
            labels_ok(self.apex@),
            keys_fit(self.keys),
        ensures
            (r.key_tag, r.algorithm, r.digest_type, r.digest@) == crate::record::ds_of(self.apex@, self.keys.ksk.public),
    {
        Ds::from_key(&self.apex, &self.keys.ksk.public)
    }

    pub fn key_signing_key(&self) -> (r: &Dnskey)
        ensures
            *r == self.keys.ksk.public,
    {
        &self.keys.ksk.public
    }

    pub fn zone_signing_key(&self) -> (r: &Dnskey)
        ensures
            *r == self.keys.zsk.public,
    {
        &self.keys.zsk.public
    }
}

impl Zone {
    /// Signs this zone with previously generated `keys` (see
    /// `signed_records`), hands the signed records to `mutate` for fault
    /// injection, and freezes what it returns (see `SignedZone::from_records`).
    pub fn sign_with_keys<S: Fn(&[u8], &KeyPair) -> Vec<u8>, M: FnOnce(&Fqdn, Vec<Record>) -> Vec<Record>>(
        self,
        keys: &KeySet,
        settings: &SignSettings,
        sign: &S,
        mutate: M,
    ) -> (r: Result<SignedZone, Error>)
        requires
            labels_ok(self.apex@),
            forall|i: int| 0 <= i < self.records@.len() ==> labels_ok(#[trigger] self.records@[i].owner@),
            keys_fit(*keys),
            settings.salt@.len() <= 255,
            forall|b: &[u8], k: &KeyPair| #[trigger] sign.requires((b, k)),
            forall|z: &Fqdn, v: Vec<Record>| #[trigger] mutate.requires((z, v)),
        ensures
            !keys_usable(*keys) <==> r == Err::<SignedZone, Error>(Error::MissingKey),
            r is Err ==> (r == Err::<SignedZone, Error>(Error::MissingKey) || r == Err::<SignedZone, Error>(Error::InvalidMutation)),
            (keys_usable(*keys) && all_within(self.records@, self.apex@)
                && forall|a: &Fqdn, v: Vec<Record>, out: Vec<Record>| #[trigger] mutate.ensures((a, v), out) ==> out == v)
                ==> r is Ok,
            r == Err::<SignedZone, Error>(Error::InvalidMutation) ==> exists|a: Fqdn, v: Vec<Record>, out: Vec<Record>|
                a@ == self.apex@ && signed_shape(self.records@, self.apex@, *keys, *settings, v@)
                    && mutate.ensures((&a, v), out)
                    && exists|i: int| 0 <= i < out@.len() && !within(#[trigger] out@[i].owner@, self.apex@),
            r matches Ok(z) ==> {
                &&& keys_usable(*keys)
                &&& exists|a: Fqdn, v: Vec<Record>| a@ == self.apex@ && signed_shape(self.records@, self.apex@, *keys, *settings, v@)
                        && mutate.ensures((&a, v), z.records)
                &&& z.apex@ == self.apex@
                &&& same_keys(z.keys, *keys)
                &&& z.param.hash_algorithm == SHA1_ALGORITHM
                &&& z.param.flags == 0
                &&& z.param.iterations == settings.iterations
                &&& z.param.salt@ == settings.salt@
                &&& forall|i: int| 0 <= i < z.records@.len() ==> within(#[trigger] z.records@[i].owner@, self.apex@)
            },
    {
        let apex = self.apex.duplicate();
        let records = match self.signed_records(keys, settings, sign) {
            Ok(v) => v,
            Err(e) => {
                return Err(e);
            },
        };
        let ghost v = records;
        let amended = mutate(&apex, records);
        let ghost out = amended;
        let param = Nsec3Param {
            hash_algorithm: SHA1_ALGORITHM,
            flags: 0,
            iterations: settings.iterations,
            salt: copy_bytes(settings.salt.as_slice()),
        };
        let ks = KeySet {
            ksk: KeyPair { public: keys.ksk.public.clone_key(), private: copy_bytes(keys.ksk.private.as_slice()) },
            zsk: KeyPair { public: keys.zsk.public.clone_key(), private: copy_bytes(keys.zsk.private.as_slice()) },
        };
        let ghost a = apex;
        let r = SignedZone::from_records(apex, ks, param, amended);
        proof {
            if r is Err {
                let i = choose|i: int| !(0 <= i < out@.len() ==> within(#[trigger] out@[i].owner@, a@));
                assert(0 <= i < out@.len() && !within(out@[i].owner@, self.apex@));
                assert(mutate.ensures((&a, v), out));
                if keys_usable(*keys) && all_within(self.records@, self.apex@)
                    && forall|a: &Fqdn, v: Vec<Record>, out: Vec<Record>| #[trigger] mutate.ensures((a, v), out) ==> out == v {
                    assert(out == v);
                    assert(all_within(v@, self.apex@));
                }
            }
        }
        r
    }

    /// Generates keys for this zone with `generate`, then signs as
    /// `sign_with_keys` does. Keys too large for a DNSKEY record count as
    /// missing.
    pub fn sign<G: FnOnce(&Fqdn) -> KeySet, S: Fn(&[u8], &KeyPair) -> Vec<u8>, M: FnOnce(&Fqdn, Vec<Record>) -> Vec<Record>>(
        self,
        settings: &SignSettings,
        generate: G,
        sign: &S,
        mutate: M,
    ) -> (r: Result<SignedZone, Error>)
        requires
            labels_ok(self.apex@),
            forall|i: int| 0 <= i < self.records@.len() ==> labels_ok(#[trigger] self.records@[i].owner@),
            settings.salt@.len() <= 255,
            forall|z: &Fqdn| #[trigger] generate.requires((z,)),
            forall|b: &[u8], k: &KeyPair| #[trigger] sign.requires((b, k)),
            forall|z: &Fqdn, v: Vec<Record>| #[trigger] mutate.requires((z, v)),
        ensures
            r is Err ==> (r == Err::<SignedZone, Error>(Error::MissingKey) || r == Err::<SignedZone, Error>(Error::InvalidMutation)),
            exists|ks: KeySet| {
                &&& generate.ensures((&self.apex,), ks)
                &&& ((keys_fit(ks) && keys_usable(ks)) <==> r != Err::<SignedZone, Error>(Error::MissingKey))
                &&& r matches Ok(z) ==> {
                    &&& z.apex@ == self.apex@
                    &&& same_keys(z.keys, ks)
                    &&& exists|a: Fqdn, v: Vec<Record>| a@ == self.apex@ && signed_shape(self.records@, self.apex@, ks, *settings, v@)
                            && mutate.ensures((&a, v), z.records)
                }
            },
    {
        let keys = generate(&self.apex);
        if keys.ksk.public.public_key.len() > 65531 || keys.zsk.public.public_key.len() > 65531 {
            assert(generate.ensures((&self.apex,), keys) && !keys_fit(keys));
            let r = Err(Error::MissingKey);
            assert(((keys_fit(keys) && keys_usable(keys)) <==> r != Err::<SignedZone, Error>(Error::MissingKey)));
            return r;
        }
        self.sign_with_keys(&keys, settings, sign, mutate)
    }
}

} // verus!
