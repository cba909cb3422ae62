//! A signed delegation hierarchy for chain-of-trust scenarios: root, a TLD,
//! a zone for the name servers and a leaf zone, each signed before its
//! parent, with the leaf's DS record passed through a fault-injection hook.

use vstd::prelude::*;
use crate::error::Error;
use crate::name::{labels_ok, Fqdn};
use crate::record::{ds_of, same_key, Ds, Record, RecordData};
use crate::zone::{all_within, within, keys_fit, keys_usable, same_keys, signed_shape, KeyPair, KeySet, SignSettings, SignedZone, TrustAnchor, Zone};

verus! {

/// The signed zones of the hierarchy and the trust anchor of its root.
pub struct DsFixture {
    pub root: SignedZone,
    pub tld: SignedZone,
    pub nameservers: SignedZone,
    pub leaf: SignedZone,
    pub trust_anchor: TrustAnchor,
}

/// A name server: its name and IPv4 address.
pub struct Server {
    pub name: Fqdn,
    pub addr: [u8; 4],
}

/// The TTL of the records the hierarchy adds.
pub const FIXTURE_TTL: u32 = 86400;

/// Signs `zone` with `keys`, leaving the signed records as they are.
fn sign_plain<S: Fn(&[u8], &KeyPair) -> Vec<u8>>(zone: Zone, keys: &KeySet, settings: &SignSettings, sign: &S) -> (r: Result<SignedZone, Error>)
    requires
        labels_ok(zone.apex@),
        forall|i: int| 0 <= i < zone.records@.len() ==> labels_ok(#[trigger] zone.records@[i].owner@),
        keys_fit(*keys),
        settings.salt@.len() <= 255,
        forall|b: &[u8], k: &KeyPair| #[trigger] sign.requires((b, k)),
    ensures
        !keys_usable(*keys) <==> r == Err::<SignedZone, Error>(Error::MissingKey),
        r is Err ==> (r == Err::<SignedZone, Error>(Error::MissingKey) || r == Err::<SignedZone, Error>(Error::InvalidMutation)),
        keys_usable(*keys) && all_within(zone.records@, zone.apex@) ==> r is Ok,
        r matches Ok(z) ==> {
            &&& z.apex@ == zone.apex@
            &&& same_keys(z.keys, *keys)
            &&& z.records@.len() >= zone.records@.len()
            &&& z.records@.subrange(0, zone.records@.len() as int) == zone.records@
            &&& signed_zone_of(zone.records@, zone.apex@, *keys, *settings, z.records@)
        },
{
    let keep = |a: &Fqdn, v: Vec<Record>| -> (out: Vec<Record>)
        ensures
            out == v,
        { v };
    let ghost own = zone.records@;
    let ghost apex = zone.apex@;
    let r = zone.sign_with_keys(keys, settings, sign, keep);
    proof {
        if r is Ok {
            let z = r->Ok_0;
            let (a, v) = choose|a: Fqdn, v: Vec<Record>| a@ == apex && signed_shape(own, apex, *keys, *settings, v@)
                && keep.ensures((&a, v), z.records);
            assert(z.records == v);
            reveal(signed_zone_of);
        }
        assert(forall|a: &Fqdn, v: Vec<Record>, out: Vec<Record>| #[trigger] keep.ensures((a, v), out) ==> out == v);
    }
    r
}

fn ds_record(owner: &Fqdn, ds: Ds) -> (r: Record)
    ensures
        r.owner@ == owner@,
        r.ttl == FIXTURE_TTL,
        r.data == RecordData::Ds(ds),
{
    Record { owner: owner.duplicate(), ttl: FIXTURE_TTL, data: RecordData::Ds(ds) }
}

/// DS data that vouches for the key-signing key of zone `apex`.
pub open spec fn ds_for(d: Ds, apex: Seq<Seq<u8>>, k: KeySet) -> bool {
    (d.key_tag, d.algorithm, d.digest_type, d.digest@) == ds_of(apex, k.ksk.public)
}

/// `v` is what signing `own` at `apex` gives (`signed_shape`), kept
/// folded away so that proofs about several zones stay small.
#[verifier::opaque]
pub open spec fn signed_zone_of(own: Seq<Record>, apex: Seq<Seq<u8>>, keys: KeySet, settings: SignSettings, v: Seq<Record>) -> bool {
    signed_shape(own, apex, keys, settings, v)
}

/// The name-server zone holds the addresses of the first two servers.
pub open spec fn ns_glue_ok(ns_zone: Seq<Seq<u8>>, servers: Seq<Server>) -> bool {
    &&& within(servers[0].name@, ns_zone)
    &&& within(servers[1].name@, ns_zone)
}

/// The TLD holds the delegations of the two zones below it and the
/// addresses of their servers.
pub open spec fn tld_ok(tld: Seq<Seq<u8>>, ns_zone: Seq<Seq<u8>>, leaf: Seq<Seq<u8>>, servers: Seq<Server>) -> bool {
    &&& within(ns_zone, tld)
    &&& within(leaf, tld)
    &&& within(servers[2].name@, tld)
    &&& within(servers[3].name@, tld)
}

/// Builds and signs the hierarchy root → `tld` → {`ns_zone`, `leaf`} with
/// `keys` = [root, TLD, name-server zone, leaf]. The root delegates `tld` to
/// `servers[1]`; the TLD delegates `ns_zone` to `servers[2]` and `leaf` to
/// `servers[3]`; the name-server zone holds the addresses of `servers[0]`
/// and `servers[1]`. Children are signed first, and each parent receives
/// the DS record of its child's key-signing key; the leaf's DS record goes
/// through `mutate` on its way. The trust anchor is the root's key-signing
/// key, then its zone-signing key.
///
/// Fails with `MissingKey` when some key set is unusable, and with
/// `InvalidMutation` when a zone would hold a record outside itself; the
/// zones are signed in the order name-server zone, leaf, TLD, root, and the
/// first failure is returned. With usable keys and names that lie in the
/// zones that hold them, it succeeds.
#[verifier::loop_isolation(false)]
#[verifier::rlimit(50)]
pub fn malformed_ds_fixture<S: Fn(&[u8], &KeyPair) -> Vec<u8>, D: FnOnce(Ds) -> Ds>(
    tld: &Fqdn,
    ns_zone: &Fqdn,
    leaf_zone: &Fqdn,
    servers: &Vec<Server>,
    keys: &Vec<KeySet>,
    settings: &SignSettings,
    sign: &S,
    mutate: D,
) -> (r: Result<DsFixture, Error>)
    requires
        tld.wf(),
        ns_zone.wf(),
        leaf_zone.wf(),
        servers@.len() == 4,
        forall|i: int| 0 <= i < 4 ==> (#[trigger] servers@[i]).name.wf(),
        keys@.len() == 4,
        forall|i: int| 0 <= i < 4 ==> keys_fit(#[trigger] keys@[i]),
        settings.salt@.len() <= 255,
        forall|b: &[u8], k: &KeyPair| #[trigger] sign.requires((b, k)),
        forall|d: Ds| #[trigger] mutate.requires((d,)),
    ensures
        r is Err ==> (r == Err::<DsFixture, Error>(Error::MissingKey) || r == Err::<DsFixture, Error>(Error::InvalidMutation)),
        (exists|i: int| 0 <= i < 4 && !keys_usable(#[trigger] keys@[i])) ==> r is Err,
        (forall|i: int| 0 <= i < 4 ==> keys_usable(#[trigger] keys@[i])) ==> r != Err::<DsFixture, Error>(Error::MissingKey),
        // signing order: name-server zone, leaf, TLD, root; the first failure is returned
        !keys_usable(keys@[2]) ==> r == Err::<DsFixture, Error>(Error::MissingKey),
        keys_usable(keys@[2]) && ns_glue_ok(ns_zone@, servers@) && !keys_usable(keys@[3]) ==> r == Err::<DsFixture, Error>(Error::MissingKey),
        keys_usable(keys@[2]) && ns_glue_ok(ns_zone@, servers@) && keys_usable(keys@[3]) && !keys_usable(keys@[1])
            ==> r == Err::<DsFixture, Error>(Error::MissingKey),
        keys_usable(keys@[2]) && ns_glue_ok(ns_zone@, servers@) && keys_usable(keys@[3]) && keys_usable(keys@[1])
            && tld_ok(tld@, ns_zone@, leaf_zone@, servers@) && !keys_usable(keys@[0]) ==> r == Err::<DsFixture, Error>(Error::MissingKey),
        (forall|i: int| 0 <= i < 4 ==> keys_usable(#[trigger] keys@[i])) && ns_glue_ok(ns_zone@, servers@)
            && tld_ok(tld@, ns_zone@, leaf_zone@, servers@) ==> r is Ok,
        r matches Ok(f) ==> {
            // every zone signed with its keys and `settings`
            &&& signed_zone_of(Seq::empty(), leaf_zone@, keys@[3], *settings, f.leaf.records@)
            &&& exists|own: Seq<Record>| signed_zone_of(own, ns_zone@, keys@[2], *settings, f.nameservers.records@)
            &&& exists|own: Seq<Record>| signed_zone_of(own, tld@, keys@[1], *settings, f.tld.records@)
            &&& exists|own: Seq<Record>| signed_zone_of(own, Seq::empty(), keys@[0], *settings, f.root.records@)
            &&& f.root.apex@.len() == 0
            &&& f.tld.apex@ == tld@
            &&& f.nameservers.apex@ == ns_zone@
            &&& f.leaf.apex@ == leaf_zone@
            &&& same_keys(f.root.keys, keys@[0])
            &&& same_keys(f.tld.keys, keys@[1])
            &&& same_keys(f.nameservers.keys, keys@[2])
            &&& same_keys(f.leaf.keys, keys@[3])
            // the TLD: referrals, then the name-server zone's DS, then the leaf's DS as the hook left it
            &&& f.tld.records@.len() >= 6
            &&& f.tld.records@[0].owner@ == ns_zone@
            &&& f.tld.records@[0].data matches RecordData::Ns(n) && n@ == servers@[2].name@
            &&& f.tld.records@[2].owner@ == leaf_zone@
            &&& f.tld.records@[2].data matches RecordData::Ns(n) && n@ == servers@[3].name@
            &&& f.tld.records@[4].owner@ == ns_zone@
            &&& f.tld.records@[4].data matches RecordData::Ds(d) && ds_for(d, ns_zone@, keys@[2])
            &&& f.tld.records@[5].owner@ == leaf_zone@
            &&& f.tld.records@[5].data matches RecordData::Ds(d) && exists|d0: Ds| ds_for(d0, leaf_zone@, keys@[3]) && mutate.ensures((d0,), d)
            // the root: the TLD referral, then the TLD's DS
            &&& f.root.records@.len() >= 3
            &&& f.root.records@[0].owner@ == tld@
            &&& f.root.records@[0].data matches RecordData::Ns(n) && n@ == servers@[1].name@
            &&& f.root.records@[2].owner@ == tld@
            &&& f.root.records@[2].data matches RecordData::Ds(d) && ds_for(d, tld@, keys@[1])
            &&& f.trust_anchor.keys@.len() == 2
            &&& same_key(f.trust_anchor.keys@[0], keys@[0].ksk.public)
            &&& same_key(f.trust_anchor.keys@[1], keys@[0].zsk.public)
        },
{
    let ghost k0 = keys@[0];
    let ghost k1 = keys@[1];
    let ghost k2 = keys@[2];
    let ghost k3 = keys@[3];
    let mut root_ns = Zone::new(Fqdn::root());
    let mut tld_ns = Zone::new(tld.duplicate());
    let mut nameservers_ns = Zone::new(ns_zone.duplicate());
    let leaf_ns = Zone::new(leaf_zone.duplicate());

    root_ns.referral(tld, &servers[1].name, servers[1].addr, FIXTURE_TTL);
    tld_ns.referral(ns_zone, &servers[2].name, servers[2].addr, FIXTURE_TTL);
    tld_ns.referral(leaf_zone, &servers[3].name, servers[3].addr, FIXTURE_TTL);
    nameservers_ns.add(Record::a(servers[0].name.duplicate(), servers[0].addr));
    nameservers_ns.add(Record::a(servers[1].name.duplicate(), servers[1].addr));
    assert(tld_ns.records@.len() == 4);

    let ghost ns_own = nameservers_ns.records@;
    let ghost leaf_own = leaf_ns.records@;
    assert(leaf_own =~= Seq::<Record>::empty());
    let nameservers_ns = match sign_plain(nameservers_ns, &keys[2], settings, sign) {
        Ok(z) => z,
        Err(e) => {
            return Err(e);
        },
    };
    let leaf_ns = match sign_plain(leaf_ns, &keys[3], settings, sign) {
        Ok(z) => z,
        Err(e) => {
            return Err(e);
        },
    };

    tld_ns.add(ds_record(ns_zone, nameservers_ns.ds()));
    let d0 = leaf_ns.ds();
    let ghost gd0 = d0;
    assert(ds_for(gd0, leaf_zone@, k3));
    let d = mutate(d0);
    assert(mutate.ensures((gd0,), d));
    tld_ns.add(ds_record(leaf_zone, d));
    let ghost tld_own = tld_ns.records@;
    assert(forall|i: int| 0 <= i < tld_own.len() ==> labels_ok(#[trigger] tld_own[i].owner@));

    let tld_signed = match sign_plain(tld_ns, &keys[1], settings, sign) {
        Ok(z) => z,
        Err(e) => {
            return Err(e);
        },
    };
    assert(tld_signed.records@.subrange(0, 6) == tld_own);
    assert(tld_signed.records@[4] == tld_own[4]);
    assert(tld_signed.records@[5] == tld_own[5]);
    assert(tld_signed.records@[0] == tld_own[0]);
    assert(tld_signed.records@[2] == tld_own[2]);
    root_ns.add(ds_record(tld, tld_signed.ds()));
    let ghost root_own = root_ns.records@;
    let root_signed = match sign_plain(root_ns, &keys[0], settings, sign) {
        Ok(z) => z,
        Err(e) => {
            return Err(e);
        },
    };
    assert(root_signed.records@.subrange(0, 3) == root_own);
    assert(root_signed.records@[0] == root_own[0]);
    assert(root_signed.records@[2] == root_own[2]);

    assert(signed_zone_of(ns_own, ns_zone@, k2, *settings, nameservers_ns.records@));
    assert(signed_zone_of(Seq::empty(), leaf_zone@, k3, *settings, leaf_ns.records@));
    assert(exists|own: Seq<Record>| signed_zone_of(own, tld@, k1, *settings, tld_signed.records@));
    assert(exists|own: Seq<Record>| signed_zone_of(own, ns_zone@, k2, *settings, nameservers_ns.records@));
    assert(exists|own: Seq<Record>| signed_zone_of(own, Seq::empty(), k0, *settings, root_signed.records@));
    assert(signed_zone_of(tld_own, tld@, k1, *settings, tld_signed.records@));
    assert(signed_zone_of(root_own, Seq::<Seq<u8>>::empty(), k0, *settings, root_signed.records@));
    let mut trust_anchor = TrustAnchor::empty();
    trust_anchor.add(root_signed.key_signing_key().clone_key());
    trust_anchor.add(root_signed.zone_signing_key().clone_key());
    assert(keys_usable(k0));
    assert(ds_for(tld_own[4].data->Ds_0, ns_zone@, k2));
    assert(exists|d0: Ds| ds_for(d0, leaf_zone@, k3) && mutate.ensures((d0,), d));
    assert(ds_for(root_own[2].data->Ds_0, tld@, k1));
    assert(trust_anchor.keys@.len() == 2);
    assert(root_signed.apex@.len() == 0);
    assert(tld_signed.apex@ == tld@);
    assert(nameservers_ns.apex@ == ns_zone@);
    assert(leaf_ns.apex@ == leaf_zone@);
    assert(same_keys(root_signed.keys, k0));
    assert(same_keys(leaf_ns.keys, k3));
    assert(tld_signed.records@[0].owner@ == ns_zone@);
    assert(tld_signed.records@[0].data matches RecordData::Ns(n) && n@ == servers@[2].name@);
    assert(tld_signed.records@[2].data matches RecordData::Ns(n) && n@ == servers@[3].name@);
    assert(tld_signed.records@[4].data matches RecordData::Ds(d) && ds_for(d, ns_zone@, k2));
    assert(root_signed.records@[0].data matches RecordData::Ns(n) && n@ == servers@[1].name@);
    assert(root_signed.records@[2].data matches RecordData::Ds(d) && ds_for(d, tld@, k1));
    assert(same_key(trust_anchor.keys@[0], k0.ksk.public));
    assert(same_key(trust_anchor.keys@[1], k0.zsk.public));
    Ok(DsFixture { root: root_signed, tld: tld_signed, nameservers: nameservers_ns, leaf: leaf_ns, trust_anchor })
}

} // verus!
