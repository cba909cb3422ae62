use dns_conformance::base32::encode_base32hex;
use dns_conformance::error::Error;
use dns_conformance::fixture::{self, DsFixture, Server};
use dns_conformance::lex::lex_less;
use dns_conformance::name::Fqdn;
use dns_conformance::record::{Dnskey, Ds, Record, RecordData, KSK_FLAGS, TYPE_A, TYPE_DNSKEY, TYPE_NS, TYPE_RRSIG, ZSK_FLAGS};
use dns_conformance::zone::{is_within, KeyPair, KeySet, SignSettings, SignedZone, TrustAnchor, Zone};

fn fqdn(s: &str) -> Fqdn {
    Fqdn::parse(s).unwrap()
}

fn keys(seed: u8) -> KeySet {
    KeySet {
        ksk: KeyPair {
            public: Dnskey { flags: KSK_FLAGS, protocol: 3, algorithm: 8, public_key: vec![seed, 1, 2, 3] },
            private: vec![seed, 9],
        },
        zsk: KeyPair {
            public: Dnskey { flags: ZSK_FLAGS, protocol: 3, algorithm: 8, public_key: vec![seed, 4, 5, 6] },
            private: vec![seed, 8],
        },
    }
}

fn fake_sign(bytes: &[u8], key: &KeyPair) -> Vec<u8> {
    let mut sig = key.private.clone();
    sig.extend_from_slice(&(bytes.len() as u32).to_be_bytes());
    sig
}

fn sign(zone: Zone, seed: u8) -> SignedZone {
    zone.sign_with_keys(&keys(seed), &SignSettings::default(), &fake_sign, |_, r| r).unwrap()
}

fn malformed_ds_fixture(leaf_zone: &Fqdn, mutate: impl FnOnce(Ds) -> Ds) -> DsFixture {
    let servers: Vec<Server> = (0..4u8)
        .map(|i| Server { name: fqdn(&format!("primary{}.nameservers.testing.", i)), addr: [10, 0, 0, i + 1] })
        .collect();
    let ks: Vec<KeySet> = (5..9u8).map(keys).collect();
    fixture::malformed_ds_fixture(
        &fqdn("testing."),
        &fqdn("nameservers.testing."),
        leaf_zone,
        &servers,
        &ks,
        &SignSettings::default(),
        &fake_sign,
        mutate,
    )
    .unwrap()
}

/// The DS record that `parent` holds for `child`.
fn ds_in(parent: &SignedZone, child: &Fqdn) -> Ds {
    parent
        .records
        .iter()
        .find(|r| &r.owner == child && matches!(r.data, RecordData::Ds(_)))
        .cloned()
        .unwrap()
        .try_into_ds()
        .unwrap()
}

fn leaf_ds_validates(f: &DsFixture) -> bool {
    let ds = ds_in(&f.tld, &f.leaf.apex);
    ds.validates(&f.leaf.apex, f.leaf.key_signing_key())
}

#[test]
fn intact_chain_of_trust_validates() {
    let leaf = fqdn("intact.testing.");
    let f = malformed_ds_fixture(&leaf, |ds| ds);
    assert!(leaf_ds_validates(&f));
    let ns_ds = ds_in(&f.tld, &f.nameservers.apex);
    assert!(ns_ds.validates(&f.nameservers.apex, f.nameservers.key_signing_key()));
    let tld_ds = ds_in(&f.root, &f.tld.apex);
    assert!(tld_ds.validates(&f.tld.apex, f.tld.key_signing_key()));
    assert_eq!(f.trust_anchor.len(), 2);
    assert_eq!(&f.trust_anchor.keys[0], f.root.key_signing_key());
    assert_eq!(&f.trust_anchor.keys[1], f.root.zone_signing_key());
}

#[test]
fn ds_unassigned_key_algo() {
    let leaf = fqdn("testing.").push_label(b"ds-unassigned-key-algo").unwrap();
    let f = malformed_ds_fixture(&leaf, |mut ds| {
        ds.algorithm = 100;
        ds
    });
    assert_eq!(ds_in(&f.tld, &leaf).algorithm, 100);
    assert!(!leaf_ds_validates(&f));
}

#[test]
fn ds_reserved_key_algo() {
    let leaf = fqdn("testing.").push_label(b"ds-reserved-key-algo").unwrap();
    let f = malformed_ds_fixture(&leaf, |mut ds| {
        ds.algorithm = 200;
        ds
    });
    assert_eq!(ds_in(&f.tld, &leaf).algorithm, 200);
    assert!(!leaf_ds_validates(&f));
}

#[test]
fn ds_bad_tag() {
    let leaf = fqdn("testing.").push_label(b"ds-bad-tag").unwrap();
    let f = malformed_ds_fixture(&leaf, |mut ds| {
        ds.key_tag = !ds.key_tag;
        ds
    });
    assert_eq!(ds_in(&f.tld, &leaf).key_tag, !f.leaf.key_signing_key().calculate_key_tag());
    assert!(!leaf_ds_validates(&f));
}

#[test]
fn ds_bad_key_algo() {
    let leaf = fqdn("testing.").push_label(b"ds-bad-key-algo").unwrap();
    let f = malformed_ds_fixture(&leaf, |mut ds| {
        assert_eq!(8, ds.algorithm, "number below may need to change");
        ds.algorithm = 7;
        ds
    });
    assert!(!leaf_ds_validates(&f));
}

#[test]
fn no_rrsig_ksk() {
    let leaf_zone = fqdn("testing.").push_label(b"no-rrsig-ksk").unwrap();
    let ks = keys(7);
    let ksk_tag = ks.ksk.public.calculate_key_tag();
    let zone = Zone::new(leaf_zone.duplicate());
    let target = leaf_zone.duplicate();
    let signed = zone
        .sign_with_keys(&ks, &SignSettings::default(), &fake_sign, |zone, mut records| {
            if zone == &target {
                let index = records
                    .iter()
                    .position(|r| matches!(&r.data, RecordData::Rrsig(s) if s.type_covered == TYPE_DNSKEY && s.key_tag == ksk_tag))
                    .expect("did not find an RRSIG covering DNSKEY generated using the KSK");
                records.remove(index);
            }
            records
        })
        .unwrap();
    let dnskeys = signed.records.iter().filter(|r| r.record_type() == TYPE_DNSKEY).count();
    assert_eq!(dnskeys, 2);
    assert!(!signed
        .records
        .iter()
        .any(|r| matches!(&r.data, RecordData::Rrsig(s) if s.type_covered == TYPE_DNSKEY)));
}

#[test]
fn trust_anchor_key_copied_into_other_zone() {
    // keys generated before the root is signed, reused to sign it later
    let root_keys = keys(9);
    let leaf_zone = fqdn("domain.testing.");
    let mut attacker = Zone::new(leaf_zone.duplicate());
    attacker.add(Record { owner: leaf_zone.duplicate(), ttl: 86400, data: RecordData::Dnskey(root_keys.ksk.public.clone()) });
    let attacker = sign(attacker, 10);
    let dnskeys: Vec<_> = attacker.records.iter().filter(|r| r.record_type() == TYPE_DNSKEY).collect();
    assert_eq!(dnskeys.len(), 3);
    let root = Zone::new(Fqdn::root())
        .sign_with_keys(&root_keys, &SignSettings::default(), &fake_sign, |_, r| r)
        .unwrap();
    assert_eq!(root.key_signing_key(), &root_keys.ksk.public);
    let mut anchor = TrustAnchor::empty();
    anchor.add(root.key_signing_key().clone());
    anchor.add(root_keys.ksk.public.clone());
    assert_eq!(anchor.len(), 1);
}

#[test]
fn base32hex_exact_values() {
    assert_eq!(encode_base32hex(&[0xff]), b"VS".to_vec());
    assert_eq!(encode_base32hex(&[1, 2, 3, 4, 5, 6]), b"041061050O".to_vec());
    assert_eq!(encode_base32hex(&[]), Vec::<u8>::new());
}

#[test]
fn key_tag_exact_value() {
    let k = Dnskey { flags: KSK_FLAGS, protocol: 3, algorithm: 8, public_key: vec![1, 2, 3] };
    assert_eq!(k.rdata(), vec![1, 1, 3, 8, 1, 2, 3]);
    assert_eq!(k.calculate_key_tag(), 2059);
    let big = Dnskey { flags: KSK_FLAGS, protocol: 3, algorithm: 8, public_key: vec![255; 600] };
    assert_eq!(big.calculate_key_tag(), 1033);
    assert!(k.is_key_signing_key());
    let z = Dnskey { flags: ZSK_FLAGS, ..k.clone() };
    assert!(!z.is_key_signing_key());
}

#[test]
fn ds_digest_is_sha1_of_owner_and_key() {
    let k = Dnskey { flags: KSK_FLAGS, protocol: 3, algorithm: 8, public_key: vec![1, 2, 3] };
    let ds = Ds::from_key(&fqdn("alice.com."), &k);
    let hex: String = ds.digest.iter().map(|b| format!("{:02x}", b)).collect();
    assert_eq!(hex, "5d4b91c1ecfb327b0a40eac29e9d2e4a4149a82f");
    assert_eq!(ds.key_tag, 2059);
    assert_eq!(ds.algorithm, 8);
    assert_eq!(ds.digest_type, 1);
    assert!(ds.validates(&fqdn("ALICE.com."), &k));
    assert!(!ds.validates(&fqdn("bob.com."), &k));
}

#[test]
fn byte_order() {
    assert!(lex_less(b"A", b"B"));
    assert!(lex_less(b"A", b"AA"));
    assert!(!lex_less(b"AA", b"A"));
    assert!(!lex_less(b"A", b"A"));
    assert!(lex_less(b"9", b"A"));
}

#[test]
fn names_parse_and_extend() {
    let f = fqdn("alice.com.");
    assert_eq!(f.labels, vec![b"alice".to_vec(), b"com".to_vec()]);
    assert_eq!(f.canonical_wire(), b"\x05alice\x03com\x00".to_vec());
    assert_eq!(fqdn("ALICE.com.").canonical_wire(), f.canonical_wire());
    assert!(fqdn(".").labels.is_empty());
    assert_eq!(Fqdn::parse("alice.com").err(), Some(Error::InvalidName));
    assert_eq!(Fqdn::parse("alice..com.").err(), Some(Error::InvalidName));
    assert_eq!(Fqdn::parse(".com.").err(), Some(Error::InvalidName));
    assert_eq!(Fqdn::parse("").err(), Some(Error::InvalidName));
    let long = format!("{}.com.", "a".repeat(64));
    assert_eq!(Fqdn::parse(&long).err(), Some(Error::InvalidName));
    let ok63 = format!("{}.com.", "a".repeat(63));
    assert!(Fqdn::parse(&ok63).is_ok());
    let www = f.push_label(b"www").unwrap();
    assert_eq!(www, fqdn("www.alice.com."));
    assert!(f.push_label(b"").is_none());
    assert!(f.push_label(b"a.b").is_none());
    assert!(is_within(&www, &f));
    assert!(is_within(&fqdn("WWW.Alice.com."), &f));
    assert!(!is_within(&f, &www));
    assert!(is_within(&f, &Fqdn::root()));
}

#[test]
fn referral_adds_ns_and_glue() {
    let mut parent = Zone::new(fqdn("testing."));
    parent.referral(&fqdn("child.testing."), &fqdn("ns.child.testing."), [192, 0, 2, 1], 300);
    assert_eq!(parent.records.len(), 2);
    assert_eq!(parent.records[0].owner, fqdn("child.testing."));
    assert_eq!(parent.records[0].record_type(), TYPE_NS);
    assert_eq!(parent.records[0].data, RecordData::Ns(fqdn("ns.child.testing.")));
    assert_eq!(parent.records[1].record_type(), TYPE_A);
    assert_eq!(parent.records[1].data, RecordData::A([192, 0, 2, 1]));
    assert_eq!(parent.records[1].ttl, 300);
}

#[test]
fn narrowing_to_another_type_fails() {
    let r = Record::a(fqdn("alice.com."), [1, 2, 3, 4]);
    assert_eq!(r.clone().try_into_nsec3().err(), Some(Error::ConversionError));
    assert_eq!(r.try_into_ds().err(), Some(Error::ConversionError));
    assert_eq!(TYPE_RRSIG, 46);
}
