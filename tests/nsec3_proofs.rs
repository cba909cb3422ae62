use dns_conformance::error::Error;
use dns_conformance::hash::nsec3_hash;
use dns_conformance::name::Fqdn;
use dns_conformance::nsec3::{find_records, Nsec3Records};
use dns_conformance::record::{Dnskey, Record, RecordData, Rrsig, KSK_FLAGS, TYPE_DNSKEY, ZSK_FLAGS};
use dns_conformance::zone::{KeyPair, KeySet, SignSettings, SignedZone, Zone};

// Golden values for SHA-1, one extra iteration, empty salt.
const TLD_HASH: &str = "LLKH4L6I60VHAPP6VRM3DFR9RI8AK9I0"; // h(alice.com.)
const NON_EXISTENT_HASH: &str = "99P1CCPQ2N64LIRMT2838O4HK0QFA51B"; // h(charlie.alice.com.)
const WILDCARD_HASH: &str = "19GBV5V1BO0P51H34JQDH1C8CIAA5RAQ"; // h(*.alice.com.)
const NSEC3_OWNER_HASH: &str = "T5LJ8DV3O2C0BNVLRRUTQ2NKPQE3N385"; // h(llkh4l6i60vhapp6vrm3dfr9ri8ak9i0.alice.com.)

fn fqdn(s: &str) -> Fqdn {
    Fqdn::parse(s).unwrap()
}

fn keys(seed: u8) -> KeySet {
    KeySet {
        ksk: KeyPair {
            public: Dnskey { flags: KSK_FLAGS, protocol: 3, algorithm: 8, public_key: vec![seed, 1, 2, 3] },
            private: vec![seed, 9],
        },
        zsk: KeyPair {
            public: Dnskey { flags: ZSK_FLAGS, protocol: 3, algorithm: 8, public_key: vec![seed, 4, 5, 6] },
            private: vec![seed, 8],
        },
    }
}

fn fake_sign(bytes: &[u8], key: &KeyPair) -> Vec<u8> {
    let mut sig = key.private.clone();
    sig.extend_from_slice(&(bytes.len() as u32).to_be_bytes());
    sig
}

fn sign_zone(zone: Zone, ks: &KeySet, mutate: impl FnOnce(&Fqdn, Vec<Record>) -> Vec<Record>) -> Result<SignedZone, Error> {
    zone.sign_with_keys(ks, &SignSettings::default(), &fake_sign, mutate)
}

/// A root zone holding only the address record of `owner`, signed, and its index.
fn signed_root_with(owner: &str) -> (SignedZone, Nsec3Records) {
    let mut zone = Zone::new(Fqdn::root());
    zone.add(Record::a(fqdn(owner), [1, 2, 3, 4]));
    let signed = sign_zone(zone, &keys(1), |_, records| records).unwrap();
    let index = signed.nsec3_records();
    (signed, index)
}

fn nsec3_count(z: &SignedZone) -> usize {
    z.records.iter().filter(|r| matches!(r.data, RecordData::Nsec3(_))).count()
}

#[test]
fn name_error_response() {
    let (_zone, nsec3_rrs) = signed_root_with("alice.com.");
    let (closest_encloser_rr, next_closer_name_rr) = nsec3_rrs
        .closest_encloser_proof(TLD_HASH.as_bytes(), NON_EXISTENT_HASH.as_bytes())
        .expect("Cannot find a closest encloser proof in the zonefile");
    let wildcard_rr = nsec3_rrs.find_cover(WILDCARD_HASH.as_bytes()).expect("No RR in the zonefile covers the wildcard");
    assert_eq!(closest_encloser_rr.hashed_owner, TLD_HASH.as_bytes());
    assert!(next_closer_name_rr.hashed_owner.as_slice() < NON_EXISTENT_HASH.as_bytes()
        || next_closer_name_rr.next_hashed_owner.as_slice() >= NON_EXISTENT_HASH.as_bytes());
    assert!(wildcard_rr.hashed_owner.as_slice() != WILDCARD_HASH.as_bytes());
    // a response carrying these records passes; an empty one lacks the first
    let expected = [closest_encloser_rr.clone(), next_closer_name_rr.clone(), wildcard_rr.clone()];
    assert_eq!(find_records(&expected, &expected), None);
    assert_eq!(find_records(&[], &expected), Some(0));
    assert_eq!(find_records(&expected[1..], &expected[..1]), if expected[1..].contains(&expected[0]) { None } else { Some(0) });
}

#[test]
fn no_data_response_not_ds() {
    let (_zone, nsec3_rrs) = signed_root_with("alice.com.");
    let qname_rr = nsec3_rrs.find_match(TLD_HASH.as_bytes()).expect("No RR in the zonefile matches QNAME");
    assert_eq!(qname_rr.hashed_owner, TLD_HASH.as_bytes());
    // the matching record lists the A type present at alice.com. and no MX
    assert!(qname_rr.types.contains(&1));
    assert!(!qname_rr.types.contains(&15));
}

#[test]
fn no_data_response_ds_match() {
    let (_zone, nsec3_rrs) = signed_root_with("alice.com.");
    let qname_rr = nsec3_rrs.find_match(TLD_HASH.as_bytes()).expect("No RR in the zonefile matches QNAME");
    assert!(!qname_rr.types.contains(&43));
}

#[test]
fn no_data_response_ds_no_match() {
    let (_zone, nsec3_rrs) = signed_root_with("alice.com.");
    assert!(nsec3_rrs.find_match(NON_EXISTENT_HASH.as_bytes()).is_none());
    let (ce, nc) = nsec3_rrs
        .closest_encloser_proof(TLD_HASH.as_bytes(), NON_EXISTENT_HASH.as_bytes())
        .expect("Cannot find a closest encloser proof in the zonefile");
    assert_eq!(ce.hashed_owner, TLD_HASH.as_bytes());
    assert!(nc.hashed_owner != NON_EXISTENT_HASH.as_bytes());
}

#[test]
fn wildcard_answer_response() {
    let (_zone, nsec3_rrs) = signed_root_with("*.alice.com.");
    assert!(nsec3_rrs.find_match(WILDCARD_HASH.as_bytes()).is_some());
    let next_closer_name_rr = nsec3_rrs
        .find_cover(NON_EXISTENT_HASH.as_bytes())
        .expect("No RR in the zonefile covers the next closer name");
    assert!(next_closer_name_rr.hashed_owner != NON_EXISTENT_HASH.as_bytes());
}

#[test]
fn nsec3_owner_name() {
    let (_zone, nsec3_rrs) = signed_root_with("alice.com.");
    let _matching = nsec3_rrs.find_match(TLD_HASH.as_bytes()).expect("Query name is not the owner name of any NSEC3 RR");
    // the owner name of that NSEC3 record is no name of the zone: it is covered, not matched
    assert!(nsec3_rrs.find_match(NSEC3_OWNER_HASH.as_bytes()).is_none());
    let cover = nsec3_rrs.find_cover(NSEC3_OWNER_HASH.as_bytes()).expect("No RR in the zonefile covers the query name");
    assert!(cover.hashed_owner != NSEC3_OWNER_HASH.as_bytes());
}

#[test]
fn hashes_match_golden_values() {
    let cases = [
        ("alice.com.", TLD_HASH),
        ("charlie.alice.com.", NON_EXISTENT_HASH),
        ("*.alice.com.", WILDCARD_HASH),
        ("llkh4l6i60vhapp6vrm3dfr9ri8ak9i0.alice.com.", NSEC3_OWNER_HASH),
    ];
    for (name, expected) in cases {
        let h = nsec3_hash(&fqdn(name), 1, 1, &[]).unwrap();
        assert_eq!(String::from_utf8(h).unwrap(), expected);
    }
}

#[test]
fn hash_is_repeatable_and_case_insensitive() {
    let a = nsec3_hash(&fqdn("alice.com."), 1, 1, &[]).unwrap();
    let b = nsec3_hash(&fqdn("alice.com."), 1, 1, &[]).unwrap();
    let c = nsec3_hash(&fqdn("ALICE.Com."), 1, 1, &[]).unwrap();
    assert_eq!(a, b);
    assert_eq!(a, c);
    let salted = nsec3_hash(&fqdn("alice.com."), 1, 1, &[0xab]).unwrap();
    let unsalted_once = nsec3_hash(&fqdn("alice.com."), 1, 0, &[]).unwrap();
    assert_eq!(String::from_utf8(unsalted_once).unwrap(), "4MQ63TFGQ53CN7BLM4013T77HAK1PNBS");
    assert_ne!(a, salted);
    assert!(nsec3_hash(&fqdn("alice.com."), 2, 1, &[]).is_none());
}

#[test]
fn chain_has_one_record_per_name_and_is_circular() {
    let (zone, index) = signed_root_with("alice.com.");
    // names: the root, the empty non-terminal com. and alice.com.
    assert_eq!(nsec3_count(&zone), 3);
    assert_eq!(index.len(), 3);
    let com = nsec3_hash(&fqdn("com."), 1, 1, &[]).unwrap();
    assert!(index.find_match(&com).is_some());
    let rs = &index.records;
    for i in 0..rs.len() {
        let next = &rs[(i + 1) % rs.len()];
        assert_eq!(rs[i].next_hashed_owner, next.hashed_owner);
        if i + 1 < rs.len() {
            assert!(rs[i].hashed_owner < next.hashed_owner);
        }
    }
}

#[test]
fn cover_wraps_below_smallest_owner() {
    let (_zone, index) = signed_root_with("alice.com.");
    let rs = &index.records;
    let last = rs.last().unwrap();
    // "0" sorts below every base32hex label of 32 characters
    let below = index.find_cover(b"0").unwrap();
    assert_eq!(below.hashed_owner, last.hashed_owner);
    let above = index.find_cover(b"ZZZZ").unwrap();
    assert_eq!(above.hashed_owner, last.hashed_owner);
    // an owner hash is covered by its predecessor, not by itself
    let first = &rs[0];
    let c = index.find_cover(&rs[1].hashed_owner).unwrap();
    assert_eq!(c.hashed_owner, first.hashed_owner);
    // lower-case queries are folded
    let lower = TLD_HASH.to_ascii_lowercase();
    assert!(index.find_match(lower.as_bytes()).is_some());
}

#[test]
fn proof_not_found_names_the_missing_hash() {
    let (_zone, index) = signed_root_with("alice.com.");
    let err = index.closest_encloser_proof(NON_EXISTENT_HASH.as_bytes(), TLD_HASH.as_bytes()).unwrap_err();
    assert_eq!(err, Error::ProofNotFound { hash: NON_EXISTENT_HASH.as_bytes().to_vec() });
    let empty = Nsec3Records::new(Vec::new());
    assert!(empty.find_cover(TLD_HASH.as_bytes()).is_none());
    let err = empty.closest_encloser_proof(TLD_HASH.as_bytes(), TLD_HASH.as_bytes()).unwrap_err();
    assert_eq!(err, Error::ProofNotFound { hash: TLD_HASH.as_bytes().to_vec() });
}

#[test]
fn duplicate_owner_has_no_match() {
    let (_zone, index) = signed_root_with("alice.com.");
    let mut recs = index.records.clone();
    recs.push(index.records[0].clone());
    let dup = Nsec3Records::new(recs);
    assert!(dup.find_match(&index.records[0].hashed_owner).is_none());
    assert!(dup.find_match(&index.records[1].hashed_owner).is_some());
}

#[test]
fn missing_key_is_reported() {
    let mut ks = keys(1);
    ks.zsk.public.flags = KSK_FLAGS;
    let mut zone = Zone::new(Fqdn::root());
    zone.add(Record::a(fqdn("alice.com."), [1, 2, 3, 4]));
    assert_eq!(sign_zone(zone, &ks, |_, r| r).err(), Some(Error::MissingKey));
    let mut ks = keys(1);
    ks.ksk.public.flags = ZSK_FLAGS;
    let zone = Zone::new(fqdn("alice.com."));
    assert_eq!(sign_zone(zone, &ks, |_, r| r).err(), Some(Error::MissingKey));
}

#[test]
fn mutation_outside_the_zone_is_refused() {
    let zone = Zone::new(fqdn("alice.com."));
    let res = sign_zone(zone, &keys(1), |_, mut records| {
        records.push(Record::a(fqdn("bob.com."), [5, 6, 7, 8]));
        records
    });
    assert_eq!(res.err(), Some(Error::InvalidMutation));
}

#[test]
fn dnskey_set_is_signed_by_the_ksk_only() {
    let ks = keys(3);
    let ksk_tag = ks.ksk.public.calculate_key_tag();
    let zsk_tag = ks.zsk.public.calculate_key_tag();
    let (zone, _) = signed_root_with("alice.com.");
    let zone2 = {
        let mut z = Zone::new(Fqdn::root());
        z.add(Record::a(fqdn("alice.com."), [1, 2, 3, 4]));
        sign_zone(z, &ks, |_, r| r).unwrap()
    };
    let _ = zone;
    let mut n_sigs = 0;
    for r in &zone2.records {
        if let RecordData::Rrsig(Rrsig { type_covered, key_tag, .. }) = &r.data {
            n_sigs += 1;
            if *type_covered == TYPE_DNSKEY {
                assert_eq!(*key_tag, ksk_tag);
            } else {
                assert_eq!(*key_tag, zsk_tag);
            }
        }
    }
    // RRsets: A at alice.com.; DNSKEY, NSEC3PARAM at the root; three NSEC3
    assert_eq!(n_sigs, 6);
}
