//! Construction of a zone's NSEC3 chain: one record per existing name, in
//! hash order, each pointing at the next and the last back at the first.

use vstd::prelude::*;
use crate::hash::{nsec3_hash, nsec3_label, SHA1_ALGORITHM};
use crate::lex::copy_bytes;
use crate::name::Fqdn;
use crate::lex::{lemma_lex_trichotomy, lex_lt};
use crate::nsec3::{is_ring, owner_of, sort_by_owner, sorted_by_owner, strictly_sorted, Nsec3};

verus! {

/// An existing name of a zone and the record types present at it.
pub struct OwnedTypes {
    pub name: Fqdn,
    pub types: Vec<u16>,
}

/// NSEC3 parameters of a zone: what its NSEC3PARAM record announces.
#[derive(Debug, Clone, PartialEq, Eq)]
pub struct Nsec3Param {
    pub hash_algorithm: u8,
    pub flags: u8,
    pub iterations: u16,
    pub salt: Vec<u8>,
}

/// The hash label of the `k`-th name.
pub open spec fn name_label(names: Seq<OwnedTypes>, k: int, iterations: u16, salt: Seq<u8>) -> Seq<u8> {
    nsec3_label(names[k].name@, iterations as nat, salt)
}

/// No two names hash alike.
pub open spec fn hashes_distinct(names: Seq<OwnedTypes>, iterations: u16, salt: Seq<u8>) -> bool {
    forall|a: int, b: int|
        0 <= a < names.len() && 0 <= b < names.len() && a != b ==> name_label(names, a, iterations, salt)
            != name_label(names, b, iterations, salt)
}

/// Record `r` stands for the `k`-th name: its owner is that name's hash and
/// its types are that name's types.
pub open spec fn stands_for(r: Nsec3, names: Seq<OwnedTypes>, k: int, iterations: u16, salt: Seq<u8>) -> bool {
    &&& 0 <= k < names.len()
    &&& r.hashed_owner@ == name_label(names, k, iterations, salt)
    &&& r.types@ == names[k].types@
}


/// What sorting the per-name records keeps: every record, and the strict
/// order of owners when the names hash apart.
proof fn lemma_sorted_facts(ns: Seq<OwnedTypes>, u: Seq<Nsec3>, srt: Seq<Nsec3>, iterations: u16, salt: Seq<u8>)
    requires
        u.len() == ns.len(),
        forall|j: int| 0 <= j < u.len() ==> stands_for(#[trigger] u[j], ns, j, iterations, salt),
        srt.to_multiset() == u.to_multiset(),
        sorted_by_owner(srt),
    ensures
        srt.len() == u.len(),
        forall|i: int| 0 <= i < srt.len() ==> u.contains(#[trigger] srt[i]),
        forall|j: int| 0 <= j < u.len() ==> srt.contains(#[trigger] u[j]),
        hashes_distinct(ns, iterations, salt) ==> strictly_sorted(srt),
{
    broadcast use vstd::seq_lib::group_to_multiset_ensures, vstd::multiset::group_multiset_axioms;

    assert(srt.to_multiset().len() == srt.len());
    assert(u.to_multiset().len() == u.len());
    assert forall|i: int| 0 <= i < srt.len() implies u.contains(#[trigger] srt[i]) by {
        assert(srt.to_multiset().count(srt[i]) > 0);
        assert(u.to_multiset().count(srt[i]) > 0);
        assert(u.contains(srt[i]));
    }
    assert forall|j: int| 0 <= j < u.len() implies srt.contains(#[trigger] u[j]) by {
        assert(u.to_multiset().count(u[j]) > 0);
        assert(srt.to_multiset().count(u[j]) > 0);
        assert(srt.contains(u[j]));
    }
    if hashes_distinct(ns, iterations, salt) {
        assert(u.no_duplicates()) by {
            assert forall|a: int, b: int| 0 <= a < u.len() && 0 <= b < u.len() && a != b implies u[a] != u[b] by {
                assert(stands_for(u[a], ns, a, iterations, salt));
                assert(stands_for(u[b], ns, b, iterations, salt));
            }
        }
        u.lemma_multiset_has_no_duplicates();
        assert forall|x: Nsec3| srt.to_multiset().contains(x) implies srt.to_multiset().count(x) == 1 by {
            assert(u.to_multiset().contains(x));
        }
        srt.lemma_multiset_has_no_duplicates_conv();
        assert forall|a: int, b: int| 0 <= a < b < srt.len() implies lex_lt(owner_of(srt, a), owner_of(srt, b)) by {
            assert(u.contains(srt[a]));
            assert(u.contains(srt[b]));
            let ja = choose|j: int| 0 <= j < u.len() && u[j] == srt[a];
            let jb = choose|j: int| 0 <= j < u.len() && u[j] == srt[b];
            assert(stands_for(u[ja], ns, ja, iterations, salt));
            assert(stands_for(u[jb], ns, jb, iterations, salt));
            assert(ja != jb);
            lemma_lex_trichotomy(owner_of(srt, a), owner_of(srt, b));
        }
    }
}

/// Same record but for the next hashed owner.
pub open spec fn same_but_next(a: Nsec3, b: Nsec3) -> bool {
    &&& a.zone == b.zone
    &&& a.hashed_owner == b.hashed_owner
    &&& a.hash_algorithm == b.hash_algorithm
    &&& a.flags == b.flags
    &&& a.iterations == b.iterations
    &&& a.salt == b.salt
    &&& a.types == b.types
    &&& a.ttl == b.ttl
}

/// Points each record at the owner of its successor, the last at the first.
fn link_chain(sorted: Vec<Nsec3>) -> (out: Vec<Nsec3>)
    ensures
        out@.len() == sorted@.len(),
        forall|j: int| 0 <= j < out@.len() ==> same_but_next(#[trigger] out@[j], sorted@[j]),
        forall|j: int| 0 <= j < out@.len() ==> (#[trigger] out@[j]).next_hashed_owner@ == owner_of(sorted@, (j + 1) % (out@.len() as int)),
{
    let ghost srt = sorted@;
    let n = sorted.len();
    let mut owners: Vec<Vec<u8>> = Vec::new();
    let mut i: usize = 0;
    while i < n
        invariant
            sorted@ == srt,
            srt.len() == n,
            i <= n,
            owners@.len() == i,
            forall|j: int| 0 <= j < i ==> (#[trigger] owners@[j])@ == owner_of(srt, j),
        decreases n - i,
    {
        owners.push(copy_bytes(sorted[i].hashed_owner.as_slice()));
        i = i + 1;
    }
    let mut rest = sorted;
    let mut out: Vec<Nsec3> = Vec::new();
    let mut i: usize = 0;
    while i < n
        invariant
            srt.len() == n,
            owners@.len() == n,
            forall|j: int| 0 <= j < n ==> (#[trigger] owners@[j])@ == owner_of(srt, j),
            i <= n,
            rest@ == srt.subrange(i as int, n as int),
            out@.len() == i,
            forall|j: int| 0 <= j < i ==> same_but_next(#[trigger] out@[j], srt[j]),
            forall|j: int| 0 <= j < i ==> (#[trigger] out@[j]).next_hashed_owner@ == owner_of(srt, (j + 1) % (n as int)),
        decreases n - i,
    {
        let mut rec = rest.remove(0);
        assert(rec == srt[i as int]);
        let succ: usize = if i + 1 < n { i + 1 } else { 0 };
        proof {
            if i + 1 < n {
                vstd::arithmetic::div_mod::lemma_small_mod((i + 1) as nat, n as nat);
            } else {
                vstd::arithmetic::div_mod::lemma_mod_self_0(n as int);
            }
        }
        rec.next_hashed_owner = copy_bytes(owners[succ].as_slice());
        out.push(rec);
        assert(rest@ =~= srt.subrange(i + 1, n as int));
        i = i + 1;
    }
    out
}

/// One record per name, in the order of the names, not yet linked.
fn hash_names(zone: &Fqdn, names: Vec<OwnedTypes>, iterations: u16, salt: &Vec<u8>, ttl: u32) -> (u: Vec<Nsec3>)
    requires
        forall|k: int| 0 <= k < names@.len() ==> (#[trigger] names@[k]).name.wf(),
        salt@.len() <= 255,
    ensures
        u@.len() == names@.len(),
        forall|j: int| 0 <= j < u@.len() ==> stands_for(#[trigger] u@[j], names@, j, iterations, salt@),
        forall|j: int| 0 <= j < u@.len() ==> params_of(#[trigger] u@[j], zone@, iterations, salt@, ttl),
{
    let ghost ns = names@;
    let n = names.len();
    let mut unsorted: Vec<Nsec3> = Vec::new();
    let mut rest = names;
    let mut k: usize = 0;
    while k < n
        invariant
            n == ns.len(),
            k <= n,
            rest@ == ns.subrange(k as int, n as int),
            unsorted@.len() == k,
            salt@.len() <= 255,
            forall|j: int| 0 <= j < ns.len() ==> (#[trigger] ns[j]).name.wf(),
            forall|j: int| 0 <= j < k ==> stands_for(#[trigger] unsorted@[j], ns, j, iterations, salt@),
            forall|j: int| 0 <= j < k ==> params_of(#[trigger] unsorted@[j], zone@, iterations, salt@, ttl),
        decreases n - k,
    {
        let item = rest.remove(0);
        assert(item == ns[k as int]);
        let label = match nsec3_hash(&item.name, SHA1_ALGORITHM, iterations, salt.as_slice()) {
            Some(h) => h,
            None => Vec::new(),
        };
        let rec = Nsec3 {
            zone: zone.duplicate(),
            hashed_owner: label,
            next_hashed_owner: Vec::new(),
            hash_algorithm: SHA1_ALGORITHM,
            flags: 0,
            iterations,
            salt: copy_bytes(salt.as_slice()),
            types: item.types,
            ttl,
        };
        unsorted.push(rec);
        assert(rest@ =~= ns.subrange(k + 1, n as int));
        k = k + 1;
    }
    unsorted
}

/// The fields that every record of a chain shares.
pub open spec fn params_of(r: Nsec3, zone: Seq<Seq<u8>>, iterations: u16, salt: Seq<u8>, ttl: u32) -> bool {
    &&& r.zone@ == zone
    &&& r.hash_algorithm == SHA1_ALGORITHM
    &&& r.flags == 0
    &&& r.iterations == iterations
    &&& r.salt@ == salt
    &&& r.ttl == ttl
}

/// Linking keeps the owners, hence their order.
proof fn lemma_linked_order(srt: Seq<Nsec3>, out: Seq<Nsec3>)
    requires
        sorted_by_owner(srt),
        out.len() == srt.len(),
        forall|j: int| 0 <= j < out.len() ==> same_but_next(#[trigger] out[j], srt[j]),
        forall|j: int| 0 <= j < out.len() ==> (#[trigger] out[j]).next_hashed_owner@ == owner_of(srt, (j + 1) % (out.len() as int)),
    ensures
        sorted_by_owner(out),
        strictly_sorted(srt) ==> strictly_sorted(out),
        forall|i: int| 0 <= i < out.len() ==> #[trigger] out[i].next_hashed_owner@ == owner_of(out, (i + 1) % (out.len() as int)),
{
    assert forall|j: int| 0 <= j < out.len() implies #[trigger] owner_of(out, j) == owner_of(srt, j) by {
        assert(same_but_next(out[j], srt[j]));
    }
    assert forall|j: int| 0 <= j < out.len() implies #[trigger] out[j].next_hashed_owner@ == owner_of(out, (j + 1) % (out.len() as int)) by {
        vstd::arithmetic::div_mod::lemma_mod_bound(j + 1, out.len() as int);
        assert(owner_of(out, (j + 1) % (out.len() as int)) == owner_of(srt, (j + 1) % (out.len() as int)));
    }
}

/// Linking keeps what each record stands for.
proof fn lemma_linked_contents(
    ns: Seq<OwnedTypes>,
    u: Seq<Nsec3>,
    srt: Seq<Nsec3>,
    out: Seq<Nsec3>,
    zone: Seq<Seq<u8>>,
    iterations: u16,
    salt: Seq<u8>,
    ttl: u32,
)
    requires
        u.len() == ns.len(),
        srt.len() == u.len(),
        out.len() == srt.len(),
        forall|j: int| 0 <= j < u.len() ==> stands_for(#[trigger] u[j], ns, j, iterations, salt),
        forall|j: int| 0 <= j < u.len() ==> params_of(#[trigger] u[j], zone, iterations, salt, ttl),
        forall|i: int| 0 <= i < srt.len() ==> u.contains(#[trigger] srt[i]),
        forall|j: int| 0 <= j < u.len() ==> srt.contains(#[trigger] u[j]),
        forall|j: int| 0 <= j < out.len() ==> same_but_next(#[trigger] out[j], srt[j]),
    ensures
        forall|i: int| 0 <= i < out.len() ==> params_of(#[trigger] out[i], zone, iterations, salt, ttl),
        forall|i: int| 0 <= i < out.len() ==> from_some_name(#[trigger] out[i], ns, iterations, salt),
        forall|k: int| 0 <= k < ns.len() ==> #[trigger] in_chain(out, ns, k, iterations, salt),
{
    assert forall|i: int| 0 <= i < out.len() implies params_of(#[trigger] out[i], zone, iterations, salt, ttl)
        && from_some_name(out[i], ns, iterations, salt) by {
        assert(same_but_next(out[i], srt[i]));
        assert(u.contains(srt[i]));
        let j = choose|j: int| 0 <= j < u.len() && u[j] == srt[i];
        assert(stands_for(u[j], ns, j, iterations, salt));
        assert(params_of(u[j], zone, iterations, salt, ttl));
        assert(stands_for(out[i], ns, j, iterations, salt));
        assert(from_some_name(out[i], ns, iterations, salt));
    }
    assert forall|k: int| 0 <= k < ns.len() implies #[trigger] in_chain(out, ns, k, iterations, salt) by {
        assert(srt.contains(u[k]));
        let i = choose|i: int| 0 <= i < srt.len() && srt[i] == u[k];
        assert(stands_for(u[k], ns, k, iterations, salt));
        assert(same_but_next(out[i], srt[i]));
        assert(stands_for(out[i], ns, k, iterations, salt));
        assert(in_chain(out, ns, k, iterations, salt));
    }
}

/// `r` stands for some name.
pub open spec fn from_some_name(r: Nsec3, names: Seq<OwnedTypes>, iterations: u16, salt: Seq<u8>) -> bool {
    exists|k: int| stands_for(r, names, k, iterations, salt)
}

/// Some record of `chain` stands for the `k`-th name.
pub open spec fn in_chain(chain: Seq<Nsec3>, names: Seq<OwnedTypes>, k: int, iterations: u16, salt: Seq<u8>) -> bool {
    exists|i: int| 0 <= i < chain.len() && stands_for(chain[i], names, k, iterations, salt)
}

/// Builds the NSEC3 chain of `zone` over `names`, with SHA-1 hashing, no
/// opt-out, and the given iteration count, salt and TTL.
///
/// The chain has one record per name, in owner-hash order, and each record's
/// next hashed owner is the owner of the record after it, the last record's
/// that of the first. When the names are non-empty and hash apart, the chain
/// is a complete ring.
pub fn build_chain(zone: &Fqdn, names: Vec<OwnedTypes>, iterations: u16, salt: &Vec<u8>, ttl: u32) -> (r: Vec<Nsec3>)
    requires
        forall|k: int| 0 <= k < names@.len() ==> (#[trigger] names@[k]).name.wf(),
        salt@.len() <= 255,
    ensures
        r@.len() == names@.len(),
        sorted_by_owner(r@),
        forall|i: int| 0 <= i < r@.len() ==> #[trigger] r@[i].next_hashed_owner@ == owner_of(r@, (i + 1) % (r@.len() as int)),
        forall|i: int| 0 <= i < r@.len() ==> params_of(#[trigger] r@[i], zone@, iterations, salt@, ttl),
        forall|i: int| 0 <= i < r@.len() ==> from_some_name(#[trigger] r@[i], names@, iterations, salt@),
        forall|k: int| 0 <= k < names@.len() ==> #[trigger] in_chain(r@, names@, k, iterations, salt@),
        names@.len() > 0 && hashes_distinct(names@, iterations, salt@) ==> is_ring(r@),
{
    let ghost ns = names@;
    let unsorted = hash_names(zone, names, iterations, salt, ttl);
    let ghost u = unsorted@;
    let sorted = sort_by_owner(unsorted);
    let ghost srt = sorted@;
    proof { lemma_sorted_facts(ns, u, srt, iterations, salt@); }
    let out = link_chain(sorted);
    proof {
        lemma_linked_order(srt, out@);
        lemma_linked_contents(ns, u, srt, out@, zone@, iterations, salt@, ttl);
    }
    out
}

} // verus!
