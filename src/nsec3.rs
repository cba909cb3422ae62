//! NSEC3 records and the proof index over a zone's NSEC3 chain.

use vstd::prelude::*;
use crate::error::Error;
use crate::lex::{
    bytes_equal, copy_bytes, lemma_lex_irreflexive, lemma_lex_le_lt, lemma_lex_lt_le, lemma_lex_not_lt,
    lemma_lex_transitive, lemma_lex_trichotomy, lex_le, lex_less, lex_lt,
};
use crate::name::Fqdn;
use vstd::multiset::Multiset;

verus! {

broadcast use vstd::seq_lib::group_to_multiset_ensures, vstd::multiset::group_multiset_axioms;

/// One NSEC3 record. Its owner name is `hashed_owner` as a label under `zone`.
#[derive(Debug, Clone, PartialEq, Eq)]
pub struct Nsec3 {
    pub zone: Fqdn,
    /// Base32hex label of the owner hash, upper case.
    pub hashed_owner: Vec<u8>,
    /// Base32hex label of the next owner hash in ring order, upper case.
    pub next_hashed_owner: Vec<u8>,
    pub hash_algorithm: u8,
    pub flags: u8,
    pub iterations: u16,
    pub salt: Vec<u8>,
    /// Record types present at the original (unhashed) owner name.
    pub types: Vec<u16>,
    pub ttl: u32,
}

/// Two records with the same contents.
pub open spec fn same_nsec3(a: Nsec3, b: Nsec3) -> bool {
    &&& a.zone@ == b.zone@
    &&& a.hashed_owner@ == b.hashed_owner@
    &&& a.next_hashed_owner@ == b.next_hashed_owner@
    &&& a.hash_algorithm == b.hash_algorithm
    &&& a.flags == b.flags
    &&& a.iterations == b.iterations
    &&& a.salt@ == b.salt@
    &&& a.types@ == b.types@
    &&& a.ttl == b.ttl
}

impl Nsec3 {
    /// A copy of this record.
    pub fn duplicate(&self) -> (r: Nsec3)
        ensures
            same_nsec3(r, *self),
    {
        let mut types: Vec<u16> = Vec::new();
        let mut i: usize = 0;
        while i < self.types.len()
            invariant
                i <= self.types@.len(),
                types@ == self.types@.subrange(0, i as int),
            decreases self.types@.len() - i,
        {
            types.push(self.types[i]);
            assert(self.types@.subrange(0, i + 1) =~= self.types@.subrange(0, i as int).push(self.types@[i as int]));
            i = i + 1;
        }
        assert(self.types@.subrange(0, i as int) =~= self.types@);
        Nsec3 {
            zone: self.zone.duplicate(),
            hashed_owner: copy_bytes(self.hashed_owner.as_slice()),
            next_hashed_owner: copy_bytes(self.next_hashed_owner.as_slice()),
            hash_algorithm: self.hash_algorithm,
            flags: self.flags,
            iterations: self.iterations,
            salt: copy_bytes(self.salt.as_slice()),
            types,
            ttl: self.ttl,
        }
    }
}

fn types_equal(a: &Vec<u16>, b: &Vec<u16>) -> (r: bool)
    ensures
        r == (a@ == b@),
{
    if a.len() != b.len() {
        return false;
    }
    let mut i: usize = 0;
    while i < a.len()
        invariant
            i <= a@.len(),
            a@.len() == b@.len(),
            forall|k: int| 0 <= k < i ==> a@[k] == b@[k],
        decreases a@.len() - i,
    {
        if a[i] != b[i] {
            return false;
        }
        i = i + 1;
    }
    assert(a@ =~= b@);
    true
}

/// Decides `same_nsec3`.
pub fn nsec3_equal(a: &Nsec3, b: &Nsec3) -> (r: bool)
    ensures
        r == same_nsec3(*a, *b),
{
    a.zone.same_labels(&b.zone) && bytes_equal(a.hashed_owner.as_slice(), b.hashed_owner.as_slice())
        && bytes_equal(a.next_hashed_owner.as_slice(), b.next_hashed_owner.as_slice())
        && a.hash_algorithm == b.hash_algorithm && a.flags == b.flags && a.iterations == b.iterations
        && bytes_equal(a.salt.as_slice(), b.salt.as_slice()) && types_equal(&a.types, &b.types) && a.ttl == b.ttl
}

/// `records` holds a record with the contents of `x`.
pub open spec fn holds(records: Seq<Nsec3>, x: Nsec3) -> bool {
    exists|j: int| 0 <= j < records.len() && same_nsec3(records[j], x)
}

/// Checks that `records` (say, the NSEC3 records of a response) hold every
/// one of `expected`: `None` when they do, otherwise the position of the
/// first expected record they lack.
pub fn find_records(records: &[Nsec3], expected: &[Nsec3]) -> (r: Option<usize>)
    ensures
        r is None <==> forall|i: int| 0 <= i < expected@.len() ==> holds(records@, #[trigger] expected@[i]),
        r matches Some(i) ==> i < expected@.len() && !holds(records@, expected@[i as int])
            && forall|k: int| 0 <= k < i ==> holds(records@, #[trigger] expected@[k]),
{
    let mut i: usize = 0;
    while i < expected.len()
        invariant
            i <= expected@.len(),
            forall|k: int| 0 <= k < i ==> holds(records@, #[trigger] expected@[k]),
        decreases expected@.len() - i,
    {
        let mut j: usize = 0;
        let mut found = false;
        while j < records.len() && !found
            invariant
                i < expected@.len(),
                j <= records@.len(),
                found ==> holds(records@, expected@[i as int]),
                !found ==> forall|k: int| 0 <= k < j ==> !same_nsec3(records@[k], expected@[i as int]),
            decreases records@.len() - j,
        {
            if nsec3_equal(&records[j], &expected[i]) {
                found = true;
            }
            j = j + 1;
        }
        if !found {
            assert(!holds(records@, expected@[i as int]));
            return Some(i);
        }
        i = i + 1;
    }
    None
}

/// ASCII lower case folded to upper case; other bytes unchanged.
pub open spec fn ascii_upper(b: u8) -> u8 {
    if 97 <= b && b <= 122 {
        (b - 32) as u8
    } else {
        b
    }
}

/// A hash label folded to upper case: labels compare without regard to case.
pub open spec fn upper_label(s: Seq<u8>) -> Seq<u8> {
    s.map_values(|b: u8| ascii_upper(b))
}

pub open spec fn owner_of(s: Seq<Nsec3>, i: int) -> Seq<u8> {
    s[i].hashed_owner@
}

/// Owners in non-decreasing byte-wise order.
pub open spec fn sorted_by_owner(s: Seq<Nsec3>) -> bool {
    forall|i: int, j: int| 0 <= i < j < s.len() ==> !lex_lt(owner_of(s, j), owner_of(s, i))
}

/// Owners in strictly increasing byte-wise order: sorted, no owner twice.
pub open spec fn strictly_sorted(s: Seq<Nsec3>) -> bool {
    forall|i: int, j: int| 0 <= i < j < s.len() ==> lex_lt(owner_of(s, i), owner_of(s, j))
}

/// A complete circular chain: non-empty, strictly sorted by owner, and each
/// record names the owner of its successor, the last one the first.
pub open spec fn is_ring(s: Seq<Nsec3>) -> bool {
    &&& s.len() > 0
    &&& strictly_sorted(s)
    &&& forall|i: int| 0 <= i < s.len() ==> #[trigger] s[i].next_hashed_owner@ == owner_of(s, (i + 1) % (s.len() as int))
}

/// `r` covers `h` in ring order: `owner < h <= next`, where the interval
/// runs past the largest hash back to the smallest when `next <= owner`.
pub open spec fn covers(r: Nsec3, h: Seq<u8>) -> bool {
    let o = r.hashed_owner@;
    let n = r.next_hashed_owner@;
    if lex_lt(o, n) {
        lex_lt(o, h) && lex_le(h, n)
    } else {
        lex_lt(o, h) || lex_le(h, n)
    }
}

/// Record `i` is the only one whose owner is `h`.
pub open spec fn sole_owner(s: Seq<Nsec3>, h: Seq<u8>, i: int) -> bool {
    &&& 0 <= i < s.len()
    &&& owner_of(s, i) == h
    &&& forall|j: int| 0 <= j < s.len() && j != i ==> owner_of(s, j) != h
}

/// Record `i` is the first that covers `h`.
pub open spec fn first_cover(s: Seq<Nsec3>, h: Seq<u8>, i: int) -> bool {
    &&& 0 <= i < s.len()
    &&& covers(s[i], h)
    &&& forall|j: int| 0 <= j < i ==> !covers(s[j], h)
}

/// The record whose owner hash is `h`, if exactly one has it.
pub open spec fn match_of(s: Seq<Nsec3>, h: Seq<u8>) -> Option<Nsec3> {
    if exists|i: int| sole_owner(s, h, i) {
        Some(s[choose|i: int| sole_owner(s, h, i)])
    } else {
        None
    }
}

/// The first record that covers `h`, if any does.
pub open spec fn cover_of(s: Seq<Nsec3>, h: Seq<u8>) -> Option<Nsec3> {
    if exists|i: int| first_cover(s, h, i) {
        Some(s[choose|i: int| first_cover(s, h, i)])
    } else {
        None
    }
}

proof fn lemma_ring_next(s: Seq<Nsec3>, i: int)
    requires
        is_ring(s),
        0 <= i < s.len(),
    ensures
        i + 1 < s.len() ==> s[i].next_hashed_owner@ == owner_of(s, i + 1),
        i + 1 == s.len() ==> s[i].next_hashed_owner@ == owner_of(s, 0),
{
    let n = s.len() as int;
    assert(s[i].next_hashed_owner@ == owner_of(s, (i + 1) % n));
    if i + 1 < n {
        vstd::arithmetic::div_mod::lemma_small_mod((i + 1) as nat, n as nat);
    } else {
        vstd::arithmetic::div_mod::lemma_mod_self_0(n);
    }
}

/// What covering means for each record of a ring.
proof fn lemma_cover_shape(s: Seq<Nsec3>, h: Seq<u8>, i: int)
    requires
        is_ring(s),
        0 <= i < s.len(),
    ensures
        i + 1 < s.len() ==> (covers(s[i], h) <==> lex_lt(owner_of(s, i), h) && lex_le(h, owner_of(s, i + 1))),
        i + 1 == s.len() ==> (covers(s[i], h) <==> lex_lt(owner_of(s, i), h) || lex_le(h, owner_of(s, 0))),
{
    lemma_ring_next(s, i);
    let n = s.len() as int;
    if i + 1 < n {
        assert(lex_lt(owner_of(s, i), owner_of(s, i + 1)));
    } else if n > 1 {
        assert(lex_lt(owner_of(s, 0), owner_of(s, n - 1)));
        lemma_lex_trichotomy(owner_of(s, 0), owner_of(s, n - 1));
    } else {
        lemma_lex_irreflexive(owner_of(s, 0));
    }
}

/// Owners of a ring are ordered along their positions.
proof fn lemma_ring_le(s: Seq<Nsec3>, i: int, j: int)
    requires
        is_ring(s),
        0 <= i <= j < s.len(),
    ensures
        lex_le(owner_of(s, i), owner_of(s, j)),
{
}

proof fn lemma_gap(s: Seq<Nsec3>, h: Seq<u8>, i: int)
    requires
        is_ring(s),
        0 <= i < s.len() - 1,
        lex_lt(owner_of(s, i), h),
        lex_le(h, owner_of(s, s.len() - 1)),
    ensures
        exists|j: int| 0 <= j < s.len() && covers(s[j], h),
    decreases s.len() - i,
{
    lemma_cover_shape(s, h, i);
    lemma_lex_trichotomy(h, owner_of(s, i + 1));
    if lex_le(h, owner_of(s, i + 1)) {
        assert(covers(s[i], h));
    } else if i + 1 == s.len() - 1 {
        lemma_lex_trichotomy(h, owner_of(s, i + 1));
    } else {
        lemma_gap(s, h, i + 1);
    }
}

proof fn lemma_two_covers(s: Seq<Nsec3>, h: Seq<u8>, i: int, j: int)
    requires
        is_ring(s),
        0 <= i < j < s.len(),
    ensures
        !(covers(s[i], h) && covers(s[j], h)),
{
    if covers(s[i], h) && covers(s[j], h) {
        lemma_two_covers_absurd(s, h, i, j);
    }
}

proof fn lemma_two_covers_absurd(s: Seq<Nsec3>, h: Seq<u8>, i: int, j: int)
    requires
        is_ring(s),
        0 <= i < j < s.len(),
        covers(s[i], h),
    ensures
        !covers(s[j], h),
{
    if covers(s[j], h) {
        let n = s.len() as int;
        lemma_cover_shape(s, h, i);
        lemma_cover_shape(s, h, j);
        lemma_lex_irreflexive(h);
        lemma_ring_le(s, i + 1, j);
        // h <= owner(i + 1) <= owner(j)
        if h == owner_of(s, i + 1) {
            assert(lex_le(h, owner_of(s, j)));
        } else {
            lemma_lex_lt_le(h, owner_of(s, i + 1), owner_of(s, j));
        }
        if j + 1 < n || lex_lt(owner_of(s, j), h) {
            lemma_lex_le_lt(h, owner_of(s, j), h);
        } else {
            lemma_ring_le(s, 0, i);
            lemma_lex_le_lt(owner_of(s, 0), owner_of(s, i), h);
            lemma_lex_le_lt(h, owner_of(s, 0), h);
        }
    }
}

/// In a complete ring every hash is covered by exactly one record; hashes
/// below the smallest owner are covered by the record that wraps from the
/// largest owner back to the smallest. So `find_cover` never fails on a ring.
pub proof fn lemma_ring_cover_total(s: Seq<Nsec3>, h: Seq<u8>)
    requires
        is_ring(s),
    ensures
        exists|i: int| 0 <= i < s.len() && covers(s[i], h),
        forall|i: int, j: int|
            0 <= i < s.len() && 0 <= j < s.len() && covers(#[trigger] s[i], h) && covers(#[trigger] s[j], h) ==> i == j,
        cover_of(s, h) is Some,
{
    let n = s.len() as int;
    lemma_cover_shape(s, h, n - 1);
    lemma_lex_trichotomy(h, owner_of(s, 0));
    lemma_lex_trichotomy(h, owner_of(s, n - 1));
    if lex_le(h, owner_of(s, 0)) || lex_lt(owner_of(s, n - 1), h) {
        assert(covers(s[n - 1], h));
    } else {
        if n == 1 {
            lemma_lex_trichotomy(h, owner_of(s, 0));
        }
        lemma_gap(s, h, 0);
    }
    assert forall|i: int, j: int|
        0 <= i < s.len() && 0 <= j < s.len() && covers(#[trigger] s[i], h) && covers(#[trigger] s[j], h) implies i == j by {
        if i < j {
            lemma_two_covers(s, h, i, j);
        } else if j < i {
            lemma_two_covers(s, h, j, i);
        }
    }
    let k = choose|k: int| 0 <= k < s.len() && covers(s[k], h);
    assert(first_cover(s, h, k));
}

/// In a ring every owner hash belongs to exactly one record, so a hash has a
/// match exactly when it is some record's owner.
pub proof fn lemma_ring_match(s: Seq<Nsec3>, h: Seq<u8>)
    requires
        is_ring(s),
    ensures
        match_of(s, h) is Some <==> exists|i: int| 0 <= i < s.len() && owner_of(s, i) == h,
{
    if exists|i: int| 0 <= i < s.len() && owner_of(s, i) == h {
        let i = choose|i: int| 0 <= i < s.len() && owner_of(s, i) == h;
        assert forall|j: int| 0 <= j < s.len() && j != i implies owner_of(s, j) != h by {
            if j < i {
                assert(lex_lt(owner_of(s, j), owner_of(s, i)));
            } else {
                assert(lex_lt(owner_of(s, i), owner_of(s, j)));
            }
            lemma_lex_irreflexive(h);
        }
        assert(sole_owner(s, h, i));
    }
}

/// Folds a hash label to upper case.
pub fn to_upper_label(h: &[u8]) -> (r: Vec<u8>)
    ensures
        r@ == upper_label(h@),
{
    let mut out: Vec<u8> = Vec::new();
    let mut k: usize = 0;
    while k < h.len()
        invariant
            k <= h@.len(),
            out@ == upper_label(h@).subrange(0, k as int),
        decreases h@.len() - k,
    {
        let b = h[k];
        let c: u8 = if 97 <= b && b <= 122 { b - 32 } else { b };
        out.push(c);
        assert(upper_label(h@).subrange(0, k + 1) =~= upper_label(h@).subrange(0, k as int).push(c));
        k = k + 1;
    }
    assert(upper_label(h@).subrange(0, k as int) =~= upper_label(h@));
    out
}

/// Sorts records by owner hash. The result holds the same records.
pub fn sort_by_owner(records: Vec<Nsec3>) -> (r: Vec<Nsec3>)
    ensures
        r@.to_multiset() == records@.to_multiset(),
        r@.len() == records@.len(),
        sorted_by_owner(r@),
{
    let mut input = records;
    let mut out: Vec<Nsec3> = Vec::new();
    assert(out@.to_multiset().add(input@.to_multiset()) =~= records@.to_multiset());
    while input.len() > 0
        invariant
            out@.to_multiset().add(input@.to_multiset()) == records@.to_multiset(),
            sorted_by_owner(out@),
        decreases input@.len(),
    {
        let last = input.len() - 1;
        let x = input.remove(last);
        let mut j: usize = 0;
        while j < out.len() && !lex_less(x.hashed_owner.as_slice(), out[j].hashed_owner.as_slice())
            invariant
                j <= out@.len(),
                forall|k: int| 0 <= k < j ==> !lex_lt(x.hashed_owner@, #[trigger] owner_of(out@, k)),
            decreases out@.len() - j,
        {
            j = j + 1;
        }
        let ghost old_out = out@;
        out.insert(j, x);
        assert forall|a: int, b: int| 0 <= a < b < out@.len() implies !lex_lt(owner_of(out@, b), owner_of(out@, a)) by {
            if b < j {
                assert(owner_of(out@, a) == owner_of(old_out, a));
                assert(owner_of(out@, b) == owner_of(old_out, b));
            } else if b == j {
                assert(owner_of(out@, a) == owner_of(old_out, a));
                lemma_lex_not_lt(x.hashed_owner@, owner_of(old_out, a));
                lemma_lex_trichotomy(owner_of(old_out, a), x.hashed_owner@);
            } else if a == j {
                assert(owner_of(out@, b) == owner_of(old_out, b - 1));
                // x < old_out[j] <= old_out[b - 1]
                lemma_lex_not_lt(owner_of(old_out, b - 1), owner_of(old_out, j as int));
                lemma_lex_lt_le(x.hashed_owner@, owner_of(old_out, j as int), owner_of(old_out, b - 1));
                lemma_lex_trichotomy(x.hashed_owner@, owner_of(old_out, b - 1));
            } else if a < j {
                assert(owner_of(out@, a) == owner_of(old_out, a));
                assert(owner_of(out@, b) == owner_of(old_out, b - 1));
            } else {
                assert(owner_of(out@, a) == owner_of(old_out, a - 1));
                assert(owner_of(out@, b) == owner_of(old_out, b - 1));
            }
        }
        assert(out@.to_multiset().add(input@.to_multiset()) =~= records@.to_multiset());
    }
    assert(input@.to_multiset() =~= Multiset::<Nsec3>::empty());
    assert(out@.to_multiset().add(input@.to_multiset()) =~= out@.to_multiset());
    assert(out@.to_multiset().len() == out@.len());
    assert(records@.to_multiset().len() == records@.len());
    out
}

/// A zone's NSEC3 records, sorted by owner hash, answering the lookups that
/// denial-of-existence proofs are made of.
pub struct Nsec3Records {
    pub records: Vec<Nsec3>,
}

/// Every owner label is in upper case.
pub open spec fn upper_owners(s: Seq<Nsec3>) -> bool {
    forall|i: int| 0 <= i < s.len() ==> upper_label(#[trigger] owner_of(s, i)) == owner_of(s, i)
}

/// `a` is `b` with its owner and next-owner labels folded to upper case.
pub open spec fn folded_from(a: Nsec3, b: Nsec3) -> bool {
    &&& a.zone@ == b.zone@
    &&& a.hashed_owner@ == upper_label(b.hashed_owner@)
    &&& a.next_hashed_owner@ == upper_label(b.next_hashed_owner@)
    &&& a.hash_algorithm == b.hash_algorithm
    &&& a.flags == b.flags
    &&& a.iterations == b.iterations
    &&& a.salt@ == b.salt@
    &&& a.types@ == b.types@
    &&& a.ttl == b.ttl
}

/// `x` is one of `records`, folded.
pub open spec fn folded_in(x: Nsec3, records: Seq<Nsec3>) -> bool {
    exists|j: int| 0 <= j < records.len() && folded_from(x, records[j])
}

/// `y`, folded, is one of `index`.
pub open spec fn reaches(index: Seq<Nsec3>, y: Nsec3) -> bool {
    exists|i: int| 0 <= i < index.len() && folded_from(index[i], y)
}

pub proof fn lemma_upper_idempotent(s: Seq<u8>)
    ensures
        upper_label(upper_label(s)) == upper_label(s),
{
    assert(upper_label(upper_label(s)) =~= upper_label(s));
}

impl Nsec3 {
    /// This record with its owner and next-owner labels in upper case.
    pub fn folded(&self) -> (r: Nsec3)
        ensures
            folded_from(r, *self),
    {
        let d = self.duplicate();
        Nsec3 {
            zone: d.zone,
            hashed_owner: to_upper_label(self.hashed_owner.as_slice()),
            next_hashed_owner: to_upper_label(self.next_hashed_owner.as_slice()),
            hash_algorithm: d.hash_algorithm,
            flags: d.flags,
            iterations: d.iterations,
            salt: d.salt,
            types: d.types,
            ttl: d.ttl,
        }
    }
}

impl Nsec3Records {
    /// Sorted by owner hash, owner labels in upper case.
    pub open spec fn wf(&self) -> bool {
        &&& sorted_by_owner(self.records@)
        &&& upper_owners(self.records@)
    }

    /// Indexes the given records, their hash labels folded to upper case
    /// (hash labels compare without regard to case). The index holds one
    /// folded record per given record: every index record comes from a given
    /// one, and every given one reaches the index.
    pub fn new(records: Vec<Nsec3>) -> (r: Nsec3Records)
        ensures
            r.wf(),
            r.records@.len() == records@.len(),
            forall|i: int| 0 <= i < r.records@.len() ==> folded_in(#[trigger] r.records@[i], records@),
            forall|j: int| 0 <= j < records@.len() ==> reaches(r.records@, #[trigger] records@[j]),
    {
        let mut folded: Vec<Nsec3> = Vec::new();
        let mut i: usize = 0;
        while i < records.len()
            invariant
                i <= records@.len(),
                folded@.len() == i,
                forall|k: int| 0 <= k < i ==> folded_from(#[trigger] folded@[k], records@[k]),
            decreases records@.len() - i,
        {
            folded.push(records[i].folded());
            i = i + 1;
        }
        let ghost f = folded@;
        let sorted = sort_by_owner(folded);
        let ghost srt = sorted@;
        proof {
            broadcast use vstd::seq_lib::group_to_multiset_ensures;
            assert forall|i: int| 0 <= i < srt.len() implies folded_in(#[trigger] srt[i], records@)
                && upper_label(owner_of(srt, i)) == owner_of(srt, i) by {
                assert(srt.to_multiset().count(srt[i]) > 0);
                assert(f.to_multiset().count(srt[i]) > 0);
                assert(f.contains(srt[i]));
                let j = choose|j: int| 0 <= j < f.len() && f[j] == srt[i];
                assert(folded_from(srt[i], records@[j]));
                lemma_upper_idempotent(records@[j].hashed_owner@);
            }
            assert forall|j: int| 0 <= j < records@.len() implies reaches(srt, #[trigger] records@[j]) by {
                assert(f.to_multiset().count(f[j]) > 0);
                assert(srt.to_multiset().count(f[j]) > 0);
                assert(srt.contains(f[j]));
                let i = choose|i: int| 0 <= i < srt.len() && srt[i] == f[j];
                assert(folded_from(srt[i], records@[j]));
            }
        }
        Nsec3Records { records: sorted }
    }

    pub fn len(&self) -> (r: usize)
        ensures
            r == self.records@.len(),
    {
        self.records.len()
    }

    /// The position of the first record whose owner hash is not below `h`,
    /// found by binary search.
    fn lower_bound(&self, h: &[u8]) -> (i: usize)
        requires
            self.wf(),
        ensures
            i <= self.records@.len(),
            forall|k: int| 0 <= k < i ==> lex_lt(#[trigger] owner_of(self.records@, k), h@),
            forall|k: int| i <= k < self.records@.len() ==> !lex_lt(#[trigger] owner_of(self.records@, k), h@),
    {
        let ghost s = self.records@;
        let mut lo: usize = 0;
        let mut hi: usize = self.records.len();
        while lo < hi
            invariant
                s == self.records@,
                sorted_by_owner(s),
                lo <= hi <= s.len(),
                forall|k: int| 0 <= k < lo ==> lex_lt(#[trigger] owner_of(s, k), h@),
                forall|k: int| hi <= k < s.len() ==> !lex_lt(#[trigger] owner_of(s, k), h@),
            decreases hi - lo,
        {
            let mid = lo + (hi - lo) / 2;
            if lex_less(self.records[mid].hashed_owner.as_slice(), h) {
                assert forall|k: int| 0 <= k <= mid implies lex_lt(#[trigger] owner_of(s, k), h@) by {
                    if k < mid {
                        lemma_lex_not_lt(owner_of(s, mid as int), owner_of(s, k));
                        lemma_lex_le_lt(owner_of(s, k), owner_of(s, mid as int), h@);
                    }
                }
                lo = mid + 1;
            } else {
                assert forall|k: int| mid <= k < s.len() implies !lex_lt(#[trigger] owner_of(s, k), h@) by {
                    if k > mid {
                        lemma_lex_not_lt(owner_of(s, k), owner_of(s, mid as int));
                        if lex_lt(owner_of(s, k), h@) {
                            lemma_lex_le_lt(owner_of(s, mid as int), owner_of(s, k), h@);
                        }
                    }
                }
                hi = mid;
            }
        }
        lo
    }

    /// The record whose owner hash is `hash` (without regard to case: the
    /// index holds upper-case owners and the query is folded too), if
    /// exactly one record has that owner hash. A binary search over the
    /// owner order.
    pub fn find_match(&self, hash: &[u8]) -> (r: Option<&Nsec3>)
        requires
            self.wf(),
        ensures
            r is None <==> match_of(self.records@, upper_label(hash@)) is None,
            r matches Some(x) ==> match_of(self.records@, upper_label(hash@)) == Some(*x),
    {
        let h = to_upper_label(hash);
        let ghost s = self.records@;
        let n = self.records.len();
        let i = self.lower_bound(h.as_slice());
        proof { lemma_lex_irreflexive(h@); }
        if i == n || !bytes_equal(self.records[i].hashed_owner.as_slice(), h.as_slice()) {
            assert forall|k: int| 0 <= k < n implies owner_of(s, k) != h@ by {
                if k >= i {
                    lemma_lex_not_lt(owner_of(s, k), owner_of(s, i as int));
                    lemma_lex_not_lt(owner_of(s, i as int), h@);
                    if owner_of(s, k) == h@ {
                        lemma_lex_trichotomy(owner_of(s, i as int), h@);
                        lemma_lex_transitive(h@, owner_of(s, i as int), owner_of(s, k));
                    }
                }
            }
            assert(!exists|k: int| sole_owner(s, h@, k));
            return None;
        }
        if i + 1 < n && bytes_equal(self.records[i + 1].hashed_owner.as_slice(), h.as_slice()) {
            assert(!exists|k: int| sole_owner(s, h@, k)) by {
                assert forall|k: int| !sole_owner(s, h@, k) by {
                    if k != i {
                        assert(owner_of(s, i as int) == h@);
                    } else {
                        assert(owner_of(s, i + 1) == h@);
                    }
                }
            }
            return None;
        }
        assert forall|k: int| 0 <= k < n && k != i implies owner_of(s, k) != h@ by {
            if k > i + 1 {
                // h < owner(i + 1) <= owner(k)
                lemma_lex_not_lt(owner_of(s, i + 1), h@);
                lemma_lex_not_lt(owner_of(s, k), owner_of(s, i + 1));
                if owner_of(s, k) == h@ {
                    lemma_lex_trichotomy(owner_of(s, i + 1), h@);
                    lemma_lex_trichotomy(owner_of(s, k), owner_of(s, i + 1));
                }
            }
        }
        assert(sole_owner(s, h@, i as int));
        assert forall|k: int| sole_owner(s, h@, k) implies k == i by {}
        Some(&self.records[i])
    }

    /// The first record that covers `hash` (without regard to case) in ring
    /// order, if any does.
    pub fn find_cover(&self, hash: &[u8]) -> (r: Option<&Nsec3>)
        ensures
            r is None <==> cover_of(self.records@, upper_label(hash@)) is None,
            r matches Some(x) ==> cover_of(self.records@, upper_label(hash@)) == Some(*x),
    {
        let h = to_upper_label(hash);
        let ghost s = self.records@;
        let n = self.records.len();
        let mut i: usize = 0;
        while i < n
            invariant
                n == s.len(),
                s == self.records@,
                h@ == upper_label(hash@),
                i <= n,
                forall|k: int| 0 <= k < i ==> !covers(#[trigger] s[k], h@),
            decreases n - i,
        {
            let r = &self.records[i];
            let o = r.hashed_owner.as_slice();
            let nx = r.next_hashed_owner.as_slice();
            let below_h = lex_less(o, h.as_slice());
            let within_next = bytes_equal(h.as_slice(), nx) || lex_less(h.as_slice(), nx);
            let c = if lex_less(o, nx) {
                below_h && within_next
            } else {
                below_h || within_next
            };
            assert(within_next == lex_le(h@, r.next_hashed_owner@));
            assert(c == covers(s[i as int], h@));
            if c {
                assert(first_cover(s, h@, i as int));
                assert forall|k: int| first_cover(s, h@, k) implies k == i by {
                    if k < i {
                    } else if k > i {
                        assert(covers(s[i as int], h@));
                    }
                }
                return Some(r);
            }
            i = i + 1;
        }
        None
    }

    /// A closest-encloser proof: the record matching the closest encloser's
    /// hash and the record covering the next closer name's hash. Fails with
    /// `ProofNotFound`, carrying the hash that had no record, when either
    /// lookup fails.
    pub fn closest_encloser_proof(
        &self,
        closest_encloser_hash: &[u8],
        next_closer_hash: &[u8],
    ) -> (r: Result<(&Nsec3, &Nsec3), Error>)
        requires
            self.wf(),
        ensures
            r is Ok <==> (match_of(self.records@, upper_label(closest_encloser_hash@)) is Some
                && cover_of(self.records@, upper_label(next_closer_hash@)) is Some),
            r matches Ok((m, c)) ==> (match_of(self.records@, upper_label(closest_encloser_hash@))
                == Some(*m) && cover_of(self.records@, upper_label(next_closer_hash@)) == Some(*c)),
            r matches Err(e) ==> (if match_of(self.records@, upper_label(closest_encloser_hash@)) is None {
                e == (Error::ProofNotFound { hash: e->hash }) && e->hash@ == closest_encloser_hash@
            } else {
                e == (Error::ProofNotFound { hash: e->hash }) && e->hash@ == next_closer_hash@
            }),
    {
        let m = match self.find_match(closest_encloser_hash) {
            Some(m) => m,
            None => {
                return Err(Error::ProofNotFound { hash: copy_bytes(closest_encloser_hash) });
            },
        };
        let c = match self.find_cover(next_closer_hash) {
            Some(c) => c,
            None => {
                return Err(Error::ProofNotFound { hash: copy_bytes(next_closer_hash) });
            },
        };
        Ok((m, c))
    }
}

} // verus!
