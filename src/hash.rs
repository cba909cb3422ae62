//! The iterated NSEC3 hash (RFC 5155, section 5) over canonical names.

use vstd::prelude::*;
use crate::base32::{base32hex, encode_base32hex};
use crate::name::{wire_of, Fqdn, lower_label};

verus! {

/// The NSEC3 hash algorithm number of SHA-1, the only one defined.
pub const SHA1_ALGORITHM: u8 = 1;

/// The SHA-1 digest of a byte string.
pub uninterp spec fn sha1_of(data: Seq<u8>) -> Seq<u8>;

/// Relies on sha1_smol: `Sha1::from(data).digest().bytes()` is the SHA-1
/// digest of `data`, 20 bytes long. The length counter of that crate is a
/// `u64` of bits, hence the bound on the input.
#[verifier::external_body]
pub(crate) fn sha1(data: &[u8]) -> (r: Vec<u8>)
    requires
        data@.len() < 0x1000_0000_0000_0000,
    ensures
        r@ == sha1_of(data@),
        r@.len() == 20,
{
    sha1_smol::Sha1::from(data).digest().bytes().to_vec()
}

/// h(0) = SHA-1(wire ‖ salt); h(k) = SHA-1(h(k - 1) ‖ salt).
pub open spec fn iterated_digest(wire: Seq<u8>, salt: Seq<u8>, iterations: nat) -> Seq<u8>
    decreases iterations,
{
    if iterations == 0 {
        sha1_of(wire + salt)
    } else {
        sha1_of(iterated_digest(wire, salt, (iterations - 1) as nat) + salt)
    }
}

/// The hashed owner label of a name: base32hex of the iterated digest of its
/// canonical wire form.
pub open spec fn nsec3_label(name: Seq<Seq<u8>>, iterations: nat, salt: Seq<u8>) -> Seq<u8> {
    base32hex(iterated_digest(wire_of(name, true), salt, iterations))
}

/// NSEC3 hash of `name` under (`algorithm`, `iterations`, `salt`), as an
/// upper-case base32hex label. `None` exactly when the algorithm is not SHA-1.
pub fn nsec3_hash(name: &Fqdn, algorithm: u8, iterations: u16, salt: &[u8]) -> (r: Option<Vec<u8>>)
    requires
        name.wf(),
        salt@.len() <= 255,
    ensures
        algorithm != SHA1_ALGORITHM <==> r is None,
        r matches Some(h) ==> h@ == nsec3_label(name@, iterations as nat, salt@),
{
    if algorithm != SHA1_ALGORITHM {
        return None;
    }
    let wire = name.canonical_wire();
    proof { crate::name::lemma_wire_bound(name@); }
    let mut input = wire;
    let mut k: usize = 0;
    while k < salt.len()
        invariant
            k <= salt@.len(),
            input@ == wire_of(name@, true) + salt@.subrange(0, k as int),
        decreases salt@.len() - k,
    {
        input.push(salt[k]);
        assert(salt@.subrange(0, k + 1) =~= salt@.subrange(0, k as int).push(salt@[k as int]));
        k = k + 1;
    }
    assert(salt@.subrange(0, k as int) =~= salt@);
    let mut digest = sha1(input.as_slice());
    let mut round: u16 = 0;
    while round < iterations
        invariant
            round <= iterations,
            digest@ == iterated_digest(wire_of(name@, true), salt@, round as nat),
            digest@.len() == 20,
            salt@.len() <= 255,
        decreases iterations - round,
    {
        let mut next = digest;
        let mut j: usize = 0;
        let ghost d = next@;
        while j < salt.len()
            invariant
                j <= salt@.len(),
                next@ == d + salt@.subrange(0, j as int),
                d.len() == 20,
                salt@.len() <= 255,
            decreases salt@.len() - j,
        {
            next.push(salt[j]);
            assert(salt@.subrange(0, j + 1) =~= salt@.subrange(0, j as int).push(salt@[j as int]));
            j = j + 1;
        }
        assert(salt@.subrange(0, j as int) =~= salt@);
        digest = sha1(next.as_slice());
        round = round + 1;
    }
    Some(encode_base32hex(digest.as_slice()))
}

/// Hashing is a function of its inputs: the same name, iteration count and
/// salt give the same label, and so do names that differ only in ASCII case.
pub proof fn lemma_hash_is_pure(
    a: Seq<Seq<u8>>,
    b: Seq<Seq<u8>>,
    iterations: nat,
    salt: Seq<u8>,
)
    requires
        a.len() == b.len(),
        forall|i: int| 0 <= i < a.len() ==> lower_label(#[trigger] a[i]) == lower_label(b[i]),
    ensures
        nsec3_label(a, iterations, salt) == nsec3_label(b, iterations, salt),
{
    lemma_canonical_wire_case(a, b);
}

proof fn lemma_canonical_wire_case(a: Seq<Seq<u8>>, b: Seq<Seq<u8>>)
    requires
        a.len() == b.len(),
        forall|i: int| 0 <= i < a.len() ==> lower_label(#[trigger] a[i]) == lower_label(b[i]),
    ensures
        wire_of(a, true) == wire_of(b, true),
    decreases a.len(),
{
    if a.len() > 0 {
        assert(lower_label(a[0]) == lower_label(b[0]));
        assert(lower_label(a[0]).len() == a[0].len());
        assert(lower_label(b[0]).len() == b[0].len());
        assert forall|i: int| 0 <= i < a.drop_first().len() implies lower_label(#[trigger] a.drop_first()[i]) == lower_label(b.drop_first()[i]) by {
            assert(a.drop_first()[i] == a[i + 1]);
            assert(b.drop_first()[i] == b[i + 1]);
        }
        lemma_canonical_wire_case(a.drop_first(), b.drop_first());
    }
}

} // verus!
