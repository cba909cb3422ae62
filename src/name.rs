//! Fully-qualified domain names and their canonical wire form.

use vstd::prelude::*;
use crate::lex::copy_bytes;
use vstd::string::StringSliceAdditionalSpecFns;

verus! {

/// The longest label DNS allows, in bytes.
pub const MAX_LABEL_LEN: usize = 63;

/// The longest name DNS allows, in bytes of wire form.
pub const MAX_WIRE_LEN: usize = 255;

/// ASCII upper case folded to lower case; other bytes unchanged.
pub open spec fn ascii_lower(b: u8) -> u8 {
    if 65 <= b && b <= 90 {
        (b + 32) as u8
    } else {
        b
    }
}

/// A label folded to lower case byte by byte.
pub open spec fn lower_label(l: Seq<u8>) -> Seq<u8> {
    l.map_values(|b: u8| ascii_lower(b))
}

/// Wire form of a label sequence: each label as a length byte followed by its
/// bytes, then the zero-length root label. `fold` selects canonical case.
pub open spec fn wire_of(labels: Seq<Seq<u8>>, fold: bool) -> Seq<u8>
    decreases labels.len(),
{
    if labels.len() == 0 {
        seq![0u8]
    } else {
        seq![labels[0].len() as u8] + (if fold {
            lower_label(labels[0])
        } else {
            labels[0]
        }) + wire_of(labels.drop_first(), fold)
    }
}

/// A label that DNS accepts in presentation form: non-empty, at most
/// `MAX_LABEL_LEN` bytes, and free of the separator `.`.
pub open spec fn label_ok(l: Seq<u8>) -> bool {
    &&& 0 < l.len() <= MAX_LABEL_LEN
    &&& forall|k: int| 0 <= k < l.len() ==> l[k] != 46u8
}

/// A well-formed name: every label acceptable and the wire form within
/// `MAX_WIRE_LEN` bytes.
pub open spec fn labels_ok(labels: Seq<Seq<u8>>) -> bool {
    &&& forall|i: int| 0 <= i < labels.len() ==> label_ok(#[trigger] labels[i])
    &&& wire_of(labels, false).len() <= MAX_WIRE_LEN
}

/// Presentation text of a name: each label followed by a dot; the root is `.`.
pub open spec fn text_of(labels: Seq<Seq<u8>>) -> Seq<u8> {
    if labels.len() == 0 {
        seq![46u8]
    } else {
        dotted(labels)
    }
}

pub open spec fn dotted(labels: Seq<Seq<u8>>) -> Seq<u8>
    decreases labels.len(),
{
    if labels.len() == 0 {
        Seq::empty()
    } else {
        dotted(labels.drop_last()) + labels.last() + seq![46u8]
    }
}

/// Splits presentation text at each dot: the labels closed by a dot so far,
/// and the bytes after the last dot.
pub open spec fn split_text(s: Seq<u8>) -> (Seq<Seq<u8>>, Seq<u8>)
    decreases s.len(),
{
    if s.len() == 0 {
        (Seq::empty(), Seq::empty())
    } else {
        let (done, cur) = split_text(s.drop_last());
        if s.last() == 46u8 {
            (done.push(cur), Seq::empty())
        } else {
            (done, cur.push(s.last()))
        }
    }
}

/// Text that names a domain: the root `.`, or labels each closed by a dot,
/// every label acceptable and the name within the wire-length limit.
pub open spec fn text_ok(s: Seq<u8>) -> bool {
    s == seq![46u8] || {
        let (done, cur) = split_text(s);
        &&& cur.len() == 0
        &&& done.len() > 0
        &&& labels_ok(done)
    }
}

/// The labels that text names.
pub open spec fn text_labels(s: Seq<u8>) -> Seq<Seq<u8>> {
    if s == seq![46u8] {
        Seq::empty()
    } else {
        split_text(s).0
    }
}

proof fn lemma_split_text(s: Seq<u8>)
    ensures
        dotted(split_text(s).0) + split_text(s).1 == s,
        forall|k: int| 0 <= k < split_text(s).1.len() ==> split_text(s).1[k] != 46u8,
    decreases s.len(),
{
    if s.len() > 0 {
        lemma_split_text(s.drop_last());
        let (done, cur) = split_text(s.drop_last());
        if s.last() == 46u8 {
            assert(done.push(cur).drop_last() =~= done);
            assert(dotted(done.push(cur)) == dotted(done) + cur + seq![46u8]);
            assert(s =~= s.drop_last().push(s.last()));
            assert(dotted(split_text(s).0) + split_text(s).1 =~= s);
        } else {
            assert(s =~= s.drop_last().push(s.last()));
            assert(dotted(split_text(s).0) + split_text(s).1 =~= s);
        }
    }
}

/// A fully-qualified domain name, as its labels from the leftmost one to the
/// one just below the root. The root itself has no labels.
#[derive(Debug, Clone, PartialEq, Eq)]
pub struct Fqdn {
    pub labels: Vec<Vec<u8>>,
}

impl View for Fqdn {
    type V = Seq<Seq<u8>>;

    open spec fn view(&self) -> Seq<Seq<u8>> {
        self.labels@.map_values(|l: Vec<u8>| l@)
    }
}

impl Fqdn {
    pub open spec fn wf(&self) -> bool {
        labels_ok(self@)
    }

    /// The root name `.`.
    pub fn root() -> (r: Fqdn)
        ensures
            r@ == Seq::<Seq<u8>>::empty(),
            r.wf(),
    {
        let r = Fqdn { labels: Vec::new() };
        assert(r@ =~= Seq::<Seq<u8>>::empty());
        r
    }

    /// Parses presentation text such as `alice.com.` or `.`. Succeeds
    /// exactly on `text_ok` text, with the labels between the dots.
    #[verifier::loop_isolation(false)]
    pub fn parse(text: &str) -> (r: Result<Fqdn, crate::error::Error>)
        ensures
            r is Ok <==> text_ok(text.spec_bytes()),
            r matches Ok(f) ==> f@ == text_labels(text.spec_bytes()) && f.wf() && text_of(f@) == text.spec_bytes(),
            r is Err ==> r == Err::<Fqdn, crate::error::Error>(crate::error::Error::InvalidName),
    {
        let b = text.as_bytes();
        let ghost s = b@;
        if b.len() == 1 && b[0] == 46u8 {
            assert(s =~= seq![46u8]);
            return Ok(Fqdn::root());
        }
        assert(s != seq![46u8]);
        let mut labels: Vec<Vec<u8>> = Vec::new();
        let mut cur: Vec<u8> = Vec::new();
        let mut i: usize = 0;
        assert(s.subrange(0, 0) =~= Seq::<u8>::empty());
        while i < b.len()
            invariant
                i <= s.len(),
                b@ == s,
                labels@.map_values(|l: Vec<u8>| l@) == split_text(s.subrange(0, i as int)).0,
                cur@ == split_text(s.subrange(0, i as int)).1,
            decreases s.len() - i,
        {
            assert(s.subrange(0, i + 1).drop_last() =~= s.subrange(0, i as int));
            let c = b[i];
            if c == 46u8 {
                let done = cur;
                cur = Vec::new();
                labels.push(done);
                assert(labels@.map_values(|l: Vec<u8>| l@) =~= split_text(s.subrange(0, i + 1)).0);
            } else {
                cur.push(c);
            }
            i = i + 1;
        }
        assert(s.subrange(0, i as int) =~= s);
        proof { lemma_split_text(s); }
        if cur.len() != 0 || labels.len() == 0 {
            return Err(crate::error::Error::InvalidName);
        }
        let f = Fqdn { labels };
        assert(f@ == split_text(s).0);
        let mut k: usize = 0;
        while k < f.labels.len()
            invariant
                k <= f@.len(),
                forall|j: int| 0 <= j < k ==> label_ok(#[trigger] f@[j]),
            decreases f@.len() - k,
        {
            let l = &f.labels[k];
            assert(l@ == f@[k as int]);
            if l.len() == 0 || l.len() > MAX_LABEL_LEN {
                assert(!label_ok(f@[k as int]));
                return Err(crate::error::Error::InvalidName);
            }
            let mut m: usize = 0;
            while m < l.len()
                invariant
                    m <= l@.len(),
                    forall|j: int| 0 <= j < m ==> l@[j] != 46u8,
                decreases l@.len() - m,
            {
                if l[m] == 46u8 {
                    assert(!label_ok(f@[k as int]));
                    return Err(crate::error::Error::InvalidName);
                }
                m = m + 1;
            }
            k = k + 1;
        }
        let w = f.canonical_wire();
        proof { lemma_wire_len_labels(f@, true); }
        if w.len() > MAX_WIRE_LEN {
            return Err(crate::error::Error::InvalidName);
        }
        Ok(f)
    }

    /// The child name with `label` prepended (`push_label(b"www")` on
    /// `alice.com.` gives `www.alice.com.`), if it is well formed.
    #[verifier::loop_isolation(false)]
    pub fn push_label(&self, label: &[u8]) -> (r: Option<Fqdn>)
        requires
            self.wf(),
        ensures
            r is Some <==> labels_ok(seq![label@] + self@),
            r matches Some(f) ==> f@ == seq![label@] + self@,
    {
        let mut labels: Vec<Vec<u8>> = Vec::new();
        labels.push(copy_bytes(label));
        let d = self.duplicate();
        let mut rest = d.labels;
        let ghost zl = rest@;
        let ghost mut i: int = 0;
        while rest.len() > 0
            invariant
                labels@.len() == 1 + i,
                labels@[0]@ == label@,
                0 <= i <= zl.len(),
                i + rest@.len() == zl.len(),
                rest@ == zl.subrange(i, zl.len() as int),
                forall|k: int| 0 <= k < i ==> (#[trigger] labels@[k + 1])@ == zl[k]@,
            decreases rest@.len(),
        {
            let l = rest.remove(0);
            labels.push(l);
            proof {
                assert(rest@ =~= zl.subrange(i + 1, zl.len() as int));
                i = i + 1;
            }
        }
        let f = Fqdn { labels };
        assert forall|k: int| 0 <= k < zl.len() implies f@[k + 1] == d@[k] by {
            assert(labels@[k + 1]@ == zl[k]@);
        }
        assert(f@ =~= seq![label@] + self@);
        if label.len() == 0 || label.len() > MAX_LABEL_LEN {
            assert(!label_ok(f@[0]));
            return None;
        }
        let mut m: usize = 0;
        while m < label.len()
            invariant
                m <= label@.len(),
                forall|j: int| 0 <= j < m ==> label@[j] != 46u8,
            decreases label@.len() - m,
        {
            if label[m] == 46u8 {
                assert(!label_ok(f@[0]));
                return None;
            }
            m = m + 1;
        }
        assert(label_ok(f@[0]));
        assert forall|k: int| 0 <= k < f@.len() implies label_ok(#[trigger] f@[k]) by {
            if k > 0 {
                assert(f@[k] == self@[k - 1]);
            }
        }
        let w = f.canonical_wire();
        proof { lemma_wire_len_labels(f@, true); }
        if w.len() > MAX_WIRE_LEN {
            return None;
        }
        Some(f)
    }

    /// The ancestor of this name `k` labels up (`k == 0` is the name itself).
    pub fn suffix(&self, k: usize) -> (r: Fqdn)
        requires
            k <= self@.len(),
        ensures
            r@ == self@.subrange(k as int, self@.len() as int),
            self.wf() ==> r.wf(),
    {
        let mut labels: Vec<Vec<u8>> = Vec::new();
        let n = self.labels.len();
        let mut i: usize = k;
        while i < n
            invariant
                k <= i <= n,
                n == self@.len(),
                labels@.len() == i - k,
                forall|j: int| 0 <= j < i - k ==> #[trigger] labels@[j]@ == self@[k + j],
            decreases n - i,
        {
            labels.push(copy_bytes(self.labels[i].as_slice()));
            assert(self@[i as int] == self.labels@[i as int]@);
            i = i + 1;
        }
        let r = Fqdn { labels };
        assert(r@ =~= self@.subrange(k as int, n as int));
        proof {
            lemma_wire_suffix(self@, k as int);
            if self.wf() {
                assert forall|j: int| 0 <= j < r@.len() implies label_ok(#[trigger] r@[j]) by {
                    assert(r@[j] == self@[k + j]);
                }
            }
        }
        r
    }

    /// Whether two names have the same labels, byte for byte.
    pub fn same_labels(&self, other: &Fqdn) -> (r: bool)
        ensures
            r == (self@ == other@),
    {
        if self.labels.len() != other.labels.len() {
            return false;
        }
        let mut i: usize = 0;
        while i < self.labels.len()
            invariant
                i <= self@.len(),
                self@.len() == other@.len(),
                forall|k: int| 0 <= k < i ==> self@[k] == other@[k],
            decreases self@.len() - i,
        {
            if !crate::lex::bytes_equal(self.labels[i].as_slice(), other.labels[i].as_slice()) {
                assert(self@[i as int] != other@[i as int]);
                return false;
            }
            i = i + 1;
        }
        assert(self@ =~= other@);
        true
    }

    /// A copy of this name.
    pub fn duplicate(&self) -> (r: Fqdn)
        ensures
            r@ == self@,
    {
        let mut labels: Vec<Vec<u8>> = Vec::new();
        let mut i: usize = 0;
        while i < self.labels.len()
            invariant
                i <= self.labels@.len(),
                labels@.len() == i,
                forall|k: int| 0 <= k < i ==> #[trigger] labels@[k]@ == self@[k],
            decreases self.labels@.len() - i,
        {
            let l = copy_bytes(self.labels[i].as_slice());
            let ghost prev = labels@;
            labels.push(l);
            assert(labels@ == prev.push(l));
            assert(self@[i as int] == self.labels@[i as int]@);
            i = i + 1;
        }
        let r = Fqdn { labels };
        assert(r@ =~= self@);
        r
    }

    /// Canonical wire form: length-prefixed labels folded to lower case,
    /// ending with the root label. This is the input to NSEC3 hashing.
    pub fn canonical_wire(&self) -> (r: Vec<u8>)
        ensures
            r@ == wire_of(self@, true),
    {
        let mut out: Vec<u8> = Vec::new();
        let n = self.labels.len();
        let ghost all = self@;
        let mut i: usize = 0;
        assert(all.subrange(0, n as int) =~= all);
        while i < n
            invariant
                n == self.labels.len(),
                all == self@,
                i <= n,
                out@ + wire_of(all.subrange(i as int, n as int), true) == wire_of(all, true),
            decreases n - i,
        {
            let label = &self.labels[i];
            assert(label@ == all[i as int]);
            let ghost rest = all.subrange(i as int, n as int);
            assert(rest.drop_first() =~= all.subrange(i + 1, n as int));
            assert(rest[0] == all[i as int]);
            let ghost before = out@;
            out.push(label.len() as u8);
            let mut k: usize = 0;
            while k < label.len()
                invariant
                    k <= label.len(),
                    out@ == before + seq![label@.len() as u8] + lower_label(label@).subrange(0, k as int),
                decreases label.len() - k,
            {
                let b = label[k];
                let c: u8 = if 65 <= b && b <= 90 { b + 32 } else { b };
                out.push(c);
                assert(lower_label(label@).subrange(0, k + 1) =~= lower_label(label@).subrange(0, k as int).push(c));
                k = k + 1;
            }
            assert(lower_label(label@).subrange(0, k as int) =~= lower_label(label@));
            assert(out@ + wire_of(all.subrange(i + 1, n as int), true) =~= before + wire_of(rest, true));
            i = i + 1;
        }
        assert(all.subrange(n as int, n as int) =~= Seq::<Seq<u8>>::empty());
        out.push(0u8);
        assert(out@ =~= wire_of(all, true));
        out
    }
}

/// The wire form of a well-formed name, in either case, fits in
/// `MAX_WIRE_LEN` bytes.
pub proof fn lemma_wire_bound(labels: Seq<Seq<u8>>)
    requires
        labels_ok(labels),
    ensures
        wire_of(labels, true).len() <= MAX_WIRE_LEN,
{
    lemma_wire_len_labels(labels, true);
}

/// An ancestor's wire form is no longer than the name's.
pub proof fn lemma_wire_suffix(labels: Seq<Seq<u8>>, k: int)
    requires
        0 <= k <= labels.len(),
    ensures
        wire_of(labels.subrange(k, labels.len() as int), false).len() <= wire_of(labels, false).len(),
    decreases k,
{
    if k == 0 {
        assert(labels.subrange(0, labels.len() as int) =~= labels);
    } else {
        lemma_wire_suffix(labels.drop_first(), k - 1);
        assert(labels.drop_first().subrange(k - 1, labels.len() - 1) =~= labels.subrange(k, labels.len() as int));
    }
}

proof fn lemma_wire_len_labels(labels: Seq<Seq<u8>>, fold: bool)
    ensures
        wire_of(labels, fold).len() == wire_of(labels, false).len(),
    decreases labels.len(),
{
    if labels.len() > 0 {
        lemma_wire_len_labels(labels.drop_first(), fold);
    }
}

} // verus!
