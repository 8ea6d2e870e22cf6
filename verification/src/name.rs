//! Domain names as label sequences.
//!
//! The authoritative form of a DNS name is its sequence of labels, each
//! 1 to 63 bytes of valid UTF-8; the dot-joined string is only a display
//! convenience. Keeping the labels avoids the ambiguity of labels that
//! themselves contain a dot. The empty label sequence is the root name.

use vstd::prelude::*;

verus! {

/// A domain name: the ordered sequence of its labels. The root name is the
/// empty sequence.
#[derive(Debug, Clone, PartialEq, Eq)]
pub struct DnsName {
    pub labels: Vec<Vec<u8>>,
}

/// The abstract value of a list of byte labels.
pub open spec fn labels_view(labels: Seq<Vec<u8>>) -> Seq<Seq<u8>> {
    labels.map_values(|l: Vec<u8>| l@)
}

impl View for DnsName {
    type V = Seq<Seq<u8>>;

    open spec fn view(&self) -> Seq<Seq<u8>> {
        labels_view(self.labels@)
    }
}

/// A UTF-8 continuation byte.
pub open spec fn is_cont_byte(b: u8) -> bool {
    0x80 <= b && b <= 0xBF
}

/// Valid UTF-8, byte by byte: ASCII, or a leading byte followed by the
/// continuation bytes its range demands (overlong forms and surrogates
/// excluded).
pub open spec fn is_utf8(s: Seq<u8>) -> bool
    decreases s.len(),
{
    if s.len() == 0 {
        true
    } else {
        let b0 = s[0];
        if b0 < 0x80 {
            is_utf8(s.skip(1))
        } else if 0xC2 <= b0 && b0 <= 0xDF {
            if s.len() >= 2 && is_cont_byte(s[1]) {
                is_utf8(s.skip(2))
            } else {
                false
            }
        } else if b0 == 0xE0 {
            if s.len() >= 3 && 0xA0 <= s[1] && s[1] <= 0xBF && is_cont_byte(s[2]) {
                is_utf8(s.skip(3))
            } else {
                false
            }
        } else if 0xE1 <= b0 && b0 <= 0xEC || b0 == 0xEE || b0 == 0xEF {
            if s.len() >= 3 && is_cont_byte(s[1]) && is_cont_byte(s[2]) {
                is_utf8(s.skip(3))
            } else {
                false
            }
        } else if b0 == 0xED {
            if s.len() >= 3 && 0x80 <= s[1] && s[1] <= 0x9F && is_cont_byte(s[2]) {
                is_utf8(s.skip(3))
            } else {
                false
            }
        } else if b0 == 0xF0 {
            if s.len() >= 4 && 0x90 <= s[1] && s[1] <= 0xBF && is_cont_byte(s[2]) && is_cont_byte(
                s[3],
            ) {
                is_utf8(s.skip(4))
            } else {
                false
            }
        } else if 0xF1 <= b0 && b0 <= 0xF3 {
            if s.len() >= 4 && is_cont_byte(s[1]) && is_cont_byte(s[2]) && is_cont_byte(s[3]) {
                is_utf8(s.skip(4))
            } else {
                false
            }
        } else if b0 == 0xF4 {
            if s.len() >= 4 && 0x80 <= s[1] && s[1] <= 0x8F && is_cont_byte(s[2]) && is_cont_byte(
                s[3],
            ) {
                is_utf8(s.skip(4))
            } else {
                false
            }
        } else {
            false
        }
    }
}

/// A label fit to appear in a decoded name: 1 to 63 bytes of valid UTF-8.
pub open spec fn valid_label(l: Seq<u8>) -> bool {
    &&& 1 <= l.len()
    &&& l.len() <= 63
    &&& is_utf8(l)
}

/// The label bytes a name carries, in sum.
pub open spec fn total_label_len(name: Seq<Seq<u8>>) -> int
    decreases name.len(),
{
    if name.len() == 0 {
        0
    } else {
        name[0].len() + total_label_len(name.skip(1))
    }
}

/// A name the decoder may return: every label valid, at most 255 label
/// bytes in all.
pub open spec fn valid_name(name: Seq<Seq<u8>>) -> bool {
    &&& forall|i: int| 0 <= i < name.len() ==> valid_label(#[trigger] name[i])
    &&& total_label_len(name) <= 255
}

/// The wire form of a name's labels, without the terminating zero octet:
/// each non-empty label preceded by its length. Empty labels are skipped,
/// as the writer skips them.
pub open spec fn spec_labels_bytes(name: Seq<Seq<u8>>) -> Seq<u8>
    decreases name.len(),
{
    if name.len() == 0 {
        seq![]
    } else if name[0].len() == 0 {
        spec_labels_bytes(name.skip(1))
    } else {
        seq![name[0].len() as u8] + name[0] + spec_labels_bytes(name.skip(1))
    }
}

/// The full, uncompressed wire form of a name: its labels, then a zero octet.
pub open spec fn spec_name_bytes(name: Seq<Seq<u8>>) -> Seq<u8> {
    spec_labels_bytes(name) + seq![0u8]
}

/// ASCII upper-case letters folded to lower case; all other bytes kept.
pub open spec fn lower_byte(b: u8) -> u8 {
    if 0x41 <= b && b <= 0x5A {
        (b + 0x20) as u8
    } else {
        b
    }
}

/// Labels equal modulo ASCII case.
pub open spec fn label_eq_ci(a: Seq<u8>, b: Seq<u8>) -> bool {
    &&& a.len() == b.len()
    &&& forall|i: int| 0 <= i < a.len() ==> lower_byte(a[i]) == lower_byte(b[i])
}

/// Names equal modulo ASCII case, label by label, per DNS convention.
pub open spec fn name_eq_ci(a: Seq<Seq<u8>>, b: Seq<Seq<u8>>) -> bool {
    &&& a.len() == b.len()
    &&& forall|i: int| 0 <= i < a.len() ==> label_eq_ci(#[trigger] a[i], #[trigger] b[i])
}

/// A byte-for-byte copy of a byte vector.
pub fn copy_bytes(v: &Vec<u8>) -> (r: Vec<u8>)
    ensures
        r@ == v@,
{
    let mut out: Vec<u8> = Vec::new();
    let mut i: usize = 0;
    while i < v.len()
        invariant
            i <= v.len(),
            out@ == v@.subrange(0, i as int),
        decreases v.len() - i,
    {
        out.push(v[i]);
        i = i + 1;
        proof {
            assert(out@ =~= v@.subrange(0, i as int));
        }
    }
    proof {
        assert(out@ =~= v@);
    }
    out
}

impl DnsName {
    /// The root name: no labels at all.
    pub fn root() -> (r: DnsName)
        ensures
            r@ == Seq::<Seq<u8>>::empty(),
    {
        let r = DnsName { labels: Vec::new() };
        proof {
            assert(r@ =~= Seq::<Seq<u8>>::empty());
        }
        r
    }

    /// Appends one label.
    pub fn push_label(&mut self, label: Vec<u8>)
        ensures
            final(self)@ == old(self)@.push(label@),
    {
        let ghost before = self@;
        self.labels.push(label);
        proof {
            assert(self@ =~= before.push(label@));
        }
    }

    /// How many labels the name has.
    pub fn label_count(&self) -> (r: usize)
        ensures
            r == self@.len(),
    {
        self.labels.len()
    }

    /// A deep copy whose view equals this name's.
    pub fn duplicate(&self) -> (r: DnsName)
        ensures
            r@ == self@,
    {
        let mut labels: Vec<Vec<u8>> = Vec::new();
        let mut i: usize = 0;
        while i < self.labels.len()
            invariant
                i <= self.labels.len(),
                labels@.len() == i,
                forall|k: int| 0 <= k < i ==> #[trigger] labels@[k]@ == self.labels@[k]@,
            decreases self.labels.len() - i,
        {
            labels.push(copy_bytes(&self.labels[i]));
            i = i + 1;
        }
        let r = DnsName { labels };
        proof {
            assert forall|k: int| 0 <= k < r@.len() implies r@[k] == self@[k] by {
                assert(r@[k] == labels@[k]@);
                assert(self@[k] == self.labels@[k]@);
            }
            assert(r@ =~= self@);
        }
        r
    }

    /// Whether two names are equal modulo ASCII case.
    pub fn eq_ignore_case(&self, other: &DnsName) -> (r: bool)
        ensures
            r == name_eq_ci(self@, other@),
    {
        if self.labels.len() != other.labels.len() {
            return false;
        }
        let mut i: usize = 0;
        while i < self.labels.len()
            invariant
                i <= self.labels.len(),
                self.labels@.len() == other.labels@.len(),
                forall|k: int| 0 <= k < i ==> label_eq_ci(#[trigger] self@[k], #[trigger] other@[k]),
            decreases self.labels.len() - i,
        {
            proof {
                assert(self@[i as int] == self.labels@[i as int]@);
                assert(other@[i as int] == other.labels@[i as int]@);
            }
            if !label_eq_ignore_case(&self.labels[i], &other.labels[i]) {
                return false;
            }
            i = i + 1;
        }
        true
    }
}

/// Whether two labels are equal modulo ASCII case.
pub fn label_eq_ignore_case(a: &Vec<u8>, b: &Vec<u8>) -> (r: bool)
    ensures
        r == label_eq_ci(a@, b@),
{
    if a.len() != b.len() {
        return false;
    }
    let mut i: usize = 0;
    while i < a.len()
        invariant
            i <= a.len(),
            a.len() == b.len(),
            forall|k: int| 0 <= k < i ==> lower_byte(a@[k]) == lower_byte(b@[k]),
        decreases a.len() - i,
    {
        if lower_byte_exec(a[i]) != lower_byte_exec(b[i]) {
            return false;
        }
        i = i + 1;
    }
    true
}

/// ASCII case folding of one byte.
pub fn lower_byte_exec(b: u8) -> (r: u8)
    ensures
        r == lower_byte(b),
{
    if 0x41 <= b && b <= 0x5A {
        b + 0x20
    } else {
        b
    }
}

/// Checks that a byte sequence is valid UTF-8.
pub fn is_utf8_exec(s: &Vec<u8>) -> (r: bool)
    ensures
        r == is_utf8(s@),
{
    let n = s.len();
    let mut i: usize = 0;
    proof {
        assert(s@.skip(0) =~= s@);
    }
    while i < n
        invariant
            i <= n,
            n == s@.len(),
            is_utf8(s@) == is_utf8(s@.skip(i as int)),
        decreases n - i,
    {
        let ghost rest = s@.skip(i as int);
        let rem = n - i;
        proof {
            assert(rest.len() == rem);
            assert(rest[0] == s@[i as int]);
            if rem >= 2 {
                lemma_skip_index(s@, i as int, 1);
            }
            if rem >= 3 {
                lemma_skip_index(s@, i as int, 2);
            }
            if rem >= 4 {
                lemma_skip_index(s@, i as int, 3);
            }
        }
        let b0 = s[i];
        let step: usize;
        if b0 < 0x80 {
            step = 1;
        } else if 0xC2 <= b0 && b0 <= 0xDF {
            if rem < 2 || !is_cont_exec(s[i + 1]) {
                return false;
            }
            step = 2;
        } else if b0 == 0xE0 {
            if rem < 3 || !(0xA0 <= s[i + 1] && s[i + 1] <= 0xBF) || !is_cont_exec(s[i + 2]) {
                return false;
            }
            step = 3;
        } else if 0xE1 <= b0 && b0 <= 0xEC || b0 == 0xEE || b0 == 0xEF {
            if rem < 3 || !is_cont_exec(s[i + 1]) || !is_cont_exec(s[i + 2]) {
                return false;
            }
            step = 3;
        } else if b0 == 0xED {
            if rem < 3 || !(0x80 <= s[i + 1] && s[i + 1] <= 0x9F) || !is_cont_exec(s[i + 2]) {
                return false;
            }
            step = 3;
        } else if b0 == 0xF0 {
            if rem < 4 || !(0x90 <= s[i + 1] && s[i + 1] <= 0xBF) || !is_cont_exec(s[i + 2])
                || !is_cont_exec(s[i + 3]) {
                return false;
            }
            step = 4;
        } else if 0xF1 <= b0 && b0 <= 0xF3 {
            if rem < 4 || !is_cont_exec(s[i + 1]) || !is_cont_exec(s[i + 2]) || !is_cont_exec(
                s[i + 3],
            ) {
                return false;
            }
            step = 4;
        } else if b0 == 0xF4 {
            if rem < 4 || !(0x80 <= s[i + 1] && s[i + 1] <= 0x8F) || !is_cont_exec(s[i + 2])
                || !is_cont_exec(s[i + 3]) {
                return false;
            }
            step = 4;
        } else {
            return false;
        }
        proof {
            lemma_skip_skip(s@, i as int, step as int);
        }
        i = i + step;
    }
    proof {
        assert(s@.skip(i as int) =~= Seq::<u8>::empty());
    }
    true
}

/// Checks a UTF-8 continuation byte.
pub fn is_cont_exec(b: u8) -> (r: bool)
    ensures
        r == is_cont_byte(b),
{
    0x80 <= b && b <= 0xBF
}

/// Indexing into a suffix reads the underlying sequence.
proof fn lemma_skip_index(s: Seq<u8>, i: int, k: int)
    requires
        0 <= i,
        0 <= k,
        i + k < s.len(),
    ensures
        s.skip(i)[k] == s[i + k],
{
}

/// Taking a suffix of a suffix is one longer suffix.
proof fn lemma_skip_skip(s: Seq<u8>, i: int, k: int)
    requires
        0 <= i,
        0 <= k,
        i + k <= s.len(),
    ensures
        s.skip(i).skip(k) == s.skip(i + k),
{
    assert(s.skip(i).skip(k) =~= s.skip(i + k));
}

} // verus!
