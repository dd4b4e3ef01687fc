//! Domain names: ordered labels that keep their octets, compared case-insensitively.
use crate::bytes::push_bytes;
use crate::error::Error;
use vstd::prelude::*;
use vstd::string::StringSliceAdditionalSpecFns;

verus! {

/// ASCII lowercase of one octet; other octets are unchanged.
pub open spec fn lower(c: u8) -> u8 {
    if 65 <= c && c <= 90 {
        (c + 32) as u8
    } else {
        c
    }
}

pub open spec fn lower_label(l: Seq<u8>) -> Seq<u8> {
    l.map_values(|c: u8| lower(c))
}

pub open spec fn lower_labels(ls: Seq<Seq<u8>>) -> Seq<Seq<u8>> {
    ls.map_values(|l: Seq<u8>| lower_label(l))
}

/// Length-prefixed labels, without the terminating root octet.
pub open spec fn labels_bytes(ls: Seq<Seq<u8>>) -> Seq<u8>
    decreases ls.len(),
{
    if ls.len() == 0 {
        Seq::empty()
    } else {
        labels_bytes(ls.drop_last()) + seq![ls.last().len() as u8] + ls.last()
    }
}

/// Uncompressed wire form of a name.
pub open spec fn name_wire(ls: Seq<Seq<u8>>) -> Seq<u8> {
    labels_bytes(ls) + seq![0u8]
}

/// Lowercased wire form: equal for names that differ only in ASCII case.
pub open spec fn canonical_wire(ls: Seq<Seq<u8>>) -> Seq<u8> {
    name_wire(lower_labels(ls))
}

/// Label sizes 1..=63 and at most 255 octets on the wire.
pub open spec fn valid_labels(ls: Seq<Seq<u8>>) -> bool {
    &&& forall|i: int| 0 <= i < ls.len() ==> 1 <= #[trigger] ls[i].len() <= 63
    &&& name_wire(ls).len() <= 255
}

pub open spec fn labels_view(v: Seq<Vec<u8>>) -> Seq<Seq<u8>> {
    v.map_values(|l: Vec<u8>| l@)
}

/// Labels of the text form: the octets between dots, after removing trailing dots.
pub open spec fn trim_dots(b: Seq<u8>) -> Seq<u8>
    decreases b.len(),
{
    if b.len() > 0 && b.last() == 46u8 {
        trim_dots(b.drop_last())
    } else {
        b
    }
}

/// Splits octets at every dot; the text after the last dot is the final piece.
pub open spec fn split_dots(b: Seq<u8>) -> Seq<Seq<u8>> {
    split_acc(b, Seq::empty(), Seq::empty())
}

pub open spec fn split_acc(b: Seq<u8>, done: Seq<Seq<u8>>, cur: Seq<u8>) -> Seq<Seq<u8>>
    decreases b.len(),
{
    if b.len() == 0 {
        done.push(cur)
    } else if b[0] == 46u8 {
        split_acc(b.drop_first(), done.push(cur), Seq::empty())
    } else {
        split_acc(b.drop_first(), done, cur.push(b[0]))
    }
}

pub proof fn lemma_labels_bytes_len(ls: Seq<Seq<u8>>)
    ensures
        labels_bytes(ls).len() >= ls.len(),
    decreases ls.len(),
{
    if ls.len() > 0 {
        lemma_labels_bytes_len(ls.drop_last());
    }
}

pub proof fn lemma_labels_bytes_prefix(ls: Seq<Seq<u8>>, i: int)
    requires
        0 <= i <= ls.len(),
    ensures
        labels_bytes(ls.take(i)).len() <= labels_bytes(ls).len(),
    decreases ls.len() - i,
{
    if i < ls.len() {
        lemma_labels_bytes_prefix(ls, i + 1);
        assert(ls.take(i + 1).drop_last() =~= ls.take(i));
    } else {
        assert(ls.take(i) =~= ls);
    }
}

/// A domain name. Labels keep their original octets; comparisons use the lowercased form.
#[derive(Debug)]
pub struct Name {
    labels: Vec<Vec<u8>>,
    canonical: Vec<u8>,
}

impl View for Name {
    type V = Seq<Seq<u8>>;

    closed spec fn view(&self) -> Seq<Seq<u8>> {
        labels_view(self.labels@)
    }
}

impl Name {
    #[verifier::type_invariant]
    spec fn inv(self) -> bool {
        &&& valid_labels(labels_view(self.labels@))
        &&& self.canonical@ == canonical_wire(labels_view(self.labels@))
    }

    /// Builds a name from labels; refuses empty or oversized labels and names over 255 octets.
    pub fn from_labels(labels: Vec<Vec<u8>>) -> (r: Result<Name, Error>)
        ensures
            r is Ok <==> valid_labels(labels_view(labels@)),
            r matches Ok(n) ==> n@ == labels_view(labels@),
            r matches Err(e) ==> e == Error::Invalid,
    {
        let ghost ls = labels_view(labels@);
        let mut canonical: Vec<u8> = Vec::new();
        let mut i: usize = 0;
        while i < labels.len()
            invariant
                i <= labels@.len(),
                ls == labels_view(labels@),
                forall|j: int| 0 <= j < i ==> 1 <= #[trigger] ls[j].len() <= 63,
                canonical@ == labels_bytes(lower_labels(ls.take(i as int))),
                canonical@.len() == labels_bytes(ls.take(i as int)).len(),
                canonical@.len() + 1 <= 255,
            decreases labels@.len() - i,
        {
            let l = &labels[i];
            if l.len() == 0 || l.len() > 63 || canonical.len() + l.len() + 2 > 255 {
                proof {
                    assert(ls[i as int] == l@);
                    if l.len() >= 1 && l.len() <= 63 {
                        assert(ls.take(i + 1).drop_last() =~= ls.take(i as int));
                        lemma_labels_bytes_prefix(ls, i + 1);
                        assert(name_wire(ls).len() > 255);
                    }
                }
                return Err(Error::Invalid);
            }
            let ghost before = canonical@;
            canonical.push(l.len() as u8);
            let mut k: usize = 0;
            while k < l.len()
                invariant
                    k <= l@.len(),
                    canonical@ == before + seq![l@.len() as u8] + lower_label(l@).take(k as int),
                decreases l@.len() - k,
            {
                let c = l[k];
                let lc = if c >= 65 && c <= 90 { c + 32 } else { c };
                canonical.push(lc);
                k = k + 1;
                assert(lower_label(l@).take(k as int) =~= lower_label(l@).take(k - 1).push(lc));
            }
            proof {
                assert(lower_label(l@).take(k as int) =~= lower_label(l@));
                assert(lower_labels(ls.take(i + 1)).drop_last() =~= lower_labels(ls.take(i as int)));
                assert(ls[i as int] == l@);
                assert(lower_labels(ls.take(i + 1)).last() == lower_label(l@));
                assert(ls.take(i + 1).drop_last() =~= ls.take(i as int));
            }
            i = i + 1;
        }
        canonical.push(0);
        proof {
            assert(ls.take(i as int) =~= ls);
            lemma_lower_len(ls);
            assert(canonical@ == canonical_wire(ls));
            assert(name_wire(ls).len() <= 255);
        }
        Ok(Name { labels, canonical })
    }

    /// The root name, which has no labels.
    pub fn root() -> (r: Name)
        ensures
            r@ == Seq::<Seq<u8>>::empty(),
    {
        let mut canonical: Vec<u8> = Vec::new();
        canonical.push(0);
        let labels: Vec<Vec<u8>> = Vec::new();
        proof {
            assert(labels_view(labels@) =~= Seq::<Seq<u8>>::empty());
            assert(lower_labels(Seq::<Seq<u8>>::empty()) =~= Seq::<Seq<u8>>::empty());
            assert(canonical@ =~= seq![0u8]);
        }
        Name { labels, canonical }
    }

    /// The labels, in order from the leftmost.
    pub fn labels(&self) -> (r: &[Vec<u8>])
        ensures
            labels_view(r@) == self@,
            valid_labels(self@),
    {
        proof {
            use_type_invariant(self);
        }
        self.labels.as_slice()
    }

    /// Number of labels.
    pub fn label_count(&self) -> (r: usize)
        ensures
            r == self@.len(),
    {
        self.labels.len()
    }

    /// The lowercased uncompressed wire form.
    pub fn canonical(&self) -> (r: &[u8])
        ensures
            r@ == canonical_wire(self@),
            valid_labels(self@),
            r@.len() == name_wire(self@).len(),
            r@.len() <= 255,
            self@.len() < 255,
    {
        proof {
            use_type_invariant(self);
            lemma_lower_bytes_len(self@);
            lemma_labels_bytes_len(self@);
        }
        self.canonical.as_slice()
    }

    /// Every name satisfies the label and length limits.
    pub fn check_valid(&self)
        ensures
            valid_labels(self@),
    {
        proof {
            use_type_invariant(self);
        }
    }

    /// Appends the uncompressed wire form.
    pub fn write(&self, out: &mut Vec<u8>)
        ensures
            final(out)@ == old(out)@ + name_wire(self@),
    {
        proof {
            use_type_invariant(self);
        }
        let ghost ls = self@;
        let mut i: usize = 0;
        while i < self.labels.len()
            invariant
                i <= ls.len(),
                ls == labels_view(self.labels@),
                valid_labels(ls),
                out@ == old(out)@ + labels_bytes(ls.take(i as int)),
            decreases ls.len() - i,
        {
            let l = &self.labels[i];
            assert(1 <= ls[i as int].len() <= 63);
            out.push(l.len() as u8);
            push_bytes(out, l.as_slice());
            proof {
                assert(ls.take(i + 1).drop_last() =~= ls.take(i as int));
            }
            i = i + 1;
            assert(out@ =~= old(out)@ + labels_bytes(ls.take(i as int)));
        }
        out.push(0);
        proof {
            assert(ls.take(i as int) =~= ls);
        }
        assert(out@ =~= old(out)@ + name_wire(ls));
    }

    /// Parses dotted text: "." is the root; trailing dots are ignored; other labels are the
    /// octets between dots.
    pub fn from_text(s: &str) -> (r: Result<Name, Error>)
        ensures
            s.spec_bytes() == seq![46u8] ==> (r matches Ok(n) && n@ == Seq::<Seq<u8>>::empty()),
            s.spec_bytes() != seq![46u8] ==> {
                &&& r is Ok <==> valid_labels(split_dots(trim_dots(s.spec_bytes())))
                &&& r matches Ok(n) ==> n@ == split_dots(trim_dots(s.spec_bytes()))
            },
    {
        let b = s.as_bytes();
        if b.len() == 1 && b[0] == 46 {
            assert(b@ =~= seq![46u8]);
            return Ok(Name::root());
        }
        let mut end = b.len();
        assert(b@.subrange(0, end as int) =~= b@);
        while end > 0 && b[end - 1] == 46
            invariant
                end <= b@.len(),
                trim_dots(b@.subrange(0, end as int)) == trim_dots(b@),
            decreases end,
        {
            assert(b@.subrange(0, end as int).drop_last() =~= b@.subrange(0, end - 1));
            end = end - 1;
        }
        proof {
            assert(b@.subrange(0, end as int) =~= b@.subrange(0, end as int));
        }
        let ghost t = b@.subrange(0, end as int);
        assert(trim_dots(t) == t);
        let mut labels: Vec<Vec<u8>> = Vec::new();
        let mut current: Vec<u8> = Vec::new();
        let mut i: usize = 0;
        assert(labels_view(labels@) =~= Seq::<Seq<u8>>::empty());
        assert(t.subrange(0, end as int) =~= t);
        while i < end
            invariant
                i <= end <= b@.len(),
                t == b@.subrange(0, end as int),
                split_dots(t) == split_acc(t.subrange(i as int, end as int), labels_view(labels@), current@),
            decreases end - i,
        {
            assert(t.subrange(i as int, end as int).drop_first() =~= t.subrange(i + 1, end as int));
            if b[i] == 46 {
                let ghost before = labels@;
                let piece = current;
                labels.push(piece);
                current = Vec::new();
                assert(labels_view(labels@) =~= labels_view(before).push(piece@));
                assert(current@ =~= Seq::<u8>::empty());
            } else {
                current.push(b[i]);
            }
            i = i + 1;
        }
        let ghost before = labels@;
        let last = current;
        labels.push(last);
        assert(labels_view(labels@) =~= labels_view(before).push(last@));
        assert(t.subrange(i as int, end as int) =~= Seq::<u8>::empty());
        Name::from_labels(labels)
    }
}

proof fn lemma_lower_bytes_len(ls: Seq<Seq<u8>>)
    ensures
        labels_bytes(lower_labels(ls)).len() == labels_bytes(ls).len(),
    decreases ls.len(),
{
    if ls.len() > 0 {
        assert(lower_labels(ls).drop_last() =~= lower_labels(ls.drop_last()));
        lemma_lower_bytes_len(ls.drop_last());
    }
}

/// Lowercasing keeps a name valid.
pub proof fn lemma_lower_valid(ls: Seq<Seq<u8>>)
    requires
        valid_labels(ls),
    ensures
        valid_labels(lower_labels(ls)),
{
    lemma_lower_len(ls);
    lemma_lower_bytes_len(ls);
}

proof fn lemma_lower_len(ls: Seq<Seq<u8>>)
    ensures
        lower_labels(ls).len() == ls.len(),
        forall|i: int| 0 <= i < ls.len() ==> #[trigger] lower_labels(ls)[i].len() == ls[i].len(),
{
}

impl Clone for Name {
    fn clone(&self) -> (r: Name)
        ensures
            r@ == self@,
    {
        proof {
            use_type_invariant(self);
        }
        let mut labels: Vec<Vec<u8>> = Vec::new();
        let mut i: usize = 0;
        while i < self.labels.len()
            invariant
                i <= self.labels@.len(),
                labels_view(labels@) == labels_view(self.labels@).take(i as int),
            decreases self.labels@.len() - i,
        {
            let c = vstd::slice::slice_to_vec(self.labels[i].as_slice());
            assert(c@ == self.labels@[i as int]@);
            let ghost before = labels@;
            labels.push(c);
            assert(labels_view(labels@) =~= labels_view(before).push(c@));
            i = i + 1;
            assert(labels_view(labels@) =~= labels_view(self.labels@).take(i as int));
        }
        assert(labels_view(self.labels@).take(i as int) =~= labels_view(self.labels@));
        let canonical = vstd::slice::slice_to_vec(self.canonical.as_slice());
        Name { labels, canonical }
    }
}

impl std::str::FromStr for Name {
    type Err = Error;

    fn from_str(s: &str) -> Result<Name, Error> {
        Name::from_text(s)
    }
}

impl PartialEq for Name {
    fn eq(&self, other: &Name) -> (r: bool) {
        let a = self.canonical();
        let b = other.canonical();
        if a.len() != b.len() {
            return false;
        }
        let mut i: usize = 0;
        while i < a.len()
            invariant
                a@.len() == b@.len(),
                a@ == canonical_wire(self@),
                b@ == canonical_wire(other@),
                i <= a@.len(),
                a@.subrange(0, i as int) == b@.subrange(0, i as int),
            decreases a@.len() - i,
        {
            if a[i] != b[i] {
                assert(a@[i as int] != b@[i as int]);
                return false;
            }
            i = i + 1;
            assert(a@.subrange(0, i as int) =~= a@.subrange(0, i - 1).push(a@[i - 1]));
            assert(b@.subrange(0, i as int) =~= b@.subrange(0, i - 1).push(b@[i - 1]));
        }
        assert(a@ =~= a@.subrange(0, i as int));
        assert(b@ =~= b@.subrange(0, i as int));
        true
    }
}

impl vstd::std_specs::cmp::PartialEqSpecImpl for Name {
    open spec fn obeys_eq_spec() -> bool {
        true
    }

    open spec fn eq_spec(&self, other: &Name) -> bool {
        canonical_wire(self@) == canonical_wire(other@)
    }
}

} // verus!
