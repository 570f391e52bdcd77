use vstd::prelude::*;

use crate::store::{labeled_pairs, strings_view, zipped, EmbeddingSet};

verus! {

/// No document occurs twice.
pub open spec fn documents_distinct(s: Seq<(Seq<char>, Seq<char>)>) -> bool {
    forall|a: int, b: int| 0 <= a < b < s.len() ==> s[a].0 != s[b].0
}

/// Some pair has this document.
pub open spec fn has_document(s: Seq<(Seq<char>, Seq<char>)>, doc: Seq<char>) -> bool {
    exists|i: int| 0 <= i < s.len() && #[trigger] s[i].0 == doc
}

/// The position of the pair with this document (meaningful when present).
pub open spec fn document_pos(s: Seq<(Seq<char>, Seq<char>)>, doc: Seq<char>) -> int {
    choose|i: int| 0 <= i < s.len() && #[trigger] s[i].0 == doc
}

/// The label recorded for a document, if any.
pub open spec fn label_of(s: Seq<(Seq<char>, Seq<char>)>, doc: Seq<char>) -> Option<Seq<char>> {
    if has_document(s, doc) {
        Some(s[document_pos(s, doc)].1)
    } else {
        None
    }
}

/// The label recorded for a document, or the empty string.
pub open spec fn label_or_empty(s: Seq<(Seq<char>, Seq<char>)>, doc: Seq<char>) -> Seq<char> {
    match label_of(s, doc) {
        Some(l) => l,
        None => Seq::empty(),
    }
}

/// Recording `label` for `doc`: an existing pair for `doc` is overwritten in
/// place, otherwise a new pair is appended.
pub open spec fn label_insert(s: Seq<(Seq<char>, Seq<char>)>, doc: Seq<char>, label: Seq<char>) -> Seq<
    (Seq<char>, Seq<char>),
> {
    if has_document(s, doc) {
        s.update(document_pos(s, doc), (doc, label))
    } else {
        s.push((doc, label))
    }
}

/// The index made from (document, label) pairs, one after the other: pairs
/// with an empty document or an empty label are left out, and a later pair
/// for the same document replaces an earlier one.
pub open spec fn index_of(pairs: Seq<(Seq<char>, Seq<char>)>) -> Seq<(Seq<char>, Seq<char>)>
    decreases pairs.len(),
{
    if pairs.len() == 0 {
        Seq::empty()
    } else {
        let r = index_of(pairs.drop_last());
        let (d, l) = pairs.last();
        if d.len() == 0 || l.len() == 0 {
            r
        } else {
            label_insert(r, d, l)
        }
    }
}

/// How many of `found` carry `label` in the index (a document without a label
/// counts as carrying the empty label).
pub open spec fn hits(s: Seq<(Seq<char>, Seq<char>)>, label: Seq<char>, found: Seq<Seq<char>>) -> nat
    decreases found.len(),
{
    if found.len() == 0 {
        0
    } else {
        hits(s, label, found.drop_last()) + if label_or_empty(s, found.last()) == label {
            1nat
        } else {
            0nat
        }
    }
}

fn find_document(pairs: &Vec<(String, String)>, doc: &String) -> (pos: Option<usize>)
    ensures
        match pos {
            Some(p) => p < pairs.len() && pairs@[p as int].0@ == doc@,
            None => forall|q: int| 0 <= q < pairs.len() ==> pairs@[q].0@ != doc@,
        },
{
    let n = pairs.len();
    let mut i: usize = 0;
    while i < n
        invariant
            n == pairs.len(),
            i <= n,
            forall|q: int| 0 <= q < i ==> pairs@[q].0@ != doc@,
        decreases n - i,
    {
        if pairs[i].0 == *doc {
            return Some(i);
        }
        i = i + 1;
    }
    None
}

/// The label of each labelled document, for judging retrieved documents.
pub struct LabelIndex {
    pairs: Vec<(String, String)>,
}

impl View for LabelIndex {
    type V = Seq<(Seq<char>, Seq<char>)>;

    closed spec fn view(&self) -> Seq<(Seq<char>, Seq<char>)> {
        self.pairs@.map_values(|p: (String, String)| (p.0@, p.1@))
    }
}

impl LabelIndex {
    #[verifier::type_invariant]
    closed spec fn well_formed(self) -> bool {
        documents_distinct(self@)
    }

    fn record(&mut self, doc: String, label: String)
        ensures
            final(self)@ == label_insert(old(self)@, doc@, label@),
    {
        proof {
            use_type_invariant(&*self);
        }
        let ghost old_view = self@;
        let ghost dv = doc@;
        let ghost lv = label@;
        let mut pairs: Vec<(String, String)> = Vec::new();
        std::mem::swap(&mut pairs, &mut self.pairs);
        match find_document(&pairs, &doc) {
            Some(p) => {
                assert(old_view[p as int].0 == dv);
                assert(has_document(old_view, dv));
                assert(document_pos(old_view, dv) == p);
                pairs.set(p, (doc, label));
                proof {
                    let nv = pairs@.map_values(|q: (String, String)| (q.0@, q.1@));
                    assert(nv =~= old_view.update(p as int, (dv, lv)));
                }
            },
            None => {
                assert forall|q: int| 0 <= q < old_view.len() implies old_view[q].0 != dv by {
                    assert(old_view[q].0 == pairs@[q].0@);
                }
                pairs.push((doc, label));
                proof {
                    let nv = pairs@.map_values(|q: (String, String)| (q.0@, q.1@));
                    assert(nv =~= old_view.push((dv, lv)));
                }
            },
        }
        self.pairs = pairs;
    }

    /// An index with no labels.
    pub fn new() -> (r: Self)
        ensures
            r@ == Seq::<(Seq<char>, Seq<char>)>::empty(),
    {
        let r = LabelIndex { pairs: Vec::new() };
        assert(r@ =~= Seq::<(Seq<char>, Seq<char>)>::empty());
        r
    }

    /// The index of the labelled entries of `set`: the label of each document
    /// that has one, leaving out empty documents and empty labels; where a
    /// document is labelled under several models the last entry wins.
    pub fn from_set<E>(set: &EmbeddingSet<E>) -> (r: Self)
        ensures
            r@ == index_of(labeled_pairs(set@)),
    {
        let (docs, labels) = set.labeled_documents();
        let ghost pairs = labeled_pairs(set@);
        assert forall|j: int| 0 <= j < docs.len() implies (#[trigger] docs@[j])@ == pairs[j].0 && labels@[j]@ == pairs[j].1 by {
            assert(zipped(docs@, labels@)[j] == pairs[j]);
        }
        let mut r = LabelIndex::new();
        let n = docs.len();
        let mut i: usize = 0;
        while i < n
            invariant
                n == docs.len(),
                n == labels.len(),
                n == pairs.len(),
                forall|j: int| 0 <= j < n ==> (#[trigger] docs@[j])@ == pairs[j].0 && labels@[j]@ == pairs[j].1,
                i <= n,
                r@ == index_of(pairs.take(i as int)),
            decreases n - i,
        {
            assert(pairs.take(i + 1).drop_last() =~= pairs.take(i as int));
            assert(pairs.take(i + 1).last() == pairs[i as int]);
            assert(docs@[i as int]@ == pairs[i as int].0);
            let d = &docs[i];
            let l = &labels[i];
            if !(d.as_str().is_empty() || l.as_str().is_empty()) {
                r.record(d.clone(), l.clone());
            }
            i = i + 1;
        }
        assert(pairs.take(n as int) =~= pairs);
        r
    }

    /// The number of labelled documents.
    pub fn len(&self) -> (n: usize)
        ensures
            n == self@.len(),
    {
        self.pairs.len()
    }

    /// The `i`-th (document, label) pair.
    pub fn pair(&self, i: usize) -> (r: (&String, &String))
        requires
            i < self@.len(),
        ensures
            (r.0@, r.1@) == self@[i as int],
    {
        let p = &self.pairs[i];
        (&p.0, &p.1)
    }

    /// The label recorded for `doc`, if any.
    pub fn get(&self, doc: &String) -> (r: Option<&String>)
        ensures
            match r {
                Some(l) => label_of(self@, doc@) == Some(l@),
                None => label_of(self@, doc@) is None,
            },
    {
        proof {
            use_type_invariant(self);
        }
        match find_document(&self.pairs, doc) {
            Some(p) => {
                assert(self@[p as int].0 == doc@);
                assert(has_document(self@, doc@));
                assert(document_pos(self@, doc@) == p);
                Some(&self.pairs[p].1)
            },
            None => {
                assert forall|q: int| 0 <= q < self@.len() implies self@[q].0 != doc@ by {
                    assert(self@[q].0 == self.pairs@[q].0@);
                }
                None
            },
        }
    }

    /// How many of the `found` documents carry `label`, a document without
    /// a label counting as labelled with the empty string.
    pub fn count_hits(&self, label: &String, found: &Vec<String>) -> (n: usize)
        ensures
            n == hits(self@, label@, strings_view(found@)),
    {
        let ghost fv = strings_view(found@);
        let m = found.len();
        let mut n: usize = 0;
        let mut i: usize = 0;
        while i < m
            invariant
                m == found.len(),
                fv == strings_view(found@),
                i <= m,
                n <= i,
                n == hits(self@, label@, fv.take(i as int)),
            decreases m - i,
        {
            assert(fv.take(i + 1).drop_last() =~= fv.take(i as int));
            assert(fv.take(i + 1).last() == found@[i as int]@);
            let same = match self.get(&found[i]) {
                Some(l) => *l == *label,
                None => {
                    let e = label.as_str().is_empty();
                    proof {
                        if e {
                            assert(label@ =~= Seq::<char>::empty());
                        }
                    }
                    e
                },
            };
            assert(same == (label_or_empty(self@, found@[i as int]@) == label@));
            if same {
                n = n + 1;
            }
            i = i + 1;
        }
        assert(fv.take(m as int) =~= fv);
        n
    }

    /// Scores the documents retrieved for one labelled query at cut-off `k`:
    /// the hits among `found` are added to the running count `sum_at_k`, and
    /// the score is that count divided by `k`, rounded down. Returns the new
    /// count and the score.
    pub fn tally(&self, sum_at_k: usize, label: &String, found: &Vec<String>, k: usize) -> (r: (
        usize,
        usize,
    ))
        requires
            k > 0,
            sum_at_k + found.len() <= usize::MAX,
        ensures
            r.0 == sum_at_k + hits(self@, label@, strings_view(found@)),
            r.1 == r.0 / k,
    {
        let h = self.count_hits(label, found);
        proof {
            lemma_hits_bounded(self@, label@, strings_view(found@));
        }
        let total = sum_at_k + h;
        (total, total / k)
    }
}

/// The scoring of one cut-off `k`: a count of hits that starts at zero and
/// runs over the labelled queries one by one.
pub struct CutoffTally {
    k: usize,
    sum_at_k: usize,
}

impl View for CutoffTally {
    /// (the cut-off, the hits counted so far)
    type V = (nat, nat);

    closed spec fn view(&self) -> (nat, nat) {
        (self.k as nat, self.sum_at_k as nat)
    }
}

impl CutoffTally {
    /// Starts scoring cut-off `k` with no hits counted.
    pub fn new(k: usize) -> (t: Self)
        ensures
            t@ == (k as nat, 0nat),
    {
        CutoffTally { k, sum_at_k: 0 }
    }

    /// The hits counted so far.
    pub fn hits_so_far(&self) -> (n: usize)
        ensures
            n == self@.1,
    {
        self.sum_at_k
    }

    /// Records the documents retrieved for one labelled query: their hits
    /// are added to the count, and the score of the query is the count so
    /// far divided by `k`, rounded down.
    pub fn record(&mut self, index: &LabelIndex, label: &String, found: &Vec<String>) -> (score: usize)
        requires
            old(self)@.0 > 0,
            old(self)@.1 + found.len() <= usize::MAX,
        ensures
            final(self)@.0 == old(self)@.0,
            final(self)@.1 == old(self)@.1 + hits(index@, label@, strings_view(found@)),
            score == final(self)@.1 / final(self)@.0,
    {
        let (sum, score) = index.tally(self.sum_at_k, label, found, self.k);
        self.sum_at_k = sum;
        score
    }
}

/// No more documents carry a label than were retrieved.
pub proof fn lemma_hits_bounded(s: Seq<(Seq<char>, Seq<char>)>, label: Seq<char>, found: Seq<Seq<char>>)
    ensures
        hits(s, label, found) <= found.len(),
    decreases found.len(),
{
    if found.len() > 0 {
        lemma_hits_bounded(s, label, found.drop_last());
    }
}

/// After recording a label for a document, the index gives that label for it
/// and the same as before for every other document, and documents stay
/// distinct.
pub proof fn lemma_label_insert(
    s: Seq<(Seq<char>, Seq<char>)>,
    doc: Seq<char>,
    label: Seq<char>,
    other: Seq<char>,
)
    requires
        documents_distinct(s),
    ensures
        label_of(label_insert(s, doc, label), doc) == Some(label),
        other != doc ==> label_of(label_insert(s, doc, label), other) == label_of(s, other),
        documents_distinct(label_insert(s, doc, label)),
{
    let t = label_insert(s, doc, label);
    if has_document(s, doc) {
        let p = document_pos(s, doc);
        assert(t[p].0 == doc);
        assert(has_document(t, doc));
        assert(document_pos(t, doc) == p);
    } else {
        assert(t[s.len() as int].0 == doc);
        assert(has_document(t, doc));
        assert(document_pos(t, doc) == s.len());
    }
    if other != doc {
        if has_document(s, other) {
            let q = document_pos(s, other);
            assert(t[q].0 == other);
            assert(has_document(t, other));
            assert(document_pos(t, other) == q);
        }
        if has_document(t, other) {
            let q = document_pos(t, other);
            assert(s[q].0 == other);
        }
    }
}

/// The index holds each document once, never an empty document or an empty
/// label, and labels a document exactly when some pair with a non-empty
/// label names it, giving the label of the last such pair.
pub proof fn lemma_index_of(pairs: Seq<(Seq<char>, Seq<char>)>, doc: Seq<char>)
    ensures
        documents_distinct(index_of(pairs)),
        forall|i: int|
            0 <= i < index_of(pairs).len() ==> (#[trigger] index_of(pairs)[i]).0.len() > 0
                && index_of(pairs)[i].1.len() > 0,
        doc.len() > 0 ==> label_of(index_of(pairs), doc) == last_label(pairs, doc),
    decreases pairs.len(),
{
    if pairs.len() > 0 {
        let p = pairs.drop_last();
        lemma_index_of(p, doc);
        let r = index_of(p);
        let (d, l) = pairs.last();
        if !(d.len() == 0 || l.len() == 0) {
            lemma_label_insert(r, d, l, doc);
            let t = label_insert(r, d, l);
            assert forall|i: int| 0 <= i < t.len() implies (#[trigger] t[i]).0.len() > 0 && t[i].1.len() > 0 by {
                if has_document(r, d) {
                    let q = document_pos(r, d);
                    if i != q {
                        assert(t[i] == r[i]);
                    }
                } else {
                    if i < r.len() {
                        assert(t[i] == r[i]);
                    }
                }
            }
        }
    }
}

/// The label of the last pair that names `doc` with a non-empty label.
pub open spec fn last_label(pairs: Seq<(Seq<char>, Seq<char>)>, doc: Seq<char>) -> Option<Seq<char>>
    decreases pairs.len(),
{
    if pairs.len() == 0 {
        None
    } else if pairs.last().0 == doc && pairs.last().1.len() > 0 {
        Some(pairs.last().1)
    } else {
        last_label(pairs.drop_last(), doc)
    }
}


/// One retrieved document is one hit exactly when the label recorded for it
/// (the empty string when it has none) is the query label, character for
/// character; otherwise it is none.
pub proof fn lemma_hits_single(s: Seq<(Seq<char>, Seq<char>)>, label: Seq<char>, doc: Seq<char>)
    ensures
        hits(s, label, seq![doc]) == if label_or_empty(s, doc) == label {
            1nat
        } else {
            0nat
        },
{
    reveal_with_fuel(hits, 2);
    assert(seq![doc].drop_last() =~= Seq::<Seq<char>>::empty());
    assert(seq![doc].last() == doc);
}

/// The hits of two lists of retrieved documents add up.
pub proof fn lemma_hits_append(
    s: Seq<(Seq<char>, Seq<char>)>,
    label: Seq<char>,
    a: Seq<Seq<char>>,
    b: Seq<Seq<char>>,
)
    ensures
        hits(s, label, a + b) == hits(s, label, a) + hits(s, label, b),
    decreases b.len(),
{
    if b.len() == 0 {
        assert(a + b =~= a);
    } else {
        lemma_hits_append(s, label, a, b.drop_last());
        assert((a + b).drop_last() =~= a + b.drop_last());
        assert((a + b).last() == b.last());
    }
}

} // verus!
