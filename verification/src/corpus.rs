use vstd::prelude::*;

use crate::store::{strings_view, zipped};
use crate::types::NewsDP;

verus! {

/// Number of documents taken from a corpus for weight optimisation.
pub const TRAINING_DOCUMENTS: usize = 501;

/// Number of labels taken from a corpus for weight optimisation.
pub const TRAINING_LABELS: usize = 500;

/// (text, label name) of every record that has a text or a label name, in
/// corpus order.
pub open spec fn kept_records(points: Seq<NewsDP>) -> Seq<(Seq<char>, Seq<char>)>
    decreases points.len(),
{
    if points.len() == 0 {
        Seq::empty()
    } else {
        let r = kept_records(points.drop_last());
        let p = points.last();
        if p.text@.len() > 0 || p.label_text@.len() > 0 {
            r.push((p.text@, p.label_text@))
        } else {
            r
        }
    }
}

/// The texts and label names of the records that have a text or a label
/// name, as two lists of equal length in corpus order.
pub fn news_corpus(points: &Vec<NewsDP>) -> (r: (Vec<String>, Vec<String>))
    ensures
        r.0.len() == r.1.len(),
        zipped(r.0@, r.1@) == kept_records(points@),
{
    let n = points.len();
    let mut texts: Vec<String> = Vec::new();
    let mut labels: Vec<String> = Vec::new();
    let mut i: usize = 0;
    while i < n
        invariant
            n == points.len(),
            i <= n,
            texts.len() == labels.len(),
            zipped(texts@, labels@) == kept_records(points@.take(i as int)),
        decreases n - i,
    {
        assert(points@.take(i + 1).drop_last() =~= points@.take(i as int));
        assert(points@.take(i + 1).last() == points@[i as int]);
        let p = &points[i];
        if !p.text.as_str().is_empty() || !p.label_text.as_str().is_empty() {
            let ghost before = zipped(texts@, labels@);
            texts.push(p.text.clone());
            labels.push(p.label_text.clone());
            assert(zipped(texts@, labels@) =~= before.push((p.text@, p.label_text@)));
        }
        i = i + 1;
    }
    assert(points@.take(n as int) =~= points@);
    (texts, labels)
}

/// The documents and labels used to optimise weights: the first
/// `TRAINING_DOCUMENTS` documents and the first `TRAINING_LABELS` labels.
pub fn training_split(documents: &Vec<String>, labels: &Vec<String>) -> (r: (Vec<String>, Vec<String>))
    requires
        documents.len() >= TRAINING_DOCUMENTS,
        labels.len() >= TRAINING_LABELS,
    ensures
        strings_view(r.0@) == strings_view(documents@).take(TRAINING_DOCUMENTS as int),
        strings_view(r.1@) == strings_view(labels@).take(TRAINING_LABELS as int),
{
    (prefix(documents, TRAINING_DOCUMENTS), prefix(labels, TRAINING_LABELS))
}

fn prefix(items: &Vec<String>, n: usize) -> (r: Vec<String>)
    requires
        n <= items.len(),
    ensures
        strings_view(r@) == strings_view(items@).take(n as int),
{
    let mut r: Vec<String> = Vec::new();
    let mut i: usize = 0;
    while i < n
        invariant
            n <= items.len(),
            i <= n,
            strings_view(r@) == strings_view(items@).take(i as int),
        decreases n - i,
    {
        let ghost before = strings_view(r@);
        r.push(items[i].clone());
        assert(strings_view(r@) =~= before.push(items@[i as int]@));
        assert(strings_view(items@).take(i + 1) =~= strings_view(items@).take(i as int).push(
            items@[i as int]@,
        ));
        i = i + 1;
    }
    r
}


/// A single record is kept, as its (text, label name), exactly when its text
/// or its label name is non-empty; its numeric label plays no part.
pub proof fn lemma_kept_records_single(p: NewsDP)
    ensures
        kept_records(seq![p]) == if p.text@.len() > 0 || p.label_text@.len() > 0 {
            seq![(p.text@, p.label_text@)]
        } else {
            Seq::<(Seq<char>, Seq<char>)>::empty()
        },
{
    reveal_with_fuel(kept_records, 2);
    assert(seq![p].drop_last() =~= Seq::<NewsDP>::empty());
    assert(seq![p].last() == p);
    if p.text@.len() > 0 || p.label_text@.len() > 0 {
        assert(Seq::<(Seq<char>, Seq<char>)>::empty().push((p.text@, p.label_text@)) =~= seq![
            (p.text@, p.label_text@),
        ]);
    }
}

/// The records kept from two corpora read one after the other are those kept
/// from the first followed by those kept from the second.
pub proof fn lemma_kept_records_append(a: Seq<NewsDP>, b: Seq<NewsDP>)
    ensures
        kept_records(a + b) == kept_records(a) + kept_records(b),
    decreases b.len(),
{
    if b.len() == 0 {
        assert(a + b =~= a);
        assert(kept_records(a) + kept_records(b) =~= kept_records(a));
    } else {
        lemma_kept_records_append(a, b.drop_last());
        assert((a + b).drop_last() =~= a + b.drop_last());
        assert((a + b).last() == b.last());
        let p = b.last();
        if p.text@.len() > 0 || p.label_text@.len() > 0 {
            assert(kept_records(a) + kept_records(b) =~= (kept_records(a) + kept_records(
                b.drop_last(),
            )).push((p.text@, p.label_text@)));
        } else {
            assert(kept_records(a) + kept_records(b) =~= kept_records(a) + kept_records(
                b.drop_last(),
            ));
        }
    }
}

} // verus!
