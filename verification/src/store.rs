use vstd::prelude::*;

use crate::types::{DocModelKey, EmbMaybeLabel};

verus! {

/// A label as a character sequence, if there is one.
pub open spec fn label_view(label: Option<String>) -> Option<Seq<char>> {
    match label {
        Some(s) => Some(s@),
        None => None,
    }
}

/// What the library knows of a stored value: the embedding and its label.
pub open spec fn value_view<E>(v: EmbMaybeLabel<E>) -> (E, Option<Seq<char>>) {
    (v.emb, label_view(v.label))
}

/// A stored value seen through a reference, if there is one.
pub open spec fn found_view<E>(r: Option<&EmbMaybeLabel<E>>) -> Option<(E, Option<Seq<char>>)> {
    match r {
        Some(v) => Some(value_view(*v)),
        None => None,
    }
}

/// One entry of the store: (document, model) and (embedding, label).
pub open spec fn entry_view<E>(e: (DocModelKey, EmbMaybeLabel<E>)) -> (
    (Seq<char>, Seq<char>),
    (E, Option<Seq<char>>),
) {
    (e.0@, value_view(e.1))
}

/// No (document, model) pair occurs twice.
pub open spec fn keys_distinct<E>(s: Seq<((Seq<char>, Seq<char>), (E, Option<Seq<char>>))>) -> bool {
    forall|a: int, b: int| 0 <= a < b < s.len() ==> s[a].0 != s[b].0
}

/// Some entry has this (document, model) pair.
pub open spec fn has_key<E>(
    s: Seq<((Seq<char>, Seq<char>), (E, Option<Seq<char>>))>,
    key: (Seq<char>, Seq<char>),
) -> bool {
    exists|i: int| 0 <= i < s.len() && #[trigger] s[i].0 == key
}

/// The position of the entry with this pair (meaningful when `has_key`).
pub open spec fn key_pos<E>(
    s: Seq<((Seq<char>, Seq<char>), (E, Option<Seq<char>>))>,
    key: (Seq<char>, Seq<char>),
) -> int {
    choose|i: int| 0 <= i < s.len() && #[trigger] s[i].0 == key
}

/// The value stored under a pair, if any.
pub open spec fn lookup<E>(
    s: Seq<((Seq<char>, Seq<char>), (E, Option<Seq<char>>))>,
    key: (Seq<char>, Seq<char>),
) -> Option<(E, Option<Seq<char>>)> {
    if has_key(s, key) {
        Some(s[key_pos(s, key)].1)
    } else {
        None
    }
}

/// Storing `value` under `key`: an entry with that pair is overwritten in
/// place, otherwise a new entry is appended.
pub open spec fn store_insert<E>(
    s: Seq<((Seq<char>, Seq<char>), (E, Option<Seq<char>>))>,
    key: (Seq<char>, Seq<char>),
    value: (E, Option<Seq<char>>),
) -> Seq<((Seq<char>, Seq<char>), (E, Option<Seq<char>>))> {
    if has_key(s, key) {
        s.update(key_pos(s, key), (key, value))
    } else {
        s.push((key, value))
    }
}

/// A list of strings as character sequences.
pub open spec fn strings_view(s: Seq<String>) -> Seq<Seq<char>> {
    s.map_values(|x: String| x@)
}

/// Optional labels as character sequences.
pub open spec fn labels_view(labels: Option<&Vec<String>>) -> Option<Seq<Seq<char>>> {
    match labels {
        Some(l) => Some(strings_view(l@)),
        None => None,
    }
}

/// The label of the `i`-th document: the `i`-th label when labels were given
/// and there is one at `i`, else none.
pub open spec fn label_at(labels: Option<Seq<Seq<char>>>, i: int) -> Option<Seq<char>> {
    match labels {
        Some(l) => if 0 <= i < l.len() {
            Some(l[i])
        } else {
            None
        },
        None => None,
    }
}

/// Storing the first `n` embeddings computed by `model`, the `i`-th under
/// (`documents[i]`, `model`) with the `i`-th label, one after the other.
pub open spec fn insert_batch<E>(
    s: Seq<((Seq<char>, Seq<char>), (E, Option<Seq<char>>))>,
    documents: Seq<Seq<char>>,
    model: Seq<char>,
    embeddings: Seq<E>,
    labels: Option<Seq<Seq<char>>>,
    n: nat,
) -> Seq<((Seq<char>, Seq<char>), (E, Option<Seq<char>>))>
    decreases n,
{
    if n == 0 {
        s
    } else {
        let i = n - 1;
        store_insert(
            insert_batch(s, documents, model, embeddings, labels, i as nat),
            (documents[i], model),
            (embeddings[i], label_at(labels, i)),
        )
    }
}

/// The distinct elements of `s` in the order of their first occurrence.
pub open spec fn first_occurrences(s: Seq<Seq<char>>) -> Seq<Seq<char>>
    decreases s.len(),
{
    if s.len() == 0 {
        s
    } else {
        let r = first_occurrences(s.drop_last());
        if r.contains(s.last()) {
            r
        } else {
            r.push(s.last())
        }
    }
}

/// The documents of the entries, entry by entry.
pub open spec fn entry_documents<E>(s: Seq<((Seq<char>, Seq<char>), (E, Option<Seq<char>>))>) -> Seq<
    Seq<char>,
> {
    s.map_values(|e: ((Seq<char>, Seq<char>), (E, Option<Seq<char>>))| e.0.0)
}

/// The models of the entries, entry by entry.
pub open spec fn entry_models<E>(s: Seq<((Seq<char>, Seq<char>), (E, Option<Seq<char>>))>) -> Seq<
    Seq<char>,
> {
    s.map_values(|e: ((Seq<char>, Seq<char>), (E, Option<Seq<char>>))| e.0.1)
}

/// (document, label) for each labelled entry, in entry order.
pub open spec fn labeled_pairs<E>(s: Seq<((Seq<char>, Seq<char>), (E, Option<Seq<char>>))>) -> Seq<
    (Seq<char>, Seq<char>),
>
    decreases s.len(),
{
    if s.len() == 0 {
        Seq::empty()
    } else {
        let r = labeled_pairs(s.drop_last());
        match s.last().1.1 {
            Some(l) => r.push((s.last().0.0, l)),
            None => r,
        }
    }
}

/// Two lists of strings of equal length, as a list of pairs of character
/// sequences (the longer list is cut to the shorter).
pub open spec fn zipped(a: Seq<String>, b: Seq<String>) -> Seq<(Seq<char>, Seq<char>)> {
    Seq::new(if a.len() <= b.len() { a.len() } else { b.len() }, |j: int| (a[j]@, b[j]@))
}

/// Whether a list holds a string with the same characters.
fn holds_string(list: &Vec<String>, x: &String) -> (found: bool)
    ensures
        found == strings_view(list@).contains(x@),
{
    let n = list.len();
    let mut i: usize = 0;
    while i < n
        invariant
            n == list.len(),
            i <= n,
            forall|q: int| 0 <= q < i ==> list@[q]@ != x@,
        decreases n - i,
    {
        if list[i] == *x {
            assert(strings_view(list@)[i as int] == x@);
            return true;
        }
        i = i + 1;
    }
    proof {
        if strings_view(list@).contains(x@) {
            let q = choose|q: int| 0 <= q < n && strings_view(list@)[q] == x@;
            assert(list@[q]@ == x@);
        }
    }
    false
}

/// The distinct strings of `items`, in the order of their first occurrence.
fn distinct_strings(items: Vec<String>) -> (out: Vec<String>)
    ensures
        strings_view(out@) == first_occurrences(strings_view(items@)),
{
    let ghost all = strings_view(items@);
    let n = items.len();
    let mut out: Vec<String> = Vec::new();
    let mut i: usize = 0;
    while i < n
        invariant
            n == items.len(),
            all == strings_view(items@),
            i <= n,
            strings_view(out@) == first_occurrences(all.take(i as int)),
        decreases n - i,
    {
        let x = &items[i];
        let seen = holds_string(&out, x);
        assert(all.take(i + 1).drop_last() =~= all.take(i as int));
        assert(all.take(i + 1).last() == x@);
        if !seen {
            out.push(x.clone());
            assert(strings_view(out@) =~= first_occurrences(all.take(i as int)).push(x@));
        }
        i = i + 1;
    }
    assert(all.take(n as int) =~= all);
    out
}

/// Labelled embeddings keyed by (document, model), in the order in which the
/// pairs were first stored. Each pair occurs at most once.
pub struct EmbeddingSet<E> {
    entries: Vec<(DocModelKey, EmbMaybeLabel<E>)>,
}

impl<E> View for EmbeddingSet<E> {
    type V = Seq<((Seq<char>, Seq<char>), (E, Option<Seq<char>>))>;

    closed spec fn view(&self) -> Self::V {
        self.entries@.map_values(|e: (DocModelKey, EmbMaybeLabel<E>)| entry_view(e))
    }
}

impl<E> EmbeddingSet<E> {
    #[verifier::type_invariant]
    closed spec fn well_formed(self) -> bool {
        keys_distinct(self@)
    }

    /// An empty store.
    pub fn new() -> (s: Self)
        ensures
            s@ == Seq::<((Seq<char>, Seq<char>), (E, Option<Seq<char>>))>::empty(),
    {
        let s = EmbeddingSet { entries: Vec::new() };
        assert(s@ =~= Seq::<((Seq<char>, Seq<char>), (E, Option<Seq<char>>))>::empty());
        s
    }

    /// The number of (document, model) pairs stored.
    pub fn len(&self) -> (n: usize)
        ensures
            n == self@.len(),
    {
        self.entries.len()
    }

    fn find(&self, document: &String, model: &String) -> (pos: Option<usize>)
        ensures
            match pos {
                Some(p) => p < self@.len() && self@[p as int].0 == (document@, model@),
                None => !has_key(self@, (document@, model@)),
            },
    {
        let n = self.entries.len();
        let mut i: usize = 0;
        while i < n
            invariant
                n == self.entries.len(),
                n == self@.len(),
                i <= n,
                forall|q: int| 0 <= q < i ==> self@[q].0 != (document@, model@),
            decreases n - i,
        {
            let key = &self.entries[i].0;
            assert(self@[i as int].0 == key@);
            if key.document == *document && key.model == *model {
                return Some(i);
            }
            i = i + 1;
        }
        None
    }

    /// The value stored under (`document`, `model`), if any.
    pub fn get(&self, document: &String, model: &String) -> (r: Option<&EmbMaybeLabel<E>>)
        ensures
            found_view(r) == lookup(self@, (document@, model@)),
    {
        proof {
            use_type_invariant(self);
        }
        match self.find(document, model) {
            Some(p) => {
                let r = &self.entries[p].1;
                assert(self@[p as int] == entry_view(self.entries@[p as int]));
                assert(has_key(self@, (document@, model@)));
                assert(key_pos(self@, (document@, model@)) == p);
                Some(r)
            },
            None => None,
        }
    }

    /// Stores `value` under `key`, replacing what was stored there.
    pub fn insert(&mut self, key: DocModelKey, value: EmbMaybeLabel<E>)
        ensures
            final(self)@ == store_insert(old(self)@, key@, value_view(value)),
            keys_distinct(final(self)@),
    {
        proof {
            use_type_invariant(&*self);
        }
        let ghost old_view = self@;
        let ghost kv = key@;
        let ghost vv = value_view(value);
        match self.find(&key.document, &key.model) {
            Some(p) => {
                assert(has_key(old_view, kv));
                assert(key_pos(old_view, kv) == p);
                let mut entries: Vec<(DocModelKey, EmbMaybeLabel<E>)> = Vec::new();
                std::mem::swap(&mut entries, &mut self.entries);
                entries.set(p, (key, value));
                proof {
                    let nv = entries@.map_values(|e: (DocModelKey, EmbMaybeLabel<E>)| entry_view(e));
                    assert(nv =~= old_view.update(p as int, (kv, vv)));
                }
                self.entries = entries;
            },
            None => {
                let mut entries: Vec<(DocModelKey, EmbMaybeLabel<E>)> = Vec::new();
                std::mem::swap(&mut entries, &mut self.entries);
                entries.push((key, value));
                proof {
                    let nv = entries@.map_values(|e: (DocModelKey, EmbMaybeLabel<E>)| entry_view(e));
                    assert(nv =~= old_view.push((kv, vv)));
                }
                self.entries = entries;
            },
        }
    }

    /// Stores the embeddings that `model` computed for `documents`, the
    /// `i`-th under (`documents[i]`, `model`), labelled with the `i`-th of
    /// `labels` when there is one.
    pub fn insert_embeddings(
        &mut self,
        documents: &Vec<String>,
        model: &String,
        embeddings: Vec<E>,
        labels: Option<&Vec<String>>,
    )
        requires
            embeddings.len() <= documents.len(),
        ensures
            final(self)@ == insert_batch(
                old(self)@,
                strings_view(documents@),
                model@,
                embeddings@,
                labels_view(labels),
                embeddings.len() as nat,
            ),
            keys_distinct(final(self)@),
    {
        proof {
            use_type_invariant(&*self);
        }
        let ghost start = self@;
        let ghost docs = strings_view(documents@);
        let ghost labs = labels_view(labels);
        let ghost all = embeddings@;
        let n = embeddings.len();
        let mut rest = embeddings;
        let mut i: usize = 0;
        while i < n
            invariant
                n == all.len(),
                n <= documents.len(),
                docs == strings_view(documents@),
                labs == labels_view(labels),
                i <= n,
                rest@ == all.skip(i as int),
                self@ == insert_batch(start, docs, model@, all, labs, i as nat),
                keys_distinct(self@),
            decreases n - i,
        {
            proof {
                use_type_invariant(&*self);
            }
            let emb = rest.remove(0);
            let label = match labels {
                Some(l) => if i < l.len() {
                    Some(l[i].clone())
                } else {
                    None
                },
                None => None,
            };
            let key = DocModelKey { document: documents[i].clone(), model: model.clone() };
            assert(key@ == (docs[i as int], model@));
            assert(label_view(label) == label_at(labs, i as int));
            assert(emb == all[i as int]);
            self.insert(key, EmbMaybeLabel { emb, label });
            assert(rest@ =~= all.skip(i + 1));
            i = i + 1;
        }
    }

    /// The documents that have an embedding, each once, in the order in
    /// which they were first stored.
    pub fn documents(&self) -> (docs: Vec<String>)
        ensures
            strings_view(docs@) == first_occurrences(entry_documents(self@)),
    {
        let n = self.entries.len();
        let mut all: Vec<String> = Vec::new();
        let mut i: usize = 0;
        while i < n
            invariant
                n == self@.len(),
                i <= n,
                strings_view(all@) == entry_documents(self@).take(i as int),
            decreases n - i,
        {
            assert(self@[i as int] == entry_view(self.entries@[i as int]));
            assert(entry_documents(self@)[i as int] == self.entries@[i as int].0.document@);
            let d = self.entries[i].0.document.clone();
            let ghost before = strings_view(all@);
            all.push(d);
            assert(strings_view(all@) =~= before.push(d@));
            assert(entry_documents(self@).take(i + 1) =~= entry_documents(self@).take(i as int).push(d@));
            i = i + 1;
        }
        assert(entry_documents(self@).take(n as int) =~= entry_documents(self@));
        distinct_strings(all)
    }

    /// The models that computed an embedding, each once, in the order in
    /// which they were first stored.
    pub fn models(&self) -> (models: Vec<String>)
        ensures
            strings_view(models@) == first_occurrences(entry_models(self@)),
    {
        let n = self.entries.len();
        let mut all: Vec<String> = Vec::new();
        let mut i: usize = 0;
        while i < n
            invariant
                n == self@.len(),
                i <= n,
                strings_view(all@) == entry_models(self@).take(i as int),
            decreases n - i,
        {
            assert(self@[i as int] == entry_view(self.entries@[i as int]));
            assert(entry_models(self@)[i as int] == self.entries@[i as int].0.model@);
            let m = self.entries[i].0.model.clone();
            let ghost before = strings_view(all@);
            all.push(m);
            assert(strings_view(all@) =~= before.push(m@));
            assert(entry_models(self@).take(i + 1) =~= entry_models(self@).take(i as int).push(m@));
            i = i + 1;
        }
        assert(entry_models(self@).take(n as int) =~= entry_models(self@));
        distinct_strings(all)
    }

    /// The document and label of every labelled entry, in entry order, as
    /// two lists of equal length.
    pub fn labeled_documents(&self) -> (r: (Vec<String>, Vec<String>))
        ensures
            r.0.len() == r.1.len(),
            zipped(r.0@, r.1@) == labeled_pairs(self@),
    {
        let n = self.entries.len();
        let mut docs: Vec<String> = Vec::new();
        let mut labels: Vec<String> = Vec::new();
        let mut i: usize = 0;
        while i < n
            invariant
                n == self@.len(),
                i <= n,
                docs.len() == labels.len(),
                docs.len() == labeled_pairs(self@.take(i as int)).len(),
                forall|j: int|
                    0 <= j < docs.len() ==> (#[trigger] docs@[j])@ == labeled_pairs(
                        self@.take(i as int),
                    )[j].0 && labels@[j]@ == labeled_pairs(self@.take(i as int))[j].1,
            decreases n - i,
        {
            assert(self@[i as int] == entry_view(self.entries@[i as int]));
            assert(self@.take(i + 1).drop_last() =~= self@.take(i as int));
            assert(self@.take(i + 1).last() == self@[i as int]);
            let entry = &self.entries[i];
            match &entry.1.label {
                Some(l) => {
                    docs.push(entry.0.document.clone());
                    labels.push(l.clone());
                },
                None => {},
            }
            i = i + 1;
        }
        assert(self@.take(n as int) =~= self@);
        let ghost lp = labeled_pairs(self@);
        assert(labeled_pairs(self@.take(n as int)) == lp);
        assert(zipped(docs@, labels@) =~= lp);
        (docs, labels)
    }
}

/// Each element occurs once in `first_occurrences(s)`, and exactly the
/// elements of `s` occur there.
pub proof fn lemma_first_occurrences(s: Seq<Seq<char>>)
    ensures
        first_occurrences(s).no_duplicates(),
        forall|x: Seq<char>| first_occurrences(s).contains(x) <==> s.contains(x),
    decreases s.len(),
{
    if s.len() > 0 {
        let p = s.drop_last();
        lemma_first_occurrences(p);
        let r = first_occurrences(p);
        assert forall|x: Seq<char>| first_occurrences(s).contains(x) <==> s.contains(x) by {
            if s.contains(x) {
                let q = choose|q: int| 0 <= q < s.len() && s[q] == x;
                if q < s.len() - 1 {
                    assert(p[q] == x);
                }
            }
            if p.contains(x) {
                let q = choose|q: int| 0 <= q < p.len() && p[q] == x;
                assert(s[q] == x);
            }
            if !r.contains(s.last()) {
                assert(r.push(s.last())[r.len() as int] == s.last());
                if r.push(s.last()).contains(x) {
                    let q = choose|q: int| 0 <= q < r.len() + 1 && r.push(s.last())[q] == x;
                    if q < r.len() {
                        assert(r[q] == x);
                    }
                }
                if r.contains(x) {
                    let q = choose|q: int| 0 <= q < r.len() && r[q] == x;
                    assert(r.push(s.last())[q] == x);
                }
            }
        }
    }
}

/// Reading back what was just stored gives it; other pairs are untouched;
/// pairs stay distinct.
pub proof fn lemma_store_insert<E>(
    s: Seq<((Seq<char>, Seq<char>), (E, Option<Seq<char>>))>,
    key: (Seq<char>, Seq<char>),
    value: (E, Option<Seq<char>>),
    other: (Seq<char>, Seq<char>),
)
    requires
        keys_distinct(s),
    ensures
        lookup(store_insert(s, key, value), key) == Some(value),
        other != key ==> lookup(store_insert(s, key, value), other) == lookup(s, other),
        keys_distinct(store_insert(s, key, value)),
{
    let t = store_insert(s, key, value);
    if has_key(s, key) {
        let p = key_pos(s, key);
        assert(t[p].0 == key);
        assert(has_key(t, key));
        assert(key_pos(t, key) == p);
    } else {
        assert(t[s.len() as int].0 == key);
        assert(has_key(t, key));
        assert(key_pos(t, key) == s.len());
    }
    if other != key {
        if has_key(s, other) {
            let q = key_pos(s, other);
            assert(t[q].0 == other);
            assert(has_key(t, other));
            assert(key_pos(t, other) == q);
        }
        if has_key(t, other) {
            let q = key_pos(t, other);
            assert(s[q].0 == other);
        }
    }
}

/// After the embeddings of one model are stored, each document has the
/// embedding (and label) of its last occurrence under that model, the pairs
/// of other models are untouched, and pairs stay distinct.
pub proof fn lemma_insert_batch<E>(
    s: Seq<((Seq<char>, Seq<char>), (E, Option<Seq<char>>))>,
    documents: Seq<Seq<char>>,
    model: Seq<char>,
    embeddings: Seq<E>,
    labels: Option<Seq<Seq<char>>>,
    n: nat,
    i: int,
    other: (Seq<char>, Seq<char>),
)
    requires
        keys_distinct(s),
        n <= documents.len(),
        n <= embeddings.len(),
    ensures
        keys_distinct(insert_batch(s, documents, model, embeddings, labels, n)),
        0 <= i < n && (forall|j: int| i < j < n ==> documents[j] != documents[i]) ==> lookup(
            insert_batch(s, documents, model, embeddings, labels, n),
            (documents[i], model),
        ) == Some((embeddings[i], label_at(labels, i))),
        other.1 != model ==> lookup(insert_batch(s, documents, model, embeddings, labels, n), other)
            == lookup(s, other),
    decreases n,
{
    if n > 0 {
        let m = (n - 1) as nat;
        let t = insert_batch(s, documents, model, embeddings, labels, m);
        let key = (documents[m as int], model);
        let value = (embeddings[m as int], label_at(labels, m as int));
        lemma_insert_batch(s, documents, model, embeddings, labels, m, i, other);
        lemma_store_insert(t, key, value, other);
        if 0 <= i < m && (forall|j: int| i < j < n ==> documents[j] != documents[i]) {
            assert(documents[m as int] != documents[i]);
            lemma_store_insert(t, key, value, (documents[i], model));
        }
    }
}

/// Labels play no part in what the ranking reads: two stores that hold the
/// same pairs with the same embeddings, in the same order, and differ only
/// in labels list the same documents and models and give the same embedding
/// for every pair.
pub proof fn lemma_labels_do_not_matter<E>(
    s1: Seq<((Seq<char>, Seq<char>), (E, Option<Seq<char>>))>,
    s2: Seq<((Seq<char>, Seq<char>), (E, Option<Seq<char>>))>,
    key: (Seq<char>, Seq<char>),
)
    requires
        keys_distinct(s1),
        s1.len() == s2.len(),
        forall|i: int| 0 <= i < s1.len() ==> #[trigger] s1[i].0 == s2[i].0 && s1[i].1.0 == s2[i].1.0,
    ensures
        entry_documents(s1) == entry_documents(s2),
        entry_models(s1) == entry_models(s2),
        has_key(s1, key) == has_key(s2, key),
        has_key(s1, key) ==> lookup(s1, key).unwrap().0 == lookup(s2, key).unwrap().0,
{
    assert(entry_documents(s1) =~= entry_documents(s2));
    assert(entry_models(s1) =~= entry_models(s2));
    if has_key(s1, key) {
        let p = key_pos(s1, key);
        assert(s2[p].0 == key);
        assert(has_key(s2, key));
        let q = key_pos(s2, key);
        assert(s1[q].0 == key);
        assert(p == q);
    }
    if has_key(s2, key) {
        let q = key_pos(s2, key);
        assert(s1[q].0 == key);
    }
}

/// Embeddings play no part in the labelled documents: two stores that hold
/// the same pairs with the same labels, in the same order, and differ only in
/// embeddings give the same (document, label) list.
pub proof fn lemma_embeddings_do_not_matter<E>(
    s1: Seq<((Seq<char>, Seq<char>), (E, Option<Seq<char>>))>,
    s2: Seq<((Seq<char>, Seq<char>), (E, Option<Seq<char>>))>,
)
    requires
        s1.len() == s2.len(),
        forall|i: int| 0 <= i < s1.len() ==> #[trigger] s1[i].0 == s2[i].0 && s1[i].1.1 == s2[i].1.1,
    ensures
        labeled_pairs(s1) == labeled_pairs(s2),
    decreases s1.len(),
{
    if s1.len() > 0 {
        let p1 = s1.drop_last();
        let p2 = s2.drop_last();
        assert forall|i: int| 0 <= i < p1.len() implies #[trigger] p1[i].0 == p2[i].0 && p1[i].1.1
            == p2[i].1.1 by {
            assert(s1[i].0 == s2[i].0 && s1[i].1.1 == s2[i].1.1);
        }
        lemma_embeddings_do_not_matter(p1, p2);
        assert(s1[s1.len() - 1].0 == s2[s2.len() - 1].0);
    }
}


/// A single entry gives one (document, label) pair exactly when it has a
/// label, whatever the document (the empty one too), and none otherwise.
pub proof fn lemma_labeled_pairs_single<E>(e: ((Seq<char>, Seq<char>), (E, Option<Seq<char>>)))
    ensures
        labeled_pairs(seq![e]) == match e.1.1 {
            Some(l) => seq![(e.0.0, l)],
            None => Seq::<(Seq<char>, Seq<char>)>::empty(),
        },
{
    reveal_with_fuel(labeled_pairs, 2);
    assert(seq![e].drop_last() =~= Seq::<((Seq<char>, Seq<char>), (E, Option<Seq<char>>))>::empty());
    assert(seq![e].last() == e);
    match e.1.1 {
        Some(l) => {
            assert(Seq::<(Seq<char>, Seq<char>)>::empty().push((e.0.0, l)) =~= seq![(e.0.0, l)]);
        },
        None => {},
    }
}

/// The labelled pairs of two runs of entries are those of the first followed
/// by those of the second.
pub proof fn lemma_labeled_pairs_append<E>(
    a: Seq<((Seq<char>, Seq<char>), (E, Option<Seq<char>>))>,
    b: Seq<((Seq<char>, Seq<char>), (E, Option<Seq<char>>))>,
)
    ensures
        labeled_pairs(a + b) == labeled_pairs(a) + labeled_pairs(b),
    decreases b.len(),
{
    if b.len() == 0 {
        assert(a + b =~= a);
        assert(labeled_pairs(a) + labeled_pairs(b) =~= labeled_pairs(a));
    } else {
        lemma_labeled_pairs_append(a, b.drop_last());
        assert((a + b).drop_last() =~= a + b.drop_last());
        assert((a + b).last() == b.last());
        match b.last().1.1 {
            Some(l) => {
                assert(labeled_pairs(a) + labeled_pairs(b) =~= (labeled_pairs(a) + labeled_pairs(
                    b.drop_last(),
                )).push((b.last().0.0, l)));
            },
            None => {
                assert(labeled_pairs(a) + labeled_pairs(b) =~= labeled_pairs(a) + labeled_pairs(
                    b.drop_last(),
                ));
            },
        }
    }
}

} // verus!
