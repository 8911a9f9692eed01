use vstd::prelude::*;

use crate::assoc::{lemma_to_map_dom, lemma_to_map_get, lemma_to_map_update, to_map, unique_keys};
use crate::tokenizer::{tokens, Tokenizer};

verus! {

/// `c` with the ASCII letters 'A' to 'Z' mapped to 'a' to 'z'.
pub open spec fn fold_char(c: char) -> char {
    if 'A' <= c && c <= 'Z' {
        ((c as u32) + 32) as char
    } else {
        c
    }
}

/// The term that a token stands for: the token, ASCII-lower-cased.
pub open spec fn term_of(t: Seq<char>) -> Seq<char> {
    t.map_values(|c: char| fold_char(c))
}

/// The terms of a text, one per token, left to right.
pub open spec fn terms(s: Seq<char>) -> Seq<Seq<char>> {
    tokens(s).map_values(|t: Seq<char>| term_of(t))
}

/// How often each term occurs in `ts`; a term that does not occur has no entry.
pub open spec fn term_counts(ts: Seq<Seq<char>>) -> Map<Seq<char>, nat>
    decreases ts.len(),
{
    if ts.len() == 0 {
        Map::empty()
    } else {
        let m = term_counts(ts.drop_last());
        let t = ts.last();
        m.insert(t, if m.contains_key(t) { m[t] + 1 } else { 1 })
    }
}

/// Relies on `char::to_ascii_lowercase`.
#[verifier::external_body]
fn ascii_lower(c: char) -> (r: char)
    ensures
        r == fold_char(c),
{
    c.to_ascii_lowercase()
}

/// Relies on `String`'s `FromIterator<char>`: the characters, in order.
#[verifier::external_body]
pub(crate) fn string_of(cs: &[char]) -> (r: String)
    ensures
        r@ == cs@,
{
    cs.iter().collect()
}

/// The term of one token.
fn fold_token(token: &[char]) -> (r: String)
    ensures
        r@ == term_of(token@),
{
    let mut v: Vec<char> = Vec::new();
    let mut i: usize = 0;
    while i < token.len()
        invariant
            i <= token@.len(),
            v@ == term_of(token@.take(i as int)),
        decreases token@.len() - i,
    {
        v.push(ascii_lower(token[i]));
        i += 1;
        assert(v@ =~= term_of(token@.take(i as int)));
    }
    assert(token@.take(token@.len() as int) =~= token@);
    string_of(v.as_slice())
}

/// Each term of one document and its number of occurrences, which is at least one.
pub struct TermFreq {
    entries: Vec<(String, usize)>,
}

pub open spec fn freq_pairs(es: Seq<(String, usize)>) -> Seq<(Seq<char>, nat)> {
    es.map_values(|e: (String, usize)| (e.0@, e.1 as nat))
}

/// A list of (term, count) pairs that a term table can be made of: no term twice, and
/// every count at least one.
pub open spec fn valid_freqs(es: Seq<(String, usize)>) -> bool {
    &&& unique_keys(freq_pairs(es))
    &&& forall|i: int| 0 <= i < es.len() ==> #[trigger] es[i].1 >= 1
}

impl View for TermFreq {
    type V = Map<Seq<char>, nat>;

    closed spec fn view(&self) -> Map<Seq<char>, nat> {
        to_map(freq_pairs(self.entries@))
    }
}

impl TermFreq {
    /// Terms are unique and every count is at least one.
    pub closed spec fn wf(&self) -> bool {
        valid_freqs(self.entries@)
    }

    pub fn new() -> (r: TermFreq)
        ensures
            r.wf(),
            r@ == Map::<Seq<char>, nat>::empty(),
    {
        let r = TermFreq { entries: Vec::new() };
        assert(freq_pairs(r.entries@) =~= Seq::empty());
        r
    }

    fn position(&self, term: &String) -> (r: Option<usize>)
        requires
            self.wf(),
        ensures
            r is None ==> !self@.contains_key(term@),
            r matches Some(i) ==> i < self.entries@.len() && self.entries@[i as int].0@ == term@,
    {
        let ghost ps = freq_pairs(self.entries@);
        let mut i: usize = 0;
        while i < self.entries.len()
            invariant
                i <= self.entries@.len(),
                ps == freq_pairs(self.entries@),
                forall|j: int| 0 <= j < i ==> ps[j].0 != term@,
            decreases self.entries@.len() - i,
        {
            if self.entries[i].0 == *term {
                return Some(i);
            }
            i += 1;
        }
        proof {
            lemma_to_map_dom(ps, term@);
        }
        None
    }

    /// The number of occurrences of `term`, if it occurs.
    pub fn get(&self, term: &String) -> (r: Option<usize>)
        requires
            self.wf(),
        ensures
            r is None <==> !self@.contains_key(term@),
            r matches Some(n) ==> self@[term@] == n as nat,
    {
        match self.position(term) {
            None => None,
            Some(i) => {
                proof {
                    lemma_to_map_get(freq_pairs(self.entries@), i as int);
                }
                Some(self.entries[i].1)
            },
        }
    }

    /// Counts one more occurrence of `term`: its count goes up by one, or it enters
    /// with a count of one.
    pub fn add(&mut self, term: String)
        requires
            old(self).wf(),
            old(self)@.contains_key(term@) ==> old(self)@[term@] < usize::MAX,
        ensures
            final(self).wf(),
            final(self)@ == old(self)@.insert(
                term@,
                if old(self)@.contains_key(term@) { old(self)@[term@] + 1 } else { 1 },
            ),
    {
        let ghost ps = freq_pairs(self.entries@);
        match self.position(&term) {
            Some(i) => {
                proof {
                    lemma_to_map_get(ps, i as int);
                    lemma_to_map_update(ps, i as int, (self.entries@[i as int].1 + 1) as nat);
                }
                let n = self.entries[i].1;
                self.entries.set(i, (term, n + 1));
                let ghost qs = ps.update(i as int, (ps[i as int].0, (n + 1) as nat));
                assert(freq_pairs(self.entries@) =~= qs);
                assert forall|a: int, b: int| 0 <= a < b < qs.len() implies qs[a].0 != qs[b].0 by {
                    assert(qs[a].0 == ps[a].0 && qs[b].0 == ps[b].0);
                }
                assert forall|j: int| 0 <= j < self.entries@.len() implies #[trigger] self.entries@[j].1
                    >= 1 by {
                    if j != i {
                        assert(self.entries@[j] == old(self).entries@[j]);
                    }
                }
            },
            None => {
                proof {
                    lemma_to_map_dom(ps, term@);
                }
                let ghost k = term@;
                self.entries.push((term, 1));
                let ghost qs = freq_pairs(self.entries@);
                assert(qs.drop_last() =~= ps);
                assert forall|a: int, b: int| 0 <= a < b < qs.len() implies qs[a].0 != qs[b].0 by {
                    assert(qs[a] == ps[a]);
                    if b < ps.len() {
                        assert(qs[b] == ps[b]);
                    } else {
                        assert(qs[b].0 == k);
                    }
                }
                assert forall|j: int| 0 <= j < self.entries@.len() implies #[trigger] self.entries@[j].1
                    >= 1 by {
                    if j < ps.len() {
                        assert(self.entries@[j] == old(self).entries@[j]);
                    }
                }
            },
        }
    }

    /// The (term, count) pairs of the table.
    pub fn to_entries(&self) -> (r: Vec<(String, usize)>)
        requires
            self.wf(),
        ensures
            valid_freqs(r@),
            to_map(freq_pairs(r@)) == self@,
    {
        let mut r: Vec<(String, usize)> = Vec::new();
        let mut i: usize = 0;
        while i < self.entries.len()
            invariant
                self.wf(),
                i <= self.entries@.len(),
                r@.len() == i,
                forall|k: int| 0 <= k < i ==> (#[trigger] r@[k]).0@ == self.entries@[k].0@ && r@[k].1
                    == self.entries@[k].1,
            decreases self.entries@.len() - i,
        {
            r.push((self.entries[i].0.clone(), self.entries[i].1));
            i += 1;
        }
        assert(freq_pairs(r@) =~= freq_pairs(self.entries@));
        assert forall|k: int| 0 <= k < r@.len() implies #[trigger] r@[k].1 >= 1 by {
            assert(self.entries@[k].1 >= 1);
        }
        r
    }

    /// The table made of the given (term, count) pairs, or `None` where a term comes
    /// twice or a count is zero.
    pub fn from_entries(entries: &Vec<(String, usize)>) -> (r: Option<TermFreq>)
        ensures
            r is Some <==> valid_freqs(entries@),
            r matches Some(tf) ==> tf.wf() && tf@ == to_map(freq_pairs(entries@)),
    {
        let mut out = TermFreq { entries: Vec::new() };
        assert(freq_pairs(out.entries@) =~= Seq::empty());
        let mut i: usize = 0;
        while i < entries.len()
            invariant
                i <= entries@.len(),
                out.wf(),
                out.entries@.len() == i,
                forall|k: int| 0 <= k < i ==> (#[trigger] out.entries@[k]).0@ == entries@[k].0@
                    && out.entries@[k].1 == entries@[k].1,
            decreases entries@.len() - i,
        {
            let count = entries[i].1;
            if count == 0 {
                assert(entries@[i as int].1 < 1);
                return None;
            }
            match out.position(&entries[i].0) {
                Some(p) => {
                    assert(freq_pairs(entries@)[p as int].0 == freq_pairs(entries@)[i as int].0);
                    return None;
                },
                None => {},
            }
            let ghost ps = freq_pairs(out.entries@);
            proof {
                lemma_to_map_dom(ps, entries@[i as int].0@);
            }
            out.entries.push((entries[i].0.clone(), count));
            let ghost qs = freq_pairs(out.entries@);
            assert(qs.drop_last() =~= ps);
            assert forall|a: int, b: int| 0 <= a < b < qs.len() implies qs[a].0 != qs[b].0 by {
                assert(qs[a] == ps[a]);
                if b < ps.len() {
                    assert(qs[b] == ps[b]);
                }
            }
            i += 1;
        }
        assert(freq_pairs(out.entries@) =~= freq_pairs(entries@));
        assert forall|k: int| 0 <= k < entries@.len() implies #[trigger] entries@[k].1 >= 1 by {
            assert(out.entries@[k].1 >= 1);
        }
        Some(out)
    }

    /// The number of distinct terms.
    pub fn len(&self) -> (r: usize)
        requires
            self.wf(),
        ensures
            r == self@.len(),
    {
        proof {
            lemma_pairs_len(freq_pairs(self.entries@));
        }
        self.entries.len()
    }
}

proof fn lemma_pairs_len<V>(ps: Seq<(Seq<char>, V)>)
    requires
        unique_keys(ps),
    ensures
        to_map(ps).dom().finite(),
        to_map(ps).len() == ps.len(),
    decreases ps.len(),
{
    if ps.len() > 0 {
        lemma_pairs_len(ps.drop_last());
        lemma_to_map_dom(ps.drop_last(), ps.last().0);
        if to_map(ps.drop_last()).contains_key(ps.last().0) {
            let i = choose|i: int|
                0 <= i < ps.drop_last().len() && ps.drop_last()[i].0 == ps.last().0;
            assert(ps[i].0 == ps[ps.len() - 1].0);
        }
    }
}

proof fn lemma_term_counts_bound(ts: Seq<Seq<char>>, t: Seq<char>)
    ensures
        term_counts(ts).contains_key(t) ==> 1 <= term_counts(ts)[t] <= ts.len(),
    decreases ts.len(),
{
    if ts.len() > 0 {
        lemma_term_counts_bound(ts.drop_last(), t);
    }
}

/// The term frequencies of one document's text: each token, lower-cased, counted.
pub fn index_document(content: &[char]) -> (tf: TermFreq)
    ensures
        tf.wf(),
        tf@ == term_counts(terms(content@)),
{
    let total = content.len();
    let mut tf = TermFreq::new();
    let mut tokenizer = Tokenizer::new(content);
    let ghost all = terms(content@);
    let mut seen: usize = 0;
    loop
        invariant
            tf.wf(),
            seen + tokenizer@.len() <= content@.len(),
            total == content@.len(),
            all == terms(content@),
            seen + terms(tokenizer@).len() == all.len(),
            all.take(seen as int) + terms(tokenizer@) == all,
            tf@ == term_counts(all.take(seen as int)),
        ensures
            tf@ == term_counts(all),
        decreases tokenizer@.len(),
    {
        let ghost before = tokenizer@;
        match tokenizer.next() {
            None => {
                assert(all.take(seen as int) =~= all);
                break;
            },
            Some(token) => {
                let term = fold_token(token);
                proof {
                    let rest = terms(tokenizer@);
                    assert(rest =~= terms(before).drop_first());
                    assert(terms(before)[0] == term@);
                    assert(all.take(seen + 1) =~= all.take(seen as int).push(term@)) by {
                        assert(all[seen as int] == terms(before)[0]);
                    }
                    assert(all.take(seen + 1) + rest =~= all) by {
                        assert(all.take(seen as int) + terms(before) =~= all);
                    }
                    lemma_term_counts_bound(all.take(seen as int), term@);
                    assert(all.take(seen + 1).drop_last() =~= all.take(seen as int));
                }
                tf.add(term);
                seen += 1;
            },
        }
    }
    tf
}

/// The documents of an index, each with its term table, in the order they entered.
pub open spec fn doc_pairs(ds: Seq<(String, TermFreq)>) -> Seq<(Seq<char>, Map<Seq<char>, nat>)> {
    ds.map_values(|d: (String, TermFreq)| (d.0@, d.1@))
}

/// Each entry's identifier with the table its term pairs describe.
pub open spec fn index_pairs(es: Seq<(String, Vec<(String, usize)>)>) -> Seq<
    (Seq<char>, Map<Seq<char>, nat>),
> {
    es.map_values(|e: (String, Vec<(String, usize)>)| (e.0@, to_map(freq_pairs(e.1@))))
}

/// Entries that an index can be made of: no identifier twice, and every term list a
/// valid table.
pub open spec fn valid_index_entries(es: Seq<(String, Vec<(String, usize)>)>) -> bool {
    &&& unique_keys(index_pairs(es))
    &&& forall|i: int| 0 <= i < es.len() ==> valid_freqs((#[trigger] es[i]).1@)
}

/// The term tables of a set of documents, by document identifier.
pub struct TermFreqIndex {
    docs: Vec<(String, TermFreq)>,
}

impl View for TermFreqIndex {
    type V = Map<Seq<char>, Map<Seq<char>, nat>>;

    closed spec fn view(&self) -> Map<Seq<char>, Map<Seq<char>, nat>> {
        to_map(self.documents())
    }
}

impl TermFreqIndex {
    /// The documents, each with its term table, in the order they entered.
    pub closed spec fn documents(&self) -> Seq<(Seq<char>, Map<Seq<char>, nat>)> {
        doc_pairs(self.docs@)
    }

    /// Identifiers are unique and every term table is well formed.
    pub closed spec fn wf(&self) -> bool {
        &&& unique_keys(self.documents())
        &&& forall|i: int| 0 <= i < self.docs@.len() ==> (#[trigger] self.docs@[i]).1.wf()
    }

    pub fn new() -> (r: TermFreqIndex)
        ensures
            r.wf(),
            r@ == Map::<Seq<char>, Map<Seq<char>, nat>>::empty(),
            r.documents().len() == 0,
    {
        let r = TermFreqIndex { docs: Vec::new() };
        assert(r.documents() =~= Seq::empty());
        r
    }

    /// Enters the term table of document `id`, in place of any it had.
    pub fn insert(&mut self, id: String, tf: TermFreq)
        requires
            old(self).wf(),
            tf.wf(),
        ensures
            final(self).wf(),
            final(self)@ == old(self)@.insert(id@, tf@),
    {
        let ghost ps = self.documents();
        let ghost k = id@;
        let ghost v = tf@;
        let mut i: usize = 0;
        while i < self.docs.len()
            invariant
                i <= self.docs@.len(),
                ps == self.documents(),
                unique_keys(ps),
                k == id@,
                v == tf@,
                tf.wf(),
                old(self).wf(),
                self.docs@ == old(self).docs@,
                forall|j: int| 0 <= j < i ==> ps[j].0 != k,
            decreases self.docs@.len() - i,
        {
            assert(ps[i as int].0 == self.docs@[i as int].0@);
            if self.docs[i].0 == id {
                proof {
                    lemma_to_map_update(ps, i as int, v);
                }
                let ghost entry = (id, tf);
                self.docs.set(i, (id, tf));
                assert(self.docs@ == old(self).docs@.update(i as int, entry));
                let ghost qs = ps.update(i as int, (ps[i as int].0, v));
                assert forall|j: int| 0 <= j < qs.len() implies #[trigger] self.documents()[j]
                    == qs[j] by {
                    if j != i {
                        assert(self.docs@[j] == old(self).docs@[j]);
                    }
                }
                assert(self.documents() =~= qs);
                assert forall|a: int, b: int| 0 <= a < b < qs.len() implies qs[a].0 != qs[b].0 by {
                    assert(qs[a].0 == ps[a].0 && qs[b].0 == ps[b].0);
                }
                assert forall|j: int| 0 <= j < self.docs@.len() implies (#[trigger] self.docs@[j]).1.wf() by {
                    if j != i {
                        assert(self.docs@[j] == old(self).docs@[j]);
                    }
                }
                return;
            }
            i += 1;
        }
        self.docs.push((id, tf));
        let ghost qs = self.documents();
        assert(qs.drop_last() =~= ps);
        assert forall|a: int, b: int| 0 <= a < b < qs.len() implies qs[a].0 != qs[b].0 by {
            assert(qs[a] == ps[a]);
            if b < ps.len() {
                assert(qs[b] == ps[b]);
            }
        }
        assert forall|j: int| 0 <= j < self.docs@.len() implies (#[trigger] self.docs@[j]).1.wf() by {
            if j < ps.len() {
                assert(self.docs@[j] == old(self).docs@[j]);
            }
        }
    }

    /// Each document's identifier with the (term, count) pairs of its table.
    pub fn to_entries(&self) -> (r: Vec<(String, Vec<(String, usize)>)>)
        requires
            self.wf(),
        ensures
            valid_index_entries(r@),
            index_pairs(r@) == self.documents(),
    {
        let mut r: Vec<(String, Vec<(String, usize)>)> = Vec::new();
        let mut i: usize = 0;
        while i < self.docs.len()
            invariant
                self.wf(),
                i <= self.docs@.len(),
                r@.len() == i,
                forall|k: int| 0 <= k < i ==> valid_freqs((#[trigger] r@[k]).1@),
                forall|k: int| 0 <= k < i ==> #[trigger] index_pairs(r@)[k] == self.documents()[k],
            decreases self.docs@.len() - i,
        {
            let terms = self.docs[i].1.to_entries();
            let ghost before = r@;
            r.push((self.docs[i].0.clone(), terms));
            assert forall|k: int| 0 <= k < i + 1 implies #[trigger] index_pairs(r@)[k]
                == self.documents()[k] by {
                if k < i {
                    assert(r@[k] == before[k]);
                    assert(index_pairs(before)[k] == self.documents()[k]);
                }
            }
            i += 1;
        }
        assert(index_pairs(r@) =~= self.documents());
        r
    }

    /// The index made of the given (identifier, term pairs) entries, or `None` where an
    /// identifier comes twice or a term list is not a valid table.
    pub fn from_entries(entries: &Vec<(String, Vec<(String, usize)>)>) -> (r: Option<TermFreqIndex>)
        ensures
            r is Some <==> valid_index_entries(entries@),
            r matches Some(x) ==> x.wf() && x.documents() == index_pairs(entries@) && x@ == to_map(
                index_pairs(entries@),
            ),
    {
        let mut out = TermFreqIndex { docs: Vec::new() };
        assert(out.documents() =~= Seq::empty());
        let mut i: usize = 0;
        while i < entries.len()
            invariant
                i <= entries@.len(),
                out.wf(),
                out.docs@.len() == i,
                forall|k: int| 0 <= k < i ==> valid_freqs((#[trigger] entries@[k]).1@),
                forall|k: int| 0 <= k < i ==> #[trigger] out.documents()[k] == index_pairs(entries@)[k],
            decreases entries@.len() - i,
        {
            let tf = match TermFreq::from_entries(&entries[i].1) {
                Some(tf) => tf,
                None => {
                    return None;
                },
            };
            let mut j: usize = 0;
            while j < out.docs.len()
                invariant
                    i < entries@.len(),
                    out.docs@.len() == i,
                    forall|k: int| 0 <= k < i ==> #[trigger] out.documents()[k] == index_pairs(
                        entries@,
                    )[k],
                    j <= out.docs@.len(),
                    forall|k: int| 0 <= k < j ==> out.docs@[k].0@ != entries@[i as int].0@,
                decreases out.docs@.len() - j,
            {
                if out.docs[j].0 == entries[i].0 {
                    assert(out.documents()[j as int] == index_pairs(entries@)[j as int]);
                    assert(index_pairs(entries@)[j as int].0 == index_pairs(entries@)[i as int].0);
                    return None;
                }
                j += 1;
            }
            let ghost ps = out.documents();
            let ghost old_docs = out.docs@;
            out.docs.push((entries[i].0.clone(), tf));
            let ghost qs = out.documents();
            assert(qs.drop_last() =~= ps);
            assert forall|a: int, b: int| 0 <= a < b < qs.len() implies qs[a].0 != qs[b].0 by {
                assert(qs[a] == ps[a]);
                if b < ps.len() {
                    assert(qs[b] == ps[b]);
                } else {
                    assert(old_docs[a].0@ == ps[a].0);
                }
            }
            assert forall|j: int| 0 <= j < out.docs@.len() implies (#[trigger] out.docs@[j]).1.wf() by {
                if j < old_docs.len() {
                    assert(out.docs@[j] == old_docs[j]);
                }
            }
            assert forall|k: int| 0 <= k < i + 1 implies #[trigger] out.documents()[k]
                == index_pairs(entries@)[k] by {
                if k < i {
                    assert(qs[k] == ps[k]);
                }
            }
            i += 1;
        }
        assert(out.documents() =~= index_pairs(entries@));
        Some(out)
    }

    /// The number of documents.
    pub fn len(&self) -> (r: usize)
        requires
            self.wf(),
        ensures
            r == self@.len(),
            r == self.documents().len(),
    {
        proof {
            lemma_pairs_len(self.documents());
        }
        self.docs.len()
    }

    /// The identifier of the `i`-th document.
    pub fn doc_id(&self, i: usize) -> (r: &String)
        requires
            i < self.documents().len(),
        ensures
            r@ == self.documents()[i as int].0,
    {
        &self.docs[i].0
    }

    /// The term table of the `i`-th document.
    pub fn doc_terms(&self, i: usize) -> (r: &TermFreq)
        requires
            self.wf(),
            i < self.documents().len(),
        ensures
            r.wf(),
            r@ == self.documents()[i as int].1,
    {
        &self.docs[i].1
    }
}

/// Each document's identifier with the term frequencies of its text.
pub open spec fn indexed(ds: Seq<(String, Vec<char>)>) -> Seq<(Seq<char>, Map<Seq<char>, nat>)> {
    ds.map_values(|d: (String, Vec<char>)| (d.0@, term_counts(terms(d.1@))))
}

/// Indexes the documents, given as (identifier, text) pairs; a later document with the
/// same identifier takes the place of an earlier one.
pub fn index_documents(documents: &Vec<(String, Vec<char>)>) -> (r: TermFreqIndex)
    ensures
        r.wf(),
        r@ == to_map(indexed(documents@)),
{
    let ghost spec_docs = indexed(documents@);
    let mut index = TermFreqIndex::new();
    let mut i: usize = 0;
    while i < documents.len()
        invariant
            i <= documents@.len(),
            index.wf(),
            spec_docs == indexed(documents@),
            index@ == to_map(spec_docs.take(i as int)),
        decreases documents@.len() - i,
    {
        let tf = index_document(documents[i].1.as_slice());
        index.insert(documents[i].0.clone(), tf);
        proof {
            assert(spec_docs.len() == documents@.len());
            assert(spec_docs[i as int] == (documents@[i as int].0@, term_counts(
                terms(documents@[i as int].1@),
            )));
            assert(spec_docs.take(i + 1).drop_last() =~= spec_docs.take(i as int));
        }
        i += 1;
    }
    assert(spec_docs.take(i as int) =~= spec_docs);
    index
}

/// Saving an index and loading it back gives the same index: the entries that
/// `to_entries` hands out are accepted by `from_entries`, and describe the same
/// documents, terms and counts.
pub proof fn lemma_round_trip(x: TermFreqIndex, e: Seq<(String, Vec<(String, usize)>)>)
    requires
        x.wf(),
        valid_index_entries(e),
        index_pairs(e) == x.documents(),
    ensures
        valid_index_entries(e),
        index_pairs(e) == x.documents(),
        to_map(index_pairs(e)) == x@,
{
}

} // verus!
