use vstd::prelude::*;

use crate::index::{string_of, TermFreqIndex};
use crate::tokenizer::{lemma_no_words, white_space, words, Tokenizer};

verus! {

/// The number of documents among `docs` whose term table holds `t`.
pub open spec fn docs_with(docs: Seq<(Seq<char>, Map<Seq<char>, nat>)>, t: Seq<char>) -> nat
    decreases docs.len(),
{
    if docs.len() == 0 {
        0
    } else {
        docs_with(docs.drop_last(), t) + if docs.last().1.contains_key(t) {
            1nat
        } else {
            0nat
        }
    }
}

/// What the query terms `qs` bring to the score of a document with term table `tf`,
/// in query order: for each query term `t` that the document holds, the pair
/// `(tf[t], M)`, where `M` is the number of documents of `docs` that hold `t`. Its
/// share of the score is `tf[t] * ln(N / M)`, `N` being the number of documents.
pub open spec fn contributions(
    tf: Map<Seq<char>, nat>,
    qs: Seq<Seq<char>>,
    docs: Seq<(Seq<char>, Map<Seq<char>, nat>)>,
) -> Seq<(nat, nat)>
    decreases qs.len(),
{
    if qs.len() == 0 {
        Seq::empty()
    } else {
        let rest = contributions(tf, qs.drop_last(), docs);
        let t = qs.last();
        if tf.contains_key(t) {
            rest.push((tf[t], docs_with(docs, t)))
        } else {
            rest
        }
    }
}

/// Whether contributions `cs` give a score above zero among `n` documents: every
/// share is `f * ln(n / m)` with `f >= 1` and `1 <= m <= n`, so the sum is above zero
/// exactly when some term is missing from some document (`m < n`).
pub open spec fn relevant(cs: Seq<(nat, nat)>, n: nat) -> bool {
    exists|i: int| 0 <= i < cs.len() && #[trigger] cs[i].1 < n
}

/// The documents of `ds` that the query terms `qs` score above zero, in order, each
/// with its contributions, measured against all the documents `docs`.
pub open spec fn ranked(
    ds: Seq<(Seq<char>, Map<Seq<char>, nat>)>,
    qs: Seq<Seq<char>>,
    docs: Seq<(Seq<char>, Map<Seq<char>, nat>)>,
) -> Seq<(Seq<char>, Seq<(nat, nat)>)>
    decreases ds.len(),
{
    if ds.len() == 0 {
        Seq::empty()
    } else {
        let rest = ranked(ds.drop_last(), qs, docs);
        let cs = contributions(ds.last().1, qs, docs);
        if relevant(cs, docs.len()) {
            rest.push((ds.last().0, cs))
        } else {
            rest
        }
    }
}

/// The text of each string.
pub open spec fn strings(v: Seq<String>) -> Seq<Seq<char>> {
    v.map_values(|s: String| s@)
}

/// The (frequency, document count) pair of each match.
pub open spec fn match_pairs(v: Seq<Match>) -> Seq<(nat, nat)> {
    v.map_values(|m: Match| m@)
}

/// Each scored document's identifier with its contributions.
pub open spec fn doc_scores(v: Seq<DocScore>) -> Seq<(Seq<char>, Seq<(nat, nat)>)> {
    v.map_values(|d: DocScore| d@)
}

/// One query term's share of a document's score: `freq * ln(n_docs / docs_with_term)`.
pub struct Match {
    /// How often the document holds the term.
    pub freq: usize,
    /// How many documents of the index hold the term.
    pub docs_with_term: usize,
}

impl View for Match {
    type V = (nat, nat);

    open spec fn view(&self) -> (nat, nat) {
        (self.freq as nat, self.docs_with_term as nat)
    }
}

/// A document that the query scores above zero, with the shares of its score.
pub struct DocScore {
    pub doc: String,
    pub matches: Vec<Match>,
}

impl View for DocScore {
    type V = (Seq<char>, Seq<(nat, nat)>);

    open spec fn view(&self) -> (Seq<char>, Seq<(nat, nat)>) {
        (self.doc@, match_pairs(self.matches@))
    }
}

/// The result of a query: the documents scored above zero, in index order.
pub struct ScoreIndex {
    /// The number of documents in the index.
    pub n_docs: usize,
    pub docs: Vec<DocScore>,
}

impl ScoreIndex {
    pub open spec fn scored(&self) -> Seq<(Seq<char>, Seq<(nat, nat)>)> {
        doc_scores(self.docs@)
    }
}

/// The white-space-separated terms of a query, taken as they are.
pub fn split_query(query: &[char]) -> (r: Vec<String>)
    ensures
        strings(r@) == words(query@),
{
    let mut r: Vec<String> = Vec::new();
    let mut rest = Tokenizer::new(query);
    let ghost all = words(query@);
    loop
        invariant
            all == words(query@),
            strings(r@) + words(rest@) == all,
        ensures
            strings(r@) == all,
        decreases rest@.len(),
    {
        let ghost before = rest@;
        match rest.next_word() {
            None => {
                assert(strings(r@) + words(rest@) =~= strings(r@));
                break;
            },
            Some(word) => {
                let ghost done = strings(r@);
                r.push(string_of(word));
                proof {
                    assert(words(rest@) =~= words(before).drop_first());
                    assert(strings(r@) =~= done.push(words(before)[0]));
                    assert(strings(r@) + words(rest@) =~= done + words(before));
                }
            },
        }
    }
    r
}

fn count_docs_with(index: &TermFreqIndex, term: &String) -> (m: usize)
    requires
        index.wf(),
    ensures
        m == docs_with(index.documents(), term@),
        m <= index.documents().len(),
{
    let n = index.len();
    let ghost docs = index.documents();
    let mut m: usize = 0;
    let mut i: usize = 0;
    while i < n
        invariant
            n == docs.len(),
            docs == index.documents(),
            index.wf(),
            i <= n,
            m <= i,
            m == docs_with(docs.take(i as int), term@),
        decreases n - i,
    {
        assert(docs.take(i + 1).drop_last() =~= docs.take(i as int));
        if index.doc_terms(i).get(term).is_some() {
            m += 1;
        }
        i += 1;
    }
    assert(docs.take(n as int) =~= docs);
    m
}

/// Scores every document of the index against the query with TF-IDF. The query is split
/// on white space and its terms are matched as they are, without case folding. A
/// document is kept when its score is above zero; its score is the sum, over its
/// `matches`, of `freq * ln(n_docs / docs_with_term)`.
pub fn tf_idf_search(index: &TermFreqIndex, query: &[char]) -> (r: ScoreIndex)
    requires
        index.wf(),
    ensures
        r.n_docs == index.documents().len(),
        r.scored() == ranked(index.documents(), words(query@), index.documents()),
{
    let ghost docs = index.documents();
    let terms = split_query(query);
    let ghost qs = strings(terms@);
    let n = index.len();
    let mut counts: Vec<usize> = Vec::new();
    let mut j: usize = 0;
    while j < terms.len()
        invariant
            index.wf(),
            docs == index.documents(),
            qs == strings(terms@),
            j <= terms@.len(),
            counts@.len() == j,
            forall|k: int| 0 <= k < j ==> #[trigger] counts@[k] == docs_with(docs, qs[k]),
        decreases terms@.len() - j,
    {
        let m = count_docs_with(index, &terms[j]);
        counts.push(m);
        j += 1;
    }
    let mut out: Vec<DocScore> = Vec::new();
    let mut i: usize = 0;
    while i < n
        invariant
            index.wf(),
            docs == index.documents(),
            n == docs.len(),
            qs == strings(terms@),
            counts@.len() == terms@.len(),
            forall|k: int| 0 <= k < terms@.len() ==> #[trigger] counts@[k] == docs_with(docs, qs[k]),
            i <= n,
            doc_scores(out@) == ranked(docs.take(i as int), qs, docs),
        decreases n - i,
    {
        let tf = index.doc_terms(i);
        let mut matches: Vec<Match> = Vec::new();
        let mut keep = false;
        let mut j: usize = 0;
        while j < terms.len()
            invariant
                tf.wf(),
                tf@ == docs[i as int].1,
                qs == strings(terms@),
                counts@.len() == terms@.len(),
                forall|k: int| 0 <= k < terms@.len() ==> #[trigger] counts@[k] == docs_with(docs, qs[k]),
                j <= terms@.len(),
                n == docs.len(),
                match_pairs(matches@) == contributions(tf@, qs.take(j as int), docs),
                keep == relevant(contributions(tf@, qs.take(j as int), docs), n as nat),
            decreases terms@.len() - j,
        {
            let ghost cs = contributions(tf@, qs.take(j as int), docs);
            assert(qs.take(j + 1).drop_last() =~= qs.take(j as int));
            assert(qs[j as int] == terms@[j as int]@);
            match tf.get(&terms[j]) {
                Some(f) => {
                    let m = Match { freq: f, docs_with_term: counts[j] };
                    let ghost old_matches = matches@;
                    matches.push(m);
                    let ghost ncs = cs.push((f as nat, counts@[j as int] as nat));
                    assert(match_pairs(matches@) =~= ncs) by {
                        assert(matches@.drop_last() == old_matches);
                    }
                    if counts[j] < n {
                        keep = true;
                        assert(ncs[ncs.len() - 1].1 < n as nat);
                    } else {
                        proof {
                            if relevant(ncs, n as nat) {
                                let w = choose|w: int| 0 <= w < ncs.len() && #[trigger] ncs[w].1 < n;
                                assert(cs[w] == ncs[w]);
                            }
                        }
                    }
                    assert(keep == relevant(ncs, n as nat)) by {
                        if relevant(cs, n as nat) {
                            let w = choose|w: int| 0 <= w < cs.len() && #[trigger] cs[w].1 < n;
                            assert(ncs[w] == cs[w]);
                        }
                    }
                },
                None => {},
            }
            j += 1;
        }
        assert(qs.take(terms@.len() as int) =~= qs);
        assert(docs.take(i + 1).drop_last() =~= docs.take(i as int));
        let ghost before = out@;
        if keep {
            out.push(DocScore { doc: index.doc_id(i).clone(), matches });
            assert(doc_scores(out@) =~= doc_scores(before).push(
                (docs[i as int].0, contributions(docs[i as int].1, qs, docs)),
            ));
        }
        i += 1;
    }
    assert(docs.take(n as int) =~= docs);
    ScoreIndex { n_docs: n, docs: out }
}

proof fn lemma_docs_with_all(docs: Seq<(Seq<char>, Map<Seq<char>, nat>)>, t: Seq<char>)
    requires
        forall|i: int| 0 <= i < docs.len() ==> (#[trigger] docs[i]).1.contains_key(t),
    ensures
        docs_with(docs, t) == docs.len(),
    decreases docs.len(),
{
    if docs.len() > 0 {
        let d = docs.drop_last();
        assert forall|i: int| 0 <= i < d.len() implies (#[trigger] d[i]).1.contains_key(t) by {
            assert(d[i] == docs[i]);
        }
        lemma_docs_with_all(d, t);
    }
}

proof fn lemma_contributions_common(
    tf: Map<Seq<char>, nat>,
    qs: Seq<Seq<char>>,
    docs: Seq<(Seq<char>, Map<Seq<char>, nat>)>,
)
    requires
        forall|j: int, i: int|
            0 <= j < qs.len() && 0 <= i < docs.len() ==> (#[trigger] docs[i]).1.contains_key(
                #[trigger] qs[j],
            ),
    ensures
        !relevant(contributions(tf, qs, docs), docs.len()),
    decreases qs.len(),
{
    if qs.len() > 0 {
        let q = qs.drop_last();
        assert forall|j: int, i: int|
            0 <= j < q.len() && 0 <= i < docs.len() implies (#[trigger] docs[i]).1.contains_key(
            #[trigger] q[j],
        ) by {
            assert(q[j] == qs[j]);
        }
        lemma_contributions_common(tf, q, docs);
        assert forall|i: int| 0 <= i < docs.len() implies (#[trigger] docs[i]).1.contains_key(
            qs.last(),
        ) by {
            assert(docs[i].1.contains_key(qs[qs.len() - 1]));
        }
        lemma_docs_with_all(docs, qs.last());
        let rest = contributions(tf, q, docs);
        let cs = contributions(tf, qs, docs);
        if relevant(cs, docs.len()) {
            let w = choose|w: int| 0 <= w < cs.len() && #[trigger] cs[w].1 < docs.len();
            if w < rest.len() {
                assert(cs[w] == rest[w]);
            }
        }
    }
}

proof fn lemma_ranked_none(
    ds: Seq<(Seq<char>, Map<Seq<char>, nat>)>,
    qs: Seq<Seq<char>>,
    docs: Seq<(Seq<char>, Map<Seq<char>, nat>)>,
)
    requires
        forall|i: int| 0 <= i < ds.len() ==> !relevant(contributions(#[trigger] ds[i].1, qs, docs), docs.len()),
    ensures
        ranked(ds, qs, docs).len() == 0,
    decreases ds.len(),
{
    if ds.len() > 0 {
        let d = ds.drop_last();
        assert forall|i: int| 0 <= i < d.len() implies !relevant(contributions(#[trigger] d[i].1, qs, docs), docs.len()) by {
            assert(d[i] == ds[i]);
        }
        lemma_ranked_none(d, qs, docs);
        assert(!relevant(contributions(ds[ds.len() - 1].1, qs, docs), docs.len()));
    }
}

/// A query whose every term is held by every document scores no document: each share is
/// `tf * ln(N / N) = 0`.
pub proof fn lemma_common_terms_score_nothing(
    docs: Seq<(Seq<char>, Map<Seq<char>, nat>)>,
    query: Seq<char>,
)
    requires
        forall|j: int, i: int|
            0 <= j < words(query).len() && 0 <= i < docs.len() ==> (#[trigger] docs[i]).1.contains_key(
                #[trigger] words(query)[j],
            ),
    ensures
        ranked(docs, words(query), docs).len() == 0,
{
    let qs = words(query);
    assert forall|i: int| 0 <= i < docs.len() implies !relevant(contributions(#[trigger] docs[i].1, qs, docs), docs.len()) by {
        lemma_contributions_common(docs[i].1, qs, docs);
    }
    lemma_ranked_none(docs, qs, docs);
}

/// An empty query, or one of white space alone, scores no document.
pub proof fn lemma_empty_query_scores_nothing(
    docs: Seq<(Seq<char>, Map<Seq<char>, nat>)>,
    query: Seq<char>,
)
    requires
        forall|i: int| 0 <= i < query.len() ==> white_space(#[trigger] query[i]),
    ensures
        words(query).len() == 0,
        ranked(docs, words(query), docs).len() == 0,
{
    lemma_no_words(query);
    let qs = words(query);
    assert forall|i: int| 0 <= i < docs.len() implies !relevant(contributions(#[trigger] docs[i].1, qs, docs), docs.len()) by {
        assert(contributions(docs[i].1, qs, docs).len() == 0);
    }
    lemma_ranked_none(docs, qs, docs);
}

} // verus!
