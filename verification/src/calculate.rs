use vstd::prelude::*;

use crate::file_process::chars_of;
use crate::lexer::{text_tokens, Lexer};
use crate::model::{index_wf, DocSpec, Index, Model, TF};

verus! {

/// The whole numbers that the relevance of one document for one query token
/// is computed from: the token's term frequency is `count / total`, and its
/// inverse document frequency is `|log10(n_docs / max(docs_with_term, 1))|`.
#[derive(Clone, Copy, PartialEq, Eq, Structural, Debug)]
pub struct TermStat {
    /// How many times the token occurs in the document.
    pub count: usize,
    /// How many tokens the document has in all.
    pub total: u128,
    /// How many indexed documents hold the token.
    pub docs_with_term: usize,
    /// How many documents are indexed.
    pub n_docs: usize,
}

/// The statistics of one document for each token of a query.
pub struct DocStats {
    /// The path of the document.
    pub path: String,
    /// One entry for each token of the query, in order.
    pub terms: Vec<TermStat>,
}

/// The sum of `s`.
pub open spec fn seq_sum(s: Seq<usize>) -> int
    decreases s.len(),
{
    if s.len() == 0 {
        0
    } else {
        seq_sum(s.drop_last()) + s.last()
    }
}

/// How many of `docs` count `term`.
pub open spec fn docs_containing(docs: Seq<DocSpec>, term: Seq<char>) -> nat
    decreases docs.len(),
{
    if docs.len() == 0 {
        0
    } else {
        docs_containing(docs.drop_last(), term) + if docs.last().tf.contains_key(term) {
            1nat
        } else {
            0nat
        }
    }
}

/// The statistics of the document with counts `tf` for `term`, in an index
/// whose documents are `docs`.
pub open spec fn term_stat(term: Seq<char>, tf: TF, docs: Seq<DocSpec>) -> TermStat {
    TermStat {
        count: if tf@.contains_key(term) {
            tf@[term]
        } else {
            0
        },
        total: seq_sum(tf.vals()) as u128,
        docs_with_term: docs_containing(docs, term) as usize,
        n_docs: docs.len() as usize,
    }
}

pub(crate) proof fn lemma_seq_sum_bound(s: Seq<usize>)
    ensures
        0 <= seq_sum(s) <= s.len() * (usize::MAX as int),
    decreases s.len(),
{
    if s.len() > 0 {
        lemma_seq_sum_bound(s.drop_last());
    }
}

pub(crate) proof fn lemma_docs_containing_bound(docs: Seq<DocSpec>, term: Seq<char>)
    ensures
        docs_containing(docs, term) <= docs.len(),
    decreases docs.len(),
{
    if docs.len() > 0 {
        lemma_docs_containing_bound(docs.drop_last(), term);
    }
}

/// The sum of all the counts of `doc`.
pub fn total_count(doc: &TF) -> (sum: u128)
    requires
        doc.wf(),
    ensures
        sum == seq_sum(doc.vals()),
{
    let n = doc.len();
    let mut sum: u128 = 0;
    let mut i: usize = 0;
    while i < n
        invariant
            doc.wf(),
            n == doc.vals().len(),
            i <= n,
            sum == seq_sum(doc.vals().take(i as int)),
        decreases n - i,
    {
        let c: usize = *doc.value_at(i);
        proof {
            assert(doc.vals().take(i + 1).drop_last() =~= doc.vals().take(i as int));
            lemma_seq_sum_bound(doc.vals().take(i as int));
            assert(i * (usize::MAX as int) + usize::MAX < u128::MAX) by (nonlinear_arith)
                requires
                    i < usize::MAX,
            ;
        }
        sum = sum + c as u128;
        i = i + 1;
    }
    assert(doc.vals().take(n as int) =~= doc.vals());
    sum
}

/// How many times `term` occurs in the counts `doc`.
fn count_of(term: &String, doc: &TF) -> (c: usize)
    requires
        doc.wf(),
    ensures
        c == (if doc@.contains_key(term@) {
            doc@[term@]
        } else {
            0
        }),
{
    match doc.get(term) {
        Some(c) => *c,
        None => 0,
    }
}

/// The whole numbers of a term frequency: how many times `term` occurs in
/// the counts `doc`, and the sum of all its counts.
pub fn tf_parts(term: &String, doc: &TF) -> (r: (usize, u128))
    requires
        doc.wf(),
    ensures
        r.0 == (if doc@.contains_key(term@) {
            doc@[term@]
        } else {
            0
        }),
        r.1 == seq_sum(doc.vals()),
{
    (count_of(term, doc), total_count(doc))
}

/// The whole numbers of an inverse document frequency: how many documents
/// are indexed, and how many of them hold `term`.
pub fn idf_parts(term: &String, index: &Index) -> (r: (usize, usize))
    requires
        index_wf(*index),
    ensures
        r.0 == index.keys().len(),
        r.1 == docs_containing(index.vals(), term@),
{
    let n = index.len();
    let mut count: usize = 0;
    let mut i: usize = 0;
    while i < n
        invariant
            index_wf(*index),
            n == index.vals().len(),
            i <= n,
            count == docs_containing(index.vals().take(i as int), term@),
        decreases n - i,
    {
        let doc = index.value_at(i);
        assert(doc.wf());
        proof {
            assert(index.vals().take(i + 1).drop_last() =~= index.vals().take(i as int));
            lemma_docs_containing_bound(index.vals().take(i as int), term@);
        }
        if doc.get_tf().get(term).is_some() {
            count = count + 1;
        }
        i = i + 1;
    }
    assert(index.vals().take(n as int) =~= index.vals());
    (n, count)
}

/// The statistics that rank the indexed documents for the query `data`: one
/// entry for each document, in index order, and in it one for each token of
/// the query, in order.
pub fn search(data: &str, model: &Model) -> (r: Vec<DocStats>)
    requires
        model.wf(),
    ensures
        r@.len() == model.spec_index().keys().len(),
        forall|i: int|
            #![trigger r@[i]]
            0 <= i < r@.len() ==> {
                &&& r@[i].path@ == model.spec_index().keys()[i]
                &&& r@[i].terms@.len() == text_tokens(data@).len()
                &&& forall|j: int|
                    #![trigger r@[i].terms@[j]]
                    0 <= j < text_tokens(data@).len() ==> r@[i].terms@[j] == term_stat(
                        text_tokens(data@)[j],
                        model.spec_index().values()[i].spec_tf(),
                        model.spec_index().vals(),
                    )
            },
{
    let chars = chars_of(data);
    let mut lexer = Lexer::new(chars.as_slice());
    let toks = lexer.collect_tokens();
    let ghost qs = toks.deep_view();
    let index = model.index();
    let m = toks.len();
    let mut idfs: Vec<(usize, usize)> = Vec::new();
    let mut j: usize = 0;
    while j < m
        invariant
            model.wf(),
            *index == model.spec_index(),
            qs == toks.deep_view(),
            m == qs.len(),
            j <= m,
            idfs@.len() == j,
            forall|b: int|
                #![trigger idfs@[b]]
                0 <= b < j ==> idfs@[b].0 == index.keys().len() && idfs@[b].1 == docs_containing(
                    index.vals(),
                    qs[b],
                ),
        decreases m - j,
    {
        idfs.push(idf_parts(&toks[j], index));
        j = j + 1;
    }
    let n = index.len();
    let mut res: Vec<DocStats> = Vec::new();
    let mut i: usize = 0;
    while i < n
        invariant
            model.wf(),
            *index == model.spec_index(),
            n == index.keys().len(),
            qs == toks.deep_view(),
            m == qs.len(),
            idfs@.len() == m,
            forall|b: int|
                #![trigger idfs@[b]]
                0 <= b < m ==> idfs@[b].0 == index.keys().len() && idfs@[b].1 == docs_containing(
                    index.vals(),
                    qs[b],
                ),
            i <= n,
            res@.len() == i,
            forall|a: int|
                #![trigger res@[a]]
                0 <= a < i ==> {
                    &&& res@[a].path@ == index.keys()[a]
                    &&& res@[a].terms@.len() == qs.len()
                    &&& forall|j: int|
                        #![trigger res@[a].terms@[j]]
                        0 <= j < qs.len() ==> res@[a].terms@[j] == term_stat(
                            qs[j],
                            index.values()[a].spec_tf(),
                            index.vals(),
                        )
                },
        decreases n - i,
    {
        let path = index.key_at(i);
        let doc = index.value_at(i);
        assert(doc.wf());
        let tf = doc.get_tf();
        let total = total_count(tf);
        let mut terms: Vec<TermStat> = Vec::new();
        let mut j: usize = 0;
        while j < m
            invariant
                tf.wf(),
                index_wf(*index),
                *tf == index.values()[i as int].spec_tf(),
                total == seq_sum(tf.vals()),
                qs == toks.deep_view(),
                m == qs.len(),
                idfs@.len() == m,
                forall|b: int|
                    #![trigger idfs@[b]]
                    0 <= b < m ==> idfs@[b].0 == index.keys().len() && idfs@[b].1
                        == docs_containing(index.vals(), qs[b]),
                j <= m,
                terms@.len() == j,
                forall|b: int|
                    #![trigger terms@[b]]
                    0 <= b < j ==> terms@[b] == term_stat(qs[b], *tf, index.vals()),
            decreases m - j,
        {
            let count = count_of(&toks[j], tf);
            let (n_docs, docs_with_term) = idfs[j];
            terms.push(TermStat { count, total, docs_with_term, n_docs });
            j = j + 1;
        }
        res.push(DocStats { path: path.clone(), terms });
        i = i + 1;
    }
    res
}

/// Whether the entry at `a` ranks before the one at `b`: a higher score, or
/// the same score and an earlier place.
pub open spec fn ranks_before(scores: Seq<u32>, a: int, b: int) -> bool {
    scores[a] > scores[b] || (scores[a] == scores[b] && a < b)
}

fn ranks_before_exec(scores: &Vec<u32>, a: usize, b: usize) -> (r: bool)
    requires
        a < scores@.len(),
        b < scores@.len(),
    ensures
        r == ranks_before(scores@, a as int, b as int),
{
    scores[a] > scores[b] || (scores[a] == scores[b] && a < b)
}

/// Whether `places` are the places of the `k` highest scores, highest first,
/// equal scores in their order: the first `k` places of a stable sort from
/// the highest score down.
pub open spec fn top_ranking(scores: Seq<u32>, places: Seq<usize>, k: int) -> bool {
    &&& places.len() == (if k < scores.len() {
        k
    } else {
        scores.len() as int
    })
    &&& forall|i: int| 0 <= i < places.len() ==> #[trigger] places[i] < scores.len()
    &&& forall|i: int, j: int|
        0 <= i < j < places.len() ==> ranks_before(scores, #[trigger] places[i] as int, #[trigger] places[j] as int)
    &&& forall|x: usize, i: int|
        #![trigger places.contains(x), places[i]]
        x < scores.len() && !places.contains(x) && 0 <= i < places.len() ==> ranks_before(
            scores,
            places[i] as int,
            x as int,
        )
}

/// The places of the `k` highest scores, highest first; equal scores keep
/// their order.
///
/// Scores are compared as unsigned integers; the bit patterns of
/// non-negative IEEE-754 numbers order as the numbers do.
pub fn top_ranked(scores: &Vec<u32>, k: usize) -> (r: Vec<usize>)
    ensures
        top_ranking(scores@, r@, k as int),
{
    let n = scores.len();
    let mut remaining: Vec<usize> = Vec::new();
    let mut x: usize = 0;
    while x < n
        invariant
            n == scores@.len(),
            x <= n,
            remaining@.len() == x,
            forall|q: int| 0 <= q < x ==> #[trigger] remaining@[q] == q,
        decreases n - x,
    {
        remaining.push(x);
        x = x + 1;
    }
    let limit = if k < n {
        k
    } else {
        n
    };
    let mut r: Vec<usize> = Vec::new();
    assert forall|y: usize| y < n implies #[trigger] remaining@.contains(y) by {
        assert(remaining@[y as int] == y);
    }
    while r.len() < limit
        invariant
            n == scores@.len(),
            limit <= n,
            r@.len() <= limit,
            r@.len() + remaining@.len() == n,
            forall|q: int| 0 <= q < remaining@.len() ==> #[trigger] remaining@[q] < n,
            forall|i: int| 0 <= i < r@.len() ==> #[trigger] r@[i] < n,
            forall|p: int, q: int|
                0 <= p < remaining@.len() && 0 <= q < remaining@.len() && p != q ==> #[trigger] remaining@[p]
                    != #[trigger] remaining@[q],
            forall|y: usize|
                #![trigger r@.contains(y)]
                #![trigger remaining@.contains(y)]
                y < n ==> r@.contains(y) || remaining@.contains(y),
            forall|i: int, j: int|
                0 <= i < j < r@.len() ==> ranks_before(scores@, #[trigger] r@[i] as int, #[trigger] r@[j] as int),
            forall|i: int, q: int|
                0 <= i < r@.len() && 0 <= q < remaining@.len() ==> ranks_before(
                    scores@,
                    #[trigger] r@[i] as int,
                    #[trigger] remaining@[q] as int,
                ),
        decreases limit - r@.len(),
    {
        let m = remaining.len();
        let mut best: usize = 0;
        let mut q: usize = 1;
        while q < m
            invariant
                n == scores@.len(),
                m == remaining@.len(),
                0 < m,
                best < m,
                1 <= q <= m,
                forall|t: int| 0 <= t < m ==> #[trigger] remaining@[t] < n,
                forall|t: int|
                    0 <= t < q && t != best ==> ranks_before(
                        scores@,
                        remaining@[best as int] as int,
                        #[trigger] remaining@[t] as int,
                    ),
                forall|p: int, t: int|
                    0 <= p < m && 0 <= t < m && p != t ==> #[trigger] remaining@[p]
                        != #[trigger] remaining@[t],
            decreases m - q,
        {
            if ranks_before_exec(scores, remaining[q], remaining[best]) {
                best = q;
            }
            q = q + 1;
        }
        let ghost rem0 = remaining@;
        let ghost r0 = r@;
        let chosen = remaining.remove(best);
        r.push(chosen);
        proof {
            assert forall|y: usize| y < n implies #[trigger] r@.contains(y) || remaining@.contains(y) by {
                if r0.contains(y) {
                    let i = choose|i: int| 0 <= i < r0.len() && r0[i] == y;
                    assert(r@[i] == y);
                } else {
                    assert(rem0.contains(y));
                    let t = choose|t: int| 0 <= t < rem0.len() && rem0[t] == y;
                    if t == best {
                        assert(r@[r0.len() as int] == y);
                    } else if t < best {
                        assert(remaining@[t] == y);
                    } else {
                        assert(remaining@[t - 1] == y);
                    }
                }
            }
            assert forall|i: int, t: int|
                0 <= i < r@.len() && 0 <= t < remaining@.len() implies ranks_before(
                scores@,
                #[trigger] r@[i] as int,
                #[trigger] remaining@[t] as int,
            ) by {
                let t0 = if t < best {
                    t
                } else {
                    t + 1
                };
                assert(remaining@[t] == rem0[t0]);
                if i < r0.len() {
                    assert(r@[i] == r0[i]);
                } else {
                    assert(r@[i] == rem0[best as int]);
                    assert(t0 != best);
                }
            }
            assert forall|i: int, j: int| 0 <= i < j < r@.len() implies ranks_before(
                scores@,
                #[trigger] r@[i] as int,
                #[trigger] r@[j] as int,
            ) by {
                if j < r0.len() {
                    assert(r@[i] == r0[i]);
                    assert(r@[j] == r0[j]);
                } else {
                    assert(r@[i] == r0[i]);
                    assert(r@[j] == rem0[best as int]);
                }
            }
            assert forall|p: int, t: int|
                0 <= p < remaining@.len() && 0 <= t < remaining@.len() && p != t implies #[trigger] remaining@[p]
                != #[trigger] remaining@[t] by {
                let p0 = if p < best {
                    p
                } else {
                    p + 1
                };
                let t0 = if t < best {
                    t
                } else {
                    t + 1
                };
                assert(remaining@[p] == rem0[p0]);
                assert(remaining@[t] == rem0[t0]);
            }
        }
    }
    proof {
        assert forall|x: usize, i: int|
            x < scores@.len() && !r@.contains(x) && 0 <= i < r@.len() implies #[trigger] ranks_before(
            scores@,
            r@[i] as int,
            x as int,
        ) by {
            assert(remaining@.contains(x));
            let t = choose|t: int| 0 <= t < remaining@.len() && remaining@[t] == x;
            assert(ranks_before(scores@, r@[i] as int, remaining@[t] as int));
        }
    }
    r
}

/// The `k` best-ranked of the entries (`paths[i]`, `scores[i]`), highest
/// score first, equal scores in their order.
pub fn ranked_paths(paths: &Vec<String>, scores: &Vec<u32>, k: usize) -> (r: Vec<(String, u32)>)
    requires
        paths@.len() == scores@.len(),
    ensures
        exists|places: Seq<usize>|
            #![trigger top_ranking(scores@, places, k as int)]
            top_ranking(scores@, places, k as int) && r@.len() == places.len() && forall|i: int|
                0 <= i < places.len() ==> (#[trigger] r@[i]).0@ == paths@[places[i] as int]@
                    && r@[i].1 == scores@[places[i] as int],
{
    let places = top_ranked(scores, k);
    let mut r: Vec<(String, u32)> = Vec::new();
    let mut i: usize = 0;
    while i < places.len()
        invariant
            paths@.len() == scores@.len(),
            top_ranking(scores@, places@, k as int),
            i <= places@.len(),
            r@.len() == i,
            forall|j: int|
                0 <= j < i ==> (#[trigger] r@[j]).0@ == paths@[places@[j] as int]@ && r@[j].1
                    == scores@[places@[j] as int],
        decreases places@.len() - i,
    {
        let p = places[i];
        assert(places@[i as int] < scores@.len());
        r.push((paths[p].clone(), scores[p]));
        i = i + 1;
    }
    r
}

} // verus!
