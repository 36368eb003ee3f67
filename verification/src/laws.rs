use vstd::prelude::*;

use crate::model::{
    apply_all, apply_one, diff_new_term, diff_new_terms, diff_old_term, diff_old_terms, diff_spec,
    index_wf, modify_counts, shifted_count, Doc, DocSpec, Index, Model, ModelSpec, ModifiedSpec,
    Timestamp, UpdateSpec, TF,
};
use crate::model::bump_df;
use crate::calculate::{
    docs_containing, lemma_docs_containing_bound, lemma_seq_sum_bound, seq_sum, term_stat, top_ranking,
};
use crate::file_process::{joined_text, term_counts};
use crate::lexer::{
    alnum_run, char_is_alphabetic, char_is_numeric, char_is_whitespace, classify_all, numeric_run,
    token_len, token_text,
};
use crate::lexer::{text_tokens, ascii_lower, lemma_next_raw_bounds, leading_ws, next_raw, raw_tokens, tokens, ClassifiedChar};
use crate::reindex::{
    changes_wf, df_drops, reindex_spec, reindex_step, reindex_steps, removal_updates, FileChange,
};

verus! {

/// `df` after each of `old_terms` that `new_tf` lacks loses one document,
/// in order.
pub open spec fn drop_absent(
    df: Map<Seq<char>, usize>,
    old_terms: Seq<Seq<char>>,
    new_tf: Map<Seq<char>, usize>,
) -> Map<Seq<char>, usize>
    decreases old_terms.len(),
{
    if old_terms.len() == 0 {
        df
    } else {
        let d = drop_absent(df, old_terms.drop_last(), new_tf);
        if new_tf.contains_key(old_terms.last()) {
            d
        } else {
            modify_counts(d, old_terms.last(), -1isize)
        }
    }
}

proof fn lemma_shift_to(a: usize, b: usize)
    ensures
        shifted_count(a, (b - a) as isize) == b,
{
    assert(((a + ((b - a) as isize)) as usize) == b) by (bit_vector);
}

proof fn lemma_shift_to_zero(a: usize)
    ensures
        shifted_count(a, (0 - a) as isize) == 0,
{
    assert(((a + ((0 - a) as isize)) as usize) == 0) by (bit_vector);
}

/// Applying the batch `a` and then the batch `b` is applying `a + b`: a
/// batch may be split or joined without changing its effect.
pub proof fn law_apply_in_sequence(m: ModelSpec, a: Seq<UpdateSpec>, b: Seq<UpdateSpec>)
    ensures
        apply_all(m, a + b) == match apply_all(m, a) {
            Some(m1) => apply_all(m1, b),
            None => None,
        },
    decreases a.len(),
{
    if a.len() == 0 {
        assert(a + b =~= b);
    } else {
        assert((a + b).drop_first() =~= a.drop_first() + b);
        assert((a + b)[0] == a[0]);
        match apply_one(m, a[0]) {
            Some(m1) => law_apply_in_sequence(m1, a.drop_first(), b),
            None => {},
        }
    }
}

/// The model `m` with the document at `path` set to these counts and time.
pub open spec fn with_doc(m: ModelSpec, df: Map<Seq<char>, usize>, path: Seq<char>, tf: Map<Seq<char>, usize>, ts: Timestamp) -> ModelSpec {
    ModelSpec { df, index: m.index.insert(path, DocSpec { tf, ts }) }
}

/// Every count of `doc` is positive and fits a signed machine word, as the
/// counts of a tokenized text do.
pub open spec fn good_counts(doc: Doc) -> bool {
    forall|t: Seq<char>| #[trigger] doc@.tf.contains_key(t) ==> 0 < doc@.tf[t] <= isize::MAX
}

/// `df` after each of `new_terms` that `old_tf` lacks gains one document,
/// in order.
pub open spec fn add_new_terms(
    df: Map<Seq<char>, usize>,
    new_terms: Seq<Seq<char>>,
    old_tf: Map<Seq<char>, usize>,
) -> Map<Seq<char>, usize>
    decreases new_terms.len(),
{
    if new_terms.len() == 0 {
        df
    } else {
        let d = add_new_terms(df, new_terms.drop_last(), old_tf);
        if old_tf.contains_key(new_terms.last()) {
            d
        } else {
            modify_counts(d, new_terms.last(), 1isize)
        }
    }
}

/// The counts of `old` where the first `i` tokens of `new` have their new
/// counts.
spec fn overlay(old: Doc, new: Doc, i: int) -> Map<Seq<char>, usize> {
    Map::new(
        |t: Seq<char>| old@.tf.contains_key(t) || new.spec_tf().keys().take(i).contains(t),
        |t: Seq<char>|
            if new.spec_tf().keys().take(i).contains(t) {
                new@.tf[t]
            } else {
                old@.tf[t]
            },
    )
}

proof fn lemma_prefix_step<A>(s: Seq<A>, n: int)
    requires
        0 < n <= s.len(),
        forall|i: int, j: int| 0 <= i < s.len() && 0 <= j < s.len() && i != j ==> s[i] != s[j],
    ensures
        !s.take(n - 1).contains(s[n - 1]),
        forall|x: A| s.take(n).contains(x) <==> (s.take(n - 1).contains(x) || x == s[n - 1]),
        s.take(n).drop_last() =~= s.take(n - 1),
        s.take(n).last() == s[n - 1],
{
    let pre = s.take(n - 1);
    let cur = s.take(n);
    assert(cur.drop_last() =~= pre);
    if pre.contains(s[n - 1]) {
        let q = choose|q: int| 0 <= q < pre.len() && pre[q] == s[n - 1];
        assert(s[q] == s[n - 1]);
    }
    assert forall|x: A| cur.contains(x) <==> (pre.contains(x) || x == s[n - 1]) by {
        if cur.contains(x) {
            let q = choose|q: int| 0 <= q < cur.len() && cur[q] == x;
            if q < n - 1 {
                assert(pre[q] == x);
            }
        }
        if pre.contains(x) {
            let q = choose|q: int| 0 <= q < pre.len() && pre[q] == x;
            assert(cur[q] == x);
        }
        if x == s[n - 1] {
            assert(cur[n - 1] == x);
        }
    }
}

proof fn lemma_keys_contain(d: Doc, t: Seq<char>)
    requires
        d.wf(),
    ensures
        d.spec_tf().keys().contains(t) <==> d@.tf.contains_key(t),
{
    let ks = d.spec_tf().keys();
    if ks.contains(t) {
        let q = choose|q: int| 0 <= q < ks.len() && ks[q] == t;
        assert(d@.tf.contains_key(ks[q]));
    }
}

proof fn lemma_new_part(m: ModelSpec, path: Seq<char>, old: Doc, new: Doc, i: int)
    requires
        old.wf(),
        new.wf(),
        good_counts(new),
        0 <= i <= new.spec_tf().keys().len(),
    ensures
        apply_all(
            with_doc(m, m.df, path, old@.tf, new@.ts),
            diff_new_terms(new.spec_tf().keys().take(i), new@.tf, old@.tf, path),
        ) == Some(
            with_doc(
                m,
                add_new_terms(m.df, new.spec_tf().keys().take(i), old@.tf),
                path,
                overlay(old, new, i),
                new@.ts,
            ),
        ),
    decreases i,
{
    let nk = new.spec_tf().keys();
    let start = with_doc(m, m.df, path, old@.tf, new@.ts);
    if i == 0 {
        assert(nk.take(0) =~= Seq::<Seq<char>>::empty());
        assert(overlay(old, new, 0) =~= old@.tf);
    } else {
        lemma_new_part(m, path, old, new, i - 1);
        lemma_prefix_step(nk, i);
        let k = nk[i - 1];
        let pre = nk.take(i - 1);
        lemma_keys_contain(new, k);
        law_apply_in_sequence(
            start,
            diff_new_terms(pre, new@.tf, old@.tf, path),
            diff_new_term(k, new@.tf, old@.tf, path),
        );
        let d = add_new_terms(m.df, pre, old@.tf);
        let ov = overlay(old, new, i - 1);
        let mid = with_doc(m, d, path, ov, new@.ts);
        let step = diff_new_term(k, new@.tf, old@.tf, path);
        let fin_tf = overlay(old, new, i);
        if old@.tf.contains_key(k) {
            let u = UpdateSpec::Modify {
                t: ModifiedSpec::TF(path),
                term: k,
                cnt: (new@.tf[k] - old@.tf[k]) as isize,
            };
            assert(step == seq![u]);
            assert(ov.contains_key(k) && ov[k] == old@.tf[k]);
            lemma_shift_to(old@.tf[k], new@.tf[k]);
            assert(modify_counts(ov, k, u->cnt) =~= fin_tf);
            let fin = with_doc(m, d, path, fin_tf, new@.ts);
            assert(apply_one(mid, u) == Some(fin)) by {
                assert(mid.index.insert(path, DocSpec { tf: fin_tf, ts: new@.ts }) =~= fin.index);
            }
            assert(step.drop_first() =~= Seq::<UpdateSpec>::empty());
            assert(apply_all(fin, Seq::<UpdateSpec>::empty()) == Some(fin));
            assert(step[0] == u);
            assert(apply_all(mid, step) == Some(fin));
        } else {
            let u1 = UpdateSpec::Modify { t: ModifiedSpec::DF, term: k, cnt: 1isize };
            let u2 = UpdateSpec::Modify {
                t: ModifiedSpec::TF(path),
                term: k,
                cnt: new@.tf[k] as isize,
            };
            assert(step == seq![u1, u2]);
            let d1 = modify_counts(d, k, 1isize);
            let mid1 = with_doc(m, d1, path, ov, new@.ts);
            assert(apply_one(mid, u1) == Some(mid1));
            assert(!ov.contains_key(k));
            assert(modify_counts(ov, k, u2->cnt) =~= fin_tf);
            let fin = with_doc(m, d1, path, fin_tf, new@.ts);
            assert(apply_one(mid1, u2) == Some(fin)) by {
                assert(mid1.index.insert(path, DocSpec { tf: fin_tf, ts: new@.ts }) =~= fin.index);
            }
            assert(step[0] == u1);
            assert(step.drop_first() =~= seq![u2]);
            assert(seq![u2].drop_first() =~= Seq::<UpdateSpec>::empty());
            assert(apply_all(fin, Seq::<UpdateSpec>::empty()) == Some(fin));
            assert(apply_all(mid1, seq![u2]) == Some(fin));
            assert(apply_all(mid, step) == Some(fin));
        }
    }
}

/// The counts of `old` and `new` together, without the first `j` tokens of
/// `old` that `new` lacks, and with the counts of `new` for its tokens.
spec fn under(old: Doc, new: Doc, j: int) -> Map<Seq<char>, usize> {
    Map::new(
        |t: Seq<char>|
            (old@.tf.contains_key(t) || new@.tf.contains_key(t)) && !(old.spec_tf().keys().take(
                j,
            ).contains(t) && !new@.tf.contains_key(t)),
        |t: Seq<char>|
            if new@.tf.contains_key(t) {
                new@.tf[t]
            } else {
                old@.tf[t]
            },
    )
}

proof fn lemma_old_part(
    m: ModelSpec,
    df0: Map<Seq<char>, usize>,
    path: Seq<char>,
    old: Doc,
    new: Doc,
    j: int,
)
    requires
        old.wf(),
        new.wf(),
        0 <= j <= old.spec_tf().keys().len(),
    ensures
        apply_all(
            with_doc(m, df0, path, under(old, new, 0), new@.ts),
            diff_old_terms(old.spec_tf().keys().take(j), new@.tf, old@.tf, path),
        ) == Some(
            with_doc(
                m,
                drop_absent(df0, old.spec_tf().keys().take(j), new@.tf),
                path,
                under(old, new, j),
                new@.ts,
            ),
        ),
    decreases j,
{
    let ok = old.spec_tf().keys();
    let start = with_doc(m, df0, path, under(old, new, 0), new@.ts);
    if j == 0 {
        assert(ok.take(0) =~= Seq::<Seq<char>>::empty());
    } else {
        lemma_old_part(m, df0, path, old, new, j - 1);
        lemma_prefix_step(ok, j);
        let k = ok[j - 1];
        let pre = ok.take(j - 1);
        lemma_keys_contain(old, k);
        law_apply_in_sequence(
            start,
            diff_old_terms(pre, new@.tf, old@.tf, path),
            diff_old_term(k, new@.tf, old@.tf, path),
        );
        let d = drop_absent(df0, pre, new@.tf);
        let mid = with_doc(m, d, path, under(old, new, j - 1), new@.ts);
        let step = diff_old_term(k, new@.tf, old@.tf, path);
        if new@.tf.contains_key(k) {
            assert(step =~= Seq::<UpdateSpec>::empty());
            assert(under(old, new, j) =~= under(old, new, j - 1));
            assert(apply_all(mid, step) == Some(mid));
        } else {
            let u1 = UpdateSpec::Modify { t: ModifiedSpec::DF, term: k, cnt: -1isize };
            let u2 = UpdateSpec::Modify {
                t: ModifiedSpec::TF(path),
                term: k,
                cnt: (0 - old@.tf[k]) as isize,
            };
            assert(step == seq![u1, u2]);
            let d1 = modify_counts(d, k, -1isize);
            let mid1 = with_doc(m, d1, path, under(old, new, j - 1), new@.ts);
            assert(apply_one(mid, u1) == Some(mid1));
            let uv = under(old, new, j - 1);
            assert(uv.contains_key(k));
            assert(uv[k] == old@.tf[k]);
            lemma_shift_to_zero(old@.tf[k]);
            assert(modify_counts(uv, k, u2->cnt) =~= under(old, new, j));
            let fin = with_doc(m, d1, path, under(old, new, j), new@.ts);
            assert(apply_one(mid1, u2) == Some(fin)) by {
                assert(mid1.index.insert(path, DocSpec { tf: under(old, new, j), ts: new@.ts })
                    =~= fin.index);
            }
            assert(step[0] == u1);
            assert(step.drop_first() =~= seq![u2]);
            assert(seq![u2].drop_first() =~= Seq::<UpdateSpec>::empty());
            assert(apply_all(fin, Seq::<UpdateSpec>::empty()) == Some(fin));
            assert(apply_all(mid1, seq![u2]) == Some(fin));
            assert(apply_all(mid, step) == Some(fin));
        }
    }
}

/// Applying the updates that `diff` finds between a stored document and a
/// fresh reading of the same file stores the fresh reading at that path. Each
/// token of the fresh reading that the stored document lacks gains one
/// document in the document frequencies, each token of the stored document
/// that the fresh one lacks loses one, and nothing else changes. The fresh
/// reading's counts are positive and fit a signed machine word, as those of a
/// tokenized text do.
pub proof fn law_diff_then_apply(m: ModelSpec, path: Seq<char>, old: Doc, new: Doc)
    requires
        old.wf(),
        new.wf(),
        good_counts(new),
        m.index.contains_key(path),
        m.index[path] == old@,
    ensures
        apply_all(m, diff_spec(new.spec_tf().keys(), new@, old.spec_tf().keys(), old@, path))
            == Some(
            ModelSpec {
                df: drop_absent(
                    add_new_terms(m.df, new.spec_tf().keys(), old@.tf),
                    old.spec_tf().keys(),
                    new@.tf,
                ),
                index: m.index.insert(path, new@),
            },
        ),
{
    let nk = new.spec_tf().keys();
    let ok = old.spec_tf().keys();
    let head = seq![UpdateSpec::SetTime(path, new@.ts)];
    let a = diff_new_terms(nk, new@.tf, old@.tf, path);
    let b = diff_old_terms(ok, new@.tf, old@.tf, path);
    law_apply_in_sequence(m, head + a, b);
    law_apply_in_sequence(m, head, a);
    let m0 = with_doc(m, m.df, path, old@.tf, new@.ts);
    assert(apply_one(m, head[0]) == Some(m0)) by {
        assert(m.index[path].tf == old@.tf);
    }
    assert(head.drop_first() =~= Seq::<UpdateSpec>::empty());
    assert(apply_all(m0, Seq::<UpdateSpec>::empty()) == Some(m0));
    assert(apply_all(m, head) == Some(m0));
    lemma_new_part(m, path, old, new, nk.len() as int);
    assert(nk.take(nk.len() as int) =~= nk);
    assert(overlay(old, new, nk.len() as int) =~= under(old, new, 0)) by {
        assert forall|t: Seq<char>| nk.contains(t) <==> new@.tf.contains_key(t) by {
            lemma_keys_contain(new, t);
        }
    }
    let df1 = add_new_terms(m.df, nk, old@.tf);
    lemma_old_part(m, df1, path, old, new, ok.len() as int);
    assert(ok.take(ok.len() as int) =~= ok);
    assert(under(old, new, ok.len() as int) =~= new@.tf) by {
        assert forall|t: Seq<char>| ok.contains(t) <==> old@.tf.contains_key(t) by {
            lemma_keys_contain(old, t);
        }
    }
}

/// `a` and `b` agree at `t`: both hold it or neither, with the same value.
pub open spec fn same_at(a: Map<Seq<char>, usize>, b: Map<Seq<char>, usize>, t: Seq<char>) -> bool {
    &&& a.contains_key(t) == b.contains_key(t)
    &&& a.contains_key(t) ==> a[t] == b[t]
}

proof fn lemma_modify_same_at(
    a: Map<Seq<char>, usize>,
    b: Map<Seq<char>, usize>,
    k: Seq<char>,
    c: isize,
    t: Seq<char>,
)
    requires
        same_at(a, b, t),
        same_at(a, b, k),
    ensures
        same_at(modify_counts(a, k, c), modify_counts(b, k, c), t),
{
}

proof fn lemma_add_new_at(
    df: Map<Seq<char>, usize>,
    terms: Seq<Seq<char>>,
    old_tf: Map<Seq<char>, usize>,
    t: Seq<char>,
)
    requires
        forall|i: int, j: int|
            0 <= i < terms.len() && 0 <= j < terms.len() && i != j ==> terms[i] != terms[j],
    ensures
        if terms.contains(t) && !old_tf.contains_key(t) {
            same_at(add_new_terms(df, terms, old_tf), modify_counts(df, t, 1isize), t)
        } else {
            same_at(add_new_terms(df, terms, old_tf), df, t)
        },
    decreases terms.len(),
{
    if terms.len() > 0 {
        let n = terms.len() as int;
        lemma_prefix_step(terms, n);
        assert(terms.take(n) =~= terms);
        let pre = terms.drop_last();
        assert(pre =~= terms.take(n - 1));
        assert forall|i: int, j: int| 0 <= i < pre.len() && 0 <= j < pre.len() && i != j implies pre[i]
            != pre[j] by {
            assert(pre[i] == terms[i] && pre[j] == terms[j]);
        }
        lemma_add_new_at(df, pre, old_tf, t);
        let k = terms.last();
        assert(k == terms[n - 1]);
        let d = add_new_terms(df, pre, old_tf);
        if k == t && !old_tf.contains_key(t) {
            lemma_modify_same_at(d, df, t, 1isize, t);
        }
    } else {
        assert(!terms.contains(t));
    }
}

proof fn lemma_drop_absent_at(
    df: Map<Seq<char>, usize>,
    terms: Seq<Seq<char>>,
    new_tf: Map<Seq<char>, usize>,
    t: Seq<char>,
)
    requires
        forall|i: int, j: int|
            0 <= i < terms.len() && 0 <= j < terms.len() && i != j ==> terms[i] != terms[j],
    ensures
        if terms.contains(t) && !new_tf.contains_key(t) {
            same_at(drop_absent(df, terms, new_tf), modify_counts(df, t, -1isize), t)
        } else {
            same_at(drop_absent(df, terms, new_tf), df, t)
        },
    decreases terms.len(),
{
    if terms.len() > 0 {
        let n = terms.len() as int;
        lemma_prefix_step(terms, n);
        assert(terms.take(n) =~= terms);
        let pre = terms.drop_last();
        assert(pre =~= terms.take(n - 1));
        assert forall|i: int, j: int| 0 <= i < pre.len() && 0 <= j < pre.len() && i != j implies pre[i]
            != pre[j] by {
            assert(pre[i] == terms[i] && pre[j] == terms[j]);
        }
        lemma_drop_absent_at(df, pre, new_tf, t);
        let k = terms.last();
        assert(k == terms[n - 1]);
        let d = drop_absent(df, pre, new_tf);
        if k == t && !new_tf.contains_key(t) {
            lemma_modify_same_at(d, df, t, -1isize, t);
        }
    } else {
        assert(!terms.contains(t));
    }
}

/// A document compared with itself: applying the updates that `diff` finds
/// leaves the model as it was, where the document's counts are positive.
pub proof fn law_diff_with_itself(m: ModelSpec, path: Seq<char>, doc: Doc)
    requires
        doc.wf(),
        good_counts(doc),
        m.index.contains_key(path),
        m.index[path] == doc@,
    ensures
        apply_all(m, diff_spec(doc.spec_tf().keys(), doc@, doc.spec_tf().keys(), doc@, path))
            == Some(m),
{
    law_diff_then_apply(m, path, doc, doc);
    let ok = doc.spec_tf().keys();
    let a = add_new_terms(m.df, ok, doc@.tf);
    let r = drop_absent(a, ok, doc@.tf);
    assert forall|t: Seq<char>|
        #[trigger] r.contains_key(t) == m.df.contains_key(t) && (r.contains_key(t) ==> r[t]
            == m.df[t]) by {
        lemma_add_new_at(m.df, ok, doc@.tf, t);
        lemma_drop_absent_at(a, ok, doc@.tf, t);
        lemma_keys_contain(doc, t);
    }
    assert(r =~= m.df);
    assert(m.index.insert(path, doc@) =~= m.index);
}

/// Applying one document less for each of `terms` changes only the document
/// frequencies.
proof fn lemma_df_drops_apply(m: ModelSpec, terms: Seq<Seq<char>>)
    ensures
        apply_all(m, df_drops(terms)) == Some(
            ModelSpec { df: drop_absent(m.df, terms, Map::<Seq<char>, usize>::empty()), index: m.index },
        ),
    decreases terms.len(),
{
    if terms.len() > 0 {
        let u = UpdateSpec::Modify { t: ModifiedSpec::DF, term: terms.last(), cnt: -1isize };
        lemma_df_drops_apply(m, terms.drop_last());
        law_apply_in_sequence(m, df_drops(terms.drop_last()), seq![u]);
        let m1 = ModelSpec {
            df: drop_absent(m.df, terms.drop_last(), Map::<Seq<char>, usize>::empty()),
            index: m.index,
        };
        let m2 = ModelSpec { df: modify_counts(m1.df, terms.last(), -1isize), index: m1.index };
        assert(apply_one(m1, u) == Some(m2));
        assert(seq![u].drop_first() =~= Seq::<UpdateSpec>::empty());
        assert(apply_all(m2, Seq::<UpdateSpec>::empty()) == Some(m2));
    } else {
        assert(apply_all(m, Seq::<UpdateSpec>::empty()) == Some(m));
    }
}

/// The paths of the documents of `index` that count `term`.
pub open spec fn docs_with(index: Map<Seq<char>, DocSpec>, term: Seq<char>) -> Set<Seq<char>> {
    Set::new(|p: Seq<char>| index.contains_key(p) && index[p].tf.contains_key(term))
}

/// Every document frequency is the number of documents that count the token,
/// and every token that some document counts has one.
pub open spec fn df_consistent(m: ModelSpec) -> bool {
    &&& m.index.dom().finite()
    &&& forall|t: Seq<char>| #[trigger] m.df.contains_key(t) <==> docs_with(m.index, t).len() > 0
    &&& forall|t: Seq<char>| #[trigger] m.df.contains_key(t) ==> m.df[t] == docs_with(m.index, t).len()
}

/// An empty model is consistent.
pub proof fn law_empty_df_consistent()
    ensures
        df_consistent(
            ModelSpec {
                df: Map::<Seq<char>, usize>::empty(),
                index: Map::<Seq<char>, DocSpec>::empty(),
            },
        ),
{
    let e = Map::<Seq<char>, DocSpec>::empty();
    assert forall|t: Seq<char>| docs_with(e, t).len() == 0 by {
        assert(docs_with(e, t) =~= Set::<Seq<char>>::empty());
    }
}

/// Indexing a file at a path that the index does not hold yet keeps every
/// document frequency equal to the number of indexed documents that count
/// the token (`tokenize_file` stores the counts `tf` and adds one document for
/// each of its tokens). A path already indexed would be counted twice, so it
/// is left out; so is an index that has as many documents as a machine word
/// can count.
pub proof fn law_index_new_file_keeps_df(
    m: ModelSpec,
    path: Seq<char>,
    tf: Map<Seq<char>, usize>,
    ts: Timestamp,
)
    requires
        df_consistent(m),
        !m.index.contains_key(path),
        m.index.dom().len() < usize::MAX,
    ensures
        df_consistent(
            ModelSpec {
                df: bump_df(m.df, tf.dom()),
                index: m.index.insert(path, DocSpec { tf, ts }),
            },
        ),
{
    let idx2 = m.index.insert(path, DocSpec { tf, ts });
    let df2 = bump_df(m.df, tf.dom());
    assert(idx2.dom() =~= m.index.dom().insert(path));
    assert forall|t: Seq<char>|
        (#[trigger] df2.contains_key(t) <==> docs_with(idx2, t).len() > 0) && (df2.contains_key(t)
            ==> df2[t] == docs_with(idx2, t).len()) by {
        let f1 = docs_with(m.index, t);
        let f2 = docs_with(idx2, t);
        vstd::set_lib::lemma_len_subset(f1, m.index.dom());
        assert(!f1.contains(path));
        if tf.contains_key(t) {
            assert(f2 =~= f1.insert(path));
            assert(f2.len() == f1.len() + 1);
            if m.df.contains_key(t) {
                assert(m.df[t] == f1.len());
                assert(df2[t] == m.df[t] + 1);
            } else {
                assert(f1.len() == 0);
            }
        } else {
            assert(f2 =~= f1);
        }
    }
}

/// A change of count never leaves a count of 0 behind: a term whose count
/// comes to 0 is dropped.
pub proof fn law_modify_keeps_counts_positive(
    counts: Map<Seq<char>, usize>,
    term: Seq<char>,
    delta: isize,
)
    requires
        forall|t: Seq<char>| #[trigger] counts.contains_key(t) ==> counts[t] > 0,
    ensures
        forall|t: Seq<char>|
            #[trigger] modify_counts(counts, term, delta).contains_key(t) ==> modify_counts(
                counts,
                term,
                delta,
            )[t] > 0,
{
}

/// Whether `c` is an ASCII capital letter.
pub open spec fn is_ascii_upper(c: char) -> bool {
    65 <= (c as u32) <= 90
}

/// Words are lowered: a token that starts with a letter holds no ASCII
/// capital letter.
pub proof fn law_words_are_lowercase(s: Seq<ClassifiedChar>)
    ensures
        next_raw(s) matches Some((tok, rest)) ==> (s.skip(leading_ws(s) as int)[0].alphabetic
            ==> forall|i: int| 0 <= i < tok.len() ==> !is_ascii_upper(#[trigger] tok[i])),
{
    assert forall|c: char| !is_ascii_upper(#[trigger] ascii_lower(c)) by {
        if 65 <= (c as u32) <= 90 {
            assert(((c as u32) + 32) as char as u32 == (c as u32) + 32);
        }
    }
}

/// The paths among the first `n` keys of `index` whose documents count `t`.
spec fn counted_paths(index: Index, t: Seq<char>, n: int) -> Set<Seq<char>> {
    Set::new(|p: Seq<char>| index.keys().take(n).contains(p) && index@[p].tf.contains_key(t))
}

proof fn lemma_docs_containing_counts_paths(index: Index, t: Seq<char>, n: int)
    requires
        index.wf(),
        0 <= n <= index.keys().len(),
    ensures
        counted_paths(index, t, n).finite(),
        docs_containing(index.vals().take(n), t) == counted_paths(index, t, n).len(),
    decreases n,
{
    let ks = index.keys();
    if n == 0 {
        assert(counted_paths(index, t, 0) =~= Set::<Seq<char>>::empty());
        assert(index.vals().take(0) =~= Seq::<DocSpec>::empty());
    } else {
        lemma_docs_containing_counts_paths(index, t, n - 1);
        let pre = ks.take(n - 1);
        let cur = ks.take(n);
        let k = ks[n - 1];
        assert(index.vals().take(n).drop_last() =~= index.vals().take(n - 1));
        assert(index.vals().take(n).last() == index.vals()[n - 1]);
        assert(index.vals()[n - 1] == index@[k]);
        assert(!pre.contains(k)) by {
            if pre.contains(k) {
                let q = choose|q: int| 0 <= q < pre.len() && pre[q] == k;
                assert(ks[q] == k);
            }
        }
        assert forall|p: Seq<char>| cur.contains(p) <==> (pre.contains(p) || p == k) by {
            if cur.contains(p) {
                let q = choose|q: int| 0 <= q < cur.len() && cur[q] == p;
                if q < n - 1 {
                    assert(pre[q] == p);
                }
            }
            if pre.contains(p) {
                let q = choose|q: int| 0 <= q < pre.len() && pre[q] == p;
                assert(cur[q] == p);
            }
            if p == k {
                assert(cur[n - 1] == k);
            }
        }
        if index@[k].tf.contains_key(t) {
            assert(counted_paths(index, t, n) =~= counted_paths(index, t, n - 1).insert(k));
        } else {
            assert(counted_paths(index, t, n) =~= counted_paths(index, t, n - 1));
        }
    }
}

/// Search counts the documents that hold a token the way the document
/// frequencies do: in a consistent model, the number that `search` reports
/// as `docs_with_term` is the token's document frequency, or 0 where it has
/// none.
pub proof fn law_search_counts_match_df(model: Model, term: Seq<char>)
    requires
        model.wf(),
        df_consistent(model@),
    ensures
        docs_containing(model.spec_index().vals(), term) == (if model@.df.contains_key(term) {
            model@.df[term] as int
        } else {
            0
        }),
{
    let index = model.spec_index();
    let n = index.keys().len() as int;
    lemma_docs_containing_counts_paths(index, term, n);
    assert(index.vals().take(n) =~= index.vals());
    assert(index.keys().take(n) =~= index.keys());
    assert(counted_paths(index, term, n) =~= docs_with(model@.index, term)) by {
        assert forall|p: Seq<char>| index.keys().contains(p) <==> index@.contains_key(p) by {
            if index.keys().contains(p) {
                let q = choose|q: int| 0 <= q < index.keys().len() && index.keys()[q] == p;
                assert(index@.contains_key(index.keys()[q]));
            }
        }
    }
}

/// The documents of `index` that count `t` form a finite set of at most as
/// many paths as `index` has.
proof fn lemma_docs_with_bound(index: Map<Seq<char>, DocSpec>, t: Seq<char>)
    requires
        index.dom().finite(),
    ensures
        docs_with(index, t).finite(),
        docs_with(index, t).len() <= index.dom().len(),
{
    vstd::set_lib::lemma_len_subset(docs_with(index, t), index.dom());
}

/// Applying a diff keeps the document frequencies consistent: where every
/// document frequency of `m` is the number of documents that count the token,
/// storing a fresh reading through the updates that `diff` finds leaves it so,
/// new tokens and lost ones included. The index can hold no more documents
/// than a machine word counts.
pub proof fn law_diff_keeps_df(m: ModelSpec, path: Seq<char>, old: Doc, new: Doc)
    requires
        old.wf(),
        new.wf(),
        good_counts(new),
        m.index.contains_key(path),
        m.index[path] == old@,
        df_consistent(m),
        m.index.dom().len() <= usize::MAX,
    ensures
        apply_all(m, diff_spec(new.spec_tf().keys(), new@, old.spec_tf().keys(), old@, path)) matches Some(
            m2,
        ) && m2.index == m.index.insert(path, new@) && df_consistent(m2),
{
    law_diff_then_apply(m, path, old, new);
    let nk = new.spec_tf().keys();
    let ok = old.spec_tf().keys();
    let a = add_new_terms(m.df, nk, old@.tf);
    let df2 = drop_absent(a, ok, new@.tf);
    let i0 = m.index;
    let i1 = m.index.insert(path, new@);
    assert(i1.dom() =~= i0.dom().insert(path));
    assert(i1.dom() =~= i0.dom());
    assert forall|t: Seq<char>|
        (#[trigger] df2.contains_key(t) <==> docs_with(i1, t).len() > 0) && (df2.contains_key(t)
            ==> df2[t] == docs_with(i1, t).len()) by {
        lemma_add_new_at(m.df, nk, old@.tf, t);
        lemma_drop_absent_at(a, ok, new@.tf, t);
        lemma_keys_contain(new, t);
        lemma_keys_contain(old, t);
        lemma_docs_with_bound(i0, t);
        let s0 = docs_with(i0, t);
        let s1 = docs_with(i1, t);
        if new@.tf.contains_key(t) && !old@.tf.contains_key(t) {
            assert(s1 =~= s0.insert(path));
            assert(!s0.contains(path));
            assert(s0.subset_of(i0.dom().remove(path)));
            vstd::set_lib::lemma_len_subset(s0, i0.dom().remove(path));
            lemma_modify_same_at(df2, modify_counts(m.df, t, 1isize), t, -1isize, t);
        } else if old@.tf.contains_key(t) && !new@.tf.contains_key(t) {
            assert(s1 =~= s0.remove(path));
            assert(s0.contains(path));
            lemma_modify_same_at(a, m.df, t, -1isize, t);
        } else {
            assert(s1 =~= s0);
            lemma_modify_same_at(a, m.df, t, -1isize, t);
        }
    }
}

/// Removing a document through the updates that re-indexing gives a removed
/// file keeps the document frequencies consistent.
pub proof fn law_removal_keeps_df(m: ModelSpec, path: Seq<char>, doc: Doc)
    requires
        doc.wf(),
        m.index.contains_key(path),
        m.index[path] == doc@,
        df_consistent(m),
    ensures
        apply_all(m, removal_updates(doc.spec_tf().keys(), path)) matches Some(m2) && m2.index
            == m.index.remove(path) && df_consistent(m2),
{
    let ks = doc.spec_tf().keys();
    let e = Map::<Seq<char>, usize>::empty();
    lemma_df_drops_apply(m, ks);
    law_apply_in_sequence(m, df_drops(ks), seq![UpdateSpec::Remove(path)]);
    let m1 = ModelSpec { df: drop_absent(m.df, ks, e), index: m.index };
    let m2 = ModelSpec { df: m1.df, index: m.index.remove(path) };
    assert(apply_one(m1, UpdateSpec::Remove(path)) == Some(m2));
    assert(seq![UpdateSpec::Remove(path)].drop_first() =~= Seq::<UpdateSpec>::empty());
    assert(apply_all(m2, Seq::<UpdateSpec>::empty()) == Some(m2));
    assert forall|t: Seq<char>|
        (#[trigger] m2.df.contains_key(t) <==> docs_with(m2.index, t).len() > 0) && (
        m2.df.contains_key(t) ==> m2.df[t] == docs_with(m2.index, t).len()) by {
        lemma_drop_absent_at(m.df, ks, e, t);
        lemma_keys_contain(doc, t);
        lemma_docs_with_bound(m.index, t);
        let s0 = docs_with(m.index, t);
        assert(docs_with(m2.index, t) =~= s0.remove(path));
    }
}

/// The index once every stored document of the first `n` is brought in line
/// with its file.
spec fn reindexed(stored: Index, changes: Seq<FileChange>, n: int) -> Map<Seq<char>, DocSpec> {
    Map::new(
        |p: Seq<char>|
            stored@.contains_key(p) && !(stored.keys().take(n).contains(p)
                && changes[stored.position_of(p)] is Removed),
        |p: Seq<char>|
            if stored.keys().take(n).contains(p) {
                match changes[stored.position_of(p)] {
                    FileChange::Modified(d) => d@,
                    _ => stored@[p],
                }
            } else {
                stored@[p]
            },
    )
}

/// The index of the files still on disk: each stored document whose file is
/// there, as it was read again where its file changed.
pub open spec fn index_on_disk(stored: Index, changes: Seq<FileChange>) -> Map<Seq<char>, DocSpec> {
    Map::new(
        |p: Seq<char>| stored@.contains_key(p) && !(changes[stored.position_of(p)] is Removed),
        |p: Seq<char>|
            match changes[stored.position_of(p)] {
                FileChange::Modified(d) => d@,
                _ => stored@[p],
            },
    )
}

/// Every document read again has counts as a tokenized text does.
pub open spec fn changes_counted(changes: Seq<FileChange>) -> bool {
    forall|i: int|
        0 <= i < changes.len() ==> (#[trigger] changes[i] matches FileChange::Modified(d) ==> good_counts(d))
}

proof fn lemma_reindex_steps(m: ModelSpec, stored: Index, changes: Seq<FileChange>, n: int)
    requires
        index_wf(stored),
        m.index == stored@,
        df_consistent(m),
        changes.len() == stored.keys().len(),
        changes_wf(changes),
        changes_counted(changes),
        0 <= n <= stored.keys().len(),
    ensures
        apply_all(m, reindex_steps(stored, changes, n)) matches Some(mn) && mn.index == reindexed(
            stored,
            changes,
            n,
        ) && df_consistent(mn),
    decreases n,
{
    let sk = stored.keys();
    if n == 0 {
        assert(sk.take(0) =~= Seq::<Seq<char>>::empty());
        assert(reindexed(stored, changes, 0) =~= stored@);
    } else {
        lemma_reindex_steps(m, stored, changes, n - 1);
        lemma_prefix_step(sk, n);
        let p = sk[n - 1];
        let doc = stored.values()[n - 1];
        assert(doc.wf());
        assert(doc@ == stored@[p]);
        assert(sk.contains(p));
        assert(stored.position_of(p) == n - 1) by {
            let q = sk.index_of(p);
            assert(sk[q] == p);
        }
        let prev = reindex_steps(stored, changes, n - 1);
        let change = changes[n - 1];
        let step = reindex_step(p, doc, change);
        law_apply_in_sequence(m, prev, step);
        let mn = apply_all(m, prev)->0;
        assert(mn.index.contains_key(p));
        assert(mn.index[p] == doc@);
        assert(mn.index.dom().subset_of(stored@.dom()));
        vstd::set_lib::lemma_len_subset(mn.index.dom(), stored@.dom());
        match change {
            FileChange::Unchanged => {
                assert(step =~= Seq::<UpdateSpec>::empty());
                assert(apply_all(mn, step) == Some(mn));
                assert(reindexed(stored, changes, n) =~= reindexed(stored, changes, n - 1));
            },
            FileChange::Removed => {
                law_removal_keeps_df(mn, p, doc);
                assert(mn.index.remove(p) =~= reindexed(stored, changes, n));
            },
            FileChange::Modified(nd) => {
                assert(nd.wf());
                assert(good_counts(nd));
                law_diff_keeps_df(mn, p, doc, nd);
                assert(mn.index.insert(p, nd@) =~= reindexed(stored, changes, n));
            },
        }
    }
}

/// Re-indexing brings the model in line with the files on disk: applying the
/// updates that `re_index_bulk` finds leaves the index holding each stored
/// document whose file is still there, read again where the file changed,
/// and keeps every document frequency equal to the number of documents that
/// count the token. The documents read again have counts as a tokenized text
/// does.
pub proof fn law_reindex_then_apply(model: Model, changes: Seq<FileChange>)
    requires
        model.wf(),
        df_consistent(model@),
        changes.len() == model.spec_index().keys().len(),
        changes_wf(changes),
        changes_counted(changes),
    ensures
        apply_all(model@, reindex_spec(model, changes)) matches Some(m2) && m2.index == index_on_disk(
            model.spec_index(),
            changes,
        ) && df_consistent(m2),
{
    let stored = model.spec_index();
    let n = stored.keys().len() as int;
    lemma_reindex_steps(model@, stored, changes, n);
    let sk = stored.keys();
    assert(sk.take(n) =~= sk);
    assert(reindexed(stored, changes, n) =~= index_on_disk(stored, changes)) by {
        assert forall|p: Seq<char>| stored@.contains_key(p) implies sk.contains(p) by {}
    }
}

/// A text of `n` characters gives at most `n` tokens, before stemming and
/// after.
pub proof fn law_token_count_bound(s: Seq<ClassifiedChar>)
    ensures
        tokens(s).len() <= s.len(),
        raw_tokens(s).len() <= s.len(),
    decreases s.len(),
{
    lemma_next_raw_bounds(s);
    match next_raw(s) {
        None => {},
        Some((tok, rest)) => {
            law_token_count_bound(rest);
        },
    }
}

/// Once the lexer has found no token, it finds none again: what it leaves
/// behind then holds no token either.
pub proof fn law_lexer_fused(s: Seq<ClassifiedChar>)
    ensures
        next_raw(s) is None ==> next_raw(s.skip(leading_ws(s) as int)) is None,
{
    if next_raw(s) is None {
        let t = s.skip(leading_ws(s) as int);
        assert(t.len() == 0);
        assert(leading_ws(t) == 0);
        assert(t.skip(0) =~= t);
    }
}

/// Search sees the query only through its stemmed tokens: two queries with
/// the same tokens get the same statistics for every document.
pub proof fn law_search_sees_only_tokens(a: Seq<char>, b: Seq<char>, model: Model)
    requires
        text_tokens(a) == text_tokens(b),
    ensures
        text_tokens(a).len() == text_tokens(b).len(),
        forall|i: int, j: int|
            0 <= i < model.spec_index().keys().len() && 0 <= j < text_tokens(a).len() ==> term_stat(
                #[trigger] text_tokens(a)[j],
                #[trigger] model.spec_index().values()[i].spec_tf(),
                model.spec_index().vals(),
            ) == term_stat(
                text_tokens(b)[j],
                model.spec_index().values()[i].spec_tf(),
                model.spec_index().vals(),
            ),
{
}

/// Whether one of `files` is at path `p`.
pub open spec fn has_path(files: Seq<(Seq<char>, Map<Seq<char>, usize>, Timestamp)>, p: Seq<char>) -> bool {
    exists|i: int| 0 <= i < files.len() && #[trigger] files[i].0 == p
}

/// The model after each of `files` (a path, its token counts and its time)
/// is indexed in turn, as `tokenize_file` indexes one.
pub open spec fn index_all(
    m: ModelSpec,
    files: Seq<(Seq<char>, Map<Seq<char>, usize>, Timestamp)>,
) -> ModelSpec
    decreases files.len(),
{
    if files.len() == 0 {
        m
    } else {
        let m1 = index_all(m, files.drop_last());
        let f = files.last();
        ModelSpec {
            df: bump_df(m1.df, f.1.dom()),
            index: m1.index.insert(f.0, DocSpec { tf: f.1, ts: f.2 }),
        }
    }
}

/// Indexing files at distinct paths one after another, from an empty model,
/// leaves every document frequency equal to the number of indexed files that
/// count the token, and the index holding one document for each file; there
/// are fewer files than a machine word counts.
pub proof fn law_index_files_keeps_df(files: Seq<(Seq<char>, Map<Seq<char>, usize>, Timestamp)>)
    requires
        forall|i: int, j: int| 0 <= i < files.len() && 0 <= j < files.len() && i != j ==> files[i].0 != files[j].0,
        files.len() < usize::MAX,
    ensures
        df_consistent(index_all(ModelSpec { df: Map::empty(), index: Map::empty() }, files)),
        index_all(ModelSpec { df: Map::empty(), index: Map::empty() }, files).index.dom().len()
            == files.len(),
        forall|p: Seq<char>|
            #[trigger] index_all(ModelSpec { df: Map::empty(), index: Map::empty() }, files).index.contains_key(p)
                <==> has_path(files, p),
    decreases files.len(),
{
    let e = ModelSpec { df: Map::<Seq<char>, usize>::empty(), index: Map::<Seq<char>, DocSpec>::empty() };
    if files.len() == 0 {
        law_empty_df_consistent();
        assert(e.index.dom() =~= Set::<Seq<char>>::empty());
    } else {
        let pre = files.drop_last();
        assert forall|i: int, j: int| 0 <= i < pre.len() && 0 <= j < pre.len() && i != j implies pre[i].0
            != pre[j].0 by {
            assert(pre[i] == files[i] && pre[j] == files[j]);
        }
        law_index_files_keeps_df(pre);
        let m1 = index_all(e, pre);
        let f = files.last();
        assert(f == files[files.len() - 1]);
        assert(!m1.index.contains_key(f.0)) by {
            if m1.index.contains_key(f.0) {
                assert(has_path(pre, f.0));
                let i = choose|i: int| 0 <= i < pre.len() && #[trigger] pre[i].0 == f.0;
                assert(files[i].0 == f.0);
            }
        }
        law_index_new_file_keeps_df(m1, f.0, f.1, f.2);
        let m2 = index_all(e, files);
        assert(m2.index.dom() =~= m1.index.dom().insert(f.0));
        assert forall|p: Seq<char>| #[trigger] m2.index.contains_key(p) <==> has_path(files, p) by {
            if has_path(files, p) {
                let i = choose|i: int| 0 <= i < files.len() && #[trigger] files[i].0 == p;
                if i < files.len() - 1 {
                    assert(pre[i].0 == p);
                    assert(has_path(pre, p));
                }
            }
            if m1.index.contains_key(p) {
                let i = choose|i: int| 0 <= i < pre.len() && #[trigger] pre[i].0 == p;
                assert(files[i].0 == p);
            }
            if p == f.0 {
                assert(files[files.len() - 1].0 == p);
            }
        }
    }
}

/// The ranking follows the scores: `k` places are chosen, or all where there
/// are fewer, each once; of two chosen places the one with the
/// higher score comes first, and of two equal scores the earlier place; a
/// place left out scores no higher than any chosen one, and where it ties,
/// it comes later.
pub proof fn law_ranking_follows_scores(scores: Seq<u32>, places: Seq<usize>, k: int)
    requires
        top_ranking(scores, places, k),
    ensures
        places.len() == (if k < scores.len() {
            k
        } else {
            scores.len() as int
        }),
        forall|i: int| 0 <= i < places.len() ==> #[trigger] places[i] < scores.len(),
        forall|i: int, j: int| 0 <= i < j < places.len() ==> #[trigger] places[i] != #[trigger] places[j],
        forall|i: int, j: int|
            0 <= i < j < places.len() ==> scores[#[trigger] places[i] as int] > scores[#[trigger] places[j] as int]
                || (scores[places[i] as int] == scores[places[j] as int] && places[i] < places[j]),
        forall|i: int, x: usize|
            #![trigger places[i], places.contains(x)]
            0 <= i < places.len() && x < scores.len() && !places.contains(x) ==> scores[places[i] as int]
                > scores[x as int] || (scores[places[i] as int] == scores[x as int] && places[i] < x),
        forall|i: int, j: int|
            0 <= i < places.len() && 0 <= j < places.len() && scores[#[trigger] places[i] as int]
                > scores[#[trigger] places[j] as int] ==> i < j,
{
    assert forall|i: int, x: usize|
        #![trigger places[i], places.contains(x)]
        0 <= i < places.len() && x < scores.len() && !places.contains(x) implies scores[places[i] as int]
        > scores[x as int] || (scores[places[i] as int] == scores[x as int] && places[i] < x) by {
        assert(places.contains(x) || !places.contains(x));
    }
    assert forall|i: int, j: int|
        0 <= i < places.len() && 0 <= j < places.len() && scores[#[trigger] places[i] as int]
            > scores[#[trigger] places[j] as int] implies i < j by {
        if j < i {
            assert(scores[places[j] as int] >= scores[places[i] as int]);
        }
    }
}

/// Search reports, for each query token, how many times the document's
/// stored counts hold it (its count there, or 0 where the document lacks it),
/// the sum of all the document's counts, how many indexed documents count the
/// token and how many documents are indexed.
pub proof fn law_search_reports_stored_counts(term: Seq<char>, tf: TF, docs: Seq<DocSpec>)
    requires
        tf.wf(),
        docs.len() <= usize::MAX,
    ensures
        tf@.contains_key(term) ==> term_stat(term, tf, docs).count == tf@[term],
        !tf@.contains_key(term) ==> term_stat(term, tf, docs).count == 0,
        term_stat(term, tf, docs).total == seq_sum(tf.vals()),
        term_stat(term, tf, docs).docs_with_term == docs_containing(docs, term),
        term_stat(term, tf, docs).n_docs == docs.len(),
{
    lemma_seq_sum_bound(tf.vals());
    assert(tf.vals().len() * (usize::MAX as int) <= (usize::MAX as int) * (usize::MAX as int))
        by (nonlinear_arith)
        requires
            tf.vals().len() <= usize::MAX,
    ;
    assert((usize::MAX as int) * (usize::MAX as int) < u128::MAX) by (nonlinear_arith)
        requires
            usize::MAX <= u64::MAX,
    ;
    lemma_docs_containing_bound(docs, term);
}

/// A sum of counts: nothing sums to 0, and one more count adds itself.
pub proof fn law_sum_of_counts(counts: Seq<usize>, c: usize)
    ensures
        seq_sum(Seq::<usize>::empty()) == 0,
        seq_sum(counts.push(c)) == seq_sum(counts) + c,
{
    assert(counts.push(c).drop_last() =~= counts);
}

/// Counting the documents that hold a token: none among no documents, and
/// one more document adds one exactly where it counts the token.
pub proof fn law_docs_containing_one_more(docs: Seq<DocSpec>, d: DocSpec, term: Seq<char>)
    ensures
        docs_containing(Seq::<DocSpec>::empty(), term) == 0,
        d.tf.contains_key(term) ==> docs_containing(docs.push(d), term) == docs_containing(docs, term) + 1,
        !d.tf.contains_key(term) ==> docs_containing(docs.push(d), term) == docs_containing(docs, term),
{
    assert(docs.push(d).drop_last() =~= docs);
}

/// Counting tokens: no tokens give no counts; one more occurrence of `t`
/// raises its count by one, or gives it the count 1, and leaves every other
/// count as it was.
pub proof fn law_counting_one_more(toks: Seq<Seq<char>>, t: Seq<char>)
    requires
        toks.len() < usize::MAX,
    ensures
        term_counts(Seq::<Seq<char>>::empty()) == Map::<Seq<char>, usize>::empty(),
        term_counts(toks.push(t)).contains_key(t),
        term_counts(toks).contains_key(t) ==> term_counts(toks.push(t))[t] == term_counts(toks)[t] + 1,
        !term_counts(toks).contains_key(t) ==> term_counts(toks.push(t))[t] == 1,
        forall|u: Seq<char>|
            u != t ==> (#[trigger] term_counts(toks.push(t)).contains_key(u) <==> term_counts(toks).contains_key(u)),
        forall|u: Seq<char>|
            u != t && #[trigger] term_counts(toks).contains_key(u) ==> term_counts(toks.push(t))[u]
                == term_counts(toks)[u],
{
    assert(term_counts(Seq::<Seq<char>>::empty()) =~= Map::<Seq<char>, usize>::empty());
    let p = toks.push(t);
    assert(p.drop_last() =~= toks);
    crate::file_process::lemma_occurrences_bound(toks, t);
}

/// A word runs over exactly the characters that std finds alphabetic or
/// numeric (`char::is_alphanumeric`), and a number over exactly those it finds
/// numeric: each character of the run is one, and the character after it is
/// not.
pub proof fn law_runs_follow_char_classes(text: Seq<char>)
    ensures
        forall|i: int|
            0 <= i < alnum_run(classify_all(text)) ==> char_is_alphabetic(#[trigger] text[i])
                || char_is_numeric(text[i]),
        alnum_run(classify_all(text)) < text.len() ==> !(char_is_alphabetic(
            text[alnum_run(classify_all(text)) as int],
        ) || char_is_numeric(text[alnum_run(classify_all(text)) as int])),
        alnum_run(classify_all(text)) <= text.len(),
        forall|i: int| 0 <= i < numeric_run(classify_all(text)) ==> char_is_numeric(#[trigger] text[i]),
        numeric_run(classify_all(text)) < text.len() ==> !char_is_numeric(
            text[numeric_run(classify_all(text)) as int],
        ),
        numeric_run(classify_all(text)) <= text.len(),
    decreases text.len(),
{
    if text.len() > 0 {
        let rest = text.drop_first();
        assert(classify_all(text).drop_first() =~= classify_all(rest));
        law_runs_follow_char_classes(rest);
        assert forall|i: int|
            0 <= i < alnum_run(classify_all(text)) implies char_is_alphabetic(#[trigger] text[i])
            || char_is_numeric(text[i]) by {
            if i > 0 {
                assert(text[i] == rest[i - 1]);
            }
        }
        assert forall|i: int| 0 <= i < numeric_run(classify_all(text)) implies char_is_numeric(
            #[trigger] text[i],
        ) by {
            if i > 0 {
                assert(text[i] == rest[i - 1]);
            }
        }
        let n = alnum_run(classify_all(text)) as int;
        if 0 < n < text.len() {
            assert(text[n] == rest[n - 1]);
        }
        let m = numeric_run(classify_all(text)) as int;
        if 0 < m < text.len() {
            assert(text[m] == rest[m - 1]);
        }
    }
}

/// The text of a document read in two parts is the text of the first part
/// followed by that of the second; one character-data event gives its text
/// and a space, and any other event gives nothing.
pub proof fn law_joined_text_concatenates(a: Seq<Option<Seq<char>>>, b: Seq<Option<Seq<char>>>)
    ensures
        joined_text(a + b) == joined_text(a) + joined_text(b),
        forall|t: Seq<char>| #[trigger] joined_text(seq![Some(t)]) == t.push(' '),
        joined_text(seq![None::<Seq<char>>]) == Seq::<char>::empty(),
    decreases b.len(),
{
    let e = Seq::<Option<Seq<char>>>::empty();
    assert(joined_text(e) == Seq::<char>::empty());
    assert forall|t: Seq<char>| #[trigger] joined_text(seq![Some(t)]) == t.push(' ') by {
        let one = seq![Some(t)];
        assert(one.len() == 1);
        assert(one.last() == Some(t));
        assert(one.drop_last() =~= e);
        assert(joined_text(one) == joined_text(one.drop_last()) + t.push(' '));
        assert(Seq::<char>::empty() + t.push(' ') =~= t.push(' '));
    }
    let none = seq![None::<Seq<char>>];
    assert(none.len() == 1);
    assert(none.last() == None::<Seq<char>>);
    assert(none.drop_last() =~= e);
    assert(joined_text(none) == joined_text(none.drop_last()) + Seq::<char>::empty());
    assert(Seq::<char>::empty() + Seq::<char>::empty() =~= Seq::<char>::empty());
    if b.len() == 0 {
        assert(a + b =~= a);
        assert(joined_text(a) + joined_text(b) =~= joined_text(a));
    } else {
        law_joined_text_concatenates(a, b.drop_last());
        assert((a + b).drop_last() =~= a + b.drop_last());
        assert((a + b).last() == b.last());
        let x = match b.last() {
            Some(text) => text.push(' '),
            None => Seq::<char>::empty(),
        };
        assert(joined_text(a) + joined_text(b.drop_last()) + x =~= joined_text(a) + (joined_text(
            b.drop_last(),
        ) + x));
    }
}

/// The white space that a text starts with, as std's `char::is_whitespace`
/// finds it: each character of it is white space, the one after it is not.
proof fn lemma_leading_ws_of_text(text: Seq<char>)
    ensures
        leading_ws(classify_all(text)) <= text.len(),
        forall|i: int| 0 <= i < leading_ws(classify_all(text)) ==> char_is_whitespace(#[trigger] text[i]),
        leading_ws(classify_all(text)) < text.len() ==> !char_is_whitespace(
            text[leading_ws(classify_all(text)) as int],
        ),
    decreases text.len(),
{
    if text.len() > 0 {
        let rest = text.drop_first();
        assert(classify_all(text).drop_first() =~= classify_all(rest));
        lemma_leading_ws_of_text(rest);
        assert forall|i: int| 0 <= i < leading_ws(classify_all(text)) implies char_is_whitespace(
            #[trigger] text[i],
        ) by {
            if i > 0 {
                assert(text[i] == rest[i - 1]);
            }
        }
        let n = leading_ws(classify_all(text)) as int;
        if 0 < n < text.len() {
            assert(text[n] == rest[n - 1]);
        }
    }
}

/// The token that the lexer finds in a text, read as std classifies the
/// text's characters; `w` is where the token starts.
#[verifier::spinoff_prover]
proof fn lemma_token_of_text(text: Seq<char>, tok: Seq<char>, rest: Seq<ClassifiedChar>, w: int)
    requires
        next_raw(classify_all(text)) == Some((tok, rest)),
        w == text.len() - rest.len() - tok.len(),
    ensures
        0 <= w < text.len(),
        1 <= tok.len() <= text.len() - w,
        forall|i: int| 0 <= i < w ==> char_is_whitespace(#[trigger] text[i]),
        !char_is_whitespace(text[w]),
        rest == classify_all(text.skip(w + tok.len())),
        char_is_alphabetic(text[w]) ==> forall|j: int|
            0 <= j < tok.len() ==> #[trigger] tok[j] == ascii_lower(text[w + j]) && (char_is_alphabetic(
                text[w + j],
            ) || char_is_numeric(text[w + j])),
        char_is_alphabetic(text[w]) && w + tok.len() < text.len() ==> !(char_is_alphabetic(
            text[w + tok.len()],
        ) || char_is_numeric(text[w + tok.len()])),
        !char_is_alphabetic(text[w]) && char_is_numeric(text[w]) ==> forall|j: int|
            0 <= j < tok.len() ==> #[trigger] tok[j] == text[w + j] && char_is_numeric(text[w + j]),
        !char_is_alphabetic(text[w]) && char_is_numeric(text[w]) && w + tok.len() < text.len()
            ==> !char_is_numeric(text[w + tok.len()]),
        !char_is_alphabetic(text[w]) && !char_is_numeric(text[w]) ==> tok == seq![text[w]],
{
    let s = classify_all(text);
    lemma_leading_ws_of_text(text);
    let lw = leading_ws(s) as int;
    let u = text.skip(lw);
    let t = s.skip(lw);
    assert(t =~= classify_all(u));
    assert(t.len() > 0);
    assert(u[0] == text[lw]);
    law_runs_follow_char_classes(u);
    let n = token_len(t) as int;
    assert(n <= u.len());
    assert(tok == token_text(t));
    assert(rest == t.skip(n));
    assert(tok.len() == n);
    assert(w == lw);
    assert(rest =~= classify_all(text.skip(lw + n)));
    assert forall|j: int| 0 <= j < n implies #[trigger] u[j] == text[lw + j] by {}
    if n < u.len() {
        assert(u[n] == text[lw + n]);
    }
    if char_is_alphabetic(text[lw]) {
        assert(n == alnum_run(classify_all(u)));
        assert forall|j: int| 0 <= j < n implies #[trigger] tok[j] == ascii_lower(text[lw + j]) && (
        char_is_alphabetic(text[lw + j]) || char_is_numeric(text[lw + j])) by {
            assert(tok[j] == ascii_lower(t[j].c));
            assert(t[j].c == u[j]);
            assert(char_is_alphabetic(u[j]) || char_is_numeric(u[j]));
        }
    } else if char_is_numeric(text[lw]) {
        assert(n == numeric_run(classify_all(u)));
        assert forall|j: int| 0 <= j < n implies #[trigger] tok[j] == text[lw + j] && char_is_numeric(
            text[lw + j],
        ) by {
            assert(tok[j] == t[j].c);
            assert(t[j].c == u[j]);
            assert(char_is_numeric(u[j]));
        }
    } else {
        assert(tok =~= seq![text[lw]]);
    }
}

/// The lexer reads a text as std classifies its characters. It finds no
/// token exactly where the text is all white space. Otherwise the token
/// starts at the first character that is not white space, and the rest is
/// the text after the token. A token that starts with a letter runs over the
/// letters and digits that follow, lowered to ASCII small letters, and stops
/// before the first character that is neither; one that starts with a digit
/// runs over the digits, as they are; any other character is a token of its
/// own.
pub proof fn law_next_raw_reads_the_text(text: Seq<char>)
    ensures
        next_raw(classify_all(text)) is None <==> forall|i: int|
            0 <= i < text.len() ==> char_is_whitespace(#[trigger] text[i]),
        next_raw(classify_all(text)) matches Some((tok, rest)) ==> ({
            let w = text.len() - rest.len() - tok.len();
            &&& 0 <= w < text.len()
            &&& 1 <= tok.len() <= text.len() - w
            &&& forall|i: int| 0 <= i < w ==> char_is_whitespace(#[trigger] text[i])
            &&& !char_is_whitespace(text[w])
            &&& rest == classify_all(text.skip(w + tok.len()))
            &&& char_is_alphabetic(text[w]) ==> forall|j: int|
                0 <= j < tok.len() ==> #[trigger] tok[j] == ascii_lower(text[w + j]) && (
                char_is_alphabetic(text[w + j]) || char_is_numeric(text[w + j]))
            &&& char_is_alphabetic(text[w]) && w + tok.len() < text.len() ==> !(char_is_alphabetic(
                text[w + tok.len()],
            ) || char_is_numeric(text[w + tok.len()]))
            &&& !char_is_alphabetic(text[w]) && char_is_numeric(text[w]) ==> forall|j: int|
                0 <= j < tok.len() ==> #[trigger] tok[j] == text[w + j] && char_is_numeric(text[w + j])
            &&& !char_is_alphabetic(text[w]) && char_is_numeric(text[w]) && w + tok.len() < text.len()
                ==> !char_is_numeric(text[w + tok.len()])
            &&& !char_is_alphabetic(text[w]) && !char_is_numeric(text[w]) ==> tok == seq![text[w]]
        }),
{
    let s = classify_all(text);
    lemma_leading_ws_of_text(text);
    let lw = leading_ws(s) as int;
    let t = s.skip(lw);
    match next_raw(s) {
        None => {
            assert(t.len() == 0);
            assert forall|i: int| 0 <= i < text.len() implies char_is_whitespace(#[trigger] text[i]) by {}
        },
        Some((tok, rest)) => {
            let w = text.len() - rest.len() - tok.len();
            lemma_token_of_text(text, tok, rest, w);
            assert(!(forall|i: int| 0 <= i < text.len() ==> char_is_whitespace(#[trigger] text[i]))) by {
                assert(!char_is_whitespace(text[w]));
            }
        },
    }
}

} // verus!
