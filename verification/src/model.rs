use vstd::prelude::*;

use crate::str_map::StrMap;

verus! {

/// The number of times each token occurs in one file.
pub type TF = StrMap<usize>;

/// For each token, the number of files in which it occurs.
pub type DF = StrMap<usize>;

/// The indexed files, by path.
pub type Index = StrMap<Doc>;

/// A batch of operations on a `Model`, applied in order.
pub type Bulk<T> = Vec<T>;

/// A point in time: whole seconds since the Unix epoch (negative before it),
/// and nanoseconds after that second.
#[derive(Clone, Copy, PartialEq, Eq, Structural, Debug)]
pub struct Timestamp {
    pub secs: i64,
    pub nanos: u32,
}

/// What a document means: its token counts and the time it was read at.
pub struct DocSpec {
    pub tf: Map<Seq<char>, usize>,
    pub ts: Timestamp,
}

/// What a model means: the document frequencies and the indexed documents.
pub struct ModelSpec {
    pub df: Map<Seq<char>, usize>,
    pub index: Map<Seq<char>, DocSpec>,
}

/// One indexed file: how often each token occurs in it, and the modification
/// time of the file when it was read.
pub struct Doc {
    tf: TF,
    ts: Timestamp,
}

impl View for Doc {
    type V = DocSpec;

    open spec fn view(&self) -> DocSpec {
        DocSpec { tf: self.spec_tf()@, ts: self.spec_ts() }
    }
}

/// The search index: document frequencies and the documents themselves.
pub struct Model {
    df: DF,
    index: Index,
}

impl View for Model {
    type V = ModelSpec;

    open spec fn view(&self) -> ModelSpec {
        ModelSpec { df: self.spec_df()@, index: self.spec_index()@ }
    }
}

/// The map that an operation changes.
#[derive(Debug)]
pub enum Modified {
    /// The document frequencies.
    DF,
    /// The token counts of the document at this path.
    TF(String),
}

/// One operation on a `Model`.
#[derive(Debug)]
pub enum Update {
    /// Adds `cnt` to the count of `term`, a term without a count counting as
    /// 0, and drops the term when its count comes to 0.
    Modify { t: Modified, term: String, cnt: isize },
    /// Removes the document at this path.
    Remove(String),
    /// Sets the time of the document at this path, where there is one.
    SetTime(String, Timestamp),
}

/// The meaning of a `Modified`.
pub enum ModifiedSpec {
    DF,
    TF(Seq<char>),
}

/// The meaning of an `Update`.
pub enum UpdateSpec {
    Modify { t: ModifiedSpec, term: Seq<char>, cnt: isize },
    Remove(Seq<char>),
    SetTime(Seq<char>, Timestamp),
}

impl View for Modified {
    type V = ModifiedSpec;

    open spec fn view(&self) -> ModifiedSpec {
        match self {
            Modified::DF => ModifiedSpec::DF,
            Modified::TF(p) => ModifiedSpec::TF(p@),
        }
    }
}

impl View for Update {
    type V = UpdateSpec;

    open spec fn view(&self) -> UpdateSpec {
        match self {
            Update::Modify { t, term, cnt } => UpdateSpec::Modify { t: t@, term: term@, cnt: *cnt },
            Update::Remove(p) => UpdateSpec::Remove(p@),
            Update::SetTime(p, ts) => UpdateSpec::SetTime(p@, *ts),
        }
    }
}

/// The meaning of a batch of updates.
pub open spec fn bulk_view(bulk: Seq<Update>) -> Seq<UpdateSpec> {
    bulk.map_values(|u: Update| u@)
}

/// A count after `delta` is added to it the way machine words add: modulo the
/// word size.
pub open spec fn shifted_count(count: usize, delta: isize) -> usize {
    (count + delta) as usize
}

/// `counts` after `delta` is added to the count of `term`: a term without a
/// count counts as 0, so it gets `delta` where that is positive; a term whose
/// count becomes 0 is dropped.
pub open spec fn modify_counts(counts: Map<Seq<char>, usize>, term: Seq<char>, delta: isize) -> Map<
    Seq<char>,
    usize,
> {
    if counts.contains_key(term) {
        let n = shifted_count(counts[term], delta);
        if n == 0 {
            counts.remove(term)
        } else {
            counts.insert(term, n)
        }
    } else if delta > 0 {
        counts.insert(term, delta as usize)
    } else {
        counts
    }
}

/// `df` with one more document for each of `terms`: a term without a count
/// gets 1.
pub open spec fn bump_df(df: Map<Seq<char>, usize>, terms: Set<Seq<char>>) -> Map<Seq<char>, usize> {
    Map::new(
        |t: Seq<char>| df.contains_key(t) || terms.contains(t),
        |t: Seq<char>|
            if terms.contains(t) {
                if df.contains_key(t) {
                    shifted_count(df[t], 1)
                } else {
                    1
                }
            } else {
                df[t]
            },
    )
}

/// The index is well formed, and so is each of its documents.
pub open spec fn index_wf(index: Index) -> bool {
    &&& index.wf()
    &&& forall|i: int| 0 <= i < index.keys().len() ==> #[trigger] index.values()[i].wf()
}

/// The model after one update, or `None` where the update names the token
/// counts of a document that the model does not hold.
pub open spec fn apply_one(m: ModelSpec, u: UpdateSpec) -> Option<ModelSpec> {
    match u {
        UpdateSpec::Modify { t, term, cnt } => match t {
            ModifiedSpec::DF => Some(ModelSpec { df: modify_counts(m.df, term, cnt), index: m.index }),
            ModifiedSpec::TF(path) => if m.index.contains_key(path) {
                let d = m.index[path];
                Some(
                    ModelSpec {
                        df: m.df,
                        index: m.index.insert(
                            path,
                            DocSpec { tf: modify_counts(d.tf, term, cnt), ts: d.ts },
                        ),
                    },
                )
            } else {
                None
            },
        },
        UpdateSpec::Remove(path) => Some(ModelSpec { df: m.df, index: m.index.remove(path) }),
        UpdateSpec::SetTime(path, ts) => if m.index.contains_key(path) {
            Some(
                ModelSpec {
                    df: m.df,
                    index: m.index.insert(path, DocSpec { tf: m.index[path].tf, ts }),
                },
            )
        } else {
            Some(m)
        },
    }
}

/// The model after a batch of updates, applied first to last, or `None`
/// where one of them cannot be applied.
pub open spec fn apply_all(m: ModelSpec, us: Seq<UpdateSpec>) -> Option<ModelSpec>
    decreases us.len(),
{
    if us.len() == 0 {
        Some(m)
    } else {
        match apply_one(m, us[0]) {
            Some(m1) => apply_all(m1, us.drop_first()),
            None => None,
        }
    }
}

/// The updates for one token of a re-read document: a change of count for a
/// token that the old document has, a new document frequency and count for
/// one it lacks.
pub open spec fn diff_new_term(
    term: Seq<char>,
    new_tf: Map<Seq<char>, usize>,
    old_tf: Map<Seq<char>, usize>,
    path: Seq<char>,
) -> Seq<UpdateSpec> {
    if old_tf.contains_key(term) {
        seq![
            UpdateSpec::Modify {
                t: ModifiedSpec::TF(path),
                term,
                cnt: (new_tf[term] - old_tf[term]) as isize,
            },
        ]
    } else {
        seq![
            UpdateSpec::Modify { t: ModifiedSpec::DF, term, cnt: 1isize },
            UpdateSpec::Modify { t: ModifiedSpec::TF(path), term, cnt: new_tf[term] as isize },
        ]
    }
}

/// The updates for one token of the old document: a token that the new
/// document lacks loses one document and its whole count.
pub open spec fn diff_old_term(
    term: Seq<char>,
    new_tf: Map<Seq<char>, usize>,
    old_tf: Map<Seq<char>, usize>,
    path: Seq<char>,
) -> Seq<UpdateSpec> {
    if new_tf.contains_key(term) {
        seq![]
    } else {
        seq![
            UpdateSpec::Modify { t: ModifiedSpec::DF, term, cnt: -1isize },
            UpdateSpec::Modify { t: ModifiedSpec::TF(path), term, cnt: (0 - old_tf[term]) as isize },
        ]
    }
}

/// `diff_new_term` for each of `terms`, in order.
pub open spec fn diff_new_terms(
    terms: Seq<Seq<char>>,
    new_tf: Map<Seq<char>, usize>,
    old_tf: Map<Seq<char>, usize>,
    path: Seq<char>,
) -> Seq<UpdateSpec>
    decreases terms.len(),
{
    if terms.len() == 0 {
        seq![]
    } else {
        diff_new_terms(terms.drop_last(), new_tf, old_tf, path) + diff_new_term(
            terms.last(),
            new_tf,
            old_tf,
            path,
        )
    }
}

/// `diff_old_term` for each of `terms`, in order.
pub open spec fn diff_old_terms(
    terms: Seq<Seq<char>>,
    new_tf: Map<Seq<char>, usize>,
    old_tf: Map<Seq<char>, usize>,
    path: Seq<char>,
) -> Seq<UpdateSpec>
    decreases terms.len(),
{
    if terms.len() == 0 {
        seq![]
    } else {
        diff_old_terms(terms.drop_last(), new_tf, old_tf, path) + diff_old_term(
            terms.last(),
            new_tf,
            old_tf,
            path,
        )
    }
}

/// The updates that turn the stored `old` document at `path` into `new`:
/// its new time, then one step for each token of `new` in order, then one for
/// each token of `old` in order.
pub open spec fn diff_spec(
    new_terms: Seq<Seq<char>>,
    new: DocSpec,
    old_terms: Seq<Seq<char>>,
    old: DocSpec,
    path: Seq<char>,
) -> Seq<UpdateSpec> {
    seq![UpdateSpec::SetTime(path, new.ts)] + diff_new_terms(new_terms, new.tf, old.tf, path)
        + diff_old_terms(old_terms, new.tf, old.tf, path)
}

/// Adds `delta` to the count of `term` in `counts`, a term without a count
/// counting as 0, and drops the term when its count comes to 0.
fn modify_count(counts: &mut StrMap<usize>, term: &String, delta: isize)
    requires
        old(counts).wf(),
    ensures
        final(counts).wf(),
        final(counts)@ == modify_counts(old(counts)@, term@, delta),
{
    match counts.find(term) {
        None => {
            if delta > 0 {
                counts.insert(term.clone(), delta as usize);
            }
        },
        Some(i) => {
            let current: usize = *counts.value_at(i);
            let n: usize = #[verifier::truncate] ((current as i128 + delta as i128) as usize);
            if n == 0 {
                let _ = counts.remove(term);
            } else {
                let _ = counts.set_value_at(i, n);
            }
        },
    }
}

impl Doc {
    /// The token counts are a well-formed map.
    pub open spec fn wf(self) -> bool {
        self.spec_tf().wf()
    }

    /// The token counts.
    pub closed spec fn spec_tf(self) -> TF {
        self.tf
    }

    /// The time the file was read at.
    pub closed spec fn spec_ts(self) -> Timestamp {
        self.ts
    }

    /// A document with no token, to hold a place for a moment.
    fn placeholder() -> (d: Self)
        ensures
            d.wf(),
    {
        Doc { tf: StrMap::new(), ts: Timestamp { secs: 0, nanos: 0 } }
    }

    /// A document with these token counts, read at `ts`.
    pub fn new(tf: TF, ts: Timestamp) -> (d: Self)
        requires
            tf.wf(),
        ensures
            d.wf(),
            d.spec_tf() == tf,
            d@ == (DocSpec { tf: tf@, ts }),
    {
        Doc { tf, ts }
    }

    /// The token counts.
    pub fn get_tf(&self) -> (r: &TF)
        ensures
            *r == self.spec_tf(),
            r@ == self@.tf,
    {
        &self.tf
    }

    /// The time the file was read at.
    pub fn get_ts(&self) -> (r: Timestamp)
        ensures
            r == self@.ts,
    {
        self.ts
    }

    /// The token counts, to change in place.
    pub fn get_tf_mut(&mut self) -> (r: &mut TF)
        ensures
            *r == old(self).spec_tf(),
            final(self).spec_tf() == *final(r),
            final(self)@ == (DocSpec { tf: final(r)@, ts: old(self)@.ts }),
    {
        &mut self.tf
    }

    /// Sets the time the file was read at.
    pub fn set_ts(&mut self, ts: Timestamp)
        ensures
            final(self).spec_tf() == old(self).spec_tf(),
            final(self)@ == (DocSpec { tf: old(self)@.tf, ts }),
    {
        self.ts = ts;
    }

    /// The updates that turn the document `old`, stored at `path`, into this
    /// one.
    pub fn diff(&self, old: &Self, path: String) -> (bulk: Bulk<Update>)
        requires
            self.wf(),
            old.wf(),
        ensures
            bulk_view(bulk@) == diff_spec(
                self.spec_tf().keys(),
                self@,
                old.spec_tf().keys(),
                old@,
                path@,
            ),
    {
        let mut bulk: Bulk<Update> = Vec::new();
        bulk.push(Update::SetTime(path.clone(), self.ts));
        let new_tf = &self.tf;
        let old_tf = &old.tf;
        let ghost new_keys = new_tf.keys();
        let ghost old_keys = old_tf.keys();
        let ghost head = seq![UpdateSpec::SetTime(path@, self.ts)];
        assert(bulk_view(bulk@) =~= head);
        let n = new_tf.len();
        let mut i: usize = 0;
        while i < n
            invariant
                new_tf.wf(),
                old_tf.wf(),
                new_keys == new_tf.keys(),
                n == new_keys.len(),
                i <= n,
                bulk_view(bulk@) == head + diff_new_terms(
                    new_keys.take(i as int),
                    new_tf@,
                    old_tf@,
                    path@,
                ),
            decreases n - i,
        {
            let term = new_tf.key_at(i);
            let cnt: usize = *new_tf.value_at(i);
            let ghost before = bulk_view(bulk@);
            match old_tf.get(term) {
                Some(old_cnt) => {
                    let delta: isize = #[verifier::truncate] ((cnt as i128 - *old_cnt as i128) as isize);
                    bulk.push(
                        Update::Modify { t: Modified::TF(path.clone()), term: term.clone(), cnt: delta },
                    );
                },
                None => {
                    bulk.push(Update::Modify { t: Modified::DF, term: term.clone(), cnt: 1 });
                    bulk.push(
                        Update::Modify {
                            t: Modified::TF(path.clone()),
                            term: term.clone(),
                            cnt: #[verifier::truncate] (cnt as isize),
                        },
                    );
                },
            }
            proof {
                let t = new_keys[i as int];
                assert(new_keys.take(i + 1).drop_last() =~= new_keys.take(i as int));
                assert(new_keys.take(i + 1).last() == t);
                assert(bulk_view(bulk@) =~= before + diff_new_term(t, new_tf@, old_tf@, path@));
            }
            i = i + 1;
        }
        assert(new_keys.take(n as int) =~= new_keys);
        let ghost mid = bulk_view(bulk@);
        let m = old_tf.len();
        let mut j: usize = 0;
        while j < m
            invariant
                new_tf.wf(),
                old_tf.wf(),
                old_keys == old_tf.keys(),
                m == old_keys.len(),
                j <= m,
                bulk_view(bulk@) == mid + diff_old_terms(
                    old_keys.take(j as int),
                    new_tf@,
                    old_tf@,
                    path@,
                ),
            decreases m - j,
        {
            let term = old_tf.key_at(j);
            let cnt: usize = *old_tf.value_at(j);
            let ghost before = bulk_view(bulk@);
            if new_tf.get(term).is_none() {
                bulk.push(Update::Modify { t: Modified::DF, term: term.clone(), cnt: -1 });
                let delta: isize = #[verifier::truncate] ((0i128 - cnt as i128) as isize);
                bulk.push(
                    Update::Modify { t: Modified::TF(path.clone()), term: term.clone(), cnt: delta },
                );
            }
            proof {
                let t = old_keys[j as int];
                assert(old_keys.take(j + 1).drop_last() =~= old_keys.take(j as int));
                assert(old_keys.take(j + 1).last() == t);
                assert(bulk_view(bulk@) =~= before + diff_old_term(t, new_tf@, old_tf@, path@));
            }
            j = j + 1;
        }
        assert(old_keys.take(m as int) =~= old_keys);
        bulk
    }
}

impl Model {
    /// The document frequencies.
    pub closed spec fn spec_df(self) -> DF {
        self.df
    }

    /// The indexed documents.
    pub closed spec fn spec_index(self) -> Index {
        self.index
    }

    /// Both maps are well formed, and so is every document.
    pub open spec fn wf(self) -> bool {
        &&& self.spec_df().wf()
        &&& index_wf(self.spec_index())
    }

    /// A model made of these maps.
    pub fn new(df: DF, index: Index) -> (m: Self)
        requires
            df.wf(),
            index.wf(),
            forall|i: int| 0 <= i < index.keys().len() ==> #[trigger] index.values()[i].wf(),
        ensures
            m.wf(),
            m.spec_df() == df,
            m.spec_index() == index,
            m@ == (ModelSpec { df: df@, index: index@ }),
    {
        Model { df, index }
    }

    /// The indexed documents.
    pub fn index(&self) -> (r: &Index)
        ensures
            *r == self.spec_index(),
    {
        &self.index
    }

    /// The document frequencies.
    pub fn df(&self) -> (r: &DF)
        ensures
            *r == self.spec_df(),
    {
        &self.df
    }

    /// The indexed documents, to change in place.
    pub fn index_mut(&mut self) -> (r: &mut Index)
        ensures
            *r == old(self).spec_index(),
            final(self).spec_index() == *final(r),
            final(self).spec_df() == old(self).spec_df(),
    {
        &mut self.index
    }

    /// The document frequencies, to change in place.
    pub fn df_mut(&mut self) -> (r: &mut DF)
        ensures
            *r == old(self).spec_df(),
            final(self).spec_df() == *final(r),
            final(self).spec_index() == old(self).spec_index(),
    {
        &mut self.df
    }

    /// Adds one to the document frequency of each key of `terms`; a key
    /// without one gets 1.
    pub(crate) fn bump_document_frequencies(&mut self, terms: &TF)
        requires
            old(self).wf(),
            terms.wf(),
        ensures
            final(self).wf(),
            final(self)@ == (ModelSpec {
                df: bump_df(old(self)@.df, terms@.dom()),
                index: old(self)@.index,
            }),
            final(self).spec_index() == old(self).spec_index(),
    {
        let ghost df0 = self.df@;
        let ghost keys = terms.keys();
        let n = terms.len();
        let mut j: usize = 0;
        assert(bump_df(df0, Set::new(|t: Seq<char>| keys.take(0).contains(t))) =~= df0);
        while j < n
            invariant
                self.wf(),
                terms.wf(),
                keys == terms.keys(),
                n == keys.len(),
                j <= n,
                self.df@ == bump_df(df0, Set::new(|t: Seq<char>| keys.take(j as int).contains(t))),
                self.index == old(self).index,
            decreases n - j,
        {
            let term = terms.key_at(j);
            let ghost k = keys[j as int];
            let ghost cur = self.df@;
            let ghost before = Set::new(|t: Seq<char>| keys.take(j as int).contains(t));
            let ghost after = Set::new(|t: Seq<char>| keys.take(j + 1).contains(t));
            proof {
                assert(!before.contains(k)) by {
                    if keys.take(j as int).contains(k) {
                        let q = choose|q: int| 0 <= q < j && keys.take(j as int)[q] == k;
                        assert(keys[q] == k);
                    }
                }
                assert(after =~= before.insert(k)) by {
                    let s0 = keys.take(j as int);
                    let s1 = keys.take(j + 1);
                    assert(s1 =~= s0.push(k));
                    assert forall|t: Seq<char>| s1.contains(t) implies s0.contains(t) || t == k by {
                        let q = choose|q: int| 0 <= q < s1.len() && s1[q] == t;
                        if q < j {
                            assert(s0[q] == t);
                        }
                    }
                    assert forall|t: Seq<char>| s0.contains(t) || t == k implies s1.contains(t) by {
                        if t == k {
                            assert(s1[j as int] == k);
                        } else {
                            let q = choose|q: int| 0 <= q < s0.len() && s0[q] == t;
                            assert(s1[q] == t);
                        }
                    }
                }
            }
            match self.df.find(term) {
                Some(i) => {
                    let c: usize = *self.df.value_at(i);
                    let _ = self.df.set_value_at(i, #[verifier::truncate] ((c as u128 + 1) as usize));
                    proof {
                        assert(cur[k] == df0[k]);
                    }
                },
                None => {
                    self.df.insert(term.clone(), 1);
                },
            }
            proof {
                assert(self.df@ =~= bump_df(df0, after));
            }
            j = j + 1;
        }
        proof {
            assert(keys.take(n as int) =~= keys);
            assert(Set::new(|t: Seq<char>| keys.take(n as int).contains(t)) =~= terms@.dom()) by {
                assert forall|t: Seq<char>| terms@.dom().contains(t) implies keys.contains(t) by {}
                assert forall|t: Seq<char>| keys.contains(t) implies terms@.dom().contains(t) by {
                    let q = choose|q: int| 0 <= q < keys.len() && keys[q] == t;
                    assert(terms@.contains_key(keys[q]));
                }
            }
        }
    }

    /// Stores `doc` at `path`, in place of any document there.
    pub(crate) fn insert_doc(&mut self, path: String, doc: Doc)
        requires
            old(self).wf(),
            doc.wf(),
        ensures
            final(self).wf(),
            final(self)@ == (ModelSpec { df: old(self)@.df, index: old(self)@.index.insert(path@, doc@) }),
            final(self).spec_index().values()[final(self).spec_index().position_of(path@)] == doc,
            final(self).spec_index().keys()[final(self).spec_index().position_of(path@)] == path@,
    {
        let ghost before = self.index;
        let ghost p = path@;
        let ghost d = doc;
        self.index.insert(path, doc);
        proof {
            let after = self.index;
            assert(after@.contains_key(p));
            assert(after.keys().contains(p));
            let q = after.keys().index_of(p);
            assert forall|i: int| 0 <= i < after.keys().len() implies #[trigger] after.values()[i].wf() by {
                if before@.contains_key(p) {
                    assert(after.values() == before.values().update(before.position_of(p), d));
                    if i != before.position_of(p) {
                        assert(after.values()[i] == before.values()[i]);
                    }
                } else {
                    assert(after.values() == before.values().push(d));
                    if i < before.keys().len() {
                        assert(after.values()[i] == before.values()[i]);
                    }
                }
            }
            if before@.contains_key(p) {
                assert(before.keys().contains(p));
                let q0 = before.keys().index_of(p);
                assert(after.keys() == before.keys());
                assert(after.values()[q0] == d);
            } else {
                assert(after.keys() == before.keys().push(p));
                assert(after.keys()[before.keys().len() as int] == p);
                assert(q == before.keys().len()) by {
                    if q < before.keys().len() {
                        assert(before.keys()[q] == p);
                        assert(before@.contains_key(p));
                    }
                }
            }
        }
    }

    /// Whether the model holds no document frequency and no document.
    pub fn is_empty(&self) -> (b: bool)
        requires
            self.wf(),
        ensures
            b <==> (self@.df == Map::<Seq<char>, usize>::empty() && self@.index == Map::<
                Seq<char>,
                DocSpec,
            >::empty()),
    {
        self.df.is_empty() && self.index.is_empty()
    }

    /// Applies the updates of `bulk`, first to last.
    pub fn apply(&mut self, bulk: Bulk<Update>)
        requires
            old(self).wf(),
            apply_all(old(self)@, bulk_view(bulk@)) is Some,
        ensures
            final(self).wf(),
            apply_all(old(self)@, bulk_view(bulk@)) == Some(final(self)@),
    {
        let ghost us = bulk_view(bulk@);
        let ghost start = self@;
        let n = bulk.len();
        let mut i: usize = 0;
        assert(us.subrange(0, n as int) =~= us);
        while i < n
            invariant
                self.wf(),
                n == bulk@.len(),
                us == bulk_view(bulk@),
                i <= n,
                apply_all(start, us) == apply_all(self@, us.subrange(i as int, n as int)),
                apply_all(self@, us.subrange(i as int, n as int)) is Some,
            decreases n - i,
        {
            let ghost rest = us.subrange(i as int, n as int);
            proof {
                assert(rest[0] == bulk@[i as int]@);
                assert(rest.drop_first() =~= us.subrange(i + 1, n as int));
            }
            bulk[i].exec(self);
            i = i + 1;
        }
        proof {
            assert(us.subrange(n as int, n as int) =~= Seq::<UpdateSpec>::empty());
        }
    }
}

impl Default for Model {
    /// A model with nothing in it.
    fn default() -> (m: Self)
        ensures
            m.wf(),
            m@ == (ModelSpec {
                df: Map::<Seq<char>, usize>::empty(),
                index: Map::<Seq<char>, DocSpec>::empty(),
            }),
    {
        Model { df: StrMap::new(), index: StrMap::new() }
    }
}

impl Update {
    /// Adds `cnt` to the count of `term` in the map `t`.
    pub fn modify(t: Modified, term: String, cnt: isize) -> (u: Self)
        ensures
            u@ == (UpdateSpec::Modify { t: t@, term: term@, cnt }),
    {
        Update::Modify { t, term, cnt }
    }

    /// Removes the document at `path`.
    pub fn remove(path: String) -> (u: Self)
        ensures
            u@ == UpdateSpec::Remove(path@),
    {
        Update::Remove(path)
    }

    /// Sets the time of the document at `path`.
    pub fn set(path: String, ts: Timestamp) -> (u: Self)
        ensures
            u@ == UpdateSpec::SetTime(path@, ts),
    {
        Update::SetTime(path, ts)
    }

    /// Performs this update on `model`.
    fn exec(&self, model: &mut Model)
        requires
            old(model).wf(),
            apply_one(old(model)@, self@) is Some,
        ensures
            final(model).wf(),
            apply_one(old(model)@, self@) == Some(final(model)@),
    {
        match self {
            Update::Modify { t, term, cnt } => match t {
                Modified::DF => {
                    modify_count(&mut model.df, term, *cnt);
                },
                Modified::TF(path) => {
                    let j = model.index.find(path).unwrap();
                    let ghost before = model.index;
                    let mut doc = model.index.set_value_at(j, Doc::placeholder());
                    assert(doc.wf());
                    assert(doc@ == before@[path@]);
                    modify_count(&mut doc.tf, term, *cnt);
                    assert(doc@ == (DocSpec {
                        tf: modify_counts(before@[path@].tf, term@, *cnt),
                        ts: before@[path@].ts,
                    }));
                    let _ = model.index.set_value_at(j, doc);
                    proof {
                        assert(model.index@ =~= before@.insert(path@, doc@));
                        assert(model.index.values() =~= before.values().update(j as int, doc));
                        assert forall|i: int|
                            0 <= i < model.index.keys().len() implies #[trigger] model.index.values()[i].wf() by {
                            if i != j {
                                assert(model.index.values()[i] == before.values()[i]);
                            }
                        }
                    }
                },
            },
            Update::Remove(path) => {
                let ghost before = model.index;
                let ghost p = before.position_of(path@);
                let _ = model.index.remove(path);
                proof {
                    if before@.contains_key(path@) {
                        assert forall|i: int|
                            0 <= i < model.index.keys().len() implies #[trigger] model.index.values()[i].wf() by {
                            if i == p {
                                assert(model.index.values()[i] == before.values()[before.keys().len() - 1]);
                            } else {
                                assert(model.index.values()[i] == before.values()[i]);
                            }
                        }
                    }
                }
            },
            Update::SetTime(path, ts) => {
                match model.index.find(path) {
                    None => {},
                    Some(j) => {
                        let ghost before = model.index;
                        let mut doc = model.index.set_value_at(j, Doc::placeholder());
                        assert(doc.wf());
                        assert(doc@ == before@[path@]);
                        doc.ts = *ts;
                        assert(doc@ == (DocSpec { tf: before@[path@].tf, ts: *ts }));
                        let _ = model.index.set_value_at(j, doc);
                        proof {
                            assert(model.index@ =~= before@.insert(path@, doc@));
                            assert(model.index.values() =~= before.values().update(j as int, doc));
                            assert forall|i: int|
                                0 <= i < model.index.keys().len() implies #[trigger] model.index.values()[i].wf() by {
                                if i != j {
                                    assert(model.index.values()[i] == before.values()[i]);
                                }
                            }
                        }
                    },
                }
            },
        }
    }
}

} // verus!
