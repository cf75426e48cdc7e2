//! The transactional unit of the answer workflow.
//!
//! A transaction takes exclusive ownership of the store for its
//! lifetime; its writes are buffered and become visible outside all at
//! once on [`AnswerBundleTransaction::commit`], while reads through
//! the unit already see its own buffered writes.  A transaction that
//! is discarded instead hands back the store exactly as it was, so no
//! partial effect is ever observable.

use vstd::prelude::*;
use crate::sentence::{Sentence, SentenceModel};
use crate::store::{
    apply_update, bundle_index, bundle_views_of, element_views_of, find_by_id, has_sentence_id,
    lemma_views_insert, lemma_views_push, lemma_views_remove, views_of, with_scheduling_of,
    Bundle, BundleElement,
    BundleModel, ElementModel, MemStore, StoreError, StoreModel,
};

verus! {

/// Whether a sentence belongs to the bundle with this id, going by the
/// recorded membership elements.
pub open spec fn is_member(elements: Seq<ElementModel>, bid: Seq<char>, m: SentenceModel) -> bool {
    m.id matches Some(sid) && exists|i: int| 0 <= i < elements.len()
        && (#[trigger] elements[i]).bundle_id == bid && elements[i].sentence_id == sid
}

/// The non-suspended members of a bundle, in store order.
pub open spec fn members_of(
    sentences: Seq<SentenceModel>,
    elements: Seq<ElementModel>,
    bid: Seq<char>,
) -> Seq<SentenceModel> {
    sentences.filter(|m: SentenceModel| !m.is_suspended && is_member(elements, bid, m))
}

/// The sentences after a whole sequence of updates is applied in
/// order.
pub open spec fn apply_updates(s: Seq<SentenceModel>, ups: Seq<SentenceModel>) -> Seq<SentenceModel>
    decreases ups.len(),
{
    if ups.len() == 0 {
        s
    } else {
        apply_updates(apply_update(s, ups[0]), ups.drop_first())
    }
}

/// Every bundle carrying this id is marked answered.
pub open spec fn mark_one(bs: Seq<BundleModel>, id: Seq<char>) -> Seq<BundleModel> {
    Seq::new(bs.len(), |i: int| if bs[i].id == id {
        BundleModel { has_been_answered: true, ..bs[i] }
    } else {
        bs[i]
    })
}

/// The bundles after a whole sequence of ids is marked answered in
/// order.
pub open spec fn mark_fold(bs: Seq<BundleModel>, ids: Seq<Seq<char>>) -> Seq<BundleModel>
    decreases ids.len(),
{
    if ids.len() == 0 {
        bs
    } else {
        mark_fold(mark_one(bs, ids[0]), ids.drop_first())
    }
}

/// Applying one more update at the end extends the fold by one step.
pub proof fn lemma_apply_updates_push(s: Seq<SentenceModel>, ups: Seq<SentenceModel>, u: SentenceModel)
    ensures
        apply_updates(s, ups.push(u)) == apply_update(apply_updates(s, ups), u),
    decreases ups.len(),
{
    if ups.len() == 0 {
        assert(ups.push(u)[0] == u);
        assert(ups.push(u).drop_first() =~= Seq::<SentenceModel>::empty());
        assert(apply_updates(s, ups) == s);
        assert(apply_updates(s, ups.push(u))
            == apply_updates(apply_update(s, u), ups.push(u).drop_first()));
        assert(apply_updates(apply_update(s, u), ups.push(u).drop_first()) == apply_update(s, u));
    } else {
        assert(ups.push(u)[0] == ups[0]);
        assert(ups.push(u).drop_first() =~= ups.drop_first().push(u));
        lemma_apply_updates_push(apply_update(s, ups[0]), ups.drop_first(), u);
        assert(apply_updates(s, ups.push(u))
            == apply_updates(apply_update(s, ups[0]), ups.drop_first().push(u)));
        assert(apply_updates(s, ups)
            == apply_updates(apply_update(s, ups[0]), ups.drop_first()));
    }
}

/// Marking one more id at the end extends the fold by one step.
pub proof fn lemma_mark_fold_push(bs: Seq<BundleModel>, ids: Seq<Seq<char>>, id: Seq<char>)
    ensures
        mark_fold(bs, ids.push(id)) == mark_one(mark_fold(bs, ids), id),
    decreases ids.len(),
{
    if ids.len() == 0 {
        assert(ids.push(id)[0] == id);
        assert(ids.push(id).drop_first() =~= Seq::<Seq<char>>::empty());
        assert(mark_fold(bs, ids) == bs);
        assert(mark_fold(bs, ids.push(id))
            == mark_fold(mark_one(bs, id), ids.push(id).drop_first()));
        assert(mark_fold(mark_one(bs, id), ids.push(id).drop_first()) == mark_one(bs, id));
    } else {
        assert(ids.push(id)[0] == ids[0]);
        assert(ids.push(id).drop_first() =~= ids.drop_first().push(id));
        lemma_mark_fold_push(mark_one(bs, ids[0]), ids.drop_first(), id);
        assert(mark_fold(bs, ids.push(id))
            == mark_fold(mark_one(bs, ids[0]), ids.drop_first().push(id)));
        assert(mark_fold(bs, ids)
            == mark_fold(mark_one(bs, ids[0]), ids.drop_first()));
    }
}

/// The value a sentence shows inside the unit: its base value, with
/// the scheduling fields of each matching buffered update applied in
/// order.
pub open spec fn effective_one(m: SentenceModel, ups: Seq<SentenceModel>) -> SentenceModel
    decreases ups.len(),
{
    if ups.len() == 0 {
        m
    } else {
        effective_one(
            if m.id == ups[0].id {
                with_scheduling_of(m, ups[0])
            } else {
                m
            },
            ups.drop_first(),
        )
    }
}

/// Applying a batch of updates rewrites each position independently.
pub proof fn lemma_apply_updates_pointwise(s: Seq<SentenceModel>, ups: Seq<SentenceModel>)
    ensures
        apply_updates(s, ups).len() == s.len(),
        forall|i: int| 0 <= i < s.len()
            ==> #[trigger] apply_updates(s, ups)[i] == effective_one(s[i], ups),
    decreases ups.len(),
{
    if ups.len() > 0 {
        lemma_apply_updates_pointwise(apply_update(s, ups[0]), ups.drop_first());
        assert forall|i: int| 0 <= i < s.len()
            implies #[trigger] apply_updates(s, ups)[i] == effective_one(s[i], ups) by {
            assert(apply_update(s, ups[0])[i] == (if s[i].id == ups[0].id {
                with_scheduling_of(s[i], ups[0])
            } else {
                s[i]
            }));
        }
    }
}

/// With no matching buffered update, a sentence shows its base value.
proof fn lemma_effective_none(m: SentenceModel, ups: Seq<SentenceModel>)
    requires
        forall|t: int| 0 <= t < ups.len() ==> (#[trigger] ups[t]).id != m.id,
    ensures
        effective_one(m, ups) == m,
    decreases ups.len(),
{
    if ups.len() > 0 {
        assert forall|t: int| 0 <= t < ups.drop_first().len()
            implies (#[trigger] ups.drop_first()[t]).id != m.id by {
            assert(ups.drop_first()[t] == ups[t + 1]);
        }
        lemma_effective_none(m, ups.drop_first());
    }
}

/// The latest matching buffered update decides the whole effective
/// value: every scheduling field comes from it, the rest from the
/// base.
proof fn lemma_effective_last(m: SentenceModel, ups: Seq<SentenceModel>, j: int)
    requires
        0 <= j < ups.len(),
        ups[j].id == m.id,
        forall|t: int| j < t < ups.len() ==> (#[trigger] ups[t]).id != m.id,
    ensures
        effective_one(m, ups) == with_scheduling_of(m, ups[j]),
    decreases ups.len(),
{
    let m1 = if m.id == ups[0].id {
        with_scheduling_of(m, ups[0])
    } else {
        m
    };
    assert(m1.id == m.id);
    if j == 0 {
        assert forall|t: int| 0 <= t < ups.drop_first().len()
            implies (#[trigger] ups.drop_first()[t]).id != m1.id by {
            assert(ups.drop_first()[t] == ups[t + 1]);
        }
        lemma_effective_none(m1, ups.drop_first());
    } else {
        assert forall|t: int| j - 1 < t < ups.drop_first().len()
            implies (#[trigger] ups.drop_first()[t]).id != m1.id by {
            assert(ups.drop_first()[t] == ups[t + 1]);
        }
        assert(ups.drop_first()[j - 1] == ups[j]);
        lemma_effective_last(m1, ups.drop_first(), j - 1);
        assert(with_scheduling_of(m1, ups[j]) == with_scheduling_of(m, ups[j]));
    }
}

/// Whether two sentences carry the same optional id.
fn same_id(a: &Sentence, b: &Sentence) -> (r: bool)
    ensures
        r == (a@.id == b@.id),
{
    match (a.id, b.id) {
        (None, None) => true,
        (Some(x), Some(y)) => x == y,
        _ => false,
    }
}

/// The position of the latest buffered update matching the sentence's
/// id, if any.
fn last_update_for(updates: &Vec<Sentence>, s: &Sentence) -> (r: Option<usize>)
    ensures
        match r {
            Some(j) => j < updates@.len() && views_of(updates@)[j as int].id == s@.id
                && forall|t: int| j < t < updates@.len()
                    ==> (#[trigger] views_of(updates@)[t]).id != s@.id,
            None => forall|t: int| 0 <= t < updates@.len()
                ==> (#[trigger] views_of(updates@)[t]).id != s@.id,
        },
{
    let mut j: usize = updates.len();
    while j > 0
        invariant
            j <= updates@.len(),
            forall|t: int| j <= t < updates@.len()
                ==> (#[trigger] views_of(updates@)[t]).id != s@.id,
        decreases j,
    {
        j = j - 1;
        if same_id(&updates[j], s) {
            proof {
                assert(views_of(updates@)[j as int].id == s@.id);
            }
            return Some(j);
        }
        proof {
            assert(views_of(updates@)[j as int].id != s@.id);
        }
    }
    None
}

/// The transactional unit: it owns the store, buffers sentence
/// updates and answered marks, and applies them only on commit.
pub struct AnswerBundleTransaction {
    pub base: MemStore,
    pub updates: Vec<Sentence>,
    pub answered: Vec<String>,
}

/// The mathematical value of an [`AnswerBundleTransaction`].
pub struct TransactionModel {
    pub base: StoreModel,
    pub updates: Seq<SentenceModel>,
    pub answered: Seq<Seq<char>>,
}

impl View for AnswerBundleTransaction {
    type V = TransactionModel;

    open spec fn view(&self) -> TransactionModel {
        TransactionModel {
            base: self.base@,
            updates: views_of(self.updates@),
            answered: self.answered@.map_values(|s: String| s@),
        }
    }
}

impl TransactionModel {
    /// The transaction invariant: the underlying store is well formed
    /// and so is every buffered update.
    pub open spec fn wf(self) -> bool {
        &&& self.base.wf()
        &&& forall|i: int| 0 <= i < self.updates.len() ==> (#[trigger] self.updates[i]).wf()
    }

    /// The store a commit of this transaction produces: all buffered
    /// updates applied in order, then all recorded bundles marked
    /// answered.
    pub open spec fn committed(self) -> StoreModel {
        StoreModel {
            sentences: apply_updates(self.base.sentences, self.updates),
            bundles: mark_fold(self.base.bundles, self.answered),
            ..self.base
        }
    }
}

impl MemStore {
    /// Opens the transactional unit of the answer workflow.  The store
    /// is moved into the unit, so no second unit, and no direct write,
    /// can interleave with it.
    pub fn start_answer_bundle_transaction(self) -> (tx: AnswerBundleTransaction)
        ensures
            tx@.base == self@,
            tx@.updates.len() == 0,
            tx@.answered.len() == 0,
    {
        let tx = AnswerBundleTransaction { base: self, updates: Vec::new(), answered: Vec::new() };
        proof {
            assert(tx@.updates =~= Seq::<SentenceModel>::empty());
            assert(tx@.answered =~= Seq::<Seq<char>>::empty());
        }
        tx
    }
}

/// Overwrites, in place, the scheduling fields of the sentence whose
/// id matches `s`; a sentence id the store does not hold changes
/// nothing.
fn apply_scheduling(store: &mut MemStore, s: &Sentence)
    requires
        old(store)@.wf(),
        s@.wf(),
    ensures
        final(store)@.wf(),
        final(store)@ == (StoreModel {
            sentences: apply_update(old(store)@.sentences, s@),
            ..old(store)@
        }),
{
    let id = match s.id {
        Some(id) => id,
        None => {
            proof {
                assert(apply_update(store@.sentences, s@) =~= store@.sentences);
            }
            return;
        },
    };
    match find_by_id(&store.sentences, id) {
        None => {
            proof {
                assert forall|t: int| 0 <= t < store@.sentences.len()
                    implies (#[trigger] store@.sentences[t]).id != s@.id by {
                    assert(store@.sentences[t].id != Some(id as int));
                }
                assert(apply_update(store@.sentences, s@) =~= store@.sentences);
            }
        },
        Some(i) => {
            let ghost pre = store@;
            proof {
                lemma_views_remove(store.sentences@, i as int);
            }
            let orig = store.sentences.remove(i);
            let updated = Sentence {
                id: orig.id,
                text: orig.text,
                created_at: orig.created_at,
                last_answered_at: s.last_answered_at,
                due_at: s.due_at,
                ease: s.ease,
                interval_in_mins: s.interval_in_mins,
                reps: s.reps,
                is_suspended: s.is_suspended,
            };
            proof {
                lemma_views_insert(store.sentences@, i as int, updated);
            }
            store.sentences.insert(i, updated);
            proof {
                let ii = i as int;
                assert forall|t: int| 0 <= t < pre.sentences.len() && t != ii
                    implies (#[trigger] pre.sentences[t]).id != Some(id as int) by {
                    if t < ii {
                        assert(pre.sentences[t].id != pre.sentences[ii].id);
                    } else {
                        assert(pre.sentences[ii].id != pre.sentences[t].id);
                    }
                }
                assert(updated@ == crate::store::with_scheduling_of(pre.sentences[ii], s@));
                assert(store@.sentences =~= apply_update(pre.sentences, s@));
                assert(store@.wf()) by {
                    assert(forall|t: int| 0 <= t < store@.sentences.len() ==>
                        (#[trigger] store@.sentences[t]).id == pre.sentences[t].id
                        && store@.sentences[t].text == pre.sentences[t].text
                        && store@.sentences[t].wf());
                }
            }
        },
    }
}

/// Marks, in place, the bundle whose id matches; an unknown id changes
/// nothing.
fn mark_bundle(store: &mut MemStore, id: &String)
    requires
        old(store)@.wf(),
    ensures
        final(store)@.wf(),
        final(store)@ == (StoreModel {
            bundles: mark_one(old(store)@.bundles, id@),
            ..old(store)@
        }),
{
    match bundle_index(&store.bundles, id) {
        None => {
            proof {
                assert forall|t: int| 0 <= t < store@.bundles.len()
                    implies (#[trigger] store@.bundles[t]).id != id@ by {}
                assert(mark_one(store@.bundles, id@) =~= store@.bundles);
            }
        },
        Some(i) => {
            let ghost pre = store@;
            proof {
                lemma_bundle_views_remove(store.bundles@, i as int);
            }
            let orig = store.bundles.remove(i);
            let updated = Bundle {
                id: orig.id,
                created_at: orig.created_at,
                has_been_answered: true,
            };
            proof {
                lemma_bundle_views_insert(store.bundles@, i as int, updated);
            }
            store.bundles.insert(i, updated);
            proof {
                let ii = i as int;
                assert forall|t: int| 0 <= t < pre.bundles.len() && t != ii
                    implies (#[trigger] pre.bundles[t]).id != id@ by {
                    if t < ii {
                        assert(pre.bundles[t].id != pre.bundles[ii].id);
                    } else {
                        assert(pre.bundles[ii].id != pre.bundles[t].id);
                    }
                }
                assert(store@.bundles =~= mark_one(pre.bundles, id@));
                assert(store@.sentences =~= pre.sentences);
                assert(store@.elements =~= pre.elements);
                assert(store@.wf()) by {
                    assert(forall|t: int| 0 <= t < store@.bundles.len()
                        ==> (#[trigger] store@.bundles[t]).id == pre.bundles[t].id);
                }
            }
        },
    }
}

/// Mapping to bundle values commutes with removing one bundle.
proof fn lemma_bundle_views_remove(v: Seq<Bundle>, i: int)
    requires
        0 <= i < v.len(),
    ensures
        bundle_views_of(v.remove(i)) =~= bundle_views_of(v).remove(i),
{
}

/// Mapping to bundle values commutes with inserting one bundle.
proof fn lemma_bundle_views_insert(v: Seq<Bundle>, i: int, x: Bundle)
    requires
        0 <= i <= v.len(),
    ensures
        bundle_views_of(v.insert(i, x)) =~= bundle_views_of(v).insert(i, x@),
{
}

impl AnswerBundleTransaction {
    /// The bundle's non-suspended member sentences as they are visible
    /// inside the unit, in store order: each sentence shows the
    /// scheduling fields of the unit's own latest buffered update of
    /// it, so a read after a write through the unit sees that write.
    pub fn get_sentences_in_bundle(&self, bundle_id: &String) -> (r: Vec<Sentence>)
        ensures
            views_of(r@) == members_of(
                apply_updates(self@.base.sentences, self@.updates),
                self@.base.elements,
                bundle_id@,
            ),
    {
        let ghost eff = apply_updates(self@.base.sentences, self@.updates);
        let mut out: Vec<Sentence> = Vec::new();
        let mut i: usize = 0;
        proof {
            lemma_apply_updates_pointwise(self@.base.sentences, self@.updates);
            reveal(Seq::filter);
            assert(views_of(out@) =~= members_of(
                eff.take(0), self@.base.elements, bundle_id@));
        }
        while i < self.base.sentences.len()
            invariant
                i <= self.base.sentences@.len(),
                eff == apply_updates(self@.base.sentences, self@.updates),
                eff.len() == self@.base.sentences.len(),
                forall|t: int| 0 <= t < eff.len()
                    ==> #[trigger] eff[t] == effective_one(self@.base.sentences[t], self@.updates),
                views_of(out@) == members_of(eff.take(i as int), self@.base.elements, bundle_id@),
            decreases self.base.sentences@.len() - i,
        {
            let s = &self.base.sentences[i];
            let ghost m = eff[i as int];
            let e: Sentence = match last_update_for(&self.updates, s) {
                Some(j) => {
                    proof {
                        lemma_effective_last(
                            self@.base.sentences[i as int], self@.updates, j as int);
                    }
                    let u = &self.updates[j];
                    Sentence {
                        id: s.id,
                        text: s.text.clone(),
                        created_at: s.created_at,
                        last_answered_at: u.last_answered_at,
                        due_at: u.due_at,
                        ease: u.ease,
                        interval_in_mins: u.interval_in_mins,
                        reps: u.reps,
                        is_suspended: u.is_suspended,
                    }
                },
                None => {
                    proof {
                        lemma_effective_none(self@.base.sentences[i as int], self@.updates);
                    }
                    s.clone()
                },
            };
            proof {
                assert(e@ == m);
            }
            let keep = if e.is_suspended {
                false
            } else {
                match e.id {
                    None => false,
                    Some(sid) => element_match(&self.base.elements, bundle_id, sid),
                }
            };
            proof {
                assert(keep == (!m.is_suspended && is_member(self@.base.elements, bundle_id@, m)));
            }
            if keep {
                proof {
                    lemma_views_push(out@, e);
                }
                out.push(e);
            }
            proof {
                reveal(Seq::filter);
                assert(eff.take(i as int + 1).drop_last() =~= eff.take(i as int));
                assert(eff.take(i as int + 1).last() == m);
                assert(views_of(out@) =~= members_of(
                    eff.take(i as int + 1), self@.base.elements, bundle_id@));
            }
            i = i + 1;
        }
        proof {
            assert(eff.take(eff.len() as int) =~= eff);
        }
        out
    }

    /// Buffers an overwrite of the sentence's scheduling fields: later
    /// reads through the unit see it, while the underlying store is
    /// untouched until commit.  Fails, buffering nothing, exactly when
    /// no stored sentence has `s`'s id.
    pub fn update_sentence(&mut self, s: &Sentence) -> (r: Result<(), StoreError>)
        requires
            old(self)@.wf(),
            s@.wf(),
        ensures
            final(self)@.wf(),
            final(self)@.base == old(self)@.base,
            final(self)@.answered == old(self)@.answered,
            match r {
                Ok(()) => s@.id is Some
                    && has_sentence_id(old(self)@.base.sentences, s@.id->Some_0)
                    && final(self)@.updates == old(self)@.updates.push(s@),
                Err(e) => e == StoreError::UnknownSentence
                    && final(self)@ == old(self)@
                    && !(s@.id is Some
                        && has_sentence_id(old(self)@.base.sentences, s@.id->Some_0)),
            },
    {
        let id = match s.id {
            Some(id) => id,
            None => {
                return Err(StoreError::UnknownSentence);
            },
        };
        match find_by_id(&self.base.sentences, id) {
            None => Err(StoreError::UnknownSentence),
            Some(_) => {
                let ghost pre = self@;
                let c = s.clone();
                proof {
                    lemma_views_push(self.updates@, c);
                }
                self.updates.push(c);
                proof {
                    assert(self@.updates =~= pre.updates.push(s@));
                    assert forall|t: int| 0 <= t < self@.updates.len()
                        implies (#[trigger] self@.updates[t]).wf() by {
                        if t < pre.updates.len() {
                            assert(pre.updates[t].wf());
                        } else {
                            assert(self@.updates[t] == s@);
                        }
                    }
                }
                Ok(())
            },
        }
    }

    /// Records that the bundle is to be marked answered on commit; the
    /// underlying store is untouched until then.
    pub fn mark_bundle_as_answered(&mut self, bundle_id: &String)
        ensures
            final(self)@.base == old(self)@.base,
            final(self)@.updates == old(self)@.updates,
            final(self)@.answered == old(self)@.answered.push(bundle_id@),
    {
        let c = bundle_id.clone();
        self.answered.push(c);
        proof {
            assert(self@.answered =~= old(self)@.answered.push(bundle_id@));
        }
    }

    /// Commits the unit: every buffered update and every answered mark
    /// becomes visible in the returned store, together.
    pub fn commit(self) -> (r: MemStore)
        requires
            self@.wf(),
        ensures
            r@.wf(),
            r@ == self@.committed(),
    {
        let ghost tx0 = self@;
        let AnswerBundleTransaction { base: mut store, updates, answered } = self;
        let mut i: usize = 0;
        while i < updates.len()
            invariant
                i <= updates@.len(),
                views_of(updates@) == tx0.updates,
                forall|t: int| 0 <= t < tx0.updates.len() ==> (#[trigger] tx0.updates[t]).wf(),
                store@.wf(),
                store@ == (StoreModel {
                    sentences: apply_updates(tx0.base.sentences, tx0.updates.take(i as int)),
                    ..tx0.base
                }),
            decreases updates@.len() - i,
        {
            apply_scheduling(&mut store, &updates[i]);
            proof {
                lemma_apply_updates_push(
                    tx0.base.sentences, tx0.updates.take(i as int), tx0.updates[i as int]);
                assert(tx0.updates.take(i as int).push(tx0.updates[i as int])
                    =~= tx0.updates.take(i as int + 1));
            }
            i = i + 1;
        }
        proof {
            assert(tx0.updates.take(tx0.updates.len() as int) =~= tx0.updates);
        }
        let mut b: usize = 0;
        while b < answered.len()
            invariant
                b <= answered@.len(),
                answered@.map_values(|s: String| s@) == tx0.answered,
                store@.wf(),
                store@ == (StoreModel {
                    sentences: apply_updates(tx0.base.sentences, tx0.updates),
                    bundles: mark_fold(tx0.base.bundles, tx0.answered.take(b as int)),
                    ..tx0.base
                }),
            decreases answered@.len() - b,
        {
            mark_bundle(&mut store, &answered[b]);
            proof {
                lemma_mark_fold_push(
                    tx0.base.bundles, tx0.answered.take(b as int), tx0.answered[b as int]);
                assert(tx0.answered.take(b as int).push(tx0.answered[b as int])
                    =~= tx0.answered.take(b as int + 1));
            }
            b = b + 1;
        }
        proof {
            assert(tx0.answered.take(tx0.answered.len() as int) =~= tx0.answered);
        }
        store
    }

    /// Discards the unit: every buffered write is dropped and the
    /// store comes back exactly as it was when the unit was opened.
    pub fn discard(self) -> (r: MemStore)
        ensures
            r@ == self@.base,
    {
        self.base
    }
}

/// Whether some membership element pairs this bundle id with this
/// sentence id.
fn element_match(v: &Vec<BundleElement>, bid: &String, sid: usize) -> (r: bool)
    ensures
        r == exists|t: int| 0 <= t < element_views_of(v@).len()
            && (#[trigger] element_views_of(v@)[t]).bundle_id == bid@
            && element_views_of(v@)[t].sentence_id == sid as int,
{
    let mut i: usize = 0;
    while i < v.len()
        invariant
            i <= v@.len(),
            forall|t: int| 0 <= t < i ==> !((#[trigger] element_views_of(v@)[t]).bundle_id == bid@
                && element_views_of(v@)[t].sentence_id == sid as int),
        decreases v@.len() - i,
    {
        if v[i].sentence_id == sid && v[i].bundle_id == *bid {
            proof {
                assert(element_views_of(v@)[i as int].bundle_id == bid@);
            }
            return true;
        }
        i = i + 1;
    }
    false
}

} // verus!
