//! The in-memory review store: sentence retrieval by due-ness and by
//! "new" status, sentence mutation, and the bundle lifecycle.

use vstd::prelude::*;
use rand::RngExt;
use crate::sentence::{Sentence, SentenceModel, MAX_NOW_MINS, NEUTRAL_EASE};

verus! {

broadcast use
    vstd::seq_lib::group_to_multiset_ensures,
    vstd::seq_lib::group_filter_ensures,
    vstd::multiset::group_multiset_axioms,
;

/// Errors a store operation can surface to its caller.  Every variant
/// is a validation error: it is reported without any state change.
#[derive(Clone, Copy, Debug, PartialEq, Eq, Structural)]
pub enum StoreError {
    /// An insert was attempted with empty text.
    EmptyText,
    /// An insert was attempted with text the store already holds.
    DuplicateText,
    /// An operation named a sentence id the store does not hold.
    UnknownSentence,
    /// An operation named a bundle id the store does not hold.
    UnknownBundle,
    /// A freshly generated bundle id collided with an existing one.
    DuplicateBundle,
}

/// A named collection of sentences selected for one review session,
/// sealed once answered.
pub struct Bundle {
    /// Store-generated, human-scannable identifier.
    pub id: String,
    /// Creation timestamp, as a count of minutes.
    pub created_at: i64,
    /// Becomes true exactly once, when the answer workflow commits.
    pub has_been_answered: bool,
}

/// The mathematical value of a [`Bundle`].
pub struct BundleModel {
    pub id: Seq<char>,
    pub created_at: int,
    pub has_been_answered: bool,
}

impl View for Bundle {
    type V = BundleModel;

    open spec fn view(&self) -> BundleModel {
        BundleModel {
            id: self.id@,
            created_at: self.created_at as int,
            has_been_answered: self.has_been_answered,
        }
    }
}

/// Membership of one sentence in one bundle.
pub struct BundleElement {
    pub bundle_id: String,
    pub sentence_id: usize,
}

/// The mathematical value of a [`BundleElement`].
pub struct ElementModel {
    pub bundle_id: Seq<char>,
    pub sentence_id: int,
}

impl View for BundleElement {
    type V = ElementModel;

    open spec fn view(&self) -> ElementModel {
        ElementModel { bundle_id: self.bundle_id@, sentence_id: self.sentence_id as int }
    }
}

/// The sequence of sentence values behind a vector of sentences.
pub open spec fn views_of(v: Seq<Sentence>) -> Seq<SentenceModel> {
    v.map_values(|s: Sentence| s@)
}

/// The sequence of bundle values behind a vector of bundles.
pub open spec fn bundle_views_of(v: Seq<Bundle>) -> Seq<BundleModel> {
    v.map_values(|b: Bundle| b@)
}

/// The sequence of membership values behind a vector of elements.
pub open spec fn element_views_of(v: Seq<BundleElement>) -> Seq<ElementModel> {
    v.map_values(|e: BundleElement| e@)
}

/// The in-memory review store.  Sentences are held in insertion
/// order; ids are assigned from a growing counter.
pub struct MemStore {
    pub sentences: Vec<Sentence>,
    pub bundles: Vec<Bundle>,
    pub elements: Vec<BundleElement>,
    pub next_id: usize,
}

/// The mathematical value of a [`MemStore`].
pub struct StoreModel {
    pub sentences: Seq<SentenceModel>,
    pub bundles: Seq<BundleModel>,
    pub elements: Seq<ElementModel>,
    pub next_id: int,
}

impl View for MemStore {
    type V = StoreModel;

    open spec fn view(&self) -> StoreModel {
        StoreModel {
            sentences: views_of(self.sentences@),
            bundles: bundle_views_of(self.bundles@),
            elements: element_views_of(self.elements@),
            next_id: self.next_id as int,
        }
    }
}

/// Whether some stored sentence carries exactly this text.
pub open spec fn has_text(s: Seq<SentenceModel>, text: Seq<char>) -> bool {
    exists|i: int| 0 <= i < s.len() && s[i].text == text
}

/// Whether some stored sentence carries this id.
pub open spec fn has_sentence_id(s: Seq<SentenceModel>, id: int) -> bool {
    exists|i: int| 0 <= i < s.len() && s[i].id == Some(id)
}

/// Whether some stored bundle carries this id.
pub open spec fn has_bundle_id(b: Seq<BundleModel>, id: Seq<char>) -> bool {
    exists|i: int| 0 <= i < b.len() && b[i].id == id
}

impl StoreModel {
    /// The store invariant: every sentence is well formed, persisted
    /// (id assigned below the id counter), and both ids and texts are
    /// unique; bundle ids are unique too.
    pub open spec fn wf(self) -> bool {
        &&& 0 <= self.next_id
        &&& forall|i: int| 0 <= i < self.sentences.len() ==> (#[trigger] self.sentences[i]).wf()
        &&& forall|i: int| 0 <= i < self.sentences.len()
            ==> (#[trigger] self.sentences[i]).id is Some
        &&& forall|i: int| 0 <= i < self.sentences.len()
            ==> (#[trigger] self.sentences[i]).id->Some_0 < self.next_id
        &&& forall|i: int, j: int| 0 <= i < j < self.sentences.len()
            ==> self.sentences[i].id != self.sentences[j].id
        &&& forall|i: int, j: int| 0 <= i < j < self.sentences.len()
            ==> self.sentences[i].text != self.sentences[j].text
        &&& forall|i: int, j: int| 0 <= i < j < self.bundles.len()
            ==> self.bundles[i].id != self.bundles[j].id
    }
}

/// The scheduling state a fresh sentence is persisted with: new, due
/// at its creation time, neutral ease, no interval, not suspended.
pub open spec fn fresh_sentence(id: int, text: Seq<char>, now: int) -> SentenceModel {
    SentenceModel {
        id: Some(id),
        text: text,
        created_at: now,
        last_answered_at: None,
        due_at: now,
        ease: NEUTRAL_EASE as int,
        interval_in_mins: None,
        reps: 0,
        is_suspended: false,
    }
}

/// `orig` with the mutable scheduling fields overwritten from `u`; the
/// id, the text and the creation time are kept.
pub open spec fn with_scheduling_of(orig: SentenceModel, u: SentenceModel) -> SentenceModel {
    SentenceModel {
        last_answered_at: u.last_answered_at,
        due_at: u.due_at,
        ease: u.ease,
        interval_in_mins: u.interval_in_mins,
        reps: u.reps,
        is_suspended: u.is_suspended,
        ..orig
    }
}

/// One store update: every sentence whose id matches `u.id` has its
/// scheduling fields overwritten from `u`.
pub open spec fn apply_update(s: Seq<SentenceModel>, u: SentenceModel) -> Seq<SentenceModel> {
    Seq::new(s.len(), |i: int| if s[i].id == u.id { with_scheduling_of(s[i], u) } else { s[i] })
}

/// Whether a sentence is due at time `now`: its due time has passed,
/// it has been reviewed at least once, and it is not suspended.
pub open spec fn due_pred(m: SentenceModel, now: int) -> bool {
    m.due_at <= now && m.reps > 0 && !m.is_suspended
}

/// Whether a sentence is new: never reviewed and not suspended.
pub open spec fn new_pred(m: SentenceModel) -> bool {
    m.reps == 0 && !m.is_suspended
}

/// The due sentences of a store, in store order.
pub open spec fn due_filter(s: Seq<SentenceModel>, now: int) -> Seq<SentenceModel> {
    s.filter(|m: SentenceModel| due_pred(m, now))
}

/// The new sentences of a store, in store order.
pub open spec fn new_filter(s: Seq<SentenceModel>) -> Seq<SentenceModel> {
    s.filter(|m: SentenceModel| new_pred(m))
}

/// The field the store orders a listing by.
#[derive(Clone, Copy, Debug, PartialEq, Eq, Structural)]
pub enum OrderKey {
    DueAt,
    CreatedAt,
    LastAnsweredAt,
}

/// The sort key of a sentence under an ordering.  A sentence that was
/// never answered sorts as the earliest bucket.
pub open spec fn sort_key(k: OrderKey, m: SentenceModel) -> int {
    match k {
        OrderKey::DueAt => m.due_at,
        OrderKey::CreatedAt => m.created_at,
        OrderKey::LastAnsweredAt => match m.last_answered_at {
            Some(t) => t,
            None => i64::MIN - 1,
        },
    }
}

/// Whether a sequence of sentences is ordered by the given key,
/// ascending.
pub open spec fn sorted_by_key(k: OrderKey, s: Seq<SentenceModel>) -> bool {
    forall|i: int, j: int| 0 <= i < j < s.len()
        ==> sort_key(k, #[trigger] s[i]) <= sort_key(k, #[trigger] s[j])
}

/// Mapping to sentence values commutes with appending one sentence.
pub(crate) proof fn lemma_views_push(v: Seq<Sentence>, x: Sentence)
    ensures
        views_of(v.push(x)) =~= views_of(v).push(x@),
{
}

/// Mapping to sentence values commutes with removing one sentence.
pub(crate) proof fn lemma_views_remove(v: Seq<Sentence>, i: int)
    requires
        0 <= i < v.len(),
    ensures
        views_of(v.remove(i)) =~= views_of(v).remove(i),
{
}

/// Mapping to sentence values commutes with inserting one sentence.
pub(crate) proof fn lemma_views_insert(v: Seq<Sentence>, i: int, x: Sentence)
    requires
        0 <= i <= v.len(),
    ensures
        views_of(v.insert(i, x)) =~= views_of(v).insert(i, x@),
{
}

/// Compares two sentences under an ordering.
fn le(k: OrderKey, a: &Sentence, b: &Sentence) -> (r: bool)
    ensures
        r == (sort_key(k, a@) <= sort_key(k, b@)),
{
    match k {
        OrderKey::DueAt => a.due_at <= b.due_at,
        OrderKey::CreatedAt => a.created_at <= b.created_at,
        OrderKey::LastAnsweredAt => match (a.last_answered_at, b.last_answered_at) {
            (None, _) => true,
            (Some(_), None) => false,
            (Some(x), Some(y)) => x <= y,
        },
    }
}

/// Sorts the sentences by the given key (insertion sort).  The result
/// is a permutation of the input: the multiset of values is kept.
fn sort_sentences(v: &mut Vec<Sentence>, k: OrderKey)
    ensures
        final(v)@.len() == old(v)@.len(),
        views_of(final(v)@).to_multiset() == views_of(old(v)@).to_multiset(),
        sorted_by_key(k, views_of(final(v)@)),
{
    if v.len() <= 1 {
        return;
    }
    let mut i: usize = 1;
    while i < v.len()
        invariant
            1 <= i <= v@.len(),
            v@.len() == old(v)@.len(),
            views_of(v@).to_multiset() == views_of(old(v)@).to_multiset(),
            sorted_by_key(k, views_of(v@).take(i as int)),
        decreases v@.len() - i,
    {
        let ghost m0 = views_of(v@);
        let mut j: usize = i;
        while j > 0 && !le(k, &v[j - 1], &v[i])
            invariant
                0 <= j <= i < v@.len(),
                views_of(v@) == m0,
                forall|t: int| j <= t < i
                    ==> sort_key(k, #[trigger] m0[t]) > sort_key(k, m0[i as int]),
            decreases j,
        {
            j = j - 1;
        }
        let ghost e = m0[i as int];
        proof {
            lemma_views_remove(v@, i as int);
        }
        let x = v.remove(i);
        proof {
            lemma_views_insert(v@, j as int, x);
            assert(x@ == e);
        }
        v.insert(j, x);
        proof {
            let ii = i as int;
            let jj = j as int;
            let m1 = views_of(v@);
            assert(m1 == m0.remove(ii).insert(jj, e));
            // the multiset of values is untouched by moving one element
            assert(m1.to_multiset() =~= m0.to_multiset()) by {
                assert(m0.to_multiset().contains(e)) by {
                    assert(m0.to_multiset().count(m0[ii]) > 0);
                }
                assert(m0.remove(ii).to_multiset() == m0.to_multiset().remove(e));
                assert(m1.to_multiset() == m0.to_multiset().remove(e).insert(e));
            }
            // the element landed at its insertion position: the prefix
            // one longer is sorted again
            let pre = m1.take(ii + 1);
            assert(forall|t: int| 0 <= t < jj ==> #[trigger] pre[t] == m0[t]);
            assert(pre[jj] == e);
            assert(forall|t: int| jj < t <= ii ==> #[trigger] pre[t] == m0[t - 1]);
            let s0 = m0.take(ii);
            assert(forall|t: int| 0 <= t < ii ==> #[trigger] s0[t] == m0[t]);
            assert forall|a: int, b: int| 0 <= a < b < pre.len()
                implies sort_key(k, pre[a]) <= sort_key(k, pre[b]) by {
                if b < jj {
                    assert(sort_key(k, s0[a]) <= sort_key(k, s0[b]));
                } else if b == jj {
                    assert(sort_key(k, m0[jj - 1]) <= sort_key(k, e));
                    if a < jj - 1 {
                        assert(sort_key(k, s0[a]) <= sort_key(k, s0[jj - 1]));
                    }
                } else {
                    assert(sort_key(k, m0[b - 1]) > sort_key(k, e));
                    if a == jj {
                    } else if a < jj {
                        if a < b - 1 {
                            assert(sort_key(k, s0[a]) <= sort_key(k, s0[b - 1]));
                        }
                    } else {
                        if a - 1 < b - 1 {
                            assert(sort_key(k, s0[a - 1]) <= sort_key(k, s0[b - 1]));
                        }
                    }
                }
            }
            assert(sorted_by_key(k, m1.take(ii + 1)));
        }
        i = i + 1;
    }
    proof {
        assert(views_of(v@).take(i as int) =~= views_of(v@));
    }
}

/// Law: a sentence read back through the full listing right after its
/// insertion is exactly as it was persisted — never reviewed, due at
/// its creation time, with neutral ease and no interval or answer
/// time.  `listed` is any permutation the listing may return of the
/// store after the insertion.
pub proof fn law_insert_round_trip(
    pre: Seq<SentenceModel>,
    listed: Seq<SentenceModel>,
    id: int,
    text: Seq<char>,
    now: int,
)
    requires
        listed.to_multiset() == pre.push(fresh_sentence(id, text, now)).to_multiset(),
    ensures
        exists|t: int| 0 <= t < listed.len()
            && #[trigger] listed[t] == fresh_sentence(id, text, now),
        fresh_sentence(id, text, now).reps == 0,
        fresh_sentence(id, text, now).due_at == fresh_sentence(id, text, now).created_at,
        fresh_sentence(id, text, now).ease == NEUTRAL_EASE,
        fresh_sentence(id, text, now).interval_in_mins is None,
        fresh_sentence(id, text, now).last_answered_at is None,
{
    let m = fresh_sentence(id, text, now);
    assert(pre.push(m)[pre.len() as int] == m);
    assert(pre.push(m).contains(m));
    assert(pre.push(m).to_multiset().count(m) > 0);
    assert(listed.to_multiset().count(m) > 0);
    assert(listed.contains(m));
    let t = choose|t: int| 0 <= t < listed.len() && listed[t] == m;
    assert(listed[t] == m);
}

/// Names the result of chrono's year-month-day rendering of a
/// timestamp given in minutes.
pub uninterp spec fn date_str_of(mins: int) -> Seq<char>;

/// Relies on chrono's `DateTime::from_timestamp` and `format`: the
/// `%Y-%m-%d` rendering of a timestamp is a function of the timestamp
/// alone, and a timestamp within [`MAX_NOW_MINS`] is within chrono's
/// representable range, so the conversion cannot fail.
#[verifier::external_body]
fn date_prefix(mins: i64) -> (r: String)
    requires
        0 <= mins <= MAX_NOW_MINS,
    ensures
        r@ == date_str_of(mins as int),
{
    let dt = chrono::DateTime::<chrono::Utc>::from_timestamp(mins * 60, 0).unwrap();
    dt.format("%Y-%m-%d").to_string()
}

/// Relies on rand's `Alphanumeric` distribution sampled five times:
/// whatever characters come back, the suffix is five characters long.
#[verifier::external_body]
fn random_suffix() -> (r: String)
    ensures
        r@.len() == 5,
{
    let mut rng = rand::rng();
    let mut s = String::new();
    for _ in 0..5 {
        s.push(rng.sample(rand::distr::Alphanumeric) as char);
    }
    s
}

/// The position of the sentence carrying this text, if any.
pub(crate) fn text_index(v: &Vec<Sentence>, text: &String) -> (r: Option<usize>)
    ensures
        match r {
            Some(i) => i < v@.len() && views_of(v@)[i as int].text == text@,
            None => !has_text(views_of(v@), text@),
        },
{
    let mut i: usize = 0;
    while i < v.len()
        invariant
            i <= v@.len(),
            forall|t: int| 0 <= t < i ==> views_of(v@)[t].text != text@,
        decreases v@.len() - i,
    {
        if v[i].text == *text {
            proof {
                assert(views_of(v@)[i as int].text == text@);
            }
            return Some(i);
        }
        i = i + 1;
    }
    None
}

/// The position of the sentence carrying this id, if any.
pub(crate) fn find_by_id(v: &Vec<Sentence>, id: usize) -> (r: Option<usize>)
    ensures
        match r {
            Some(i) => i < v@.len() && views_of(v@)[i as int].id == Some(id as int),
            None => !has_sentence_id(views_of(v@), id as int),
        },
{
    let mut i: usize = 0;
    while i < v.len()
        invariant
            i <= v@.len(),
            forall|t: int| 0 <= t < i ==> views_of(v@)[t].id != Some(id as int),
        decreases v@.len() - i,
    {
        if let Some(sid) = v[i].id {
            if sid == id {
                proof {
                    assert(views_of(v@)[i as int].id == Some(id as int));
                }
                return Some(i);
            }
        }
        proof {
            assert(views_of(v@)[i as int].id != Some(id as int));
        }
        i = i + 1;
    }
    None
}

/// The position of the bundle carrying this id, if any.
pub(crate) fn bundle_index(v: &Vec<Bundle>, id: &String) -> (r: Option<usize>)
    ensures
        match r {
            Some(i) => i < v@.len() && bundle_views_of(v@)[i as int].id == id@,
            None => !has_bundle_id(bundle_views_of(v@), id@),
        },
{
    let mut i: usize = 0;
    while i < v.len()
        invariant
            i <= v@.len(),
            forall|t: int| 0 <= t < i ==> bundle_views_of(v@)[t].id != id@,
        decreases v@.len() - i,
    {
        if v[i].id == *id {
            proof {
                assert(bundle_views_of(v@)[i as int].id == id@);
            }
            return Some(i);
        }
        i = i + 1;
    }
    None
}

impl MemStore {
    /// An empty store.
    pub fn new() -> (r: MemStore)
        ensures
            r@.sentences.len() == 0,
            r@.bundles.len() == 0,
            r@.elements.len() == 0,
            r@.next_id == 1,
            r@.wf(),
    {
        MemStore { sentences: Vec::new(), bundles: Vec::new(), elements: Vec::new(), next_id: 1 }
    }

    /// Creates a new sentence with the given text: new, due at `now`,
    /// neutral ease.  Fails, changing nothing, exactly when the text
    /// is empty or already present.
    pub fn insert_sentence(&mut self, text: &str, now: i64) -> (r: Result<(), StoreError>)
        requires
            old(self)@.wf(),
            old(self)@.next_id < usize::MAX,
        ensures
            final(self)@.wf(),
            match r {
                Ok(()) => text@.len() > 0 && !has_text(old(self)@.sentences, text@)
                    && final(self)@ == (StoreModel {
                        sentences: old(self)@.sentences.push(
                            fresh_sentence(old(self)@.next_id, text@, now as int)),
                        next_id: old(self)@.next_id + 1,
                        ..old(self)@
                    }),
                Err(StoreError::EmptyText) => text@.len() == 0 && final(self)@ == old(self)@,
                Err(StoreError::DuplicateText) => text@.len() > 0
                    && has_text(old(self)@.sentences, text@) && final(self)@ == old(self)@,
                Err(_) => false,
            },
    {
        if text.unicode_len() == 0 {
            return Err(StoreError::EmptyText);
        }
        let owned = text.to_owned();
        match text_index(&self.sentences, &owned) {
            Some(i) => {
                proof {
                    assert(has_text(self@.sentences, text@));
                }
                Err(StoreError::DuplicateText)
            },
            None => {
                let snt = Sentence {
                    id: Some(self.next_id),
                    text: owned,
                    created_at: now,
                    last_answered_at: None,
                    due_at: now,
                    ease: NEUTRAL_EASE,
                    interval_in_mins: None,
                    reps: 0,
                    is_suspended: false,
                };
                let ghost pre = self@;
                let ghost fresh = fresh_sentence(pre.next_id, text@, now as int);
                proof {
                    lemma_views_push(self.sentences@, snt);
                    assert(snt@ == fresh);
                }
                self.sentences.push(snt);
                self.next_id = self.next_id + 1;
                proof {
                    assert(self@.sentences =~= pre.sentences.push(fresh));
                    assert(self@.wf()) by {
                        assert(forall|t: int| 0 <= t < pre.sentences.len()
                            ==> #[trigger] self@.sentences[t] == pre.sentences[t]);
                        assert(self@.sentences[pre.sentences.len() as int] == fresh);
                        assert(fresh.wf());
                    }
                }
                Ok(())
            },
        }
    }

    /// Overwrites the mutable scheduling fields of the sentence with
    /// `s`'s id.  Fails, changing nothing, exactly when no stored
    /// sentence has that id.
    pub fn update_sentence(&mut self, s: &Sentence) -> (r: Result<(), StoreError>)
        requires
            old(self)@.wf(),
            s@.wf(),
        ensures
            final(self)@.wf(),
            match r {
                Ok(()) => s@.id is Some
                    && has_sentence_id(old(self)@.sentences, s@.id->Some_0)
                    && final(self)@ == (StoreModel {
                        sentences: apply_update(old(self)@.sentences, s@),
                        ..old(self)@
                    }),
                Err(e) => e == StoreError::UnknownSentence && final(self)@ == old(self)@
                    && !(s@.id is Some && has_sentence_id(old(self)@.sentences, s@.id->Some_0)),
            },
    {
        let id = match s.id {
            Some(id) => id,
            None => {
                return Err(StoreError::UnknownSentence);
            },
        };
        match find_by_id(&self.sentences, id) {
            None => Err(StoreError::UnknownSentence),
            Some(i) => {
                let ghost pre = self@;
                proof {
                    assert(has_sentence_id(pre.sentences, id as int));
                    lemma_views_remove(self.sentences@, i as int);
                }
                let orig = self.sentences.remove(i);
                let updated = Sentence {
                    id: orig.id,
                    text: orig.text,
                    created_at: orig.created_at,
                    last_answered_at: s.last_answered_at,
                    due_at: s.due_at,
                    ease: s.ease,
                    interval_in_mins: s.interval_in_mins,
                    reps: s.reps,
                    is_suspended: s.is_suspended,
                };
                proof {
                    lemma_views_insert(self.sentences@, i as int, updated);
                }
                self.sentences.insert(i, updated);
                proof {
                    let ii = i as int;
                    assert(forall|t: int| 0 <= t < pre.sentences.len() && t != ii
                        ==> (#[trigger] pre.sentences[t]).id != Some(id as int)) by {
                        assert forall|t: int| 0 <= t < pre.sentences.len() && t != ii
                            implies (#[trigger] pre.sentences[t]).id != Some(id as int) by {
                            if t < ii {
                                assert(pre.sentences[t].id != pre.sentences[ii].id);
                            } else {
                                assert(pre.sentences[ii].id != pre.sentences[t].id);
                            }
                        }
                    }
                    assert(updated@ == with_scheduling_of(pre.sentences[ii], s@));
                    assert(self@.sentences =~= apply_update(pre.sentences, s@));
                    assert(self@.wf()) by {
                        assert(forall|t: int| 0 <= t < self@.sentences.len() ==>
                            (#[trigger] self@.sentences[t]).id == pre.sentences[t].id
                            && self@.sentences[t].text == pre.sentences[t].text
                            && self@.sentences[t].wf());
                    }
                }
                Ok(())
            },
        }
    }

    /// The sentences due at `now`, earliest due time first: a sorted
    /// permutation of the due ones, and nothing that is new or
    /// suspended.
    pub fn get_due_sentences(&self, now: i64) -> (r: Vec<Sentence>)
        ensures
            views_of(r@).to_multiset() == due_filter(self@.sentences, now as int).to_multiset(),
            sorted_by_key(OrderKey::DueAt, views_of(r@)),
            forall|t: int| 0 <= t < r@.len() ==> due_pred(#[trigger] views_of(r@)[t], now as int),
    {
        let mut out: Vec<Sentence> = Vec::new();
        let mut i: usize = 0;
        proof {
            reveal(Seq::filter);
            assert(views_of(out@) =~= due_filter(self@.sentences.take(0), now as int));
        }
        while i < self.sentences.len()
            invariant
                i <= self.sentences@.len(),
                views_of(out@) == due_filter(self@.sentences.take(i as int), now as int),
            decreases self.sentences@.len() - i,
    {
            let s = &self.sentences[i];
            let ghost m = self@.sentences[i as int];
            if s.due_at <= now && s.reps > 0 && !s.is_suspended {
                let c = s.clone();
                proof {
                    lemma_views_push(out@, c);
                }
                out.push(c);
            }
            proof {
                reveal(Seq::filter);
                let whole = self@.sentences;
                assert(whole.take(i as int + 1).drop_last() =~= whole.take(i as int));
                assert(whole.take(i as int + 1).last() == m);
                assert(views_of(out@) =~= due_filter(whole.take(i as int + 1), now as int));
            }
            i = i + 1;
        }
        proof {
            assert(self@.sentences.take(self@.sentences.len() as int) =~= self@.sentences);
        }
        let mut sorted = out;
        sort_sentences(&mut sorted, OrderKey::DueAt);
        proof {
            let filtered = due_filter(self@.sentences, now as int);
            let res = views_of(sorted@);
            assert forall|t: int| 0 <= t < res.len()
                implies due_pred(#[trigger] res[t], now as int) by {
                assert(res.to_multiset().count(res[t]) > 0);
                assert(filtered.contains(res[t]));
                let w = choose|w: int| 0 <= w < filtered.len() && filtered[w] == res[t];
                assert(due_pred(filtered[w], now as int));
            }
        }
        sorted
    }

    /// The new sentences, oldest creation first, capped at `limit`:
    /// the first `limit` entries of a sorted permutation of the new
    /// ones, and nothing reviewed or suspended.
    pub fn get_new_sentences(&self, limit: usize) -> (r: Vec<Sentence>)
        ensures
            r@.len() == vstd::math::min(limit as int, new_filter(self@.sentences).len() as int),
            sorted_by_key(OrderKey::CreatedAt, views_of(r@)),
            forall|t: int| 0 <= t < r@.len() ==> new_pred(#[trigger] views_of(r@)[t]),
            exists|full: Seq<SentenceModel>|
                full.to_multiset() == new_filter(self@.sentences).to_multiset()
                && sorted_by_key(OrderKey::CreatedAt, full)
                && views_of(r@) == full.take(r@.len() as int),
    {
        let mut out: Vec<Sentence> = Vec::new();
        let mut i: usize = 0;
        proof {
            reveal(Seq::filter);
            assert(views_of(out@) =~= new_filter(self@.sentences.take(0)));
        }
        while i < self.sentences.len()
            invariant
                i <= self.sentences@.len(),
                views_of(out@) == new_filter(self@.sentences.take(i as int)),
            decreases self.sentences@.len() - i,
        {
            let s = &self.sentences[i];
            let ghost m = self@.sentences[i as int];
            if s.reps == 0 && !s.is_suspended {
                let c = s.clone();
                proof {
                    lemma_views_push(out@, c);
                }
                out.push(c);
            }
            proof {
                reveal(Seq::filter);
                let whole = self@.sentences;
                assert(whole.take(i as int + 1).drop_last() =~= whole.take(i as int));
                assert(whole.take(i as int + 1).last() == m);
                assert(views_of(out@) =~= new_filter(whole.take(i as int + 1)));
            }
            i = i + 1;
        }
        proof {
            assert(self@.sentences.take(self@.sentences.len() as int) =~= self@.sentences);
        }
        sort_sentences(&mut out, OrderKey::CreatedAt);
        let ghost full = views_of(out@);
        proof {
            assert(full.to_multiset().len() == new_filter(self@.sentences).to_multiset().len());
            assert forall|t: int| 0 <= t < full.len()
                implies new_pred(#[trigger] full[t]) by {
                assert(full.to_multiset().count(full[t]) > 0);
                assert(new_filter(self@.sentences).contains(full[t]));
                let w = choose|w: int| 0 <= w < new_filter(self@.sentences).len()
                    && new_filter(self@.sentences)[w] == full[t];
                assert(new_pred(new_filter(self@.sentences)[w]));
            }
        }
        out.truncate(limit);
        proof {
            if limit as int <= full.len() {
                assert(views_of(out@) =~= full.take(out@.len() as int));
            } else {
                assert(views_of(out@) =~= full);
                assert(views_of(out@) =~= full.take(out@.len() as int));
            }
        }
        out
    }

    /// Every sentence, in the order of the most recent answer, the
    /// never-answered ones first.
    pub fn get_sentences(&self) -> (r: Vec<Sentence>)
        ensures
            views_of(r@).to_multiset() == self@.sentences.to_multiset(),
            sorted_by_key(OrderKey::LastAnsweredAt, views_of(r@)),
    {
        let mut out: Vec<Sentence> = Vec::new();
        let mut i: usize = 0;
        proof {
            assert(views_of(out@) =~= self@.sentences.take(0));
        }
        while i < self.sentences.len()
            invariant
                i <= self.sentences@.len(),
                views_of(out@) == self@.sentences.take(i as int),
            decreases self.sentences@.len() - i,
        {
            let c = self.sentences[i].clone();
            proof {
                lemma_views_push(out@, c);
                assert(views_of(out@).push(c@) =~= self@.sentences.take(i as int + 1));
            }
            out.push(c);
            i = i + 1;
        }
        proof {
            assert(self@.sentences.take(self@.sentences.len() as int) =~= self@.sentences);
        }
        sort_sentences(&mut out, OrderKey::LastAnsweredAt);
        out
    }

    /// Allocates and persists a new, empty, unanswered bundle whose id
    /// is the day of `now` followed by a dash and a five-character
    /// random suffix.  Fails, changing nothing, only when the generated
    /// id collides with an existing bundle, so where no stored bundle
    /// id has the day's prefix and a five-character tail, success is
    /// guaranteed.
    pub fn create_bundle(&mut self, now: i64) -> (r: Result<String, StoreError>)
        requires
            old(self)@.wf(),
            0 <= now <= MAX_NOW_MINS,
        ensures
            final(self)@.wf(),
            match r {
                Ok(id) => !has_bundle_id(old(self)@.bundles, id@)
                    && (exists|sfx: Seq<char>| sfx.len() == 5
                        && id@ == date_str_of(now as int) + seq!['-'] + sfx)
                    && final(self)@ == (StoreModel {
                        bundles: old(self)@.bundles.push(BundleModel {
                            id: id@,
                            created_at: now as int,
                            has_been_answered: false,
                        }),
                        ..old(self)@
                    }),
                Err(e) => e == StoreError::DuplicateBundle && final(self)@ == old(self)@
                    && (exists|sfx: Seq<char>| sfx.len() == 5
                        && has_bundle_id(
                            old(self)@.bundles,
                            date_str_of(now as int) + seq!['-'] + sfx,
                        )),
            },
    {
        let mut id = date_prefix(now);
        id.append("-");
        let sfx = random_suffix();
        id.append(sfx.as_str());
        proof {
            reveal_strlit("-");
            assert("-"@ =~= seq!['-']);
            assert(id@ == date_str_of(now as int) + seq!['-'] + sfx@);
        }
        match bundle_index(&self.bundles, &id) {
            Some(_) => {
                proof {
                    assert(has_bundle_id(
                        old(self)@.bundles,
                        date_str_of(now as int) + seq!['-'] + sfx@,
                    ));
                }
                Err(StoreError::DuplicateBundle)
            },
            None => {
                let ghost pre = self@;
                let ghost bm = BundleModel { id: id@, created_at: now as int, has_been_answered: false };
                let stored = id.clone();
                proof {
                    assert(stored@ == id@);
                }
                self.bundles.push(Bundle { id: stored, created_at: now, has_been_answered: false });
                proof {
                    assert(self@.bundles =~= pre.bundles.push(bm));
                    assert(self@.wf()) by {
                        assert(forall|t: int| 0 <= t < pre.bundles.len()
                            ==> #[trigger] self@.bundles[t] == pre.bundles[t]);
                        assert(forall|t: int| 0 <= t < pre.bundles.len()
                            ==> (#[trigger] pre.bundles[t]).id != id@);
                    }
                }
                Ok(id)
            },
        }
    }

    /// Records that a sentence belongs to a bundle.  Fails, changing
    /// nothing, exactly when the bundle id or the sentence id is
    /// unknown.
    pub fn add_sentence_to_bundle(&mut self, bundle_id: &String, sentence: &Sentence) -> (r:
        Result<(), StoreError>)
        requires
            old(self)@.wf(),
        ensures
            final(self)@.wf(),
            match r {
                Ok(()) => has_bundle_id(old(self)@.bundles, bundle_id@)
                    && sentence@.id is Some
                    && has_sentence_id(old(self)@.sentences, sentence@.id->Some_0)
                    && final(self)@ == (StoreModel {
                        elements: old(self)@.elements.push(ElementModel {
                            bundle_id: bundle_id@,
                            sentence_id: sentence@.id->Some_0,
                        }),
                        ..old(self)@
                    }),
                Err(StoreError::UnknownBundle) => !has_bundle_id(old(self)@.bundles, bundle_id@)
                    && final(self)@ == old(self)@,
                Err(StoreError::UnknownSentence) => has_bundle_id(old(self)@.bundles, bundle_id@)
                    && !(sentence@.id is Some
                        && has_sentence_id(old(self)@.sentences, sentence@.id->Some_0))
                    && final(self)@ == old(self)@,
                Err(_) => false,
            },
    {
        let known_bundle = match bundle_index(&self.bundles, bundle_id) {
            Some(_) => true,
            None => false,
        };
        if !known_bundle {
            return Err(StoreError::UnknownBundle);
        }
        let id = match sentence.id {
            Some(id) => id,
            None => {
                return Err(StoreError::UnknownSentence);
            },
        };
        match find_by_id(&self.sentences, id) {
            None => Err(StoreError::UnknownSentence),
            Some(_) => {
                let ghost pre = self@;
                let ghost em = ElementModel { bundle_id: bundle_id@, sentence_id: id as int };
                self.elements.push(BundleElement { bundle_id: bundle_id.clone(), sentence_id: id });
                proof {
                    assert(has_sentence_id(pre.sentences, id as int));
                    assert(self@.elements =~= pre.elements.push(em));
                }
                Ok(())
            },
        }
    }
}

} // verus!
