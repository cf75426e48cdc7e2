//! The bundle workflows: generation (select candidates, act on the
//! user's decisions, persist the accepted set) and answering (apply
//! the scheduler to every member under one atomic transaction), plus
//! line ingestion for adding sentences.
//!
//! The interactive loops live outside the library; these functions
//! take the already-collected decisions and scores as values and are
//! verified for every possible value of them.

use vstd::prelude::*;
use crate::score::Score;
use crate::sentence::{
    scheduled, Sentence, SentenceModel, MAX_NOW_MINS, MAX_PREV_INTERVAL_MINS,
};
use crate::store::{
    due_filter, fresh_sentence, has_bundle_id, has_sentence_id, has_text, new_filter, sorted_by_key, views_of,
    BundleModel, ElementModel, MemStore, OrderKey, StoreError, StoreModel, apply_update,
};
use crate::store::lemma_views_push;
use crate::transaction::{apply_updates, mark_one, members_of};

verus! {

broadcast use
    vstd::seq_lib::group_to_multiset_ensures,
    vstd::seq_lib::group_filter_ensures,
;

/// What the user decided about one candidate sentence during bundle
/// generation.
#[derive(Clone, Copy, Debug, PartialEq, Eq, Structural)]
pub enum BundleDecision {
    /// Put the sentence into the bundle.
    Add,
    /// Leave the sentence alone.
    Skip,
    /// Suspend the sentence and persist that immediately.
    Suspend,
}

/// Reads a generation decision from the letter the user typed: `a`
/// adds, `s` skips, `p` suspends; anything else is unrecognized and is
/// treated by the caller as a skip, with a diagnostic.
pub fn parse_decision(input: &str) -> (r: Option<BundleDecision>)
    ensures
        r == Some(BundleDecision::Add) <==> input@ == seq!['a'],
        r == Some(BundleDecision::Skip) <==> input@ == seq!['s'],
        r == Some(BundleDecision::Suspend) <==> input@ == seq!['p'],
        r is None <==> input@ != seq!['a'] && input@ != seq!['s'] && input@ != seq!['p'],
{
    if input.unicode_len() == 1 {
        let c = input.get_char(0);
        proof {
            assert(input@ =~= seq![input@[0]]);
        }
        if c == 'a' {
            Some(BundleDecision::Add)
        } else if c == 's' {
            Some(BundleDecision::Skip)
        } else if c == 'p' {
            Some(BundleDecision::Suspend)
        } else {
            None
        }
    } else {
        None
    }
}

/// The machine limits the scheduler asks of a stored sentence: its
/// interval leaves room for one more multiplication, and its review
/// count for one more increment.
pub open spec fn sched_bounds(m: SentenceModel) -> bool {
    &&& (m.interval_in_mins matches Some(iv) ==> iv <= MAX_PREV_INTERVAL_MINS)
    &&& m.reps < usize::MAX
}

/// The member sentences after each is answered with its score at time
/// `now`.
pub open spec fn scheduled_updates(members: Seq<SentenceModel>, scores: Seq<Score>, now: int) -> Seq<SentenceModel> {
    Seq::new(members.len(), |i: int| scheduled(members[i], scores[i], now))
}

/// The whole store after a bundle is answered: every member's
/// scheduling state is rewritten and the bundle is marked, together.
pub open spec fn answered_store(s: StoreModel, bid: Seq<char>, scores: Seq<Score>, now: int) -> StoreModel {
    StoreModel {
        sentences: apply_updates(
            s.sentences,
            scheduled_updates(members_of(s.sentences, s.elements, bid), scores, now),
        ),
        bundles: mark_one(s.bundles, bid),
        ..s
    }
}

/// Every member of a bundle is one of the store's sentences.
proof fn lemma_members_subset(sentences: Seq<SentenceModel>, elements: Seq<ElementModel>, bid: Seq<char>)
    ensures
        forall|x: SentenceModel| #[trigger] members_of(sentences, elements, bid).contains(x)
            ==> sentences.contains(x),
    decreases sentences.len(),
{
    reveal(Seq::filter);
    if sentences.len() > 0 {
        lemma_members_subset(sentences.drop_last(), elements, bid);
        assert forall|x: SentenceModel| #[trigger] members_of(sentences, elements, bid).contains(x)
            implies sentences.contains(x) by {
            if members_of(sentences.drop_last(), elements, bid).contains(x) {
                let w = choose|w: int| 0 <= w < sentences.drop_last().len()
                    && sentences.drop_last()[w] == x;
                assert(sentences[w] == x);
            } else {
                assert(sentences[sentences.len() - 1] == x);
            }
        }
    }
}

/// Every due listing entry is one of the store's sentences.
proof fn lemma_due_subset(sentences: Seq<SentenceModel>, now: int)
    ensures
        forall|x: SentenceModel| #[trigger] due_filter(sentences, now).contains(x)
            ==> sentences.contains(x),
    decreases sentences.len(),
{
    reveal(Seq::filter);
    if sentences.len() > 0 {
        lemma_due_subset(sentences.drop_last(), now);
        assert forall|x: SentenceModel| #[trigger] due_filter(sentences, now).contains(x)
            implies sentences.contains(x) by {
            if due_filter(sentences.drop_last(), now).contains(x) {
                let w = choose|w: int| 0 <= w < sentences.drop_last().len()
                    && sentences.drop_last()[w] == x;
                assert(sentences[w] == x);
            } else {
                assert(sentences[sentences.len() - 1] == x);
            }
        }
    }
}

/// Every new listing entry is one of the store's sentences.
proof fn lemma_new_subset(sentences: Seq<SentenceModel>)
    ensures
        forall|x: SentenceModel| #[trigger] new_filter(sentences).contains(x)
            ==> sentences.contains(x),
    decreases sentences.len(),
{
    reveal(Seq::filter);
    if sentences.len() > 0 {
        lemma_new_subset(sentences.drop_last());
        assert forall|x: SentenceModel| #[trigger] new_filter(sentences).contains(x)
            implies sentences.contains(x) by {
            if new_filter(sentences.drop_last()).contains(x) {
                let w = choose|w: int| 0 <= w < sentences.drop_last().len()
                    && sentences.drop_last()[w] == x;
                assert(sentences[w] == x);
            } else {
                assert(sentences[sentences.len() - 1] == x);
            }
        }
    }
}

/// Answers a whole bundle atomically: the members are read through a
/// transactional unit, scheduled with their scores, written back, the
/// bundle is marked answered, and everything commits together.  If
/// fewer scores than members were supplied the unit is discarded and
/// the store comes back entirely unchanged.
pub fn answer_bundle(store: MemStore, bundle_id: &String, scores: &Vec<Score>, now: i64) -> (r: (
    MemStore,
    bool,
))
    requires
        store@.wf(),
        0 <= now <= MAX_NOW_MINS,
        forall|t: int| 0 <= t < store@.sentences.len()
            ==> sched_bounds(#[trigger] store@.sentences[t]),
    ensures
        r.0@.wf(),
        r.1 <==> scores@.len() >= members_of(store@.sentences, store@.elements, bundle_id@).len(),
        !r.1 ==> r.0@ == store@,
        r.1 ==> r.0@ == answered_store(store@, bundle_id@, scores@, now as int),
{
    let ghost base = store@;
    let ghost mems = members_of(base.sentences, base.elements, bundle_id@);
    let mut tx = store.start_answer_bundle_transaction();
    let members = tx.get_sentences_in_bundle(bundle_id);
    if scores.len() < members.len() {
        let back = tx.discard();
        return (back, false);
    }
    proof {
        lemma_members_subset(base.sentences, base.elements, bundle_id@);
        assert forall|t: int| 0 <= t < mems.len()
            implies base.sentences.contains(#[trigger] mems[t]) by {
            assert(mems.contains(mems[t]));
        }
    }
    let mut i: usize = 0;
    while i < members.len()
        invariant
            i <= members@.len(),
            members@.len() <= scores@.len(),
            views_of(members@) == mems,
            tx@.base == base,
            base.wf(),
            0 <= now <= MAX_NOW_MINS,
            forall|t: int| 0 <= t < base.sentences.len()
                ==> sched_bounds(#[trigger] base.sentences[t]),
            forall|t: int| 0 <= t < mems.len() ==> base.sentences.contains(#[trigger] mems[t]),
            tx@.answered.len() == 0,
            tx@.updates == scheduled_updates(mems, scores@, now as int).take(i as int),
            tx@.wf(),
        decreases members@.len() - i,
    {
        let ghost m = mems[i as int];
        proof {
            assert(base.sentences.contains(m));
            let w = choose|w: int| 0 <= w < base.sentences.len() && base.sentences[w] == m;
            assert(base.sentences[w].wf());
            assert(sched_bounds(base.sentences[w]));
            assert(base.sentences[w].id is Some);
            assert(has_sentence_id(base.sentences, m.id->Some_0));
        }
        let mut s = members[i].clone();
        let sc = scores[i];
        s.schedule(sc, now);
        proof {
            assert(s@ == scheduled(m, sc, now as int));
        }
        let res = tx.update_sentence(&s);
        proof {
            assert(s@.id == m.id);
        }
        match res {
            Ok(()) => {},
            Err(_) => {
                proof {
                    assert(false);
                }
            },
        }
        proof {
            assert(tx@.updates =~= scheduled_updates(mems, scores@, now as int).take(i as int + 1));
        }
        i = i + 1;
    }
    proof {
        assert(scheduled_updates(mems, scores@, now as int).take(mems.len() as int)
            =~= scheduled_updates(mems, scores@, now as int));
    }
    tx.mark_bundle_as_answered(bundle_id);
    proof {
        assert(tx@.answered =~= seq![bundle_id@]);
    }
    let committed = tx.commit();
    proof {
        assert(crate::transaction::mark_fold(base.bundles, seq![bundle_id@])
            == mark_one(base.bundles, bundle_id@)) by {
            let ids = seq![bundle_id@];
            assert(ids.len() == 1);
            assert(ids[0] == bundle_id@);
            assert(ids.drop_first() =~= Seq::<Seq<char>>::empty());
            assert(crate::transaction::mark_fold(base.bundles, ids)
                == crate::transaction::mark_fold(mark_one(base.bundles, bundle_id@), ids.drop_first()));
            assert(crate::transaction::mark_fold(mark_one(base.bundles, bundle_id@), ids.drop_first())
                == mark_one(base.bundles, bundle_id@));
        }
        assert(committed@ == answered_store(base, bundle_id@, scores@, now as int));
    }
    (committed, true)
}

/// The decision for candidate `i`; a candidate beyond the collected
/// decisions counts as undecided, which is treated as a skip.
pub open spec fn decision_at(ds: Seq<Option<BundleDecision>>, i: int) -> Option<BundleDecision> {
    if 0 <= i < ds.len() {
        ds[i]
    } else {
        None
    }
}

/// The effect of one generation decision on the store: an add records
/// the membership, a suspend persists the suspended sentence, and
/// anything else changes nothing.
pub open spec fn gen_step(
    s: StoreModel,
    bid: Seq<char>,
    c: SentenceModel,
    d: Option<BundleDecision>,
) -> StoreModel {
    match d {
        Some(BundleDecision::Add) => StoreModel {
            elements: s.elements.push(ElementModel { bundle_id: bid, sentence_id: c.id->Some_0 }),
            ..s
        },
        Some(BundleDecision::Suspend) => StoreModel {
            sentences: apply_update(s.sentences, (SentenceModel { is_suspended: true, ..c })),
            ..s
        },
        _ => s,
    }
}

/// The store after the decisions from candidate `i` on are applied,
/// one at a time, in candidate order.
pub open spec fn gen_fold(
    s: StoreModel,
    bid: Seq<char>,
    cs: Seq<SentenceModel>,
    ds: Seq<Option<BundleDecision>>,
    i: int,
) -> StoreModel
    decreases cs.len() - i,
{
    if i < 0 || i >= cs.len() {
        s
    } else {
        gen_fold(gen_step(s, bid, cs[i], decision_at(ds, i)), bid, cs, ds, i + 1)
    }
}

/// The candidates from `i` on whose decision was an add, in order.
pub open spec fn accepted_from(
    cs: Seq<SentenceModel>,
    ds: Seq<Option<BundleDecision>>,
    i: int,
) -> Seq<SentenceModel>
    decreases cs.len() - i,
{
    if i < 0 || i >= cs.len() {
        Seq::empty()
    } else if decision_at(ds, i) == Some(BundleDecision::Add) {
        seq![cs[i]] + accepted_from(cs, ds, i + 1)
    } else {
        accepted_from(cs, ds, i + 1)
    }
}

/// The store with one fresh, unanswered bundle added.
pub open spec fn with_bundle(s: StoreModel, bid: Seq<char>, now: int) -> StoreModel {
    StoreModel {
        bundles: s.bundles.push(BundleModel { id: bid, created_at: now, has_been_answered: false }),
        ..s
    }
}

/// Whether `d` is what a due listing may return: a permutation of the
/// due sentences, earliest due time first.
pub open spec fn is_due_listing(sentences: Seq<SentenceModel>, now: int, d: Seq<SentenceModel>) -> bool {
    d.to_multiset() == due_filter(sentences, now).to_multiset()
        && sorted_by_key(OrderKey::DueAt, d)
}

/// Whether `n` is what a new listing may return: the first `limit`
/// entries of a permutation of the new sentences, oldest creation
/// first.
pub open spec fn is_new_listing(sentences: Seq<SentenceModel>, limit: int, n: Seq<SentenceModel>) -> bool {
    exists|full: Seq<SentenceModel>|
        full.to_multiset() == new_filter(sentences).to_multiset()
        && sorted_by_key(OrderKey::CreatedAt, full)
        && n == full.take(vstd::math::min(limit, full.len() as int))
}

/// Whether `cands` is a candidate order generation may present: the
/// due listing, then the new listing capped at ten.
pub open spec fn is_candidate_listing(
    sentences: Seq<SentenceModel>,
    now: int,
    limit: int,
    cands: Seq<SentenceModel>,
) -> bool {
    exists|d: Seq<SentenceModel>, n: Seq<SentenceModel>|
        #[trigger] is_due_listing(sentences, now, d) && #[trigger] is_new_listing(sentences, limit, n)
        && cands == d + n.take(vstd::math::min(10, n.len() as int))
}

/// Generates a bundle: a fresh bundle is created, the due sentences
/// and then at most ten new ones are presented in order, and each
/// decision takes effect immediately — an added sentence's membership
/// and a suspension are persisted one at a time, outside any
/// transaction.  Returns the bundle id and the accepted sentences; it
/// fails only when the freshly generated bundle id collides with an
/// existing one.
pub fn generate_bundle(
    store: &mut MemStore,
    now: i64,
    new_limit: usize,
    decisions: &Vec<Option<BundleDecision>>,
) -> (r: Result<(String, Vec<Sentence>), StoreError>)
    requires
        old(store)@.wf(),
        0 <= now <= MAX_NOW_MINS,
    ensures
        final(store)@.wf(),
        match r {
            Ok(out) => !has_bundle_id(old(store)@.bundles, out.0@)
                && (exists|cands: Seq<SentenceModel>|
                    #[trigger] is_candidate_listing(
                        old(store)@.sentences, now as int, new_limit as int, cands)
                    && final(store)@ == gen_fold(
                        with_bundle(old(store)@, out.0@, now as int), out.0@, cands, decisions@, 0)
                    && views_of(out.1@) == accepted_from(cands, decisions@, 0)),
            Err(e) => e == StoreError::DuplicateBundle && final(store)@ == old(store)@
                && (exists|sfx: Seq<char>| sfx.len() == 5
                    && has_bundle_id(
                        old(store)@.bundles,
                        crate::store::date_str_of(now as int) + seq!['-'] + sfx,
                    )),
        },
{
    let ghost start = old(store)@;
    let bid = match store.create_bundle(now) {
        Ok(b) => b,
        Err(e) => {
            return Err(e);
        },
    };
    let ghost s0 = store@;
    proof {
        assert(s0 == with_bundle(start, bid@, now as int));
        assert(has_bundle_id(s0.bundles, bid@)) by {
            assert(s0.bundles[s0.bundles.len() - 1].id == bid@);
        }
    }
    let due = store.get_due_sentences(now);
    let new_items = store.get_new_sentences(new_limit);
    let ghost dv = views_of(due@);
    let ghost nv = views_of(new_items@);
    let mut cands = due;
    let mut t: usize = 0;
    proof {
        assert(dv + nv.take(0) =~= dv);
    }
    while t < new_items.len() && t < 10
        invariant
            t <= new_items@.len(),
            t <= 10,
            views_of(new_items@) == nv,
            views_of(cands@) == dv + nv.take(t as int),
        decreases new_items@.len() - t,
    {
        let c = new_items[t].clone();
        proof {
            lemma_views_push(cands@, c);
            assert((dv + nv.take(t as int)).push(nv[t as int]) =~= dv + nv.take(t as int + 1));
        }
        cands.push(c);
        t = t + 1;
    }
    let ghost cv = views_of(cands@);
    proof {
        assert(nv.take(t as int) =~= nv.take(vstd::math::min(10, nv.len() as int)));
        assert(cv == dv + nv.take(vstd::math::min(10, nv.len() as int)));
        assert(s0.sentences == start.sentences);
        lemma_due_subset(start.sentences, now as int);
        lemma_new_subset(start.sentences);
        let full = choose|full: Seq<SentenceModel>|
            full.to_multiset() == new_filter(s0.sentences).to_multiset()
            && sorted_by_key(OrderKey::CreatedAt, full)
            && views_of(new_items@) == full.take(new_items@.len() as int);
        assert(nv == full.take(nv.len() as int));
        assert(full.to_multiset().len() == full.len());
        assert(new_filter(s0.sentences).to_multiset().len() == new_filter(s0.sentences).len());
        assert(full.len() == new_filter(s0.sentences).len());
        assert(nv.len() <= full.len());
        assert forall|q: int| 0 <= q < cv.len()
            implies start.sentences.contains(#[trigger] cv[q]) by {
            if q < dv.len() {
                assert(cv[q] == dv[q]);
                assert(dv.contains(dv[q]));
                assert(dv.to_multiset().count(dv[q]) > 0);
                assert(due_filter(start.sentences, now as int).contains(dv[q]));
            } else {
                let u = q - dv.len();
                assert(0 <= u < vstd::math::min(10, nv.len() as int));
                assert(u < nv.len());
                assert(cv[q] == nv.take(vstd::math::min(10, nv.len() as int))[u]);
                assert(cv[q] == nv[u]);
                assert(nv[u] == full[u]);
                assert(full.contains(full[u]));
                assert(full.to_multiset().count(full[u]) > 0);
                assert(new_filter(start.sentences).contains(full[u]));
            }
        }
    }
    let mut acc: Vec<Sentence> = Vec::new();
    let mut i: usize = 0;
    proof {
        assert(views_of(acc@) =~= Seq::<SentenceModel>::empty());
        assert(views_of(acc@) + accepted_from(cv, decisions@, 0)
            =~= accepted_from(cv, decisions@, 0));
    }
    while i < cands.len()
        invariant
            i <= cands@.len(),
            views_of(cands@) == cv,
            store@.wf(),
            start.wf(),
            has_bundle_id(store@.bundles, bid@),
            store@.sentences.len() == start.sentences.len(),
            forall|q: int| 0 <= q < start.sentences.len()
                ==> (#[trigger] store@.sentences[q]).id == start.sentences[q].id,
            forall|q: int| 0 <= q < cv.len() ==> start.sentences.contains(#[trigger] cv[q]),
            gen_fold(store@, bid@, cv, decisions@, i as int)
                == gen_fold(s0, bid@, cv, decisions@, 0),
            views_of(acc@) + accepted_from(cv, decisions@, i as int)
                == accepted_from(cv, decisions@, 0),
        decreases cands@.len() - i,
    {
        let ghost c = cv[i as int];
        let ghost pre = store@;
        proof {
            assert(start.sentences.contains(c));
            let w = choose|w: int| 0 <= w < start.sentences.len() && start.sentences[w] == c;
            assert(start.sentences[w].wf());
            assert(c.wf());
            assert(c.id is Some);
            assert(store@.sentences[w].id == Some(c.id->Some_0));
            assert(has_sentence_id(store@.sentences, c.id->Some_0));
        }
        let d = if i < decisions.len() {
            decisions[i]
        } else {
            None
        };
        proof {
            assert(d == decision_at(decisions@, i as int));
        }
        match d {
            Some(BundleDecision::Add) => {
                let cand = cands[i].clone();
                let res = store.add_sentence_to_bundle(&bid, &cand);
                match res {
                    Ok(()) => {},
                    Err(_) => {
                        proof {
                            assert(false);
                        }
                    },
                }
                let ghost accv = views_of(acc@);
                let ghost rest = accepted_from(cv, decisions@, i as int + 1);
                proof {
                    lemma_views_push(acc@, cand);
                }
                acc.push(cand);
                proof {
                    assert(store@ == gen_step(pre, bid@, c, d));
                    assert(views_of(acc@) =~= accv.push(c));
                    assert(accv.push(c) + rest =~= accv + (seq![c] + rest));
                    assert(accepted_from(cv, decisions@, i as int) == seq![c] + rest);
                }
            },
            Some(BundleDecision::Suspend) => {
                let mut cand = cands[i].clone();
                cand.suspend();
                proof {
                    assert(cand@ == (SentenceModel { is_suspended: true, ..c }));
                    assert(cand@.wf());
                }
                let res = store.update_sentence(&cand);
                match res {
                    Ok(()) => {},
                    Err(_) => {
                        proof {
                            assert(false);
                        }
                    },
                }
                proof {
                    assert(store@ == gen_step(pre, bid@, c, d));
                    assert(forall|q: int| 0 <= q < start.sentences.len()
                        ==> (#[trigger] store@.sentences[q]).id == pre.sentences[q].id);
                }
            },
            _ => {
                proof {
                    assert(gen_step(pre, bid@, c, d) == pre);
                }
            },
        }
        proof {
            assert(gen_fold(pre, bid@, cv, decisions@, i as int)
                == gen_fold(gen_step(pre, bid@, c, d), bid@, cv, decisions@, i as int + 1));
            assert(gen_step(pre, bid@, c, d) == store@);
        }
        i = i + 1;
    }
    proof {
        assert(gen_fold(store@, bid@, cv, decisions@, cv.len() as int) == store@);
        assert(accepted_from(cv, decisions@, cv.len() as int) =~= Seq::<SentenceModel>::empty());
        assert(views_of(acc@) + Seq::<SentenceModel>::empty() =~= views_of(acc@));
        assert(is_due_listing(start.sentences, now as int, dv));
        assert(is_new_listing(start.sentences, new_limit as int, nv)) by {
            let full = choose|full: Seq<SentenceModel>|
                full.to_multiset() == new_filter(s0.sentences).to_multiset()
                && sorted_by_key(OrderKey::CreatedAt, full)
                && views_of(new_items@) == full.take(new_items@.len() as int);
            assert(full.to_multiset().len() == full.len());
            assert(new_filter(s0.sentences).to_multiset().len()
                == new_filter(s0.sentences).len());
            assert(full.len() == new_filter(start.sentences).len());
            assert(nv == full.take(vstd::math::min(new_limit as int, full.len() as int)));
        }
        assert(is_candidate_listing(start.sentences, now as int, new_limit as int, cv));
    }
    Ok((bid, acc))
}

/// The sentence values carried by a vector of lines.
pub open spec fn line_views(v: Seq<String>) -> Seq<Seq<char>> {
    v.map_values(|s: String| s@)
}

/// Names the result of `str::trim`: the line with its surrounding
/// whitespace removed.
pub uninterp spec fn trimmed_of(s: Seq<char>) -> Seq<char>;

/// Relies on `str::trim`: the trimmed text is a function of the text
/// alone.
#[verifier::external_body]
fn trim_str(s: &str) -> (r: String)
    ensures
        r@ == trimmed_of(s@),
{
    s.trim().to_owned()
}

/// The outcome of ingesting a list of raw lines, one at a time.
pub struct IngestOutcome {
    /// The sentences after ingestion stopped.
    pub sentences: Seq<SentenceModel>,
    /// The id counter after ingestion stopped.
    pub next_id: int,
    /// How many sentences were inserted.
    pub added: int,
    /// How many blank lines were skipped.
    pub skipped: int,
    /// The error that stopped ingestion, if one did.
    pub err: Option<StoreError>,
}

/// Ingestion from line `i` on: each line is trimmed; a blank line is
/// skipped and counted; any other line is inserted as a fresh
/// sentence, unless its text is already present, which stops the whole
/// run with the lines before it kept.
pub open spec fn ingest_fold(
    sentences: Seq<SentenceModel>,
    next_id: int,
    lines: Seq<Seq<char>>,
    now: int,
    i: int,
    added: int,
    skipped: int,
) -> IngestOutcome
    decreases lines.len() - i,
{
    if i < 0 || i >= lines.len() {
        IngestOutcome { sentences, next_id, added, skipped, err: None }
    } else {
        let t = trimmed_of(lines[i]);
        if t.len() == 0 {
            ingest_fold(sentences, next_id, lines, now, i + 1, added, skipped + 1)
        } else if has_text(sentences, t) {
            IngestOutcome {
                sentences,
                next_id,
                added,
                skipped,
                err: Some(StoreError::DuplicateText),
            }
        } else {
            ingest_fold(
                sentences.push(fresh_sentence(next_id, t, now)),
                next_id + 1,
                lines,
                now,
                i + 1,
                added + 1,
                skipped,
            )
        }
    }
}

/// Adds a batch of raw lines to the store: each line is trimmed, blank
/// lines are skipped and counted, the rest become fresh sentences.  A
/// duplicate stops the run with the earlier insertions kept, exactly
/// as the one-at-a-time persistence implies.  Returns how many were
/// added and how many skipped.
pub fn add_sentences(store: &mut MemStore, lines: &Vec<String>, now: i64) -> (r: Result<
    (usize, usize),
    StoreError,
>)
    requires
        old(store)@.wf(),
        old(store)@.next_id + lines@.len() < usize::MAX,
    ensures
        final(store)@.wf(),
        ({
            let out = ingest_fold(
                old(store)@.sentences,
                old(store)@.next_id,
                line_views(lines@),
                now as int,
                0,
                0,
                0,
            );
            final(store)@ == (StoreModel {
                sentences: out.sentences,
                next_id: out.next_id,
                ..old(store)@
            }) && match r {
                Ok((a, s)) => out.err is None && a == out.added && s == out.skipped,
                Err(e) => out.err == Some(e),
            }
        }),
{
    let ghost l = line_views(lines@);
    let ghost start = old(store)@;
    let ghost total = ingest_fold(start.sentences, start.next_id, l, now as int, 0, 0, 0);
    let mut added: usize = 0;
    let mut skipped: usize = 0;
    let mut i: usize = 0;
    while i < lines.len()
        invariant
            i <= lines@.len(),
            start == old(store)@,
            l == line_views(lines@),
            total == ingest_fold(start.sentences, start.next_id, l, now as int, 0, 0, 0),
            added + skipped <= i,
            store@.wf(),
            store@.next_id <= start.next_id + i,
            start.next_id + lines@.len() < usize::MAX,
            store@.bundles == start.bundles,
            store@.elements == start.elements,
            ingest_fold(store@.sentences, store@.next_id, l, now as int, i as int,
                added as int, skipped as int) == total,
        decreases lines@.len() - i,
    {
        let trimmed = trim_str(lines[i].as_str());
        if trimmed.unicode_len() == 0 {
            skipped = skipped + 1;
        } else {
            match store.insert_sentence(trimmed.as_str(), now) {
                Ok(()) => {
                    added = added + 1;
                },
                Err(e) => {
                    proof {
                        let t = trimmed_of(l[i as int]);
                        assert(trimmed@ == t);
                        assert(t.len() > 0);
                        assert(e == StoreError::DuplicateText);
                        assert(has_text(store@.sentences, t));
                        assert(ingest_fold(store@.sentences, store@.next_id, l, now as int,
                            i as int, added as int, skipped as int) == (IngestOutcome {
                            sentences: store@.sentences,
                            next_id: store@.next_id,
                            added: added as int,
                            skipped: skipped as int,
                            err: Some(StoreError::DuplicateText),
                        }));
                    }
                    return Err(e);
                },
            }
        }
        i = i + 1;
    }
    Ok((added, skipped))
}

} // verus!


