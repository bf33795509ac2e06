//! Writers that persist cached answers into the store.
//!
//! A write computes the answer key as the fingerprint of the compressed
//! blob, inserts the answer by `INSERT OR IGNORE` (so identical replies
//! collapse into one row) and then maps the question key onto that answer
//! by `INSERT OR REPLACE`, all in one transaction.

use vstd::prelude::*;
use crate::fingerprint::{answer_key, answer_key_of};
use crate::store::{
    a_contains, a_put_ignore, q_at, q_contains, q_put_replace, AnswerV, QuestionV, Store,
    a_distinct, q_distinct,
};

verus! {

/// What one write does to the two tables.
pub open spec fn spec_write_single(
    answers: Seq<AnswerV>,
    questions: Seq<QuestionV>,
    question_key: Seq<char>,
    compressed: Seq<u8>,
    version: u8,
    now: i64,
) -> (Seq<AnswerV>, Seq<QuestionV>) {
    let ak = answer_key_of(compressed);
    (
        a_put_ignore(
            answers,
            AnswerV {
                key: ak,
                response: compressed,
                size: compressed.len() as u64,
                hit_count: 0,
                version: version,
                created_at: now,
            },
        ),
        q_put_replace(questions, QuestionV { key: question_key, answer_key: ak, created_at: now }),
    )
}

/// A batch of writes folded over the items, first item first.
pub open spec fn spec_batch_write(
    answers: Seq<AnswerV>,
    questions: Seq<QuestionV>,
    items: Seq<(Seq<char>, Seq<u8>)>,
    version: u8,
    now: i64,
) -> (Seq<AnswerV>, Seq<QuestionV>)
    decreases items.len(),
{
    if items.len() == 0 {
        (answers, questions)
    } else {
        let first = spec_write_single(answers, questions, items[0].0, items[0].1, version, now);
        spec_batch_write(first.0, first.1, items.drop_first(), version, now)
    }
}

/// Persists answers under a fixed cache version.
pub struct DbWriter {
    pub cache_version: u8,
}

impl DbWriter {
    pub fn new(cache_version: u8) -> (r: Self)
        ensures
            r.cache_version == cache_version,
    {
        DbWriter { cache_version }
    }

    /// Writes one question/answer pair. In this model of the store the
    /// transaction always commits, so the result is always `true`.
    pub fn write_single(
        &self,
        store: &mut Store,
        question_key: String,
        compressed: Vec<u8>,
        now: i64,
    ) -> (r: bool)
        requires
            old(store).wf(),
        ensures
            final(store).wf(),
            (final(store).answers_v(), final(store).questions_v()) == spec_write_single(
                old(store).answers_v(),
                old(store).questions_v(),
                question_key@,
                compressed@,
                self.cache_version,
                now,
            ),
            final(store).legacy_cache == old(store).legacy_cache,
            final(store).backup == old(store).backup,
            r == true,
    {
        let ak = answer_key(&compressed);
        let ak_for_question = crate::memory_cache::clone_string(&ak);
        store.upsert_answer(ak, compressed, self.cache_version, now);
        store.upsert_question(question_key, ak_for_question, now);
        true
    }

    /// Writes a batch of pairs in one transaction; in this model every row
    /// succeeds, so the result is `(items.len(), 0)`.
    pub fn batch_write(
        &self,
        store: &mut Store,
        items: Vec<(String, Vec<u8>)>,
        now: i64,
    ) -> (r: (usize, usize))
        requires
            old(store).wf(),
        ensures
            final(store).wf(),
            (final(store).answers_v(), final(store).questions_v()) == spec_batch_write(
                old(store).answers_v(),
                old(store).questions_v(),
                crate::memory_cache::pairs_view(items@),
                self.cache_version,
                now,
            ),
            final(store).legacy_cache == old(store).legacy_cache,
            final(store).backup == old(store).backup,
            r.0 == items@.len(),
            r.1 == 0,
    {
        broadcast use crate::memory_cache::lemma_pairs_view_index;

        let ghost all_items = crate::memory_cache::pairs_view(items@);
        let ghost orig_answers = store.answers_v();
        let ghost orig_questions = store.questions_v();
        let total = items.len();
        let mut items = items;
        let mut done: usize = 0;
        while items.len() > 0
            invariant
                store.wf(),
                done + items@.len() == total,
                total == all_items.len(),
                crate::memory_cache::pairs_view(items@) =~= all_items.subrange(
                    done as int,
                    total as int,
                ),
                spec_batch_write(
                    orig_answers,
                    orig_questions,
                    all_items,
                    self.cache_version,
                    now,
                ) == spec_batch_write(
                    store.answers_v(),
                    store.questions_v(),
                    crate::memory_cache::pairs_view(items@),
                    self.cache_version,
                    now,
                ),
                store.legacy_cache == old(store).legacy_cache,
                store.backup == old(store).backup,
            decreases items@.len(),
        {
            let ghost remaining = crate::memory_cache::pairs_view(items@);
            let ghost prev = items@;
            let (question_key, compressed) = items.remove(0);
            proof {
                assert(crate::memory_cache::pairs_view(prev)[0]
                    == crate::memory_cache::pair_view(prev[0]));
                assert forall|i: int| 0 <= i < items@.len() implies crate::memory_cache::pairs_view(
                    items@,
                )[i] == remaining[i + 1] by {
                    assert(items@[i] == prev[i + 1]);
                    assert(crate::memory_cache::pairs_view(prev)[i + 1]
                        == crate::memory_cache::pair_view(prev[i + 1]));
                }
                assert(crate::memory_cache::pairs_view(items@) =~= remaining.drop_first());
            }
            self.write_single(store, question_key, compressed, now);
            done += 1;
            proof {
                assert(crate::memory_cache::pairs_view(items@) =~= all_items.subrange(
                    done as int,
                    total as int,
                ));
            }
        }
        proof {
            assert(crate::memory_cache::pairs_view(items@) =~= Seq::<(Seq<char>, Seq<u8>)>::empty());
        }
        (done, 0)
    }
}

/// A write preserves referential integrity: the answer row is upserted
/// before the question row that references it, and the answer table only
/// grows.
pub proof fn lemma_write_single_preserves_integrity(
    answers: Seq<AnswerV>,
    questions: Seq<QuestionV>,
    question_key: Seq<char>,
    compressed: Seq<u8>,
    version: u8,
    now: i64,
)
    requires
        crate::store::ref_integrity(answers, questions),
    ensures
        ({
            let r = spec_write_single(answers, questions, question_key, compressed, version, now);
            crate::store::ref_integrity(r.0, r.1)
        }),
{
    let ak = answer_key_of(compressed);
    let r = spec_write_single(answers, questions, question_key, compressed, version, now);
    assert(a_contains(r.0, ak)) by {
        if !a_contains(answers, ak) {
            assert(r.0[r.0.len() - 1].key == ak);
        }
    }
    assert forall|i: int| 0 <= i < answers.len() implies r.0[i] == answers[i] by {}
    assert forall|i: int| 0 <= i < r.1.len() implies a_contains(
        r.0,
        #[trigger] r.1[i].answer_key,
    ) by {
        if r.1[i].answer_key != ak {
            if q_contains(questions, question_key) {
                assert(r.1[i] == questions[i]);
            } else {
                assert(i < questions.len());
                assert(r.1[i] == questions[i]);
            }
            let w = choose|w: int|
                0 <= w < answers.len() && #[trigger] answers[w].key == questions[i].answer_key;
            assert(r.0[w].key == r.1[i].answer_key);
        }
    }
}

/// Answer dedup: two writes for distinct question keys whose compressed
/// replies are identical leave exactly one answer row for that content (the
/// second write adds no answer row) and two question rows that both
/// reference it.
pub proof fn lemma_answer_dedup(
    answers: Seq<AnswerV>,
    questions: Seq<QuestionV>,
    qk1: Seq<char>,
    qk2: Seq<char>,
    compressed: Seq<u8>,
    version: u8,
    now1: i64,
    now2: i64,
)
    requires
        a_distinct(answers),
        q_distinct(questions),
        qk1 != qk2,
    ensures
        ({
            let ak = answer_key_of(compressed);
            let first = spec_write_single(answers, questions, qk1, compressed, version, now1);
            let second = spec_write_single(first.0, first.1, qk2, compressed, version, now2);
            &&& second.0 == first.0
            &&& a_contains(second.0, ak)
            &&& !a_contains(answers, ak) ==> second.0.len() == answers.len() + 1
            &&& q_contains(second.1, qk1) && q_at(second.1, qk1).answer_key == ak
            &&& q_contains(second.1, qk2) && q_at(second.1, qk2).answer_key == ak
        }),
{
    let ak = answer_key_of(compressed);
    let first = spec_write_single(answers, questions, qk1, compressed, version, now1);
    let second = spec_write_single(first.0, first.1, qk2, compressed, version, now2);
    assert(a_contains(first.0, ak)) by {
        if !a_contains(answers, ak) {
            assert(first.0[first.0.len() - 1].key == ak);
        }
    }
    assert(second.0 == first.0);

    // The second question write replaces or appends only rows keyed qk2,
    // so the row written for qk1 survives with its answer key.
    let row1 = QuestionV { key: qk1, answer_key: ak, created_at: now1 };
    let q1 = q_put_replace(questions, row1);
    assert(q_contains(q1, qk1) && q_at(q1, qk1) == row1) by {
        if q_contains(questions, qk1) {
            let i = choose|i: int| 0 <= i < questions.len() && #[trigger] questions[i].key == qk1;
            assert(q1[i] == row1);
            let w = choose|w: int| 0 <= w < q1.len() && #[trigger] q1[w].key == qk1;
            assert(questions[w].key == qk1 || q1[w] == row1);
            if q1[w] != row1 {
                assert(questions[w].key == qk1);
                assert(w == i);
            }
        } else {
            assert(q1[q1.len() - 1] == row1);
            let w = choose|w: int| 0 <= w < q1.len() && #[trigger] q1[w].key == qk1;
            if w < q1.len() - 1 {
                assert(questions[w].key == qk1);
                assert(q_contains(questions, qk1));
            }
        }
    }
    let row2 = QuestionV { key: qk2, answer_key: ak, created_at: now2 };
    let q2 = q_put_replace(q1, row2);
    assert(second.1 == q2);
    assert(q_contains(q2, qk1) && q_at(q2, qk1) == row1) by {
        let i = choose|i: int| 0 <= i < q1.len() && #[trigger] q1[i].key == qk1;
        assert(q1[i] == row1);
        if q_contains(q1, qk2) {
            assert(q2[i] == row1);
            let w = choose|w: int| 0 <= w < q2.len() && #[trigger] q2[w].key == qk1;
            assert(q2[w] == q1[w] || q2[w] == row2);
            assert(q1[w].key == qk1 || q2[w] == row2);
            assert(q2[w] == row1 || q2[w] == row2);
        } else {
            assert(q2[i] == row1);
            let w = choose|w: int| 0 <= w < q2.len() && #[trigger] q2[w].key == qk1;
            if w < q2.len() - 1 {
                assert(q2[w] == q1[w]);
                assert(q1[w] == row1 || q1[w].key != qk1);
            } else {
                assert(q2[w] == row2);
            }
        }
    }
    assert(q_contains(q2, qk2) && q_at(q2, qk2) == row2) by {
        if q_contains(q1, qk2) {
            let i = choose|i: int| 0 <= i < q1.len() && #[trigger] q1[i].key == qk2;
            assert(q2[i] == row2);
            let w = choose|w: int| 0 <= w < q2.len() && #[trigger] q2[w].key == qk2;
            assert(q2[w] == q1[w] || q2[w] == row2);
            if q2[w] != row2 {
                assert(q1[w].key == qk2);
                assert(q2[w] == row2);
            }
        } else {
            assert(q2[q2.len() - 1] == row2);
            let w = choose|w: int| 0 <= w < q2.len() && #[trigger] q2[w].key == qk2;
            if w < q2.len() - 1 {
                assert(q1[w].key == qk2);
                assert(q_contains(q1, qk2));
            }
        }
    }
}

} // verus!
