//! Model of the persistent question/answer store.
//!
//! Two tables: `answers`, keyed by the content hash of the compressed reply,
//! and `questions`, keyed by the content hash of the user question and
//! referencing an answer row. A legacy single-table layout can be migrated
//! once at startup; maintenance prunes aged, unreferenced, low-hit answers
//! and aged questions.

use vstd::prelude::*;
use crate::memory_cache::str_eq;

verus! {

/// A row of the `answers` table.
pub struct AnswerRow {
    pub key: String,
    pub response: Vec<u8>,
    pub size: u64,
    pub hit_count: u64,
    pub version: u8,
    pub created_at: i64,
}

/// A row of the `questions` table.
pub struct QuestionRow {
    pub key: String,
    pub answer_key: String,
    pub created_at: i64,
}

/// A row of the legacy single-table layout.
pub struct LegacyRow {
    pub key: String,
    pub response: Vec<u8>,
    pub size: u64,
    pub hit_count: u64,
    pub version: u8,
}

pub struct AnswerV {
    pub key: Seq<char>,
    pub response: Seq<u8>,
    pub size: u64,
    pub hit_count: u64,
    pub version: u8,
    pub created_at: i64,
}

pub struct QuestionV {
    pub key: Seq<char>,
    pub answer_key: Seq<char>,
    pub created_at: i64,
}

pub struct LegacyV {
    pub key: Seq<char>,
    pub response: Seq<u8>,
    pub size: u64,
    pub hit_count: u64,
    pub version: u8,
}

impl View for AnswerRow {
    type V = AnswerV;

    open spec fn view(&self) -> AnswerV {
        AnswerV {
            key: self.key@,
            response: self.response@,
            size: self.size,
            hit_count: self.hit_count,
            version: self.version,
            created_at: self.created_at,
        }
    }
}

impl View for QuestionRow {
    type V = QuestionV;

    open spec fn view(&self) -> QuestionV {
        QuestionV { key: self.key@, answer_key: self.answer_key@, created_at: self.created_at }
    }
}

impl View for LegacyRow {
    type V = LegacyV;

    open spec fn view(&self) -> LegacyV {
        LegacyV {
            key: self.key@,
            response: self.response@,
            size: self.size,
            hit_count: self.hit_count,
            version: self.version,
        }
    }
}

pub open spec fn answers_view(s: Seq<AnswerRow>) -> Seq<AnswerV> {
    s.map_values(|r: AnswerRow| r@)
}

pub open spec fn questions_view(s: Seq<QuestionRow>) -> Seq<QuestionV> {
    s.map_values(|r: QuestionRow| r@)
}

pub open spec fn legacy_view(s: Seq<LegacyRow>) -> Seq<LegacyV> {
    s.map_values(|r: LegacyRow| r@)
}

pub broadcast proof fn lemma_answers_view_index(s: Seq<AnswerRow>, i: int)
    requires
        0 <= i < s.len(),
    ensures
        #[trigger] answers_view(s)[i] == s[i]@,
{
}

pub broadcast proof fn lemma_questions_view_index(s: Seq<QuestionRow>, i: int)
    requires
        0 <= i < s.len(),
    ensures
        #[trigger] questions_view(s)[i] == s[i]@,
{
}

pub broadcast proof fn lemma_legacy_view_index(s: Seq<LegacyRow>, i: int)
    requires
        0 <= i < s.len(),
    ensures
        #[trigger] legacy_view(s)[i] == s[i]@,
{
}

pub open spec fn a_contains(s: Seq<AnswerV>, k: Seq<char>) -> bool {
    exists|i: int| 0 <= i < s.len() && #[trigger] s[i].key == k
}

pub open spec fn a_at(s: Seq<AnswerV>, k: Seq<char>) -> AnswerV {
    s[choose|i: int| 0 <= i < s.len() && #[trigger] s[i].key == k]
}

pub open spec fn q_contains(s: Seq<QuestionV>, k: Seq<char>) -> bool {
    exists|i: int| 0 <= i < s.len() && #[trigger] s[i].key == k
}

pub open spec fn q_at(s: Seq<QuestionV>, k: Seq<char>) -> QuestionV {
    s[choose|i: int| 0 <= i < s.len() && #[trigger] s[i].key == k]
}

pub open spec fn a_distinct(s: Seq<AnswerV>) -> bool {
    forall|i: int, j: int| 0 <= i < j < s.len() ==> #[trigger] s[i].key != #[trigger] s[j].key
}

pub open spec fn q_distinct(s: Seq<QuestionV>) -> bool {
    forall|i: int, j: int| 0 <= i < j < s.len() ==> #[trigger] s[i].key != #[trigger] s[j].key
}

/// `INSERT OR IGNORE` into `answers`: a present key leaves the table
/// unchanged.
pub open spec fn a_put_ignore(s: Seq<AnswerV>, row: AnswerV) -> Seq<AnswerV> {
    if a_contains(s, row.key) {
        s
    } else {
        s.push(row)
    }
}

/// `INSERT OR REPLACE` into `questions`: a present key has its whole row
/// replaced, else the row is appended.
pub open spec fn q_put_replace(s: Seq<QuestionV>, row: QuestionV) -> Seq<QuestionV> {
    if q_contains(s, row.key) {
        Seq::new(s.len(), |i: int| if s[i].key == row.key { row } else { s[i] })
    } else {
        s.push(row)
    }
}

/// `INSERT OR IGNORE` into `questions`.
pub open spec fn q_put_ignore(s: Seq<QuestionV>, row: QuestionV) -> Seq<QuestionV> {
    if q_contains(s, row.key) {
        s
    } else {
        s.push(row)
    }
}

/// Whether some question row references the answer key `k`.
pub open spec fn a_referenced(qs: Seq<QuestionV>, k: Seq<char>) -> bool {
    exists|i: int| 0 <= i < qs.len() && #[trigger] qs[i].answer_key == k
}

/// Whether maintenance keeps an answer row: it survives unless it is
/// unreferenced, below the hit floor, and older than the cutoff.
pub open spec fn a_kept(row: AnswerV, qs: Seq<QuestionV>, min_hit_count: u64, cutoff: i64) -> bool {
    a_referenced(qs, row.key) || row.hit_count >= min_hit_count || row.created_at >= cutoff
}

/// The answer rows maintenance keeps, in order.
pub open spec fn prune_answers(
    s: Seq<AnswerV>,
    qs: Seq<QuestionV>,
    min_hit_count: u64,
    cutoff: i64,
) -> Seq<AnswerV>
    decreases s.len(),
{
    if s.len() == 0 {
        Seq::empty()
    } else {
        prune_answers(s.drop_last(), qs, min_hit_count, cutoff) + if a_kept(
            s.last(),
            qs,
            min_hit_count,
            cutoff,
        ) {
            seq![s.last()]
        } else {
            Seq::empty()
        }
    }
}

/// The question rows maintenance keeps: those at least as new as the cutoff.
pub open spec fn prune_questions(s: Seq<QuestionV>, cutoff: i64) -> Seq<QuestionV>
    decreases s.len(),
{
    if s.len() == 0 {
        Seq::empty()
    } else {
        prune_questions(s.drop_last(), cutoff) + if s.last().created_at >= cutoff {
            seq![s.last()]
        } else {
            Seq::empty()
        }
    }
}

/// What migrating one legacy row does to the `answers` table.
pub open spec fn migrate_answer(s: Seq<AnswerV>, row: LegacyV, now: i64) -> Seq<AnswerV> {
    a_put_ignore(
        s,
        AnswerV {
            key: row.key,
            response: row.response,
            size: row.size,
            hit_count: row.hit_count,
            version: row.version,
            created_at: now,
        },
    )
}

/// What migrating one legacy row does to the `questions` table: the
/// question key maps to the identical answer key.
pub open spec fn migrate_question(s: Seq<QuestionV>, row: LegacyV, now: i64) -> Seq<QuestionV> {
    q_put_ignore(s, QuestionV { key: row.key, answer_key: row.key, created_at: now })
}

/// Migration folded over the legacy rows, first row first.
pub open spec fn migrate_all(
    answers: Seq<AnswerV>,
    questions: Seq<QuestionV>,
    rows: Seq<LegacyV>,
    now: i64,
) -> (Seq<AnswerV>, Seq<QuestionV>)
    decreases rows.len(),
{
    if rows.len() == 0 {
        (answers, questions)
    } else {
        migrate_all(
            migrate_answer(answers, rows[0], now),
            migrate_question(questions, rows[0], now),
            rows.drop_first(),
            now,
        )
    }
}

/// Counts of the store, for the maintenance statistics.
pub struct CacheStats {
    pub questions_count: usize,
    pub answers_count: usize,
    pub total_size: u128,
}

/// Sum of the `size` column over the answer rows.
pub open spec fn total_answer_size(s: Seq<AnswerV>) -> int
    decreases s.len(),
{
    if s.len() == 0 {
        0
    } else {
        total_answer_size(s.drop_last()) + s.last().size
    }
}

/// The joined lookup over the two tables: the question row for
/// `question_key`, then the answer row it references; in override mode only
/// an answer whose version is at least `version` counts.
pub open spec fn spec_lookup_tables(
    answers: Seq<AnswerV>,
    questions: Seq<QuestionV>,
    question_key: Seq<char>,
    version: u8,
    override_mode: bool,
) -> Option<(Seq<u8>, Seq<char>)> {
    if q_contains(questions, question_key) {
        let q = q_at(questions, question_key);
        if a_contains(answers, q.answer_key) {
            let a = a_at(answers, q.answer_key);
            if !override_mode || a.version >= version {
                Some((a.response, a.key))
            } else {
                None
            }
        } else {
            None
        }
    } else {
        None
    }
}

/// The two live tables, the legacy table if it is still present, and its
/// post-migration backup.
pub struct Store {
    pub answers: Vec<AnswerRow>,
    pub questions: Vec<QuestionRow>,
    pub legacy_cache: Option<Vec<LegacyRow>>,
    pub backup: Option<Vec<LegacyRow>>,
}

impl Store {
    pub open spec fn answers_v(&self) -> Seq<AnswerV> {
        answers_view(self.answers@)
    }

    pub open spec fn questions_v(&self) -> Seq<QuestionV> {
        questions_view(self.questions@)
    }

    /// Primary keys are unique in both tables.
    pub open spec fn wf(&self) -> bool {
        &&& a_distinct(self.answers_v())
        &&& q_distinct(self.questions_v())
    }

    /// An empty store with no legacy table.
    pub fn new() -> (r: Self)
        ensures
            r.wf(),
            r.answers_v().len() == 0,
            r.questions_v().len() == 0,
            r.legacy_cache is None,
            r.backup is None,
    {
        let r = Store {
            answers: Vec::new(),
            questions: Vec::new(),
            legacy_cache: None,
            backup: None,
        };
        proof {
            assert(r.answers_v() =~= Seq::empty());
            assert(r.questions_v() =~= Seq::empty());
        }
        r
    }

    /// An empty store that still carries a legacy `cache` table.
    pub fn with_legacy(rows: Vec<LegacyRow>) -> (r: Self)
        ensures
            r.wf(),
            r.answers_v().len() == 0,
            r.questions_v().len() == 0,
            r.legacy_cache matches Some(l) && legacy_view(l@) == legacy_view(rows@),
            r.backup is None,
    {
        let r = Store {
            answers: Vec::new(),
            questions: Vec::new(),
            legacy_cache: Some(rows),
            backup: None,
        };
        proof {
            assert(r.answers_v() =~= Seq::empty());
            assert(r.questions_v() =~= Seq::empty());
        }
        r
    }

    /// `INSERT OR IGNORE` of an answer row with the given key and blob;
    /// a fresh row starts with zero hits and is stamped `now`.
    pub fn upsert_answer(&mut self, key: String, response: Vec<u8>, version: u8, now: i64)
        requires
            old(self).wf(),
        ensures
            final(self).wf(),
            final(self).answers_v() == a_put_ignore(
                old(self).answers_v(),
                AnswerV {
                    key: key@,
                    response: response@,
                    size: response@.len() as u64,
                    hit_count: 0,
                    version: version,
                    created_at: now,
                },
            ),
            final(self).questions == old(self).questions,
            final(self).legacy_cache == old(self).legacy_cache,
            final(self).backup == old(self).backup,
    {
        broadcast use lemma_answers_view_index;

        let ghost old_answers = self.answers_v();
        match find_answer(&self.answers, key.as_str()) {
            Some(_) => {
            },
            None => {
                let ghost prev = self.answers@;
                let size = response.len() as u64;
                self.answers.push(
                    AnswerRow { key, response, size, hit_count: 0, version, created_at: now },
                );
                proof {
                    let s = self.answers_v();
                    assert forall|a: int| 0 <= a < s.len() implies s[a] == a_put_ignore(
                        old_answers,
                        AnswerV {
                            key: key@,
                            response: response@,
                            size: response@.len() as u64,
                            hit_count: 0,
                            version: version,
                            created_at: now,
                        },
                    )[a] by {
                        assert(answers_view(self.answers@)[a] == self.answers@[a]@);
                        if a < s.len() - 1 {
                            assert(answers_view(prev)[a] == prev[a]@);
                        }
                    }
                    assert(s =~= a_put_ignore(
                        old_answers,
                        AnswerV {
                            key: key@,
                            response: response@,
                            size: response@.len() as u64,
                            hit_count: 0,
                            version: version,
                            created_at: now,
                        },
                    ));
                    assert forall|a: int, b: int|
                        0 <= a < b < s.len() implies s[a].key != s[b].key by {
                        if b < s.len() - 1 {
                            assert(old_answers[a].key != old_answers[b].key);
                        } else {
                            assert(s[a] == old_answers[a]);
                            assert(!a_contains(old_answers, key@));
                        }
                    }
                }
            },
        }
    }

    /// `INSERT OR REPLACE` of a question row: the key now maps to
    /// `answer_key`, stamped `now`.
    pub fn upsert_question(&mut self, key: String, answer_key: String, now: i64)
        requires
            old(self).wf(),
        ensures
            final(self).wf(),
            final(self).questions_v() == q_put_replace(
                old(self).questions_v(),
                QuestionV { key: key@, answer_key: answer_key@, created_at: now },
            ),
            final(self).answers == old(self).answers,
            final(self).legacy_cache == old(self).legacy_cache,
            final(self).backup == old(self).backup,
    {
        broadcast use lemma_questions_view_index;

        let ghost old_questions = self.questions_v();
        let ghost row = QuestionV { key: key@, answer_key: answer_key@, created_at: now };
        match find_question(&self.questions, key.as_str()) {
            Some(i) => {
                self.questions[i] = QuestionRow { key, answer_key, created_at: now };
                proof {
                    let s = self.questions_v();
                    let t = q_put_replace(old_questions, row);
                    assert forall|a: int| 0 <= a < s.len() implies s[a] == t[a] by {
                        assert(questions_view(self.questions@)[a] == self.questions@[a]@);
                        if a != i as int {
                            assert(old_questions[a].key != old_questions[i as int].key);
                        }
                    }
                    assert(s =~= t);
                    assert forall|a: int, b: int|
                        0 <= a < b < s.len() implies s[a].key != s[b].key by {
                        assert(old_questions[a].key != old_questions[b].key);
                    }
                }
            },
            None => {
                let ghost prev = self.questions@;
                self.questions.push(QuestionRow { key, answer_key, created_at: now });
                proof {
                    let s = self.questions_v();
                    let t = q_put_replace(old_questions, row);
                    assert forall|a: int| 0 <= a < s.len() implies s[a] == t[a] by {
                        assert(questions_view(self.questions@)[a] == self.questions@[a]@);
                        if a < s.len() - 1 {
                            assert(questions_view(prev)[a] == prev[a]@);
                        }
                    }
                    assert(s =~= t);
                    assert forall|a: int, b: int|
                        0 <= a < b < s.len() implies s[a].key != s[b].key by {
                        if b < s.len() - 1 {
                            assert(old_questions[a].key != old_questions[b].key);
                        } else {
                            assert(s[a] == old_questions[a]);
                            assert(!q_contains(old_questions, key@));
                        }
                    }
                }
            },
        }
    }

    /// The joined lookup: the question row for `question_key`, then the
    /// answer row it references; in override mode only an answer whose
    /// version is at least `version` counts.
    pub open spec fn spec_lookup(
        &self,
        question_key: Seq<char>,
        version: u8,
        override_mode: bool,
    ) -> Option<(Seq<u8>, Seq<char>)> {
        spec_lookup_tables(
            self.answers_v(),
            self.questions_v(),
            question_key,
            version,
            override_mode,
        )
    }

    /// Looks a question up and returns the compressed answer and its key.
    pub fn lookup(&self, question_key: &str, version: u8, override_mode: bool) -> (r: Option<
        (Vec<u8>, String),
    >)
        requires
            self.wf(),
        ensures
            match r {
                Some(p) => self.spec_lookup(question_key@, version, override_mode) == Some(
                    (p.0@, p.1@),
                ),
                None => self.spec_lookup(question_key@, version, override_mode) is None,
            },
    {
        broadcast use lemma_questions_view_index;
        broadcast use lemma_answers_view_index;

        match find_question(&self.questions, question_key) {
            Some(qi) => {
                proof {
                    let qs = self.questions_v();
                    let w = choose|j: int|
                        0 <= j < qs.len() && #[trigger] qs[j].key == question_key@;
                    assert(qs[qi as int].key == question_key@);
                    assert(w == qi as int);
                }
                let answer_key: &String = &self.questions[qi].answer_key;
                match find_answer(&self.answers, answer_key.as_str()) {
                    Some(ai) => {
                        proof {
                            let avs = self.answers_v();
                            let w = choose|j: int|
                                0 <= j < avs.len() && #[trigger] avs[j].key == answer_key@;
                            assert(avs[ai as int].key == answer_key@);
                            assert(w == ai as int);
                        }
                        let row = &self.answers[ai];
                        if !override_mode || row.version >= version {
                            Some(
                                (
                                    crate::memory_cache::clone_bytes(&row.response),
                                    crate::memory_cache::clone_string(&row.key),
                                ),
                            )
                        } else {
                            None
                        }
                    },
                    None => None,
                }
            },
            None => None,
        }
    }

    /// What one asynchronous hit-count update does: the row under
    /// `answer_key`, when present and not yet saturated, counts one more hit.
    pub open spec fn spec_increment_hit(s: Seq<AnswerV>, answer_key: Seq<char>) -> Seq<AnswerV> {
        Seq::new(
            s.len(),
            |i: int|
                if s[i].key == answer_key && s[i].hit_count < u64::MAX {
                    AnswerV {
                        key: s[i].key,
                        response: s[i].response,
                        size: s[i].size,
                        hit_count: (s[i].hit_count + 1) as u64,
                        version: s[i].version,
                        created_at: s[i].created_at,
                    }
                } else {
                    s[i]
                },
        )
    }

    /// Adds one hit to the answer row under `answer_key`, if any.
    pub fn increment_hit(&mut self, answer_key: &str)
        requires
            old(self).wf(),
        ensures
            final(self).wf(),
            final(self).answers_v() == Self::spec_increment_hit(old(self).answers_v(), answer_key@),
            final(self).questions == old(self).questions,
            final(self).legacy_cache == old(self).legacy_cache,
            final(self).backup == old(self).backup,
    {
        broadcast use lemma_answers_view_index;

        let ghost old_answers = self.answers_v();
        match find_answer(&self.answers, answer_key) {
            Some(i) => {
                let row = &self.answers[i];
                if row.hit_count < u64::MAX {
                    let updated = AnswerRow {
                        key: crate::memory_cache::clone_string(&row.key),
                        response: crate::memory_cache::clone_bytes(&row.response),
                        size: row.size,
                        hit_count: row.hit_count + 1,
                        version: row.version,
                        created_at: row.created_at,
                    };
                    self.answers[i] = updated;
                }
                proof {
                    let s = self.answers_v();
                    let t = Self::spec_increment_hit(old_answers, answer_key@);
                    assert forall|a: int| 0 <= a < s.len() implies s[a] == t[a] by {
                        assert(answers_view(self.answers@)[a] == self.answers@[a]@);
                        if a != i as int {
                            assert(old_answers[a].key != old_answers[i as int].key);
                        }
                    }
                    assert(s =~= t);
                    assert forall|a: int, b: int|
                        0 <= a < b < s.len() implies s[a].key != s[b].key by {
                        assert(old_answers[a].key != old_answers[b].key);
                    }
                }
            },
            None => {
                proof {
                    let s = self.answers_v();
                    let t = Self::spec_increment_hit(old_answers, answer_key@);
                    assert forall|a: int| 0 <= a < s.len() implies s[a] == t[a] by {
                        assert(answers_view(self.answers@)[a] == self.answers@[a]@);
                    }
                    assert(s =~= t);
                }
            },
        }
    }

    /// Runs the startup migration when a legacy `cache` table is present:
    /// each legacy row is copied into `answers` (keeping its key, blob,
    /// size, hit count and version) and into `questions` with the answer
    /// key equal to the question key, both by `INSERT OR IGNORE`; the
    /// legacy table is then kept only as a backup.
    pub fn migrate_legacy(&mut self, now: i64)
        requires
            old(self).wf(),
        ensures
            final(self).wf(),
            match old(self).legacy_cache {
                Some(rows) => {
                    &&& (final(self).answers_v(), final(self).questions_v()) == migrate_all(
                        old(self).answers_v(),
                        old(self).questions_v(),
                        legacy_view(rows@),
                        now,
                    )
                    &&& final(self).legacy_cache is None
                    &&& final(self).backup matches Some(b) && legacy_view(b@) == legacy_view(rows@)
                },
                None => *final(self) == *old(self),
            },
    {
        broadcast use lemma_legacy_view_index;

        let legacy = self.legacy_cache.take();
        match legacy {
            Some(mut rows) => {
                let ghost all_rows = legacy_view(rows@);
                let ghost orig_answers = self.answers_v();
                let ghost orig_questions = self.questions_v();
                let mut backup: Vec<LegacyRow> = Vec::new();
                while rows.len() > 0
                    invariant
                        self.wf(),
                        migrate_all(orig_answers, orig_questions, all_rows, now) == migrate_all(
                            self.answers_v(),
                            self.questions_v(),
                            legacy_view(rows@),
                            now,
                        ),
                        legacy_view(backup@) + legacy_view(rows@) =~= all_rows,
                        self.legacy_cache is None,
                        self.backup == old(self).backup,
                    decreases rows@.len(),
                {
                    let ghost rows_before = legacy_view(rows@);
                    let ghost prev = rows@;
                    let row = rows.remove(0);
                    proof {
                        assert(legacy_view(prev)[0] == prev[0]@);
                        assert forall|i: int| 0 <= i < rows@.len() implies legacy_view(rows@)[i]
                            == rows_before[i + 1] by {
                            assert(rows@[i] == prev[i + 1]);
                            assert(legacy_view(prev)[i + 1] == prev[i + 1]@);
                        }
                        assert(legacy_view(rows@) =~= rows_before.drop_first());
                    }
                    let key_for_answer = crate::memory_cache::clone_string(&row.key);
                    let key_for_question = crate::memory_cache::clone_string(&row.key);
                    let key_as_answer_key = crate::memory_cache::clone_string(&row.key);
                    let response_copy = crate::memory_cache::clone_bytes(&row.response);
                    self.upsert_answer_migrated(
                        key_for_answer,
                        response_copy,
                        row.size,
                        row.hit_count,
                        row.version,
                        now,
                    );
                    self.upsert_question_ignore(key_for_question, key_as_answer_key, now);
                    backup.push(row);
                    proof {
                        assert(legacy_view(backup@) =~= all_rows.subrange(
                            0,
                            backup@.len() as int,
                        ));
                        assert(legacy_view(backup@) + legacy_view(rows@) =~= all_rows);
                    }
                }
                proof {
                    assert(legacy_view(rows@) =~= Seq::<LegacyV>::empty());
                    assert(legacy_view(backup@) =~= all_rows);
                }
                self.backup = Some(backup);
            },
            None => {
            },
        }
    }

    /// `INSERT OR IGNORE` of a migrated answer row, keeping the legacy
    /// row's size, hit count and version.
    fn upsert_answer_migrated(
        &mut self,
        key: String,
        response: Vec<u8>,
        size: u64,
        hit_count: u64,
        version: u8,
        now: i64,
    )
        requires
            old(self).wf(),
        ensures
            final(self).wf(),
            final(self).answers_v() == a_put_ignore(
                old(self).answers_v(),
                AnswerV {
                    key: key@,
                    response: response@,
                    size: size,
                    hit_count: hit_count,
                    version: version,
                    created_at: now,
                },
            ),
            final(self).questions == old(self).questions,
            final(self).legacy_cache == old(self).legacy_cache,
            final(self).backup == old(self).backup,
    {
        broadcast use lemma_answers_view_index;

        let ghost old_answers = self.answers_v();
        let ghost row = AnswerV {
            key: key@,
            response: response@,
            size: size,
            hit_count: hit_count,
            version: version,
            created_at: now,
        };
        match find_answer(&self.answers, key.as_str()) {
            Some(_) => {
            },
            None => {
                let ghost prev = self.answers@;
                self.answers.push(
                    AnswerRow { key, response, size, hit_count, version, created_at: now },
                );
                proof {
                    let s = self.answers_v();
                    let t = a_put_ignore(old_answers, row);
                    assert forall|a: int| 0 <= a < s.len() implies s[a] == t[a] by {
                        assert(answers_view(self.answers@)[a] == self.answers@[a]@);
                        if a < s.len() - 1 {
                            assert(answers_view(prev)[a] == prev[a]@);
                        }
                    }
                    assert(s =~= t);
                    assert forall|a: int, b: int|
                        0 <= a < b < s.len() implies s[a].key != s[b].key by {
                        if b < s.len() - 1 {
                            assert(old_answers[a].key != old_answers[b].key);
                        } else {
                            assert(s[a] == old_answers[a]);
                            assert(!a_contains(old_answers, key@));
                        }
                    }
                }
            },
        }
    }

    /// `INSERT OR IGNORE` of a question row.
    fn upsert_question_ignore(&mut self, key: String, answer_key: String, now: i64)
        requires
            old(self).wf(),
        ensures
            final(self).wf(),
            final(self).questions_v() == q_put_ignore(
                old(self).questions_v(),
                QuestionV { key: key@, answer_key: answer_key@, created_at: now },
            ),
            final(self).answers == old(self).answers,
            final(self).legacy_cache == old(self).legacy_cache,
            final(self).backup == old(self).backup,
    {
        broadcast use lemma_questions_view_index;

        let ghost old_questions = self.questions_v();
        let ghost row = QuestionV { key: key@, answer_key: answer_key@, created_at: now };
        match find_question(&self.questions, key.as_str()) {
            Some(_) => {
            },
            None => {
                let ghost prev = self.questions@;
                self.questions.push(QuestionRow { key, answer_key, created_at: now });
                proof {
                    let s = self.questions_v();
                    let t = q_put_ignore(old_questions, row);
                    assert forall|a: int| 0 <= a < s.len() implies s[a] == t[a] by {
                        assert(questions_view(self.questions@)[a] == self.questions@[a]@);
                        if a < s.len() - 1 {
                            assert(questions_view(prev)[a] == prev[a]@);
                        }
                    }
                    assert(s =~= t);
                    assert forall|a: int, b: int|
                        0 <= a < b < s.len() implies s[a].key != s[b].key by {
                        if b < s.len() - 1 {
                            assert(old_questions[a].key != old_questions[b].key);
                        } else {
                            assert(s[a] == old_questions[a]);
                            assert(!q_contains(old_questions, key@));
                        }
                    }
                }
            },
        }
    }

    /// Drops the post-migration backup table, if present.
    pub fn cleanup_backup_table(&mut self)
        ensures
            final(self).backup is None,
            final(self).answers == old(self).answers,
            final(self).questions == old(self).questions,
            final(self).legacy_cache == old(self).legacy_cache,
    {
        self.backup = None;
    }

    /// One maintenance pass: within the cutoff computed by the caller,
    /// deletes answers that are unreferenced, below the hit floor and older
    /// than the cutoff, then deletes questions older than the cutoff.
    pub fn cleanup_old_entries(&mut self, cutoff: i64, min_hit_count: u64)
        requires
            old(self).wf(),
        ensures
            final(self).wf(),
            final(self).answers_v() == prune_answers(
                old(self).answers_v(),
                old(self).questions_v(),
                min_hit_count,
                cutoff,
            ),
            final(self).questions_v() == prune_questions(old(self).questions_v(), cutoff),
            final(self).legacy_cache == old(self).legacy_cache,
            final(self).backup == old(self).backup,
    {
        broadcast use lemma_answers_view_index;
        broadcast use lemma_questions_view_index;

        let ghost old_answers = self.answers_v();
        let ghost old_questions = self.questions_v();
        let mut kept_answers: Vec<AnswerRow> = Vec::new();
        let n = self.answers.len();
        let mut i: usize = 0;
        while i < n
            invariant
                i <= n,
                n == self.answers@.len(),
                answers_view(self.answers@) == old_answers,
                questions_view(self.questions@) == old_questions,
                answers_view(kept_answers@) =~= prune_answers(
                    old_answers.subrange(0, i as int),
                    old_questions,
                    min_hit_count,
                    cutoff,
                ),
            decreases n - i,
        {
            let ghost kept_before = answers_view(kept_answers@);
            let row = &self.answers[i];
            let keep = question_references(&self.questions, row.key.as_str()) || row.hit_count
                >= min_hit_count || row.created_at >= cutoff;
            if keep {
                let copy = AnswerRow {
                    key: crate::memory_cache::clone_string(&row.key),
                    response: crate::memory_cache::clone_bytes(&row.response),
                    size: row.size,
                    hit_count: row.hit_count,
                    version: row.version,
                    created_at: row.created_at,
                };
                let ghost prev_kept = kept_answers@;
                kept_answers.push(copy);
                proof {
                    assert forall|a: int|
                        0 <= a < kept_answers@.len() implies answers_view(kept_answers@)[a] == (
                        kept_before + seq![old_answers[i as int]])[a] by {
                        assert(answers_view(kept_answers@)[a] == kept_answers@[a]@);
                        if a < kept_answers@.len() - 1 {
                            assert(answers_view(prev_kept)[a] == prev_kept[a]@);
                        }
                    }
                    assert(answers_view(kept_answers@) =~= kept_before + seq![
                        old_answers[i as int],
                    ]);
                }
            }
            proof {
                assert(old_answers.subrange(0, i + 1).drop_last() =~= old_answers.subrange(
                    0,
                    i as int,
                ));
                assert(old_answers.subrange(0, i + 1).last() == old_answers[i as int]);
                assert(a_kept(old_answers[i as int], old_questions, min_hit_count, cutoff)
                    == keep);
            }
            i += 1;
        }
        proof {
            assert(old_answers.subrange(0, n as int) =~= old_answers);
        }
        self.answers = kept_answers;

        let mut kept_questions: Vec<QuestionRow> = Vec::new();
        let m = self.questions.len();
        let mut j: usize = 0;
        while j < m
            invariant
                j <= m,
                m == self.questions@.len(),
                questions_view(self.questions@) == old_questions,
                questions_view(kept_questions@) =~= prune_questions(
                    old_questions.subrange(0, j as int),
                    cutoff,
                ),
            decreases m - j,
        {
            let ghost kept_before = questions_view(kept_questions@);
            let row = &self.questions[j];
            if row.created_at >= cutoff {
                let copy = QuestionRow {
                    key: crate::memory_cache::clone_string(&row.key),
                    answer_key: crate::memory_cache::clone_string(&row.answer_key),
                    created_at: row.created_at,
                };
                let ghost prev_kept = kept_questions@;
                kept_questions.push(copy);
                proof {
                    assert forall|a: int|
                        0 <= a < kept_questions@.len() implies questions_view(kept_questions@)[a]
                        == (kept_before + seq![old_questions[j as int]])[a] by {
                        assert(questions_view(kept_questions@)[a] == kept_questions@[a]@);
                        if a < kept_questions@.len() - 1 {
                            assert(questions_view(prev_kept)[a] == prev_kept[a]@);
                        }
                    }
                    assert(questions_view(kept_questions@) =~= kept_before + seq![
                        old_questions[j as int],
                    ]);
                }
            }
            proof {
                assert(old_questions.subrange(0, j + 1).drop_last() =~= old_questions.subrange(
                    0,
                    j as int,
                ));
                assert(old_questions.subrange(0, j + 1).last() == old_questions[j as int]);
            }
            j += 1;
        }
        proof {
            assert(old_questions.subrange(0, m as int) =~= old_questions);
        }
        self.questions = kept_questions;
        proof {
            lemma_prune_answers_distinct(old_answers, old_questions, min_hit_count, cutoff);
            lemma_prune_questions_distinct(old_questions, cutoff);
        }
    }

    /// Row counts and the total stored size, for the statistics report.
    pub fn cache_stats(&self) -> (r: CacheStats)
        ensures
            r.questions_count == self.questions_v().len(),
            r.answers_count == self.answers_v().len(),
            r.total_size == total_answer_size(self.answers_v()),
    {
        broadcast use lemma_answers_view_index;

        let ghost av = self.answers_v();
        let mut total: u128 = 0;
        let n = self.answers.len();
        let mut i: usize = 0;
        while i < n
            invariant
                i <= n,
                n == self.answers@.len(),
                av == self.answers_v(),
                total == total_answer_size(av.subrange(0, i as int)),
                total <= i * 0x1_0000_0000_0000_0000u128,
            decreases n - i,
        {
            proof {
                assert(av.subrange(0, i + 1).drop_last() =~= av.subrange(0, i as int));
                assert(av.subrange(0, i + 1).last() == av[i as int]);
            }
            total = total + self.answers[i].size as u128;
            i += 1;
        }
        proof {
            assert(av.subrange(0, n as int) =~= av);
        }
        CacheStats {
            questions_count: self.questions.len(),
            answers_count: self.answers.len(),
            total_size: total,
        }
    }
}

/// Pruning keeps a subsequence, so distinct keys stay distinct.
proof fn lemma_prune_answers_distinct(
    s: Seq<AnswerV>,
    qs: Seq<QuestionV>,
    min_hit_count: u64,
    cutoff: i64,
)
    requires
        a_distinct(s),
    ensures
        a_distinct(prune_answers(s, qs, min_hit_count, cutoff)),
        forall|i: int|
            0 <= i < prune_answers(s, qs, min_hit_count, cutoff).len() ==> a_contains(
                s,
                #[trigger] prune_answers(s, qs, min_hit_count, cutoff)[i].key,
            ),
    decreases s.len(),
{
    if s.len() > 0 {
        lemma_prune_answers_distinct(s.drop_last(), qs, min_hit_count, cutoff);
        let pre = prune_answers(s.drop_last(), qs, min_hit_count, cutoff);
        let whole = prune_answers(s, qs, min_hit_count, cutoff);
        assert forall|i: int| 0 <= i < whole.len() implies a_contains(s, whole[i].key) by {
            if i < pre.len() {
                let k = pre[i].key;
                let w = choose|j: int| 0 <= j < s.drop_last().len() && #[trigger] s.drop_last()[j].key == k;
                assert(s[w].key == k);
            } else {
                assert(whole[i] == s.last());
                assert(s[s.len() - 1].key == whole[i].key);
            }
        }
        assert forall|i: int, j: int|
            0 <= i < j < whole.len() implies #[trigger] whole[i].key != #[trigger] whole[j].key by {
            if j < pre.len() {
            } else {
                assert(whole[j] == s.last());
                let k = whole[i].key;
                let w = choose|x: int| 0 <= x < s.drop_last().len() && #[trigger] s.drop_last()[x].key == k;
                assert(s[w].key == k);
                assert(s[w].key != s[s.len() - 1].key);
            }
        }
    }
}

/// Pruning keeps a subsequence, so distinct keys stay distinct.
proof fn lemma_prune_questions_distinct(s: Seq<QuestionV>, cutoff: i64)
    requires
        q_distinct(s),
    ensures
        q_distinct(prune_questions(s, cutoff)),
    decreases s.len(),
{
    if s.len() > 0 {
        lemma_prune_questions_distinct(s.drop_last(), cutoff);
        let pre = prune_questions(s.drop_last(), cutoff);
        let whole = prune_questions(s, cutoff);
        assert forall|i: int, j: int|
            0 <= i < j < whole.len() implies #[trigger] whole[i].key != #[trigger] whole[j].key by {
            if j < pre.len() {
            } else {
                assert(whole[j] == s.last());
                lemma_prune_questions_sub(s.drop_last(), cutoff, i);
            }
        }
    }
}

/// Every kept question row comes from the input.
proof fn lemma_prune_questions_sub(s: Seq<QuestionV>, cutoff: i64, i: int)
    requires
        0 <= i < prune_questions(s, cutoff).len(),
    ensures
        exists|j: int|
            0 <= j < s.len() && s[j] == #[trigger] prune_questions(s, cutoff)[i],
    decreases s.len(),
{
    if s.len() > 0 {
        let pre = prune_questions(s.drop_last(), cutoff);
        if i < pre.len() {
            lemma_prune_questions_sub(s.drop_last(), cutoff, i);
            let j = choose|j: int|
                0 <= j < s.drop_last().len() && s.drop_last()[j] == #[trigger] prune_questions(
                    s.drop_last(),
                    cutoff,
                )[i];
            assert(s[j] == prune_questions(s, cutoff)[i]);
        } else {
            assert(s[s.len() - 1] == prune_questions(s, cutoff)[i]);
        }
    }
}

/// Cache hit idempotence: when a lookup hits, the asynchronous hit-count
/// update leaves every later lookup of the same question returning the
/// byte-identical blob and the same answer key, and its only effect is that
/// the hit answer counts one more hit.
pub proof fn lemma_cache_hit_idempotent(
    answers: Seq<AnswerV>,
    questions: Seq<QuestionV>,
    question_key: Seq<char>,
    version: u8,
    override_mode: bool,
)
    requires
        a_distinct(answers),
        q_distinct(questions),
        spec_lookup_tables(answers, questions, question_key, version, override_mode) is Some,
    ensures
        ({
            let hit = spec_lookup_tables(
                answers,
                questions,
                question_key,
                version,
                override_mode,
            ).unwrap();
            let bumped = Store::spec_increment_hit(answers, hit.1);
            &&& spec_lookup_tables(bumped, questions, question_key, version, override_mode)
                == Some(hit)
            &&& a_at(answers, hit.1).hit_count < u64::MAX ==> a_at(bumped, hit.1).hit_count
                == a_at(answers, hit.1).hit_count + 1
        }),
{
    let q = q_at(questions, question_key);
    let ak = q.answer_key;
    let hit = spec_lookup_tables(answers, questions, question_key, version, override_mode).unwrap();
    let bumped = Store::spec_increment_hit(answers, hit.1);
    let i = choose|i: int| 0 <= i < answers.len() && #[trigger] answers[i].key == ak;
    assert(answers[i].key == ak);
    assert(a_at(answers, ak) == answers[i]);
    assert(hit.1 == answers[i].key);
    assert(bumped[i].key == ak);
    assert(a_contains(bumped, ak));
    let j = choose|j: int| 0 <= j < bumped.len() && #[trigger] bumped[j].key == ak;
    assert(bumped[j].key == ak);
    assert(answers[j].key == ak);
    assert(j == i);
    assert(a_at(bumped, ak) == bumped[i]);
    assert(bumped[i].response == answers[i].response);
    assert(bumped[i].version == answers[i].version);
    let w = choose|w: int| 0 <= w < bumped.len() && #[trigger] bumped[w].key == hit.1;
    assert(w == i);
}

/// Migration completeness: when the legacy table holds rows with pairwise
/// distinct keys and the live tables start empty, every legacy key ends up
/// as an answer row and as a question row that references it, one row each.
pub proof fn lemma_migration_completeness(rows: Seq<LegacyV>, now: i64)
    requires
        forall|i: int, j: int|
            0 <= i < j < rows.len() ==> #[trigger] rows[i].key != #[trigger] rows[j].key,
    ensures
        ({
            let r = migrate_all(Seq::empty(), Seq::empty(), rows, now);
            &&& r.0.len() == rows.len()
            &&& r.1.len() == rows.len()
            &&& forall|i: int|
                0 <= i < rows.len() ==> a_contains(r.0, #[trigger] rows[i].key) && q_contains(
                    r.1,
                    rows[i].key,
                ) && q_at(r.1, rows[i].key).answer_key == rows[i].key
        }),
{
    lemma_migrate_all_general(Seq::empty(), Seq::empty(), rows, now);
    let r = migrate_all(Seq::empty(), Seq::empty(), rows, now);
    assert forall|i: int|
        0 <= i < rows.len() implies a_contains(r.0, #[trigger] rows[i].key) && q_contains(
        r.1,
        rows[i].key,
    ) && q_at(r.1, rows[i].key).answer_key == rows[i].key by {
        assert(r.0[i].key == rows[i].key);
        assert(r.1[i].key == rows[i].key);
        let w = choose|w: int| 0 <= w < r.1.len() && #[trigger] r.1[w].key == rows[i].key;
        assert(r.1[w].key == rows[i].key);
        assert(w == i);
    }
}

/// Migrating distinct legacy rows into empty tables appends one answer row
/// and one question row per legacy row, in order.
proof fn lemma_migrate_all_general(
    answers: Seq<AnswerV>,
    questions: Seq<QuestionV>,
    rows: Seq<LegacyV>,
    now: i64,
)
    requires
        forall|i: int, j: int|
            0 <= i < j < rows.len() ==> #[trigger] rows[i].key != #[trigger] rows[j].key,
        a_distinct(answers),
        q_distinct(questions),
        forall|i: int| 0 <= i < rows.len() ==> !a_contains(answers, #[trigger] rows[i].key),
        forall|i: int| 0 <= i < rows.len() ==> !q_contains(questions, #[trigger] rows[i].key),
    ensures
        ({
            let r = migrate_all(answers, questions, rows, now);
            &&& r.0.len() == answers.len() + rows.len()
            &&& r.1.len() == questions.len() + rows.len()
            &&& forall|i: int| 0 <= i < answers.len() ==> r.0[i] == answers[i]
            &&& forall|i: int| 0 <= i < questions.len() ==> r.1[i] == questions[i]
            &&& forall|i: int|
                0 <= i < rows.len() ==> r.0[answers.len() + i] == AnswerV {
                    key: rows[i].key,
                    response: rows[i].response,
                    size: rows[i].size,
                    hit_count: rows[i].hit_count,
                    version: rows[i].version,
                    created_at: now,
                }
            &&& forall|i: int|
                0 <= i < rows.len() ==> r.1[questions.len() + i] == QuestionV {
                    key: rows[i].key,
                    answer_key: rows[i].key,
                    created_at: now,
                }
            &&& a_distinct(r.0)
            &&& q_distinct(r.1)
        }),
    decreases rows.len(),
{
    if rows.len() > 0 {
        let row = rows[0];
        let a1 = migrate_answer(answers, row, now);
        let q1 = migrate_question(questions, row, now);
        assert(!a_contains(answers, row.key));
        assert(!q_contains(questions, row.key));
        assert(a1 == answers.push(
            AnswerV {
                key: row.key,
                response: row.response,
                size: row.size,
                hit_count: row.hit_count,
                version: row.version,
                created_at: now,
            },
        ));
        assert forall|a: int, b: int| 0 <= a < b < a1.len() implies #[trigger] a1[a].key
            != #[trigger] a1[b].key by {
            if b < a1.len() - 1 {
                assert(answers[a].key != answers[b].key);
            } else {
                assert(a1[a] == answers[a]);
                assert(!a_contains(answers, row.key));
            }
        }
        assert forall|a: int, b: int| 0 <= a < b < q1.len() implies #[trigger] q1[a].key
            != #[trigger] q1[b].key by {
            if b < q1.len() - 1 {
                assert(questions[a].key != questions[b].key);
            } else {
                assert(q1[a] == questions[a]);
                assert(!q_contains(questions, row.key));
            }
        }
        assert forall|i: int| 0 <= i < rows.drop_first().len() implies !a_contains(
            a1,
            #[trigger] rows.drop_first()[i].key,
        ) && !q_contains(q1, rows.drop_first()[i].key) by {
            let k = rows.drop_first()[i].key;
            assert(k == rows[i + 1].key);
            assert(rows[0].key != rows[i + 1].key);
            assert forall|x: int| 0 <= x < a1.len() implies a1[x].key != k by {
                if x < a1.len() - 1 {
                    assert(!a_contains(answers, k));
                    assert(a1[x] == answers[x]);
                }
            }
            assert forall|x: int| 0 <= x < q1.len() implies q1[x].key != k by {
                if x < q1.len() - 1 {
                    assert(!q_contains(questions, k));
                    assert(q1[x] == questions[x]);
                }
            }
        }
        lemma_migrate_all_general(a1, q1, rows.drop_first(), now);
        let r = migrate_all(answers, questions, rows, now);
        assert(r == migrate_all(a1, q1, rows.drop_first(), now));
        assert forall|i: int|
            0 <= i < rows.len() implies r.0[answers.len() + i] == AnswerV {
            key: rows[i].key,
            response: rows[i].response,
            size: rows[i].size,
            hit_count: rows[i].hit_count,
            version: rows[i].version,
            created_at: now,
        } by {
            if i == 0 {
                assert(r.0[a1.len() - 1] == a1[a1.len() - 1]);
            } else {
                assert(rows.drop_first()[i - 1] == rows[i]);
                assert(r.0[a1.len() + (i - 1)] == AnswerV {
                    key: rows.drop_first()[i - 1].key,
                    response: rows.drop_first()[i - 1].response,
                    size: rows.drop_first()[i - 1].size,
                    hit_count: rows.drop_first()[i - 1].hit_count,
                    version: rows.drop_first()[i - 1].version,
                    created_at: now,
                });
            }
        }
        assert forall|i: int|
            0 <= i < rows.len() implies r.1[questions.len() + i] == QuestionV {
            key: rows[i].key,
            answer_key: rows[i].key,
            created_at: now,
        } by {
            if i == 0 {
                assert(r.1[q1.len() - 1] == q1[q1.len() - 1]);
            } else {
                assert(rows.drop_first()[i - 1] == rows[i]);
                assert(r.1[q1.len() + (i - 1)] == QuestionV {
                    key: rows.drop_first()[i - 1].key,
                    answer_key: rows.drop_first()[i - 1].key,
                    created_at: now,
                });
            }
        }
        assert(r.0.len() == answers.len() + rows.len());
        assert(r.1.len() == questions.len() + rows.len());
        assert forall|i: int| 0 <= i < answers.len() implies r.0[i] == answers[i] by {
            assert(r.0[i] == a1[i]);
        }
        assert forall|i: int| 0 <= i < questions.len() implies r.1[i] == questions[i] by {
            assert(r.1[i] == q1[i]);
        }
    }
}

/// Logical referential integrity: every question row references an
/// existing answer row, even with the store's own checks disabled.
pub open spec fn ref_integrity(answers: Seq<AnswerV>, questions: Seq<QuestionV>) -> bool {
    forall|i: int|
        0 <= i < questions.len() ==> a_contains(answers, #[trigger] questions[i].answer_key)
}

/// One maintenance pass preserves referential integrity: an answer is
/// deleted only while unreferenced, and dropping question rows never
/// breaks the references of the rows that stay.
pub proof fn lemma_prune_preserves_integrity(
    answers: Seq<AnswerV>,
    questions: Seq<QuestionV>,
    min_hit_count: u64,
    cutoff: i64,
)
    requires
        ref_integrity(answers, questions),
    ensures
        ref_integrity(
            prune_answers(answers, questions, min_hit_count, cutoff),
            prune_questions(questions, cutoff),
        ),
{
    let kept_answers = prune_answers(answers, questions, min_hit_count, cutoff);
    let kept_questions = prune_questions(questions, cutoff);
    assert forall|i: int| 0 <= i < kept_questions.len() implies a_contains(
        kept_answers,
        #[trigger] kept_questions[i].answer_key,
    ) by {
        lemma_prune_questions_sub(questions, cutoff, i);
        let j = choose|j: int| 0 <= j < questions.len() && questions[j] == kept_questions[i];
        let ak = kept_questions[i].answer_key;
        assert(a_referenced(questions, ak));
        let w = choose|w: int| 0 <= w < answers.len() && #[trigger] answers[w].key == ak;
        lemma_prune_answers_keeps_referenced(answers, questions, min_hit_count, cutoff, w);
    }
}

/// A referenced answer row survives the maintenance pass.
proof fn lemma_prune_answers_keeps_referenced(
    answers: Seq<AnswerV>,
    questions: Seq<QuestionV>,
    min_hit_count: u64,
    cutoff: i64,
    w: int,
)
    requires
        0 <= w < answers.len(),
        a_referenced(questions, answers[w].key),
    ensures
        a_contains(
            prune_answers(answers, questions, min_hit_count, cutoff),
            answers[w].key,
        ),
    decreases answers.len(),
{
    let kept = prune_answers(answers, questions, min_hit_count, cutoff);
    if w == answers.len() - 1 {
        assert(a_kept(answers[w], questions, min_hit_count, cutoff));
        assert(kept[kept.len() - 1].key == answers[w].key);
    } else {
        lemma_prune_answers_keeps_referenced(
            answers.drop_last(),
            questions,
            min_hit_count,
            cutoff,
            w,
        );
        let pre = prune_answers(answers.drop_last(), questions, min_hit_count, cutoff);
        let x = choose|x: int|
            0 <= x < pre.len() && #[trigger] pre[x].key == answers.drop_last()[w].key;
        assert(kept[x].key == answers[w].key);
    }
}

/// Index of the answer row whose key equals `key`, if any.
fn find_answer(v: &Vec<AnswerRow>, key: &str) -> (r: Option<usize>)
    ensures
        match r {
            Some(i) => i < v@.len() && answers_view(v@)[i as int].key == key@,
            None => !a_contains(answers_view(v@), key@),
        },
{
    broadcast use lemma_answers_view_index;

    let n = v.len();
    let mut i: usize = 0;
    while i < n
        invariant
            i <= n,
            n == v@.len(),
            forall|j: int| 0 <= j < i ==> #[trigger] answers_view(v@)[j].key != key@,
        decreases n - i,
    {
        if str_eq(v[i].key.as_str(), key) {
            return Some(i);
        }
        i += 1;
    }
    None
}

/// Index of the question row whose key equals `key`, if any.
fn find_question(v: &Vec<QuestionRow>, key: &str) -> (r: Option<usize>)
    ensures
        match r {
            Some(i) => i < v@.len() && questions_view(v@)[i as int].key == key@,
            None => !q_contains(questions_view(v@), key@),
        },
{
    broadcast use lemma_questions_view_index;

    let n = v.len();
    let mut i: usize = 0;
    while i < n
        invariant
            i <= n,
            n == v@.len(),
            forall|j: int| 0 <= j < i ==> #[trigger] questions_view(v@)[j].key != key@,
        decreases n - i,
    {
        if str_eq(v[i].key.as_str(), key) {
            return Some(i);
        }
        i += 1;
    }
    None
}

/// Whether some question row references `answer_key`.
fn question_references(v: &Vec<QuestionRow>, answer_key: &str) -> (r: bool)
    ensures
        r == a_referenced(questions_view(v@), answer_key@),
{
    broadcast use lemma_questions_view_index;

    let n = v.len();
    let mut i: usize = 0;
    while i < n
        invariant
            i <= n,
            n == v@.len(),
            forall|j: int| 0 <= j < i ==> #[trigger] questions_view(v@)[j].answer_key != answer_key@,
        decreases n - i,
    {
        if str_eq(v[i].answer_key.as_str(), answer_key) {
            proof {
                assert(questions_view(v@)[i as int].answer_key == answer_key@);
            }
            return true;
        }
        i += 1;
    }
    false
}

} // verus!
