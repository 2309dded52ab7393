//! The question query: what a request asks for, which joined rows meet it,
//! and how the rows that do are folded into one record per question.

use crate::models::{Question, QuestionTopic, Solution, Star};
use crate::ranges::{
    holds, invalid_range, range_contains, sort_ranges, sorted_by_start, valid_ranges, IdRange,
};
use crate::rearrange::{
    lemma_filter_keeps_rearrangement, lemma_map_keeps_rearrangement,
    lemma_rearrangement_keeps_length,
};
use crate::text::{to_upper, uppercased};
use std::collections::{HashMap, HashSet};
use vstd::prelude::*;
use vstd::seq_lib::*;
use vstd::std_specs::hash::*;

verus! {

/// The source id of the questions that come from the external catalog.
pub const LEETCODE_SOURCE_ID: i32 = 1;

/// Stands in a source filter for "the question has no recorded source".
pub const SOURCELESS_QUESTION_SOURCE_ID: i32 = 0;

/// Stands in a topic filter, and in a topic list, for "no topic at all".
pub const TOPICLESS_QUESTION_TOPIC_ID: i32 = 0;

/// A request. A field that is `None` puts no constraint on its dimension; a
/// field that holds an empty list matches nothing.
#[derive(Clone, Debug, PartialEq, Eq)]
pub struct QuestionOptions {
    pub user: i32,
    pub diff: Option<Vec<String>>,
    pub topics: Option<Vec<i32>>,
    pub solved: Option<Vec<bool>>,
    pub source_ids: Option<Vec<i32>>,
    pub starred: Option<Vec<bool>>,
    pub range: Option<Vec<(i32, i32)>>,
}

/// One row of the join: a question with, each where there is one, a star of
/// the user, a topic link and a solution of the user.
pub type QuestionStarQTopicSolutionJoin = (
    Question,
    Option<Star>,
    Option<QuestionTopic>,
    Option<Solution>,
);

/// What the query answers for one question.
#[derive(Clone, Debug, PartialEq, Eq)]
pub struct QuestionQueryResult {
    pub qid: i32,
    pub starred: bool,
    pub solved: bool,
    pub topics: Vec<i32>,
    pub title: String,
    pub title_slug: Option<String>,
    pub prompt: Option<String>,
    pub difficulty: Option<String>,
    pub source: Option<i32>,
    pub source_qid: Option<i32>,
}

/// Why a request was turned down.
#[derive(Clone, Copy, Debug, PartialEq, Eq)]
pub enum QueryError {
    /// The ranges hold an interval whose start lies after its stop, or two
    /// intervals that share an id.
    InvalidRange,
}

/// A request as mathematics: per dimension, no constraint or a set to match.
pub struct Criteria {
    pub diff: Option<Set<Seq<char>>>,
    pub topics: Option<Set<i32>>,
    pub solved: Option<Set<bool>>,
    pub sources: Option<Set<i32>>,
    pub starred: Option<Set<bool>>,
    pub ranges: Option<Set<IdRange>>,
}

/// A text that may be missing, as characters.
pub open spec fn text_of(s: Option<String>) -> Option<Seq<char>> {
    match s {
        Some(t) => Some(t@),
        None => None,
    }
}

/// The texts that a list holds, as a set of character sequences.
pub open spec fn texts(v: Seq<String>) -> Set<Seq<char>> {
    Set::new(|t: Seq<char>| exists|i: int| 0 <= i < v.len() && (#[trigger] v[i])@ == t)
}

/// A dimension lets a value through when it is unconstrained or its set
/// holds the value.
pub open spec fn allows<T>(wanted: Option<Set<T>>, value: T) -> bool {
    match wanted {
        None => true,
        Some(set) => set.contains(value),
    }
}

/// The topic that a row stands for: that of its link, or the topicless id.
pub open spec fn topic_id(link: Option<QuestionTopic>) -> i32 {
    match link {
        Some(t) => t.tid,
        None => TOPICLESS_QUESTION_TOPIC_ID,
    }
}

/// The source that a question stands for: its own, or the sourceless id.
pub open spec fn source_id(source: Option<i32>) -> i32 {
    match source {
        Some(s) => s,
        None => SOURCELESS_QUESTION_SOURCE_ID,
    }
}

/// What a question's difficulty is compared by: its upper-cased text.
pub open spec fn difficulty_key(difficulty: Option<String>) -> Option<Seq<char>> {
    match difficulty {
        Some(d) => Some(uppercased(d@)),
        None => None,
    }
}

impl Criteria {
    /// The id lies in one of the requested intervals.
    pub open spec fn range_ok(self, qid: i32) -> bool {
        match self.ranges {
            None => true,
            Some(rs) => exists|r: IdRange| #[trigger] rs.contains(r) && holds(r, qid),
        }
    }

    /// The upper-cased difficulty is one of the requested ones. A question
    /// without a difficulty meets no difficulty constraint.
    pub open spec fn difficulty_ok(self, key: Option<Seq<char>>) -> bool {
        match self.diff {
            None => true,
            Some(set) => key is Some && set.contains(key->0),
        }
    }

    /// The row's topic, or the topicless id where it has none, is requested.
    pub open spec fn topic_ok(self, link: Option<QuestionTopic>) -> bool {
        allows(self.topics, topic_id(link))
    }

    /// Whether the user solved the question is one of the requested answers.
    pub open spec fn solved_ok(self, solution: Option<Solution>) -> bool {
        allows(self.solved, solution is Some)
    }

    /// The question's source, or the sourceless id where it has none, is
    /// requested.
    pub open spec fn source_ok(self, source: Option<i32>) -> bool {
        allows(self.sources, source_id(source))
    }

    /// Whether the user starred the question is one of the requested answers.
    pub open spec fn starred_ok(self, star: Option<Star>) -> bool {
        allows(self.starred, star is Some)
    }

    /// A row is admitted when it passes every one of the six dimensions.
    /// `key` is what the question's difficulty is compared by.
    pub open spec fn admits(self, row: QuestionStarQTopicSolutionJoin, key: Option<Seq<char>>) -> bool {
        &&& self.range_ok(row.0.qid)
        &&& self.difficulty_ok(key)
        &&& self.topic_ok(row.2)
        &&& self.solved_ok(row.3)
        &&& self.source_ok(row.0.source)
        &&& self.starred_ok(row.1)
    }
}

impl QuestionOptions {
    /// Some field is present and holds an empty list.
    pub open spec fn has_empty_field(&self) -> bool {
        ||| self.diff matches Some(v) && v@.len() == 0
        ||| self.topics matches Some(v) && v@.len() == 0
        ||| self.solved matches Some(v) && v@.len() == 0
        ||| self.source_ids matches Some(v) && v@.len() == 0
        ||| self.starred matches Some(v) && v@.len() == 0
        ||| self.range matches Some(v) && v@.len() == 0
    }

    /// The ranges, where there are any, form a valid list.
    pub open spec fn ranges_valid(&self) -> bool {
        self.range matches Some(v) ==> valid_ranges(v@)
    }

    /// The request as mathematics.
    pub open spec fn criteria(&self) -> Criteria {
        Criteria {
            diff: match self.diff {
                Some(v) => Some(texts(v@)),
                None => None,
            },
            topics: match self.topics {
                Some(v) => Some(v@.to_set()),
                None => None,
            },
            solved: match self.solved {
                Some(v) => Some(v@.to_set()),
                None => None,
            },
            sources: match self.source_ids {
                Some(v) => Some(v@.to_set()),
                None => None,
            },
            starred: match self.starred {
                Some(v) => Some(v@.to_set()),
                None => None,
            },
            ranges: match self.range {
                Some(v) => Some(v@.to_set()),
                None => None,
            },
        }
    }
}

/// Says whether a request holds a field that is present and empty.
pub fn empty_query_option(options: &QuestionOptions) -> (empty: bool)
    ensures
        empty == options.has_empty_field(),
{
    (match &options.diff {
        Some(v) => v.len() == 0,
        None => false,
    }) || (match &options.topics {
        Some(v) => v.len() == 0,
        None => false,
    }) || (match &options.solved {
        Some(v) => v.len() == 0,
        None => false,
    }) || (match &options.source_ids {
        Some(v) => v.len() == 0,
        None => false,
    }) || (match &options.starred {
        Some(v) => v.len() == 0,
        None => false,
    }) || (match &options.range {
        Some(v) => v.len() == 0,
        None => false,
    })
}

fn id_set(ids: &Vec<i32>) -> (set: HashSet<i32>)
    ensures
        set@ == ids@.to_set(),
{
    broadcast use group_hash_axioms;

    let mut set: HashSet<i32> = HashSet::new();
    let mut i: usize = 0;
    while i < ids.len()
        invariant
            i <= ids.len(),
            forall|x: i32| set@.contains(x) <==> ids@.take(i as int).contains(x),
        decreases ids.len() - i,
    {
        let id: i32 = ids[i];
        set.insert(id);
        proof {
            let before = ids@.take(i as int);
            let after = ids@.take(i + 1);
            assert(after =~= before.push(id));
            assert forall|x: i32| set@.contains(x) <==> after.contains(x) by {
                if before.contains(x) {
                    let k = choose|k: int| 0 <= k < before.len() && before[k] == x;
                    assert(after[k] == x);
                }
                if x == id {
                    assert(after[i as int] == x);
                }
            }
        }
        i += 1;
    }
    assert(ids@.take(i as int) =~= ids@);
    assert(set@ =~= ids@.to_set());
    set
}

fn flag_set(flags: &Vec<bool>) -> (set: HashSet<bool>)
    ensures
        set@ == flags@.to_set(),
{
    broadcast use group_hash_axioms;

    let mut set: HashSet<bool> = HashSet::new();
    let mut i: usize = 0;
    while i < flags.len()
        invariant
            i <= flags.len(),
            forall|x: bool| set@.contains(x) <==> flags@.take(i as int).contains(x),
        decreases flags.len() - i,
    {
        let flag: bool = flags[i];
        set.insert(flag);
        proof {
            let before = flags@.take(i as int);
            let after = flags@.take(i + 1);
            assert(after =~= before.push(flag));
            assert forall|x: bool| set@.contains(x) <==> after.contains(x) by {
                if before.contains(x) {
                    let k = choose|k: int| 0 <= k < before.len() && before[k] == x;
                    assert(after[k] == x);
                }
                if x == flag {
                    assert(after[i as int] == x);
                }
            }
        }
        i += 1;
    }
    assert(flags@.take(i as int) =~= flags@);
    assert(set@ =~= flags@.to_set());
    set
}

fn holds_text(list: &Vec<String>, wanted: &String) -> (found: bool)
    ensures
        found == texts(list@).contains(wanted@),
{
    let mut i: usize = 0;
    while i < list.len()
        invariant
            i <= list.len(),
            forall|k: int| 0 <= k < i ==> (#[trigger] list@[k])@ != wanted@,
        decreases list.len() - i,
    {
        if list[i] == *wanted {
            assert(list@[i as int]@ == wanted@);
            return true;
        }
        i += 1;
    }
    false
}

/// The sets that a request asks for, ready for lookup. The ranges are kept
/// sorted by start.
pub struct FilterSets {
    diff: Option<Vec<String>>,
    topics: Option<HashSet<i32>>,
    solved: Option<HashSet<bool>>,
    sources: Option<HashSet<i32>>,
    starred: Option<HashSet<bool>>,
    ranges: Option<Vec<(i32, i32)>>,
}

impl FilterSets {
    /// The ranges are sorted by start and valid.
    pub closed spec fn well_formed(&self) -> bool {
        self.ranges matches Some(r) ==> sorted_by_start(r@) && valid_ranges(r@)
    }

    /// The request that these sets stand for.
    pub closed spec fn criteria(&self) -> Criteria {
        Criteria {
            diff: match self.diff {
                Some(v) => Some(texts(v@)),
                None => None,
            },
            topics: match self.topics {
                Some(s) => Some(s@),
                None => None,
            },
            solved: match self.solved {
                Some(s) => Some(s@),
                None => None,
            },
            sources: match self.sources {
                Some(s) => Some(s@),
                None => None,
            },
            starred: match self.starred {
                Some(s) => Some(s@),
                None => None,
            },
            ranges: match self.ranges {
                Some(r) => Some(r@.to_set()),
                None => None,
            },
        }
    }

    /// Builds the lookup sets of a request whose ranges are valid.
    pub fn new(options: QuestionOptions) -> (sets: FilterSets)
        requires
            options.ranges_valid(),
        ensures
            sets.well_formed(),
            sets.criteria() == options.criteria(),
    {
        broadcast use group_to_multiset_ensures;

        let ghost wanted = options.criteria();
        let QuestionOptions { user: _, diff, topics, solved, source_ids, starred, range } = options;
        let topics = match topics {
            Some(v) => Some(id_set(&v)),
            None => None,
        };
        let solved = match solved {
            Some(v) => Some(flag_set(&v)),
            None => None,
        };
        let sources = match source_ids {
            Some(v) => Some(id_set(&v)),
            None => None,
        };
        let starred = match starred {
            Some(v) => Some(flag_set(&v)),
            None => None,
        };
        let ranges = match range {
            Some(v) => {
                let sorted = sort_ranges(&v);
                proof {
                    crate::ranges::lemma_validity_ignores_order(v@, sorted@);
                    assert(sorted@.to_set() =~= v@.to_set()) by {
                        assert forall|r: IdRange| sorted@.contains(r) <==> v@.contains(r) by {
                            assert(sorted@.to_multiset().count(r) == v@.to_multiset().count(r));
                        }
                    }
                }
                Some(sorted)
            },
            None => None,
        };
        let sets = FilterSets { diff, topics, solved, sources, starred, ranges };
        assert(sets.criteria() == wanted);
        sets
    }

    /// Says whether the request constrains the difficulty, so that a row's
    /// upper-cased difficulty is needed to judge it.
    pub fn constrains_difficulty(&self) -> (constrained: bool)
        ensures
            constrained == self.criteria().diff is Some,
    {
        self.diff.is_some()
    }

    /// Judges one row. `key` is the row's difficulty in upper case; it is
    /// looked at only where the request constrains the difficulty.
    pub fn admits(&self, row: &QuestionStarQTopicSolutionJoin, key: Option<&String>) -> (ok: bool)
        requires
            self.well_formed(),
        ensures
            ok == self.criteria().admits(
                *row,
                match key {
                    Some(k) => Some(k@),
                    None => None,
                },
            ),
    {
        broadcast use group_hash_axioms;

        let qid: i32 = row.0.qid;
        let in_range = match &self.ranges {
            Some(r) => {
                let found = range_contains(r, qid);
                proof {
                    let rs = r@.to_set();
                    if found {
                        let i = choose|i: int| 0 <= i < r@.len() && holds(#[trigger] r@[i], qid);
                        assert(r@.contains(r@[i]));
                        assert(rs.contains(r@[i]) && holds(r@[i], qid));
                    }
                    if exists|x: IdRange| #[trigger] rs.contains(x) && holds(x, qid) {
                        let x = choose|x: IdRange| #[trigger] rs.contains(x) && holds(x, qid);
                        assert(r@.contains(x));
                        let i = choose|i: int| 0 <= i < r@.len() && r@[i] == x;
                        assert(holds(r@[i], qid));
                    }
                    let c = self.criteria();
                    assert(c.ranges->0 == rs);
                    assert(c.range_ok(qid) == (exists|x: IdRange|
                        #[trigger] c.ranges->0.contains(x) && holds(x, qid)));
                }
                found
            },
            None => true,
        };
        let good_difficulty = match &self.diff {
            Some(list) => match key {
                Some(k) => holds_text(list, k),
                None => false,
            },
            None => true,
        };
        let topic: i32 = match &row.2 {
            Some(link) => link.tid,
            None => TOPICLESS_QUESTION_TOPIC_ID,
        };
        let good_topic = match &self.topics {
            Some(set) => set.contains(&topic),
            None => true,
        };
        let is_solved: bool = row.3.is_some();
        let good_solved = match &self.solved {
            Some(set) => set.contains(&is_solved),
            None => true,
        };
        let source: i32 = match row.0.source {
            Some(s) => s,
            None => SOURCELESS_QUESTION_SOURCE_ID,
        };
        let good_source = match &self.sources {
            Some(set) => set.contains(&source),
            None => true,
        };
        let is_starred: bool = row.1.is_some();
        let good_starred = match &self.starred {
            Some(set) => set.contains(&is_starred),
            None => true,
        };
        in_range && good_difficulty && good_topic && good_solved && good_source && good_starred
    }
}

/// What a result record says, as mathematics.
pub struct ResultView {
    pub qid: i32,
    pub starred: bool,
    pub solved: bool,
    pub topics: Seq<i32>,
    pub title: Seq<char>,
    pub title_slug: Option<Seq<char>>,
    pub prompt: Option<Seq<char>>,
    pub difficulty: Option<Seq<char>>,
    pub source: Option<i32>,
    pub source_qid: Option<i32>,
}

impl View for QuestionQueryResult {
    type V = ResultView;

    open spec fn view(&self) -> ResultView {
        ResultView {
            qid: self.qid,
            starred: self.starred,
            solved: self.solved,
            topics: self.topics@,
            title: self.title@,
            title_slug: text_of(self.title_slug),
            prompt: text_of(self.prompt),
            difficulty: text_of(self.difficulty),
            source: self.source,
            source_qid: self.source_qid,
        }
    }
}

/// The record of a question: its own columns and its two flags as `first`,
/// the first admitted row, has them, with the given topics.
pub open spec fn record_of(first: QuestionStarQTopicSolutionJoin, topics: Seq<i32>) -> ResultView {
    ResultView {
        qid: first.0.qid,
        starred: first.1 is Some,
        solved: first.3 is Some,
        topics: topics,
        title: first.0.title@,
        title_slug: text_of(first.0.title_slug),
        prompt: text_of(first.0.prompt),
        difficulty: text_of(first.0.difficulty),
        source: first.0.source,
        source_qid: first.0.source_qid,
    }
}

/// The same record with one more topic at the end of its list.
pub open spec fn with_topic(record: ResultView, topic: i32) -> ResultView {
    ResultView { topics: record.topics.push(topic), ..record }
}

/// The test that picks the rows that count for question `qid`: the row is
/// about that question and the request admits it.
pub open spec fn counts_for(c: Criteria, qid: i32) -> spec_fn(QuestionStarQTopicSolutionJoin) -> bool {
    |row: QuestionStarQTopicSolutionJoin|
        row.0.qid == qid && c.admits(row, difficulty_key(row.0.difficulty))
}

/// The rows that count for question `qid`, in the order of the join.
pub open spec fn rows_for(
    c: Criteria,
    rows: Seq<QuestionStarQTopicSolutionJoin>,
    qid: i32,
) -> Seq<QuestionStarQTopicSolutionJoin> {
    rows.filter(counts_for(c, qid))
}

/// The topic of each row, the topicless id where a row has no link.
pub open spec fn topics_of(rows: Seq<QuestionStarQTopicSolutionJoin>) -> Seq<i32> {
    rows.map_values(|row: QuestionStarQTopicSolutionJoin| topic_id(row.2))
}

/// `found` is the answer to request `c` on the joined rows `rows`: it has an
/// entry for exactly the questions with a row that counts, and the entry
/// holds the columns and flags of the first such row and the topics of all
/// of them, one per row and in the order of the rows.
pub open spec fn is_answer(
    found: Map<i32, QuestionQueryResult>,
    c: Criteria,
    rows: Seq<QuestionStarQTopicSolutionJoin>,
) -> bool {
    &&& forall|qid: i32| #[trigger] found.contains_key(qid) <==> rows_for(c, rows, qid).len() > 0
    &&& forall|qid: i32| #[trigger]
        found.contains_key(qid) ==> found[qid]@ == record_of(
            rows_for(c, rows, qid)[0],
            topics_of(rows_for(c, rows, qid)),
        )
}

fn copy_text(text: &Option<String>) -> (copy: Option<String>)
    ensures
        copy == *text,
{
    match text {
        Some(t) => Some(t.clone()),
        None => None,
    }
}

/// Folds one admitted row into the records: the first row of a question
/// creates its record, and every row, the first one too, adds its topic.
pub fn add_row(found: &mut HashMap<i32, QuestionQueryResult>, row: &QuestionStarQTopicSolutionJoin)
    ensures
        final(found)@.dom() == old(found)@.dom().insert(row.0.qid),
        forall|qid: i32|
            qid != row.0.qid && old(found)@.contains_key(qid) ==> final(found)@[qid] == old(
                found,
            )@[qid],
        final(found)@[row.0.qid]@ == if old(found)@.contains_key(row.0.qid) {
            with_topic(old(found)@[row.0.qid]@, topic_id(row.2))
        } else {
            record_of(*row, seq![topic_id(row.2)])
        },
{
    broadcast use group_hash_axioms;

    let qid: i32 = row.0.qid;
    let topic: i32 = match &row.2 {
        Some(link) => link.tid,
        None => TOPICLESS_QUESTION_TOPIC_ID,
    };
    match found.remove(&qid) {
        Some(mut record) => {
            let ghost before = record@;
            record.topics.push(topic);
            assert(record@ == with_topic(before, topic));
            found.insert(qid, record);
        },
        None => {
            let mut topics: Vec<i32> = Vec::new();
            topics.push(topic);
            assert(topics@ =~= seq![topic]);
            let record = QuestionQueryResult {
                qid,
                starred: row.1.is_some(),
                solved: row.3.is_some(),
                topics,
                title: row.0.title.clone(),
                title_slug: copy_text(&row.0.title_slug),
                prompt: copy_text(&row.0.prompt),
                difficulty: copy_text(&row.0.difficulty),
                source: row.0.source,
                source_qid: row.0.source_qid,
            };
            found.insert(qid, record);
        },
    }
    assert(final(found)@.dom() =~= old(found)@.dom().insert(row.0.qid));
}

proof fn lemma_answer_grows(
    before: Map<i32, QuestionQueryResult>,
    after: Map<i32, QuestionQueryResult>,
    c: Criteria,
    rows: Seq<QuestionStarQTopicSolutionJoin>,
    row: QuestionStarQTopicSolutionJoin,
)
    requires
        is_answer(before, c, rows),
        c.admits(row, difficulty_key(row.0.difficulty)),
        after.dom() == before.dom().insert(row.0.qid),
        forall|qid: i32| qid != row.0.qid && before.contains_key(qid) ==> after[qid] == before[qid],
        after[row.0.qid]@ == if before.contains_key(row.0.qid) {
            with_topic(before[row.0.qid]@, topic_id(row.2))
        } else {
            record_of(row, seq![topic_id(row.2)])
        },
    ensures
        is_answer(after, c, rows.push(row)),
{
    let longer = rows.push(row);
    assert forall|qid: i32| #[trigger] after.contains_key(qid) <==> rows_for(c, longer, qid).len() > 0 by {
        rows.lemma_filter_push(row, counts_for(c, qid));
        assert(before.contains_key(qid) <==> rows_for(c, rows, qid).len() > 0);
    }
    assert forall|qid: i32| #[trigger] after.contains_key(qid) implies after[qid]@ == record_of(
        rows_for(c, longer, qid)[0],
        topics_of(rows_for(c, longer, qid)),
    ) by {
        rows.lemma_filter_push(row, counts_for(c, qid));
        let mine = rows_for(c, rows, qid);
        assert(before.contains_key(qid) <==> mine.len() > 0);
        if qid == row.0.qid {
            let grown = mine.push(row);
            assert(rows_for(c, longer, qid) == grown);
            assert(topics_of(grown) =~= topics_of(mine).push(topic_id(row.2)));
            if mine.len() == 0 {
                assert(topics_of(grown) =~= seq![topic_id(row.2)]);
            } else {
                assert(before.contains_key(qid));
                assert(before[qid]@ == record_of(mine[0], topics_of(mine)));
                assert(grown[0] == mine[0]);
            }
        } else {
            assert(rows_for(c, longer, qid) == mine);
            assert(before.contains_key(qid));
        }
    }
}

proof fn lemma_answer_stays(
    found: Map<i32, QuestionQueryResult>,
    c: Criteria,
    rows: Seq<QuestionStarQTopicSolutionJoin>,
    row: QuestionStarQTopicSolutionJoin,
)
    requires
        is_answer(found, c, rows),
        !c.admits(row, difficulty_key(row.0.difficulty)),
    ensures
        is_answer(found, c, rows.push(row)),
{
    let longer = rows.push(row);
    assert forall|qid: i32| rows_for(c, longer, qid) == rows_for(c, rows, qid) by {
        rows.lemma_filter_push(row, counts_for(c, qid));
    }
    assert forall|qid: i32| #[trigger] found.contains_key(qid) <==> rows_for(c, longer, qid).len() > 0 by {
        assert(found.contains_key(qid) <==> rows_for(c, rows, qid).len() > 0);
    }
}

/// Answers a request whose ranges are valid on the rows of the join: judges
/// every row against the six dimensions and folds the admitted ones into one
/// record per question.
pub fn filter_question_soln_topic_join(
    options: QuestionOptions,
    join_rows: Vec<QuestionStarQTopicSolutionJoin>,
) -> (found: HashMap<i32, QuestionQueryResult>)
    requires
        options.ranges_valid(),
    ensures
        is_answer(found@, options.criteria(), join_rows@),
{
    let ghost c = options.criteria();
    let sets = FilterSets::new(options);
    let keyed: bool = sets.constrains_difficulty();
    let mut found: HashMap<i32, QuestionQueryResult> = HashMap::new();
    let mut i: usize = 0;
    proof {
        assert(join_rows@.take(0) =~= Seq::<QuestionStarQTopicSolutionJoin>::empty());
        assert forall|qid: i32| rows_for(c, join_rows@.take(0), qid).len() == 0 by {
            join_rows@.take(0).lemma_filter_len(counts_for(c, qid));
        }
    }
    while i < join_rows.len()
        invariant
            i <= join_rows.len(),
            sets.well_formed(),
            sets.criteria() == c,
            keyed == c.diff is Some,
            is_answer(found@, c, join_rows@.take(i as int)),
        decreases join_rows.len() - i,
    {
        let row = &join_rows[i];
        let key: Option<String> = if keyed {
            match &row.0.difficulty {
                Some(d) => Some(to_upper(d.as_str())),
                None => None,
            }
        } else {
            None
        };
        let admitted = sets.admits(row, key.as_ref());
        assert(admitted == c.admits(*row, difficulty_key(row.0.difficulty)));
        let ghost before = found@;
        if admitted {
            add_row(&mut found, row);
        }
        proof {
            assert(join_rows@.take(i + 1) =~= join_rows@.take(i as int).push(*row));
            if admitted {
                lemma_answer_grows(before, found@, c, join_rows@.take(i as int), *row);
            } else {
                lemma_answer_stays(before, c, join_rows@.take(i as int), *row);
            }
        }
        i += 1;
    }
    assert(join_rows@.take(i as int) =~= join_rows@);
    found
}

fn copy_ranges(ranges: &Vec<(i32, i32)>) -> (copy: Vec<(i32, i32)>)
    ensures
        copy@ == ranges@,
{
    let mut copy: Vec<(i32, i32)> = Vec::new();
    let mut i: usize = 0;
    while i < ranges.len()
        invariant
            i <= ranges.len(),
            copy@ == ranges@.take(i as int),
        decreases ranges.len() - i,
    {
        copy.push(ranges[i]);
        assert(ranges@.take(i + 1) =~= ranges@.take(i as int).push(ranges@[i as int]));
        i += 1;
    }
    assert(ranges@.take(i as int) =~= ranges@);
    copy
}

/// Says whether a request has to be run against the store at all: it has no
/// present-but-empty field and its ranges are valid. Where this is false the
/// answer is known without a single row.
pub fn needs_join(options: &QuestionOptions) -> (needed: bool)
    ensures
        needed == (!options.has_empty_field() && options.ranges_valid()),
{
    if empty_query_option(options) {
        return false;
    }
    match &options.range {
        Some(ranges) => !invalid_range(copy_ranges(ranges)),
        None => true,
    }
}

/// Answers a request on the rows of the join.
///
/// A request with a field that is present and empty matches nothing and gets
/// the empty answer, whatever its ranges are. Otherwise invalid ranges are an
/// error. Every other request gets the answer that [`is_answer`] describes.
pub fn query_questions(
    options: QuestionOptions,
    join_rows: Vec<QuestionStarQTopicSolutionJoin>,
) -> (answer: Result<HashMap<i32, QuestionQueryResult>, QueryError>)
    ensures
        options.has_empty_field() ==> answer is Ok && answer->Ok_0@ == Map::<
            i32,
            QuestionQueryResult,
        >::empty(),
        !options.has_empty_field() && !options.ranges_valid() ==> answer == Err::<
            HashMap<i32, QuestionQueryResult>,
            QueryError,
        >(QueryError::InvalidRange),
        !options.has_empty_field() && options.ranges_valid() ==> answer is Ok && is_answer(
            answer->Ok_0@,
            options.criteria(),
            join_rows@,
        ),
{
    if empty_query_option(&options) {
        return Ok(HashMap::new());
    }
    let invalid = match &options.range {
        Some(ranges) => invalid_range(copy_ranges(ranges)),
        None => false,
    };
    if invalid {
        return Err(QueryError::InvalidRange);
    }
    Ok(filter_question_soln_topic_join(options, join_rows))
}

/// A row counts for its question exactly when it passes all six dimensions:
/// passing five of them is never enough, and nothing else is asked.
pub proof fn lemma_counts_iff_all_pass(
    c: Criteria,
    rows: Seq<QuestionStarQTopicSolutionJoin>,
    i: int,
)
    requires
        0 <= i < rows.len(),
    ensures
        rows_for(c, rows, rows[i].0.qid).contains(rows[i]) <==> {
            &&& c.range_ok(rows[i].0.qid)
            &&& c.difficulty_ok(difficulty_key(rows[i].0.difficulty))
            &&& c.topic_ok(rows[i].2)
            &&& c.solved_ok(rows[i].3)
            &&& c.source_ok(rows[i].0.source)
            &&& c.starred_ok(rows[i].1)
        },
{
    let counts = counts_for(c, rows[i].0.qid);
    let mine = rows.filter(counts);
    if counts(rows[i]) {
        rows.lemma_filter_contains(counts, i);
    }
    if mine.contains(rows[i]) {
        let k = choose|k: int| 0 <= k < mine.len() && mine[k] == rows[i];
        rows.lemma_filter_pred(counts, k);
    }
}

/// A question is in the answer exactly when the join holds a row of it that
/// passes all six dimensions.
pub proof fn lemma_answer_holds_admitted_questions(
    found: Map<i32, QuestionQueryResult>,
    c: Criteria,
    rows: Seq<QuestionStarQTopicSolutionJoin>,
    qid: i32,
)
    requires
        is_answer(found, c, rows),
    ensures
        found.contains_key(qid) <==> exists|i: int|
            0 <= i < rows.len() && (#[trigger] rows[i]).0.qid == qid && c.admits(
                rows[i],
                difficulty_key(rows[i].0.difficulty),
            ),
{
    let counts = counts_for(c, qid);
    let mine = rows.filter(counts);
    assert(found.contains_key(qid) <==> mine.len() > 0);
    if mine.len() > 0 {
        rows.lemma_filter_pred(counts, 0);
        assert(mine.contains(mine[0]));
        rows.lemma_filter_contains_rev(counts, mine[0]);
        let i = choose|i: int| 0 <= i < rows.len() && rows[i] == mine[0];
        assert(rows[i].0.qid == qid);
    }
    if exists|i: int|
        0 <= i < rows.len() && (#[trigger] rows[i]).0.qid == qid && c.admits(
            rows[i],
            difficulty_key(rows[i].0.difficulty),
        ) {
        let i = choose|i: int|
            0 <= i < rows.len() && (#[trigger] rows[i]).0.qid == qid && c.admits(
                rows[i],
                difficulty_key(rows[i].0.difficulty),
            );
        rows.lemma_filter_contains(counts, i);
    }
}

/// A request with a field that is present and empty admits no row at all.
pub proof fn lemma_empty_field_admits_nothing(
    options: QuestionOptions,
    row: QuestionStarQTopicSolutionJoin,
    key: Option<Seq<char>>,
)
    requires
        options.has_empty_field(),
    ensures
        !options.criteria().admits(row, key),
{
    let c = options.criteria();
    if options.diff matches Some(v) && v@.len() == 0 {
        assert(!c.difficulty_ok(key));
    } else if options.topics matches Some(v) && v@.len() == 0 {
        assert(!c.topic_ok(row.2));
    } else if options.solved matches Some(v) && v@.len() == 0 {
        assert(!c.solved_ok(row.3));
    } else if options.source_ids matches Some(v) && v@.len() == 0 {
        assert(!c.source_ok(row.0.source));
    } else if options.starred matches Some(v) && v@.len() == 0 {
        assert(!c.starred_ok(row.1));
    } else {
        assert(!c.range_ok(row.0.qid));
    }
}

/// A request has one answer on given rows: asked twice of an unchanged
/// store, it is answered with the same questions and the same records.
pub proof fn lemma_answer_is_unique(
    first: Map<i32, QuestionQueryResult>,
    second: Map<i32, QuestionQueryResult>,
    c: Criteria,
    rows: Seq<QuestionStarQTopicSolutionJoin>,
)
    requires
        is_answer(first, c, rows),
        is_answer(second, c, rows),
    ensures
        first.dom() == second.dom(),
        forall|qid: i32| #[trigger] first.contains_key(qid) ==> first[qid]@ == second[qid]@,
{
    assert forall|qid: i32| first.contains_key(qid) <==> second.contains_key(qid) by {
        assert(first.contains_key(qid) <==> rows_for(c, rows, qid).len() > 0);
        assert(second.contains_key(qid) <==> rows_for(c, rows, qid).len() > 0);
    }
    assert(first.dom() =~= second.dom());
    assert forall|qid: i32| #[trigger] first.contains_key(qid) implies first[qid]@
        == second[qid]@ by {
        assert(second.contains_key(qid));
    }
}

/// The order in which the join hands out its rows changes neither the
/// questions of the answer nor, as a multiset, the topics of any of them.
pub proof fn lemma_answer_ignores_row_order(
    first: Map<i32, QuestionQueryResult>,
    second: Map<i32, QuestionQueryResult>,
    c: Criteria,
    rows: Seq<QuestionStarQTopicSolutionJoin>,
    reordered: Seq<QuestionStarQTopicSolutionJoin>,
)
    requires
        rows.to_multiset() == reordered.to_multiset(),
        is_answer(first, c, rows),
        is_answer(second, c, reordered),
    ensures
        first.dom() == second.dom(),
        forall|qid: i32| #[trigger]
            first.contains_key(qid) ==> first[qid]@.topics.to_multiset()
                == second[qid]@.topics.to_multiset(),
{
    let topic = |row: QuestionStarQTopicSolutionJoin| topic_id(row.2);
    assert forall|qid: i32| first.contains_key(qid) <==> second.contains_key(qid) by {
        lemma_filter_keeps_rearrangement(rows, reordered, counts_for(c, qid));
        lemma_rearrangement_keeps_length(rows_for(c, rows, qid), rows_for(c, reordered, qid));
        assert(first.contains_key(qid) <==> rows_for(c, rows, qid).len() > 0);
        assert(second.contains_key(qid) <==> rows_for(c, reordered, qid).len() > 0);
    }
    assert(first.dom() =~= second.dom());
    assert forall|qid: i32| #[trigger] first.contains_key(qid) implies first[qid]@.topics.to_multiset()
        == second[qid]@.topics.to_multiset() by {
        assert(second.contains_key(qid));
        lemma_filter_keeps_rearrangement(rows, reordered, counts_for(c, qid));
        lemma_map_keeps_rearrangement(
            rows_for(c, rows, qid),
            rows_for(c, reordered, qid),
            topic,
        );
        assert(topics_of(rows_for(c, rows, qid)) == rows_for(c, rows, qid).map_values(topic));
        assert(topics_of(rows_for(c, reordered, qid)) == rows_for(c, reordered, qid).map_values(
            topic,
        ));
    }
}

} // verus!
