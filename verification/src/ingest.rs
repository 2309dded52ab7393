//! Turning a batch of the catalog into rows for the store: questions, and the
//! links between questions and topics, with topic names resolved to ids.

use crate::catalog::{QuestionList, ResponseQuestion, ResponseTopic};
use crate::models::{NewQuestion, NewQuestionTopic, Topic};
use crate::text::{decimal_i32, parse_i32, to_upper, uppercased};
use vstd::prelude::*;

verus! {

/// Why a batch of the catalog could not be turned into rows.
#[derive(Clone, Copy, Debug, PartialEq, Eq)]
pub enum IngestError {
    /// A question's catalog id is not a decimal integer.
    Parse,
    /// Neither a source id nor the question's own id was given, so that the
    /// question of a link cannot be told.
    MissingReference,
}

/// `row` is what the store gets for the catalog question `question` of
/// source `src_id`: title and slug as they came, the difficulty in upper
/// case, an empty prompt, and the catalog id read as a number.
pub open spec fn is_formatted(row: NewQuestion, question: ResponseQuestion, src_id: i32) -> bool {
    &&& row.title == question.title
    &&& row.title_slug == question.titleSlug
    &&& row.difficulty@ == uppercased(question.difficulty@)
    &&& row.prompt@ == Seq::<char>::empty()
    &&& row.source == src_id
    &&& decimal_i32(question.questionId@) == Some(row.source_qid)
}

/// Puts together the row of a question from its parts: the difficulty as
/// it is to be stored, and the catalog id as a number.
pub fn new_question(
    question: &ResponseQuestion,
    difficulty: String,
    src_id: i32,
    source_qid: i32,
) -> (row: NewQuestion)
    ensures
        row.title == question.title,
        row.title_slug == question.titleSlug,
        row.difficulty == difficulty,
        row.prompt@ == Seq::<char>::empty(),
        row.source == src_id,
        row.source_qid == source_qid,
{
    NewQuestion {
        title: question.title.clone(),
        title_slug: question.titleSlug.clone(),
        prompt: String::new(),
        difficulty,
        source: src_id,
        source_qid,
    }
}

/// The row of one catalog question, or `Parse` where its id is no number.
pub fn db_format_question(response_question: &ResponseQuestion, src_id: i32) -> (formatted: Result<
    NewQuestion,
    IngestError,
>)
    ensures
        decimal_i32(response_question.questionId@) is Some ==> formatted is Ok && is_formatted(
            formatted->Ok_0,
            *response_question,
            src_id,
        ),
        decimal_i32(response_question.questionId@) is None ==> formatted == Err::<
            NewQuestion,
            IngestError,
        >(IngestError::Parse),
{
    match parse_i32(response_question.questionId.as_str()) {
        Some(source_qid) => {
            let difficulty = to_upper(response_question.difficulty.as_str());
            Ok(new_question(response_question, difficulty, src_id, source_qid))
        },
        None => Err(IngestError::Parse),
    }
}

/// Every question of the batch has an id that is a number.
pub open spec fn all_ids_parse(questions: Seq<ResponseQuestion>) -> bool {
    forall|i: int| 0 <= i < questions.len() ==> decimal_i32((#[trigger] questions[i]).questionId@) is Some
}

/// The rows of a whole batch, in its order. One id that is no number fails
/// the batch, so that nothing of it is written.
pub fn db_format_questions(response_questions: &QuestionList, src_id: i32) -> (formatted: Result<
    Vec<NewQuestion>,
    IngestError,
>)
    ensures
        all_ids_parse(response_questions.questions@) ==> formatted is Ok && formatted->Ok_0@.len()
            == response_questions.questions@.len() && forall|i: int|
            0 <= i < response_questions.questions@.len() ==> is_formatted(
                #[trigger] formatted->Ok_0@[i],
                response_questions.questions@[i],
                src_id,
            ),
        !all_ids_parse(response_questions.questions@) ==> formatted == Err::<
            Vec<NewQuestion>,
            IngestError,
        >(IngestError::Parse),
{
    let questions = &response_questions.questions;
    let mut rows: Vec<NewQuestion> = Vec::new();
    let mut i: usize = 0;
    while i < questions.len()
        invariant
            i <= questions.len(),
            questions@ == response_questions.questions@,
            rows@.len() == i,
            all_ids_parse(questions@.take(i as int)),
            forall|k: int| 0 <= k < i ==> is_formatted(#[trigger] rows@[k], questions@[k], src_id),
        decreases questions.len() - i,
    {
        match db_format_question(&questions[i], src_id) {
            Ok(row) => {
                rows.push(row);
                assert forall|k: int| 0 <= k < i + 1 implies decimal_i32(
                    (#[trigger] questions@.take(i + 1)[k]).questionId@,
                ) is Some by {
                    if k < i {
                        assert(questions@.take(i as int)[k] == questions@[k]);
                    }
                }
            },
            Err(_) => {
                assert(decimal_i32(questions@[i as int].questionId@) is None);
                return Err(IngestError::Parse);
            },
        }
        i += 1;
    }
    assert(questions@.take(i as int) =~= questions@);
    Ok(rows)
}

/// The ids that a list of topic rows gives to names: a later row wins over
/// an earlier one of the same name.
pub open spec fn ids_by_name(entries: Seq<Topic>) -> Map<Seq<char>, i32>
    decreases entries.len(),
{
    if entries.len() == 0 {
        Map::empty()
    } else {
        ids_by_name(entries.drop_last()).insert(entries.last().name@, entries.last().tid)
    }
}

proof fn lemma_latest_entry_decides(entries: Seq<Topic>, name: Seq<char>, k: int)
    requires
        0 <= k < entries.len(),
        entries[k].name@ == name,
        forall|j: int| k < j < entries.len() ==> (#[trigger] entries[j]).name@ != name,
    ensures
        ids_by_name(entries).contains_key(name),
        ids_by_name(entries)[name] == entries[k].tid,
    decreases entries.len(),
{
    if k < entries.len() - 1 {
        let shorter = entries.drop_last();
        assert(entries.last() == entries[entries.len() - 1]);
        assert forall|j: int| k < j < shorter.len() implies (#[trigger] shorter[j]).name@ != name by {
            assert(shorter[j] == entries[j]);
        }
        lemma_latest_entry_decides(shorter, name, k);
    }
}

proof fn lemma_no_entry_no_id(entries: Seq<Topic>, name: Seq<char>)
    requires
        forall|j: int| 0 <= j < entries.len() ==> (#[trigger] entries[j]).name@ != name,
    ensures
        !ids_by_name(entries).contains_key(name),
    decreases entries.len(),
{
    if entries.len() > 0 {
        let shorter = entries.drop_last();
        assert(entries.last() == entries[entries.len() - 1]);
        assert forall|j: int| 0 <= j < shorter.len() implies (#[trigger] shorter[j]).name@ != name by {
            assert(shorter[j] == entries[j]);
        }
        lemma_no_entry_no_id(shorter, name);
    }
}

/// The topics seen so far: from a name, spelled exactly, to its id.
pub struct TopicIndex {
    entries: Vec<Topic>,
}

impl View for TopicIndex {
    type V = Map<Seq<char>, i32>;

    closed spec fn view(&self) -> Map<Seq<char>, i32> {
        ids_by_name(self.entries@)
    }
}

impl TopicIndex {
    /// An index that knows no topic.
    pub fn new() -> (index: TopicIndex)
        ensures
            index@ == Map::<Seq<char>, i32>::empty(),
    {
        TopicIndex { entries: Vec::new() }
    }

    /// The id of a name, if the index knows it.
    pub fn get(&self, name: &String) -> (tid: Option<i32>)
        ensures
            tid is Some <==> self@.contains_key(name@),
            tid is Some ==> tid->0 == self@[name@],
    {
        let mut i: usize = self.entries.len();
        while i > 0
            invariant
                i <= self.entries.len(),
                forall|j: int| i <= j < self.entries.len() ==> (#[trigger] self.entries@[j]).name@ != name@,
            decreases i,
        {
            i -= 1;
            if self.entries[i].name == *name {
                proof {
                    lemma_latest_entry_decides(self.entries@, name@, i as int);
                }
                return Some(self.entries[i].tid);
            }
        }
        proof {
            lemma_no_entry_no_id(self.entries@, name@);
        }
        None
    }

    /// Gives a name an id, in place of the one it had if it had one.
    pub fn insert(&mut self, name: String, tid: i32)
        ensures
            final(self)@ == old(self)@.insert(name@, tid),
    {
        let ghost before = self.entries@;
        self.entries.push(Topic { tid, name });
        assert(self.entries@.drop_last() =~= before);
    }
}

/// The index of the topics that the store holds.
pub fn select_all_topics_into_map(topic_rows: Vec<Topic>) -> (index: TopicIndex)
    ensures
        index@ == ids_by_name(topic_rows@),
{
    TopicIndex { entries: topic_rows }
}

/// What has to happen next before the links of a question can be written.
#[derive(Clone, Debug, PartialEq, Eq)]
pub enum LinkStep {
    /// Nothing: these are the link rows, one per topic tag and in their order.
    Done(Vec<NewQuestionTopic>),
    /// The store has to say which question has this source and catalog id.
    NeedQuestionId { source: i32, source_qid: i32 },
    /// The store has to create a topic of this name and say which id it got.
    NeedTopic { name: String },
}

/// The place of the first tag whose name the index does not know, or the
/// number of tags if it knows them all.
pub open spec fn first_unknown(tags: Seq<ResponseTopic>, known: Map<Seq<char>, i32>) -> int
    decreases tags.len(),
{
    if tags.len() == 0 {
        0
    } else if !known.contains_key(tags[0].name@) {
        0
    } else {
        1 + first_unknown(tags.drop_first(), known)
    }
}

/// `links` joins question `qid` to each tag's topic, in the order of the tags.
pub open spec fn links_all(
    links: Seq<NewQuestionTopic>,
    qid: i32,
    tags: Seq<ResponseTopic>,
    known: Map<Seq<char>, i32>,
) -> bool {
    &&& links.len() == tags.len()
    &&& forall|i: int|
        0 <= i < tags.len() ==> (#[trigger] links[i]).qid == qid && known.contains_key(
            tags[i].name@,
        ) && links[i].tid == known[tags[i].name@]
}

/// The step that the links of `question` call for, given what is known.
///
/// Without a source id and without the question's own id there is nothing
/// to go by; an id that is no number is an error as well. A question without
/// tags needs no links. Otherwise the question's own id comes first, then
/// the topics that the index does not know, in the order of the tags; with
/// all of that at hand the links are written out.
pub open spec fn is_next_step(
    step: Result<LinkStep, IngestError>,
    question: ResponseQuestion,
    src_id: Option<i32>,
    db_qid: Option<i32>,
    known: Map<Seq<char>, i32>,
) -> bool {
    let tags = question.topicTags@;
    let unknown = first_unknown(tags, known);
    if src_id is None && db_qid is None {
        step == Err::<LinkStep, IngestError>(IngestError::MissingReference)
    } else if decimal_i32(question.questionId@) is None {
        step == Err::<LinkStep, IngestError>(IngestError::Parse)
    } else if tags.len() == 0 {
        step matches Ok(LinkStep::Done(links)) && links@.len() == 0
    } else if db_qid is None {
        step == Ok::<LinkStep, IngestError>(
            LinkStep::NeedQuestionId {
                source: src_id->0,
                source_qid: decimal_i32(question.questionId@)->0,
            },
        )
    } else if unknown < tags.len() {
        step matches Ok(LinkStep::NeedTopic { name }) && name == tags[unknown].name
    } else {
        step matches Ok(LinkStep::Done(links)) && links_all(links@, db_qid->0, tags, known)
    }
}

proof fn lemma_first_unknown(tags: Seq<ResponseTopic>, known: Map<Seq<char>, i32>, n: int)
    requires
        0 <= n <= tags.len(),
        forall|j: int| 0 <= j < n ==> known.contains_key((#[trigger] tags[j]).name@),
        n < tags.len() ==> !known.contains_key(tags[n].name@),
    ensures
        first_unknown(tags, known) == n,
    decreases n,
{
    if n > 0 {
        let rest = tags.drop_first();
        assert(known.contains_key(tags[0].name@));
        assert forall|j: int| 0 <= j < n - 1 implies known.contains_key((#[trigger] rest[j]).name@) by {
            assert(rest[j] == tags[j + 1]);
        }
        if n < tags.len() {
            assert(rest[n - 1] == tags[n]);
        }
        lemma_first_unknown(rest, known, n - 1);
    }
}

/// Works out the links between a catalog question and its topics, as far
/// as what is known allows, and says what is missing where it does not.
///
/// The caller answers a `NeedQuestionId` by looking the question up and
/// calling again with `db_qid`, and a `NeedTopic` by creating the topic,
/// entering it in the index and calling again.
pub fn db_format_question_topics(
    response_question: &ResponseQuestion,
    src_id: Option<i32>,
    db_qid: Option<i32>,
    all_topics: &TopicIndex,
) -> (step: Result<LinkStep, IngestError>)
    ensures
        is_next_step(step, *response_question, src_id, db_qid, all_topics@),
{
    if src_id.is_none() && db_qid.is_none() {
        return Err(IngestError::MissingReference);
    }
    let src_qid: i32 = match parse_i32(response_question.questionId.as_str()) {
        Some(n) => n,
        None => {
            return Err(IngestError::Parse);
        },
    };
    let tags = &response_question.topicTags;
    let mut links: Vec<NewQuestionTopic> = Vec::new();
    if tags.len() == 0 {
        return Ok(LinkStep::Done(links));
    }
    let qid: i32 = match db_qid {
        Some(qid) => qid,
        None => {
            return Ok(LinkStep::NeedQuestionId { source: src_id.unwrap(), source_qid: src_qid });
        },
    };
    let mut i: usize = 0;
    while i < tags.len()
        invariant
            i <= tags.len(),
            tags@ == response_question.topicTags@,
            tags@.len() > 0,
            db_qid == Some(qid),
            decimal_i32(response_question.questionId@) is Some,
            links@.len() == i,
            forall|j: int| 0 <= j < i ==> all_topics@.contains_key((#[trigger] tags@[j]).name@),
            forall|j: int|
                0 <= j < i ==> (#[trigger] links@[j]).qid == qid && links@[j].tid
                    == all_topics@[tags@[j].name@],
        decreases tags.len() - i,
    {
        match all_topics.get(&tags[i].name) {
            Some(tid) => {
                links.push(NewQuestionTopic { qid, tid });
            },
            None => {
                proof {
                    lemma_first_unknown(tags@, all_topics@, i as int);
                }
                return Ok(LinkStep::NeedTopic { name: tags[i].name.clone() });
            },
        }
        i += 1;
    }
    proof {
        lemma_first_unknown(tags@, all_topics@, tags@.len() as int);
    }
    Ok(LinkStep::Done(links))
}

/// Says whether the catalog has to be fetched: only a store that holds no
/// question of it yet is filled.
pub fn preload_needed(stored: i64) -> (needed: bool)
    ensures
        needed == (stored <= 0),
{
    stored <= 0
}

} // verus!
