use study_tracker::catalog::{
    ProblemsetQuestionList, PromptResponse, QuestionList, QuestionListResponse, QuestionPrompt,
    QuestionPromptContent, ResponseQuestion, ResponseTopic,
};
use study_tracker::ingest::{
    db_format_question, db_format_question_topics, db_format_questions, new_question,
    preload_needed, select_all_topics_into_map, IngestError, LinkStep, TopicIndex,
};
use study_tracker::models::{NewQuestion, NewQuestionTopic, Topic};
use study_tracker::query::LEETCODE_SOURCE_ID;
use study_tracker::text::parse_i32;

fn tag(name: &str) -> ResponseTopic {
    ResponseTopic { name: name.to_string(), id: "x".to_string(), slug: name.to_lowercase() }
}

fn catalog_question(id: &str, difficulty: &str, tags: &[&str]) -> ResponseQuestion {
    ResponseQuestion {
        difficulty: difficulty.to_string(),
        questionId: id.to_string(),
        title: format!("Question {}", id),
        titleSlug: format!("question-{}", id),
        topicTags: tags.iter().map(|name| tag(name)).collect(),
    }
}

#[test]
fn a_catalog_question_becomes_a_row() {
    let row = db_format_question(&catalog_question("42", "Easy", &[]), LEETCODE_SOURCE_ID);
    assert_eq!(
        row,
        Ok(NewQuestion {
            title: "Question 42".to_string(),
            title_slug: "question-42".to_string(),
            prompt: String::new(),
            difficulty: "EASY".to_string(),
            source: 1,
            source_qid: 42,
        })
    );
}

#[test]
fn difficulty_is_stored_in_upper_case() {
    for (given, stored) in [("Medium", "MEDIUM"), ("hard", "HARD"), ("EASY", "EASY"), ("", "")] {
        let row = db_format_question(&catalog_question("1", given, &[]), 1).unwrap();
        assert_eq!(row.difficulty, stored);
    }
    let row = db_format_question(&catalog_question("1", "stra\u{df}e", &[]), 1).unwrap();
    assert_eq!(row.difficulty, "STRASSE");
}

#[test]
fn an_id_that_is_no_number_is_a_parse_error() {
    for id in ["", "abc", "12a", " 7", "7 ", "1_000", "-", "+", "99999999999", "1.5"] {
        assert_eq!(db_format_question(&catalog_question(id, "Easy", &[]), 1), Err(IngestError::Parse));
    }
}

#[test]
fn new_question_keeps_the_parts_it_is_given() {
    let row = new_question(&catalog_question("x", "Easy", &[]), "given".to_string(), 9, -4);
    assert_eq!(row.difficulty, "given");
    assert_eq!(row.source, 9);
    assert_eq!(row.source_qid, -4);
    assert_eq!(row.prompt, "");
    assert_eq!(row.title, "Question x");
    assert_eq!(row.title_slug, "question-x");
}

#[test]
fn a_batch_is_formatted_in_order() {
    let batch = QuestionList {
        questions: vec![
            catalog_question("3", "Hard", &["Array"]),
            catalog_question("1", "Easy", &[]),
            catalog_question("2", "Medium", &[]),
        ],
    };
    let rows = db_format_questions(&batch, LEETCODE_SOURCE_ID).unwrap();
    let ids: Vec<i32> = rows.iter().map(|row| row.source_qid).collect();
    assert_eq!(ids, vec![3, 1, 2]);
    assert_eq!(rows[0].difficulty, "HARD");
    assert!(rows.iter().all(|row| row.prompt.is_empty() && row.source == 1));
    assert_eq!(db_format_questions(&QuestionList { questions: vec![] }, 1), Ok(vec![]));
}

#[test]
fn one_bad_id_fails_the_whole_batch() {
    let batch = QuestionList {
        questions: vec![
            catalog_question("1", "Easy", &[]),
            catalog_question("two", "Easy", &[]),
            catalog_question("3", "Easy", &[]),
        ],
    };
    assert_eq!(db_format_questions(&batch, 1), Err(IngestError::Parse));
}

#[test]
fn decimal_ids_are_read_as_the_standard_library_reads_them() {
    let texts = [
        "0", "7", "42", "007", "+5", "-7", "-0", "+0", "2147483647", "2147483648", "-2147483648",
        "-2147483649", "4294967296", "00000000000000000001", "", "-", "+", "+-1", "--1", "1-",
        "12a", "a12", " 1", "1 ", "1_0", "0x10", "1e3", "\u{663}", "\u{ff11}", "9223372036854775808",
    ];
    for text in texts {
        assert_eq!(parse_i32(text), text.parse::<i32>().ok(), "{:?}", text);
    }
    assert_eq!(parse_i32("2147483647"), Some(i32::MAX));
    assert_eq!(parse_i32("-2147483648"), Some(i32::MIN));
    assert_eq!(parse_i32("2147483648"), None);
    assert_eq!(parse_i32("+17"), Some(17));
}

#[test]
fn the_index_maps_names_to_ids() {
    let mut index = TopicIndex::new();
    assert_eq!(index.get(&"Array".to_string()), None);
    index.insert("Array".to_string(), 3);
    index.insert("Graph".to_string(), 8);
    assert_eq!(index.get(&"Array".to_string()), Some(3));
    assert_eq!(index.get(&"Graph".to_string()), Some(8));
    assert_eq!(index.get(&"array".to_string()), None);
    assert_eq!(index.get(&"".to_string()), None);
    index.insert("Array".to_string(), 11);
    assert_eq!(index.get(&"Array".to_string()), Some(11));
    assert_eq!(index.get(&"Graph".to_string()), Some(8));
}

#[test]
fn the_index_of_stored_topics_lets_later_rows_win() {
    let index = select_all_topics_into_map(vec![
        Topic { tid: 1, name: "Array".to_string() },
        Topic { tid: 2, name: "Tree".to_string() },
        Topic { tid: 5, name: "Array".to_string() },
    ]);
    assert_eq!(index.get(&"Array".to_string()), Some(5));
    assert_eq!(index.get(&"Tree".to_string()), Some(2));
    assert_eq!(index.get(&"Heap".to_string()), None);
    assert_eq!(select_all_topics_into_map(vec![]).get(&"Array".to_string()), None);
}

#[test]
fn links_need_a_source_or_a_question_id() {
    let index = TopicIndex::new();
    let q = catalog_question("1", "Easy", &["Array"]);
    assert_eq!(db_format_question_topics(&q, None, None, &index), Err(IngestError::MissingReference));
    let bad = catalog_question("one", "Easy", &[]);
    assert_eq!(db_format_question_topics(&bad, None, None, &index), Err(IngestError::MissingReference));
}

#[test]
fn links_need_a_numeric_catalog_id() {
    let index = TopicIndex::new();
    let q = catalog_question("one", "Easy", &["Array"]);
    assert_eq!(db_format_question_topics(&q, Some(1), None, &index), Err(IngestError::Parse));
    assert_eq!(db_format_question_topics(&q, None, Some(4), &index), Err(IngestError::Parse));
}

#[test]
fn a_question_without_tags_needs_no_links_and_no_lookup() {
    let index = TopicIndex::new();
    let q = catalog_question("1", "Easy", &[]);
    assert_eq!(db_format_question_topics(&q, Some(1), None, &index), Ok(LinkStep::Done(vec![])));
    assert_eq!(db_format_question_topics(&q, None, Some(9), &index), Ok(LinkStep::Done(vec![])));
}

#[test]
fn the_question_id_is_asked_for_before_any_topic() {
    let index = TopicIndex::new();
    let q = catalog_question("17", "Easy", &["Array", "Tree"]);
    assert_eq!(
        db_format_question_topics(&q, Some(1), None, &index),
        Ok(LinkStep::NeedQuestionId { source: 1, source_qid: 17 })
    );
}

#[test]
fn unknown_topics_are_asked_for_in_the_order_of_the_tags() {
    let mut index = TopicIndex::new();
    index.insert("Tree".to_string(), 2);
    let q = catalog_question("17", "Easy", &["Tree", "Array", "Heap"]);
    assert_eq!(
        db_format_question_topics(&q, Some(1), Some(40), &index),
        Ok(LinkStep::NeedTopic { name: "Array".to_string() })
    );
    index.insert("Array".to_string(), 3);
    assert_eq!(
        db_format_question_topics(&q, Some(1), Some(40), &index),
        Ok(LinkStep::NeedTopic { name: "Heap".to_string() })
    );
    index.insert("Heap".to_string(), 4);
    assert_eq!(
        db_format_question_topics(&q, Some(1), Some(40), &index),
        Ok(LinkStep::Done(vec![
            NewQuestionTopic { qid: 40, tid: 2 },
            NewQuestionTopic { qid: 40, tid: 3 },
            NewQuestionTopic { qid: 40, tid: 4 },
        ]))
    );
}

#[test]
fn topic_names_are_not_normalized() {
    let mut index = TopicIndex::new();
    index.insert("array".to_string(), 1);
    let q = catalog_question("1", "Easy", &["Array"]);
    assert_eq!(
        db_format_question_topics(&q, None, Some(1), &index),
        Ok(LinkStep::NeedTopic { name: "Array".to_string() })
    );
}

#[test]
fn a_batch_is_linked_against_a_growing_index() {
    let batch = vec![
        catalog_question("1", "Easy", &["Array", "Hash Table"]),
        catalog_question("2", "Medium", &["Array"]),
        catalog_question("3", "Hard", &[]),
        catalog_question("4", "Hard", &["Tree", "Hash Table", "Tree"]),
    ];
    let mut index = select_all_topics_into_map(vec![Topic { tid: 1, name: "Array".to_string() }]);
    let mut created: Vec<String> = vec![];
    let mut lookups = 0;
    let mut all_links: Vec<NewQuestionTopic> = vec![];
    for q in &batch {
        let mut db_qid = None;
        loop {
            match db_format_question_topics(q, Some(1), db_qid, &index).unwrap() {
                LinkStep::Done(links) => {
                    all_links.extend(links);
                    break;
                }
                LinkStep::NeedQuestionId { source, source_qid } => {
                    assert_eq!(source, 1);
                    lookups += 1;
                    db_qid = Some(100 + source_qid);
                }
                LinkStep::NeedTopic { name } => {
                    created.push(name.clone());
                    index.insert(name, 1 + created.len() as i32);
                }
            }
        }
    }
    assert_eq!(created, vec!["Hash Table".to_string(), "Tree".to_string()]);
    assert_eq!(lookups, 3);
    let pairs: Vec<(i32, i32)> = all_links.iter().map(|link| (link.qid, link.tid)).collect();
    assert_eq!(pairs, vec![(101, 1), (101, 2), (102, 1), (104, 3), (104, 2), (104, 3)]);
}

#[test]
fn the_catalog_is_fetched_only_into_an_empty_store() {
    assert!(preload_needed(0));
    assert!(!preload_needed(1));
    assert!(!preload_needed(2300));
}

#[test]
fn replies_hand_out_what_they_carry() {
    let list = QuestionList { questions: vec![catalog_question("1", "Easy", &["Array"])] };
    let reply = QuestionListResponse {
        data: ProblemsetQuestionList { problemsetQuestionList: list.clone() },
    };
    assert_eq!(reply.into_questions(), list);
    let reply = PromptResponse {
        data: QuestionPrompt { question: QuestionPromptContent { content: "<p>two sum</p>".to_string() } },
    };
    assert_eq!(reply.into_content(), "<p>two sum</p>");
}
