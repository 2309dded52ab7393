use std::collections::{HashMap, HashSet};
use study_tracker::models::{Question, QuestionTopic, Solution, Star};
use study_tracker::query::{
    empty_query_option, filter_question_soln_topic_join, QuestionOptions, QuestionQueryResult,
    QuestionStarQTopicSolutionJoin, SOURCELESS_QUESTION_SOURCE_ID, TOPICLESS_QUESTION_TOPIC_ID,
};
use study_tracker::ranges::invalid_range;

#[test]
fn test_empty_query_option_none_fields() {
    let mut test_options = QuestionOptions {
        user: 1,
        diff: None,
        topics: Some(vec![1]),
        solved: Some(vec![true]),
        source_ids: Some(vec![1]),
        starred: Some(vec![true]),
        range: Some(vec![(1, 2)]),
    };
    assert_eq!(empty_query_option(&test_options), false);
    test_options.diff = Some(vec!["EASY".to_string()]);
    test_options.topics = None;
    assert_eq!(empty_query_option(&test_options), false);
    test_options.topics = Some(vec![1]);
    test_options.solved = None;
    assert_eq!(empty_query_option(&test_options), false);
    test_options.solved = Some(vec![true]);
    test_options.source_ids = None;
    assert_eq!(empty_query_option(&test_options), false);
    test_options.source_ids = Some(vec![1]);
    test_options.starred = None;
    assert_eq!(empty_query_option(&test_options), false);
    test_options.starred = Some(vec![true]);
    test_options.range = None;
    assert_eq!(empty_query_option(&test_options), false);
}

#[test]
fn test_empty_query_option_zero_len_fields() {
    let mut test_options = QuestionOptions {
        user: 1,
        diff: Some(vec![]),
        topics: None,
        solved: None,
        source_ids: None,
        starred: None,
        range: None,
    };
    assert_eq!(empty_query_option(&test_options), true);
    test_options.diff = None;
    test_options.topics = Some(vec![]);
    assert_eq!(empty_query_option(&test_options), true);
    test_options.topics = None;
    test_options.solved = Some(vec![]);
    assert_eq!(empty_query_option(&test_options), true);
    test_options.solved = None;
    test_options.source_ids = Some(vec![]);
    assert_eq!(empty_query_option(&test_options), true);
    test_options.source_ids = None;
    test_options.starred = Some(vec![]);
    assert_eq!(empty_query_option(&test_options), true);
    test_options.starred = None;
    test_options.range = Some(vec![]);
    assert_eq!(empty_query_option(&test_options), true);
}


const TEST_QUESTIONS: i32 = 20;
const EASY: &str = "EASY";
const MEDIUM: &str = "MEDIUM";
const HARD: &str = "HARD";
#[test]
fn test_filter_question_soln_topic_join_no_range_spec() {
    let test_options = QuestionOptions {
        user: 1,
        diff: None, topics: None, solved: None, 
        source_ids: None, starred: None, range: None,
    };

    let mut join_rows: Vec<QuestionStarQTopicSolutionJoin> = vec![];
    let mut expected_result_map: HashMap<i32, QuestionQueryResult> = HashMap::new();
    for test_qid in 1..TEST_QUESTIONS + 1 {
        let test_q = Question {
            qid: test_qid, 
            title: "test_question".to_string(), 

            title_slug: None, prompt: None, difficulty: Some(EASY.to_string()), 
            source: None, source_qid: None 
        };
        join_rows.push((test_q, None, None, None));

        let test_query_result = QuestionQueryResult {
            qid: test_qid,
            title: "test_question".to_string(),

            topics: vec![], starred: false, solved: false,
            title_slug: None, prompt: None, difficulty: Some(EASY.to_string()), 
            source: None, source_qid: None
        };
        expected_result_map.insert(test_qid, test_query_result);
    }

    let filter_result = filter_question_soln_topic_join(test_options, join_rows);
    assert!(filter_result.len() == TEST_QUESTIONS as usize);
    assert!(filter_result_hashmaps_match(filter_result, expected_result_map));
    
}

#[test]
fn test_invalid_range_1() {
    let valid_range = vec![(2, 3), (1, 1), (100, 10000)];
    assert!(invalid_range(valid_range) == false);
}
#[test]
fn test_invalid_range_2() {
    let invalid = vec![(1, 2), (4, 3)];
    assert!(invalid_range(invalid));
}
#[test]
fn test_invalid_range_3() {
    let invalid = vec![(1, 4), (1, 6)];
    assert!(invalid_range(invalid));
}

#[test]
fn test_filter_question_soln_topic_join_range_spec_1() {
    // NOTE: invalid ranges detected before the filterer gets called
    let test_range = vec![(1, 1), (4, 5), (9, 17)]; 
    let num_filtered = 1 + 2 + 9;
    let test_options = QuestionOptions {
        user: 1,
        diff: None, topics: None, solved: None, 
        source_ids: None, starred: None, 
        range: Some(test_range.clone()),
    };

    let mut join_rows: Vec<QuestionStarQTopicSolutionJoin> = vec![];
    let mut expected_result_map: HashMap<i32, QuestionQueryResult> = HashMap::new();
    for test_qid in 1..TEST_QUESTIONS + 1 {
        let test_q = Question {
            qid: test_qid, 
            title: "test_question".to_string(), 

            title_slug: None, prompt: None, difficulty: Some(EASY.to_string()), 
            source: None, source_qid: None 
        };
        join_rows.push((test_q, None, None, None));

        for (start, stop) in &test_range {
            if test_qid >= *start && test_qid <= *stop {
                let test_query_result = QuestionQueryResult {
                    qid: test_qid,
                    title: "test_question".to_string(),

                    topics: vec![], starred: false, solved: false,
                    title_slug: None, prompt: None, difficulty: Some(EASY.to_string()), 
                    source: None, source_qid: None
                };
                expected_result_map.insert(test_qid, test_query_result);
                break;
            }
        }
    }

    let filter_result = filter_question_soln_topic_join(test_options, join_rows);
    assert!(filter_result.len() == num_filtered);
    assert!(filter_result_hashmaps_match(filter_result, expected_result_map));
}

#[test]
fn test_filter_question_soln_topic_join_include_sourceless() {
    let test_options = QuestionOptions {
        user: 1,
        source_ids: Some(vec![SOURCELESS_QUESTION_SOURCE_ID]),

        diff: None, topics: None, solved: None, starred: None, range: None,
    };

    let mut join_rows: Vec<QuestionStarQTopicSolutionJoin> = vec![];
    let mut expected_result_map: HashMap<i32, QuestionQueryResult> = HashMap::new();
    for test_qid in 1..TEST_QUESTIONS + 1 {
        let test_source_id = test_qid % 4;
        let test_q = Question {
            qid: test_qid, 
            title: "test_question".to_string(), 
            source: Some(test_source_id), 

            title_slug: None, prompt: None, difficulty: Some(EASY.to_string()), 
            source_qid: None,
        };
        join_rows.push((test_q, None, None, None));

        if test_source_id == SOURCELESS_QUESTION_SOURCE_ID {
            let test_query_result = QuestionQueryResult {
                qid: test_qid,
                title: "test_question".to_string(),
                source: Some(test_source_id),

                topics: vec![], starred: false, solved: false,
                title_slug: None, prompt: None, difficulty: Some(EASY.to_string()), 
                source_qid: None, 
            };
            expected_result_map.insert(test_qid, test_query_result);
        }
    }

    let filter_result = filter_question_soln_topic_join(test_options, join_rows);
    assert!(filter_result.len() as i32 == TEST_QUESTIONS / 4);
    assert!(filter_result_hashmaps_match(filter_result, expected_result_map));
}

#[test]
fn test_filter_question_soln_topic_join_include_topicless() {
    let test_options = QuestionOptions {
        user: 1,
        topics: Some(vec![TOPICLESS_QUESTION_TOPIC_ID]),

        diff: None, source_ids: None, solved: None, starred: None, range: None,
    };

    let mut join_rows: Vec<QuestionStarQTopicSolutionJoin> = vec![];
    let mut expected_result_map: HashMap<i32, QuestionQueryResult> = HashMap::new();
    for test_qid in 1..TEST_QUESTIONS + 1 {
        let test_topic_id = test_qid % 4;
        let test_q = Question {
            qid: test_qid, 
            title: "test_question".to_string(), 

            title_slug: None, prompt: None, difficulty: Some(EASY.to_string()), 
            source_qid: None, source: None, 
        };
        let test_qt = QuestionTopic {
            relid: test_qid,
            qid: test_qid,
            tid: test_topic_id
        };
        
        if test_topic_id == TOPICLESS_QUESTION_TOPIC_ID {
            let test_query_result = QuestionQueryResult {
                qid: test_qid,
                title: "test_question".to_string(),
                source: Some(test_topic_id),

                topics: vec![], starred: false, solved: false,
                title_slug: None, prompt: None, difficulty: Some(EASY.to_string()), 
                source_qid: None, 
            };

            expected_result_map.insert(test_qid, test_query_result);
            join_rows.push((test_q, None, None, None));
        }
        else {
            join_rows.push((test_q.clone(), None, Some(test_qt), None));
        }
    }

    let filter_result = filter_question_soln_topic_join(test_options, join_rows);
    assert!(filter_result.len() as i32 == TEST_QUESTIONS / 4);
    assert!(filter_result_hashmaps_match(filter_result, expected_result_map));
}

#[test]
fn test_filter_question_soln_topic_join_filter_difficulty() {
    const FILTERED_DIFFS: [&str; 2] = [EASY, HARD];
    const DIFFS: [&str; 3] = [EASY, MEDIUM, HARD];
    let test_options = QuestionOptions {
        user: 1,
        diff: Some(FILTERED_DIFFS.map(|s| s.to_string()).to_vec()), 

        source_ids: None, solved: None, starred: None, range: None, topics: None,
    };

    let mut join_rows: Vec<QuestionStarQTopicSolutionJoin> = vec![];
    let mut expected_result_map: HashMap<i32, QuestionQueryResult> = HashMap::new();
    let mut diff_idx = 0;
    let filtered_diff_set = HashSet::from(FILTERED_DIFFS);
    let mut num_filtered = 0;
    for test_qid in 1..TEST_QUESTIONS + 1 {
        let test_q = Question {
            qid: test_qid, 
            title: "test_question".to_string(), 
            difficulty: Some(DIFFS[diff_idx].to_string()),

            title_slug: None, prompt: None,  
            source_qid: None, source: None, 
        };

        join_rows.push((test_q, None, None, None));
        if filtered_diff_set.contains(DIFFS[diff_idx]) {
            num_filtered += 1;
            let test_query_result = QuestionQueryResult {
                qid: test_qid,
                title: "test_question".to_string(),
                difficulty: Some(DIFFS[diff_idx].to_string()), 

                topics: vec![], starred: false, solved: false,
                title_slug: None, prompt: None, 
                source_qid: None, source: None,
            };
            expected_result_map.insert(test_qid, test_query_result);
        }

        diff_idx += 1;
        if diff_idx == DIFFS.len() {
            diff_idx = 0;
        }
    }

    let filter_result = filter_question_soln_topic_join(test_options, join_rows);
    assert!(filter_result.len() == num_filtered);
    assert!(filter_result_hashmaps_match(filter_result, expected_result_map));
}

#[test]
fn test_filter_question_soln_topic_join_filter_topic() {
    const FILTERED_TOPICS: [i32; 3]= [TOPICLESS_QUESTION_TOPIC_ID, 1, 2];
    let test_options = QuestionOptions {
        user: 1,
        topics: Some(Vec::from(FILTERED_TOPICS)),

        diff: None, source_ids: None, solved: None, starred: None, range: None,
    };

    let mut join_rows: Vec<QuestionStarQTopicSolutionJoin> = vec![];
    let mut expected_result_map: HashMap<i32, QuestionQueryResult> = HashMap::new();
    let mut num_filtered = 0;
    for test_qid in 1..TEST_QUESTIONS + 1 {
        let test_topic_id = test_qid % 5;
        let test_q = Question {
            qid: test_qid, 
            title: "test_question".to_string(), 

            title_slug: None, prompt: None, difficulty: Some(EASY.to_string()), 
            source_qid: None, source: None, 
        };
        let test_qt = QuestionTopic {
            relid: test_qid,
            qid: test_qid,
            tid: test_topic_id
        };
        
        if FILTERED_TOPICS.contains(&test_topic_id) {
            num_filtered += 1;
            let test_query_result = QuestionQueryResult {
                qid: test_qid,
                title: "test_question".to_string(),
                source: Some(test_topic_id),

                topics: vec![], starred: false, solved: false,
                title_slug: None, prompt: None, difficulty: Some(EASY.to_string()), 
                source_qid: None, 
            };

            expected_result_map.insert(test_qid, test_query_result);
            join_rows.push((test_q, None, None, None));
        }
        else {
            join_rows.push((test_q.clone(), None, Some(test_qt), None));
        }
    }

    let filter_result = filter_question_soln_topic_join(test_options, join_rows);
    assert!(num_filtered == expected_result_map.len() as i32);
    assert!(filter_result_hashmaps_match(filter_result, expected_result_map));
}

#[test]
fn test_filter_question_soln_topic_join_filter_solved() {
    let test_options = QuestionOptions {
        user: 1,
        solved: Some(vec![true]),

        diff: None, topics: None,  
        source_ids: None, starred: None, range: None,
    };

    let mut join_rows: Vec<QuestionStarQTopicSolutionJoin> = vec![];
    let mut expected_result_map: HashMap<i32, QuestionQueryResult> = HashMap::new();
    for test_qid in 1..TEST_QUESTIONS + 1 {
        let test_q = Question {
            qid: test_qid, 
            title: "test_question".to_string(), 

            title_slug: None, prompt: None, difficulty: Some(EASY.to_string()), 
            source: None, source_qid: None 
        };
        
        if test_qid % 2 == 1 {
            let test_solution = Solution {
                sid: test_qid,
                uid: 1,
                qid: test_qid,
                notes: "test notes".to_string()
            };
            let test_query_result = QuestionQueryResult {
                qid: test_qid,
                title: "test_question".to_string(),
                solved: true,

                topics: vec![], starred: false,
                title_slug: None, prompt: None, difficulty: Some(EASY.to_string()), 
                source: None, source_qid: None
            };
            expected_result_map.insert(test_qid, test_query_result);
            join_rows.push((test_q, None, None, Some(test_solution)));
        }
        else {
            join_rows.push((test_q, None, None, None));
        }
    }

    let filter_result = filter_question_soln_topic_join(test_options, join_rows);
    assert!(filter_result.len() as i32 == TEST_QUESTIONS / 2);
    assert!(filter_result_hashmaps_match(filter_result, expected_result_map));
}

#[test]
fn test_filter_question_soln_topic_join_filter_source() {
    const FILTERED_SOURCES: [i32; 3] = [SOURCELESS_QUESTION_SOURCE_ID, 1, 2];
    let test_options = QuestionOptions {
        user: 1,
        source_ids: Some(Vec::from(FILTERED_SOURCES)),

        diff: None, topics: None, solved: None, starred: None, range: None,
    };

    let mut join_rows: Vec<QuestionStarQTopicSolutionJoin> = vec![];
    let mut expected_result_map: HashMap<i32, QuestionQueryResult> = HashMap::new();
    let mut num_filtered = 0;
    for test_qid in 1..TEST_QUESTIONS + 1 {
        let test_source_id = test_qid % 5;
        let test_q = Question {
            qid: test_qid, 
            title: "test_question".to_string(), 
            source: Some(test_source_id), 

            title_slug: None, prompt: None, difficulty: Some(EASY.to_string()), 
            source_qid: None,
        };
        join_rows.push((test_q, None, None, None));

        if FILTERED_SOURCES.contains(&test_source_id) {
            num_filtered += 1;
            let test_query_result = QuestionQueryResult {
                qid: test_qid,
                title: "test_question".to_string(),
                source: Some(test_source_id),

                topics: vec![], starred: false, solved: false,
                title_slug: None, prompt: None, difficulty: Some(EASY.to_string()), 
                source_qid: None, 
            };
            expected_result_map.insert(test_qid, test_query_result);
        }
    }

    let filter_result = filter_question_soln_topic_join(test_options, join_rows);
    assert!(filter_result.len() as i32 == num_filtered);
    assert!(filter_result_hashmaps_match(filter_result, expected_result_map));
}

#[test]
fn test_filter_question_soln_topic_join_filter_starred() {
    let test_options = QuestionOptions {
        user: 1,
        starred: Some(vec![true]),

        diff: None, topics: None,  
        source_ids: None, solved: None, range: None,
    };

    let mut join_rows: Vec<QuestionStarQTopicSolutionJoin> = vec![];
    let mut expected_result_map: HashMap<i32, QuestionQueryResult> = HashMap::new();
    for test_qid in 1..TEST_QUESTIONS + 1 {
        let test_q = Question {
            qid: test_qid, 
            title: "test_question".to_string(), 

            title_slug: None, prompt: None, difficulty: Some(EASY.to_string()), 
            source: None, source_qid: None 
        };
        
        if test_qid % 2 == 0 {
            let test_star = Star {
                relid: test_qid,
                uid: 1,
                qid: test_qid,
            };
            let test_query_result = QuestionQueryResult {
                qid: test_qid,
                title: "test_question".to_string(),
                starred: true,

                topics: vec![], solved: false,
                title_slug: None, prompt: None, difficulty: Some(EASY.to_string()), 
                source: None, source_qid: None
            };
            expected_result_map.insert(test_qid, test_query_result);
            join_rows.push((test_q, Some(test_star), None, None));
        }
        else {
            join_rows.push((test_q, None, None, None));
        }
    }

    let filter_result = filter_question_soln_topic_join(test_options, join_rows);
    assert!(filter_result.len() as i32 == TEST_QUESTIONS / 2);
    assert!(filter_result_hashmaps_match(filter_result, expected_result_map));
}

fn filter_result_hashmaps_match(map1: HashMap<i32, QuestionQueryResult>, map2: HashMap<i32, QuestionQueryResult>) -> bool {
    map1.len() == map2.len() && map1.keys().all(|k| map2.contains_key(k))
}
