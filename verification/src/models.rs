//! Rows of the relational store, as they are read and as they are written.

use vstd::prelude::*;

verus! {

/// A question of the catalog as the store holds it.
#[derive(Clone, Debug, PartialEq, Eq)]
pub struct Question {
    pub qid: i32,
    pub title: String,
    pub title_slug: Option<String>,
    pub prompt: Option<String>,
    pub difficulty: Option<String>,
    pub source: Option<i32>,
    pub source_qid: Option<i32>,
}

/// A topic tag. Names are unique and case-sensitive.
#[derive(Clone, Debug, PartialEq, Eq)]
pub struct Topic {
    pub tid: i32,
    pub name: String,
}

/// One link between a question and a topic.
#[derive(Clone, Copy, Debug, PartialEq, Eq)]
pub struct QuestionTopic {
    pub relid: i32,
    pub qid: i32,
    pub tid: i32,
}

/// A bookmark: the row is there when the user starred the question.
#[derive(Clone, Copy, Debug, PartialEq, Eq)]
pub struct Star {
    pub relid: i32,
    pub qid: i32,
    pub uid: i32,
}

/// A user and their display preferences.
#[derive(Clone, Debug, PartialEq, Eq)]
pub struct User {
    pub uid: i32,
    pub name: String,
    pub hide_diff: bool,
    pub hide_cat: bool,
    pub hide_solved: bool,
    pub dark_mode: bool,
}

/// A solved marker: the row is there when the user solved the question.
#[derive(Clone, Debug, PartialEq, Eq)]
pub struct Solution {
    pub sid: i32,
    pub uid: i32,
    pub qid: i32,
    pub notes: String,
}

/// A question that is about to be inserted.
#[derive(Clone, Debug, PartialEq, Eq)]
pub struct NewQuestion {
    pub title: String,
    pub title_slug: String,
    pub prompt: String,
    pub difficulty: String,
    pub source: i32,
    pub source_qid: i32,
}

/// A topic that is about to be inserted.
#[derive(Clone, Debug, PartialEq, Eq)]
pub struct NewTopic {
    pub name: String,
}

/// A question-topic link that is about to be inserted.
#[derive(Clone, Copy, Debug, PartialEq, Eq)]
pub struct NewQuestionTopic {
    pub qid: i32,
    pub tid: i32,
}

} // verus!
