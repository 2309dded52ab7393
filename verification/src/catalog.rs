//! What the external catalog answers, in the shape of its replies.

use vstd::prelude::*;

verus! {

/// A topic tag as the catalog names it.
#[derive(Clone, Debug, PartialEq, Eq)]
pub struct ResponseTopic {
    pub name: String,
    pub id: String,
    pub slug: String,
}

/// A question as the catalog lists it. The id is the catalog's own number,
/// written as text.
#[allow(non_snake_case)]
#[derive(Clone, Debug, PartialEq, Eq)]
pub struct ResponseQuestion {
    pub difficulty: String,
    pub questionId: String,
    pub title: String,
    pub titleSlug: String,
    pub topicTags: Vec<ResponseTopic>,
}

/// A batch of questions.
#[derive(Clone, Debug, PartialEq, Eq)]
pub struct QuestionList {
    pub questions: Vec<ResponseQuestion>,
}

/// The payload of a reply to the list query.
#[allow(non_snake_case)]
#[derive(Clone, Debug, PartialEq, Eq)]
pub struct ProblemsetQuestionList {
    pub problemsetQuestionList: QuestionList,
}

/// A reply to the list query.
#[derive(Clone, Debug, PartialEq, Eq)]
pub struct QuestionListResponse {
    pub data: ProblemsetQuestionList,
}

/// The long-form prompt of one question, as markup.
#[derive(Clone, Debug, PartialEq, Eq)]
pub struct QuestionPromptContent {
    pub content: String,
}

/// The payload of a reply to the prompt query.
#[derive(Clone, Debug, PartialEq, Eq)]
pub struct QuestionPrompt {
    pub question: QuestionPromptContent,
}

/// A reply to the prompt query.
#[derive(Clone, Debug, PartialEq, Eq)]
pub struct PromptResponse {
    pub data: QuestionPrompt,
}

impl QuestionListResponse {
    /// The batch of questions that the reply carries.
    pub fn into_questions(self) -> (list: QuestionList)
        ensures
            list == self.data.problemsetQuestionList,
    {
        self.data.problemsetQuestionList
    }
}

impl PromptResponse {
    /// The prompt that the reply carries.
    pub fn into_content(self) -> (content: String)
        ensures
            content == self.data.question.content,
    {
        self.data.question.content
    }
}

} // verus!
