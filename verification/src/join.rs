//! The join that the query reads: every question with the stars and
//! solutions of one user and with its topic links, each side optional.

use crate::models::{Question, QuestionTopic, Solution, Star};
use crate::query::QuestionStarQTopicSolutionJoin;
use vstd::prelude::*;
use vstd::seq_lib::*;

verus! {

/// The stars that join a question for a user: those of that question that
/// belong to that user, and to nobody else.
pub open spec fn star_joins(qid: i32, uid: i32) -> spec_fn(Star) -> bool {
    |star: Star| star.qid == qid && star.uid == uid
}

/// The topic links that join a question: those of that question.
pub open spec fn link_joins(qid: i32) -> spec_fn(QuestionTopic) -> bool {
    |link: QuestionTopic| link.qid == qid
}

/// The solutions that join a question for a user: those of that question
/// that belong to that user, and to nobody else.
pub open spec fn solution_joins(qid: i32, uid: i32) -> spec_fn(Solution) -> bool {
    |solution: Solution| solution.qid == qid && solution.uid == uid
}

/// One side of a left outer join: each matching row, or a single absent
/// companion where no row matches.
pub open spec fn or_absent<T>(matching: Seq<T>) -> Seq<Option<T>> {
    if matching.len() == 0 {
        seq![None]
    } else {
        matching.map_values(|row: T| Some(row))
    }
}

/// Completes a row by its solution.
pub open spec fn with_solution(
    question: Question,
    star: Option<Star>,
    link: Option<QuestionTopic>,
) -> spec_fn(Option<Solution>) -> QuestionStarQTopicSolutionJoin {
    |solution: Option<Solution>| (question, star, link, solution)
}

/// The rows of a question, a star and a link: one per solution.
pub open spec fn with_link(
    question: Question,
    star: Option<Star>,
    solutions: Seq<Option<Solution>>,
) -> spec_fn(Option<QuestionTopic>) -> Seq<QuestionStarQTopicSolutionJoin> {
    |link: Option<QuestionTopic>| solutions.map_values(with_solution(question, star, link))
}

/// The rows of a question and a star: those of each link in turn.
pub open spec fn with_star(
    question: Question,
    links: Seq<Option<QuestionTopic>>,
    solutions: Seq<Option<Solution>>,
) -> spec_fn(Option<Star>) -> Seq<QuestionStarQTopicSolutionJoin> {
    |star: Option<Star>| links.map_values(with_link(question, star, solutions)).flatten()
}

/// The rows of one question: every combination of one of its stars, one of
/// its links and one of its solutions, the stars changing slowest.
pub open spec fn combinations(
    question: Question,
    stars: Seq<Option<Star>>,
    links: Seq<Option<QuestionTopic>>,
    solutions: Seq<Option<Solution>>,
) -> Seq<QuestionStarQTopicSolutionJoin> {
    stars.map_values(with_star(question, links, solutions)).flatten()
}

/// The rows that a question gets in the join for user `uid`.
pub open spec fn question_rows(
    uid: i32,
    stars: Seq<Star>,
    links: Seq<QuestionTopic>,
    solutions: Seq<Solution>,
) -> spec_fn(Question) -> Seq<QuestionStarQTopicSolutionJoin> {
    |question: Question|
        combinations(
            question,
            or_absent(stars.filter(star_joins(question.qid, uid))),
            or_absent(links.filter(link_joins(question.qid))),
            or_absent(solutions.filter(solution_joins(question.qid, uid))),
        )
}

/// The left outer join of the questions with the stars of user `uid`, the
/// topic links and the solutions of user `uid`: the rows of each question
/// in turn, in the order of the questions.
pub open spec fn joined(
    uid: i32,
    questions: Seq<Question>,
    stars: Seq<Star>,
    links: Seq<QuestionTopic>,
    solutions: Seq<Solution>,
) -> Seq<QuestionStarQTopicSolutionJoin> {
    questions.map_values(question_rows(uid, stars, links, solutions)).flatten()
}

proof fn lemma_map_one_more<A, B>(s: Seq<A>, k: int, f: spec_fn(A) -> B)
    requires
        0 <= k < s.len(),
    ensures
        s.take(k + 1).map_values(f) == s.take(k).map_values(f).push(f(s[k])),
{
    assert(s.take(k + 1).map_values(f) =~= s.take(k).map_values(f).push(f(s[k])));
}

proof fn lemma_flatten_one_more<A, B>(s: Seq<A>, k: int, f: spec_fn(A) -> Seq<B>)
    requires
        0 <= k < s.len(),
    ensures
        s.take(k + 1).map_values(f).flatten() == s.take(k).map_values(f).flatten() + f(s[k]),
{
    lemma_map_one_more(s, k, f);
    s.take(k).map_values(f).lemma_flatten_push(f(s[k]));
}

fn copy_text(text: &Option<String>) -> (copy: Option<String>)
    ensures
        copy == *text,
{
    match text {
        Some(t) => Some(t.clone()),
        None => None,
    }
}

fn copy_question(question: &Question) -> (copy: Question)
    ensures
        copy == *question,
{
    Question {
        qid: question.qid,
        title: question.title.clone(),
        title_slug: copy_text(&question.title_slug),
        prompt: copy_text(&question.prompt),
        difficulty: copy_text(&question.difficulty),
        source: question.source,
        source_qid: question.source_qid,
    }
}

fn copy_solution(solution: &Solution) -> (copy: Solution)
    ensures
        copy == *solution,
{
    Solution {
        sid: solution.sid,
        uid: solution.uid,
        qid: solution.qid,
        notes: solution.notes.clone(),
    }
}

fn stars_of(stars: &Vec<Star>, qid: i32, uid: i32) -> (side: Vec<Option<Star>>)
    ensures
        side@ == or_absent(stars@.filter(star_joins(qid, uid))),
{
    let ghost joins = star_joins(qid, uid);
    let ghost present = |row: Star| Some(row);
    let mut side: Vec<Option<Star>> = Vec::new();
    let mut i: usize = 0;
    proof {
        assert(stars@.take(0) =~= Seq::<Star>::empty());
        stars@.take(0).lemma_filter_len(joins);
    }
    while i < stars.len()
        invariant
            i <= stars.len(),
            joins == star_joins(qid, uid),
            present == (|row: Star| Some(row)),
            side@ =~= stars@.take(i as int).filter(joins).map_values(present),
        decreases stars.len() - i,
    {
        let star = stars[i];
        proof {
            assert(stars@.take(i + 1) =~= stars@.take(i as int).push(star));
            stars@.take(i as int).lemma_filter_push(star, joins);
        }
        if star.qid == qid && star.uid == uid {
            side.push(Some(star));
        }
        i += 1;
    }
    assert(stars@.take(i as int) =~= stars@);
    if side.len() == 0 {
        side.push(None);
        assert(side@ =~= seq![None::<Star>]);
    }
    side
}

fn links_of(links: &Vec<QuestionTopic>, qid: i32) -> (side: Vec<Option<QuestionTopic>>)
    ensures
        side@ == or_absent(links@.filter(link_joins(qid))),
{
    let ghost joins = link_joins(qid);
    let ghost present = |row: QuestionTopic| Some(row);
    let mut side: Vec<Option<QuestionTopic>> = Vec::new();
    let mut i: usize = 0;
    proof {
        assert(links@.take(0) =~= Seq::<QuestionTopic>::empty());
        links@.take(0).lemma_filter_len(joins);
    }
    while i < links.len()
        invariant
            i <= links.len(),
            joins == link_joins(qid),
            present == (|row: QuestionTopic| Some(row)),
            side@ =~= links@.take(i as int).filter(joins).map_values(present),
        decreases links.len() - i,
    {
        let link = links[i];
        proof {
            assert(links@.take(i + 1) =~= links@.take(i as int).push(link));
            links@.take(i as int).lemma_filter_push(link, joins);
        }
        if link.qid == qid {
            side.push(Some(link));
        }
        i += 1;
    }
    assert(links@.take(i as int) =~= links@);
    if side.len() == 0 {
        side.push(None);
        assert(side@ =~= seq![None::<QuestionTopic>]);
    }
    side
}

fn solutions_of(solutions: &Vec<Solution>, qid: i32, uid: i32) -> (side: Vec<Option<Solution>>)
    ensures
        side@ == or_absent(solutions@.filter(solution_joins(qid, uid))),
{
    let ghost joins = solution_joins(qid, uid);
    let ghost present = |row: Solution| Some(row);
    let mut side: Vec<Option<Solution>> = Vec::new();
    let mut i: usize = 0;
    proof {
        assert(solutions@.take(0) =~= Seq::<Solution>::empty());
        solutions@.take(0).lemma_filter_len(joins);
    }
    while i < solutions.len()
        invariant
            i <= solutions.len(),
            joins == solution_joins(qid, uid),
            present == (|row: Solution| Some(row)),
            side@ =~= solutions@.take(i as int).filter(joins).map_values(present),
        decreases solutions.len() - i,
    {
        let solution = &solutions[i];
        proof {
            assert(solutions@.take(i + 1) =~= solutions@.take(i as int).push(*solution));
            solutions@.take(i as int).lemma_filter_push(*solution, joins);
        }
        if solution.qid == qid && solution.uid == uid {
            side.push(Some(copy_solution(solution)));
        }
        i += 1;
    }
    assert(solutions@.take(i as int) =~= solutions@);
    if side.len() == 0 {
        side.push(None);
        assert(side@ =~= seq![None::<Solution>]);
    }
    side
}

fn push_solutions(
    rows: &mut Vec<QuestionStarQTopicSolutionJoin>,
    question: &Question,
    star: Option<Star>,
    link: Option<QuestionTopic>,
    solutions: &Vec<Option<Solution>>,
)
    ensures
        final(rows)@ == old(rows)@ + with_link(*question, star, solutions@)(link),
{
    let ghost row_of = with_solution(*question, star, link);
    let mut i: usize = 0;
    assert(solutions@.take(0).map_values(row_of) =~= Seq::<QuestionStarQTopicSolutionJoin>::empty());
    while i < solutions.len()
        invariant
            i <= solutions.len(),
            row_of == with_solution(*question, star, link),
            rows@ =~= old(rows)@ + solutions@.take(i as int).map_values(row_of),
        decreases solutions.len() - i,
    {
        let solution = match &solutions[i] {
            Some(s) => Some(copy_solution(s)),
            None => None,
        };
        proof {
            lemma_map_one_more(solutions@, i as int, row_of);
        }
        rows.push((copy_question(question), star, link, solution));
        i += 1;
    }
    assert(solutions@.take(i as int) =~= solutions@);
}

fn push_links(
    rows: &mut Vec<QuestionStarQTopicSolutionJoin>,
    question: &Question,
    star: Option<Star>,
    links: &Vec<Option<QuestionTopic>>,
    solutions: &Vec<Option<Solution>>,
)
    ensures
        final(rows)@ == old(rows)@ + with_star(*question, links@, solutions@)(star),
{
    let ghost rows_of = with_link(*question, star, solutions@);
    let mut i: usize = 0;
    assert(links@.take(0).map_values(rows_of) =~= Seq::<
        Seq<QuestionStarQTopicSolutionJoin>,
    >::empty());
    while i < links.len()
        invariant
            i <= links.len(),
            rows_of == with_link(*question, star, solutions@),
            rows@ =~= old(rows)@ + links@.take(i as int).map_values(rows_of).flatten(),
        decreases links.len() - i,
    {
        proof {
            lemma_flatten_one_more(links@, i as int, rows_of);
        }
        push_solutions(rows, question, star, links[i], solutions);
        i += 1;
    }
    assert(links@.take(i as int) =~= links@);
}

fn push_stars(
    rows: &mut Vec<QuestionStarQTopicSolutionJoin>,
    question: &Question,
    stars: &Vec<Option<Star>>,
    links: &Vec<Option<QuestionTopic>>,
    solutions: &Vec<Option<Solution>>,
)
    ensures
        final(rows)@ == old(rows)@ + combinations(*question, stars@, links@, solutions@),
{
    let ghost rows_of = with_star(*question, links@, solutions@);
    let mut i: usize = 0;
    assert(stars@.take(0).map_values(rows_of) =~= Seq::<
        Seq<QuestionStarQTopicSolutionJoin>,
    >::empty());
    while i < stars.len()
        invariant
            i <= stars.len(),
            rows_of == with_star(*question, links@, solutions@),
            rows@ =~= old(rows)@ + stars@.take(i as int).map_values(rows_of).flatten(),
        decreases stars.len() - i,
    {
        proof {
            lemma_flatten_one_more(stars@, i as int, rows_of);
        }
        push_links(rows, question, stars[i], links, solutions);
        i += 1;
    }
    assert(stars@.take(i as int) =~= stars@);
}

/// Joins the questions with what user `uid` starred and solved and with
/// their topic links.
///
/// A question without a star, a link or a solution appears once, with that
/// companion absent; one with several appears once for each combination.
/// Stars and solutions of other users take no part: they neither appear nor
/// keep a question from appearing with the companion absent.
pub fn join_question_soln_topic_star(
    uid: i32,
    questions: &Vec<Question>,
    stars: &Vec<Star>,
    links: &Vec<QuestionTopic>,
    solutions: &Vec<Solution>,
) -> (rows: Vec<QuestionStarQTopicSolutionJoin>)
    ensures
        rows@ == joined(uid, questions@, stars@, links@, solutions@),
{
    let ghost rows_of = question_rows(uid, stars@, links@, solutions@);
    let mut rows: Vec<QuestionStarQTopicSolutionJoin> = Vec::new();
    let mut i: usize = 0;
    assert(questions@.take(0).map_values(rows_of) =~= Seq::<
        Seq<QuestionStarQTopicSolutionJoin>,
    >::empty());
    while i < questions.len()
        invariant
            i <= questions.len(),
            rows_of == question_rows(uid, stars@, links@, solutions@),
            rows@ =~= questions@.take(i as int).map_values(rows_of).flatten(),
        decreases questions.len() - i,
    {
        let question = &questions[i];
        let own_stars = stars_of(stars, question.qid, uid);
        let own_links = links_of(links, question.qid);
        let own_solutions = solutions_of(solutions, question.qid, uid);
        proof {
            lemma_flatten_one_more(questions@, i as int, rows_of);
        }
        push_stars(&mut rows, question, &own_stars, &own_links, &own_solutions);
        i += 1;
    }
    assert(questions@.take(i as int) =~= questions@);
    rows
}

/// The companions of a row belong to the row's question, and its star and
/// its solution belong to user `uid`.
pub open spec fn scoped_to(row: QuestionStarQTopicSolutionJoin, uid: i32) -> bool {
    &&& row.1 matches Some(star) ==> star.qid == row.0.qid && star.uid == uid
    &&& row.2 matches Some(link) ==> link.qid == row.0.qid
    &&& row.3 matches Some(solution) ==> solution.qid == row.0.qid && solution.uid == uid
}

proof fn lemma_flattened_from<A>(parts: Seq<Seq<A>>, i: int) -> (at: (int, int))
    requires
        0 <= i < parts.flatten().len(),
    ensures
        0 <= at.0 < parts.len(),
        0 <= at.1 < parts[at.0].len(),
        parts.flatten()[i] == parts[at.0][at.1],
    decreases parts.len(),
{
    if i < parts.first().len() {
        (0, i)
    } else {
        let rest = parts.drop_first();
        let deeper = lemma_flattened_from(rest, i - parts.first().len());
        assert(rest[deeper.0] == parts[deeper.0 + 1]);
        (deeper.0 + 1, deeper.1)
    }
}

proof fn lemma_side_is_matching<T>(all: Seq<T>, joins: spec_fn(T) -> bool, k: int)
    requires
        0 <= k < or_absent(all.filter(joins)).len(),
    ensures
        or_absent(all.filter(joins))[k] matches Some(row) ==> joins(row) && all.contains(row),
{
    let matching = all.filter(joins);
    if matching.len() > 0 {
        all.lemma_filter_pred(joins, k);
        assert(matching.contains(matching[k]));
        all.lemma_filter_contains_rev(joins, matching[k]);
    }
}

/// No row of the join carries anything of another user or of another
/// question: its question is one of the questions, and each companion that
/// is present is a row that was given, of that question and, for a star or
/// a solution, of user `uid`.
pub proof fn lemma_join_is_scoped(
    uid: i32,
    questions: Seq<Question>,
    stars: Seq<Star>,
    links: Seq<QuestionTopic>,
    solutions: Seq<Solution>,
    i: int,
)
    requires
        0 <= i < joined(uid, questions, stars, links, solutions).len(),
    ensures
        ({
            let row = joined(uid, questions, stars, links, solutions)[i];
            &&& scoped_to(row, uid)
            &&& questions.contains(row.0)
            &&& row.1 matches Some(star) ==> stars.contains(star)
            &&& row.2 matches Some(link) ==> links.contains(link)
            &&& row.3 matches Some(solution) ==> solutions.contains(solution)
        }),
{
    let per_question = questions.map_values(question_rows(uid, stars, links, solutions));
    let at = lemma_flattened_from(per_question, i);
    let question = questions[at.0];
    assert(questions.contains(question));
    let own_stars = or_absent(stars.filter(star_joins(question.qid, uid)));
    let own_links = or_absent(links.filter(link_joins(question.qid)));
    let own_solutions = or_absent(solutions.filter(solution_joins(question.qid, uid)));
    let per_star = own_stars.map_values(with_star(question, own_links, own_solutions));
    assert(per_question[at.0] == per_star.flatten());
    let in_star = lemma_flattened_from(per_star, at.1);
    let star = own_stars[in_star.0];
    let per_link = own_links.map_values(with_link(question, star, own_solutions));
    assert(per_star[in_star.0] == per_link.flatten());
    let in_link = lemma_flattened_from(per_link, in_star.1);
    let link = own_links[in_link.0];
    let solution = own_solutions[in_link.1];
    assert(joined(uid, questions, stars, links, solutions)[i] == (question, star, link, solution));
    lemma_side_is_matching(stars, star_joins(question.qid, uid), in_star.0);
    lemma_side_is_matching(links, link_joins(question.qid), in_link.0);
    lemma_side_is_matching(solutions, solution_joins(question.qid, uid), in_link.1);
}

/// A question with one star and one solution, or none, has one row per
/// topic link, each with that same star and solution; with no link either
/// it has exactly one row, its companions absent.
pub proof fn lemma_rows_follow_links(
    question: Question,
    star: Option<Star>,
    links: Seq<Option<QuestionTopic>>,
    solution: Option<Solution>,
)
    ensures
        combinations(question, seq![star], links, seq![solution]) == links.map_values(
            |link: Option<QuestionTopic>| (question, star, link, solution),
        ),
        combinations(question, seq![None], seq![None], seq![None]) == seq![
            (question, None::<Star>, None::<QuestionTopic>, None::<Solution>),
        ],
{
    lemma_rows_of_single_star(question, star, links, solution);
    lemma_rows_of_single_star(question, None, seq![None], None);
    assert(seq![None::<QuestionTopic>].map_values(
        |link: Option<QuestionTopic>| (question, None::<Star>, link, None::<Solution>),
    ) =~= seq![(question, None::<Star>, None::<QuestionTopic>, None::<Solution>)]);
}

proof fn lemma_rows_of_single_star(
    question: Question,
    star: Option<Star>,
    links: Seq<Option<QuestionTopic>>,
    solution: Option<Solution>,
)
    ensures
        combinations(question, seq![star], links, seq![solution]) == links.map_values(
            |link: Option<QuestionTopic>| (question, star, link, solution),
        ),
{
    let solutions = seq![solution];
    let per_star = seq![star].map_values(with_star(question, links, solutions));
    per_star.lemma_flatten_singleton();
    let per_link = links.map_values(with_link(question, star, solutions));
    assert(per_star[0] == per_link.flatten());
    lemma_flatten_of_singles(
        links,
        with_link(question, star, solutions),
        |link: Option<QuestionTopic>| (question, star, link, solution),
    );
}

proof fn lemma_flatten_of_singles<A, B>(s: Seq<A>, many: spec_fn(A) -> Seq<B>, one: spec_fn(A) -> B)
    requires
        forall|x: A| #[trigger] many(x) =~= seq![one(x)],
    ensures
        s.map_values(many).flatten() == s.map_values(one),
    decreases s.len(),
{
    if s.len() == 0 {
        assert(s.map_values(many).flatten() =~= s.map_values(one));
    } else {
        let shorter = s.drop_last();
        lemma_flatten_of_singles(shorter, many, one);
        assert(s.map_values(many) =~= shorter.map_values(many).push(many(s.last())));
        shorter.map_values(many).lemma_flatten_push(many(s.last()));
        assert(s.map_values(one) =~= shorter.map_values(one).push(one(s.last())));
        assert(many(s.last()) =~= seq![one(s.last())]);
    }
}

} // verus!
