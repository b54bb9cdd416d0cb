//! The grading engine.
//!
//! A submission is an ordered sequence of answer strings. Position `i` is
//! graded against question `i`: when the question's stored correct-choice
//! index is in range and the submitted string equals that choice exactly
//! (case-sensitive), the question's point value is added to the score.
//! Positions beyond the shorter of the two sequences are not graded, and an
//! out-of-range correct-choice index simply never matches.

use vstd::prelude::*;
use crate::types::{Exam, QuestionView};

verus! {

/// The points one graded position earns.
pub open spec fn answer_score(q: QuestionView, answer: Seq<char>) -> int {
    if q.correct_index < q.choices.len() && q.choices[q.correct_index as int] == answer {
        q.points as int
    } else {
        0
    }
}

/// How many positions a submission grades: one per answer, and none beyond
/// the exam's question count.
pub open spec fn graded_count(qs: Seq<QuestionView>, answers: Seq<Seq<char>>) -> int {
    if answers.len() < qs.len() {
        answers.len() as int
    } else {
        qs.len() as int
    }
}

/// The summed score of the first `n` graded positions.
pub open spec fn grade_up_to(qs: Seq<QuestionView>, answers: Seq<Seq<char>>, n: int) -> int
    decreases n,
{
    if n <= 0 {
        0
    } else {
        grade_up_to(qs, answers, n - 1) + answer_score(qs[n - 1], answers[n - 1])
    }
}

/// The score of a submission: the summed points of every graded position
/// whose answer matches the question's correct choice.
pub open spec fn spec_grade(qs: Seq<QuestionView>, answers: Seq<Seq<char>>) -> int {
    grade_up_to(qs, answers, graded_count(qs, answers))
}

/// Scores are non-negative and at most 255 points per graded position.
pub proof fn lemma_grade_bounds(qs: Seq<QuestionView>, answers: Seq<Seq<char>>, n: int)
    ensures
        0 <= grade_up_to(qs, answers, n) <= (if n <= 0 {
            0
        } else {
            255 * n
        }),
    decreases n,
{
    if n > 0 {
        lemma_grade_bounds(qs, answers, n - 1);
    }
}

/// Grades a submission against an exam.
pub fn grade(exam: &Exam, answers: &Vec<String>) -> (score: u128)
    ensures
        score == spec_grade(exam@.questions, answers.deep_view()),
{
    let ghost qs = exam@.questions;
    let ghost ans = answers.deep_view();
    let n = if answers.len() < exam.questions.len() {
        answers.len()
    } else {
        exam.questions.len()
    };
    proof {
        assert(n == graded_count(qs, ans));
    }
    let mut score: u128 = 0;
    let mut i: usize = 0;
    while i < n
        invariant
            n == graded_count(qs, ans),
            qs == exam@.questions,
            ans == answers.deep_view(),
            n <= answers@.len() && n <= exam.questions@.len(),
            i <= n,
            score == grade_up_to(qs, ans, i as int),
        decreases n - i,
    {
        proof {
            lemma_grade_bounds(qs, ans, i as int);
        }
        let q = &exam.questions[i];
        proof {
            assert(q@ == qs[i as int]);
            assert(ans[i as int] == answers@[i as int]@);
        }
        let ci = q.correct_index as usize;
        if ci < q.choices.len() {
            proof {
                assert(q@.choices[ci as int] == q.choices@[ci as int]@);
            }
            if answers[i] == q.choices[ci] {
                score = score + q.points as u128;
            }
        }
        proof {
            assert(score == grade_up_to(qs, ans, i + 1));
        }
        i = i + 1;
    }
    score
}

} // verus!
