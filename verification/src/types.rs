//! The shared data model: users, exams, questions, certificates.
//!
//! Caller identities arrive from the transport layer as plain `u64` values,
//! and timestamps as plain `u64` clock readings; neither is interpreted
//! here. Each record type has a mathematical view over which every contract
//! speaks: strings become `Seq<char>`, vectors become sequences.

use vstd::prelude::*;
use crate::store::Record;

verus! {

/// A caller identity, resolved by the transport layer before a call.
pub type Identity = u64;

/// A clock reading, supplied by the transport layer at each call.
pub type Timestamp = u64;

/// Why an operation was refused.
#[derive(Clone, Copy, Debug, PartialEq, Eq, Structural)]
pub enum AppError {
    /// The requested entity does not exist.
    NotFound,
    /// The caller lacks the required registration or role.
    Unauthorized,
}

/// The capability tier of a registered user.
#[derive(Clone, Copy, Debug, PartialEq, Eq, Structural)]
pub enum Role {
    Student,
    Teacher,
    Admin,
}

/// The difficulty tier of an exam.
#[derive(Clone, Copy, Debug, PartialEq, Eq, Structural)]
pub enum Level {
    Beginner,
    Intermediate,
    Advanced,
}

/// A multiple-choice question.
pub struct Question {
    pub text: String,
    /// The answer choices, in presentation order.
    pub choices: Vec<String>,
    /// The index of the correct choice; out-of-range values are tolerated
    /// and simply never match a submitted answer.
    pub correct_index: u8,
    /// The points this question adds to the score when answered correctly.
    pub points: u8,
    /// Category labels for the secondary index; may be empty.
    pub categories: Vec<String>,
    pub difficulty: u8,
}

/// The mathematical content of a `Question`.
#[verifier::ext_equal]
pub struct QuestionView {
    pub text: Seq<char>,
    pub choices: Seq<Seq<char>>,
    pub correct_index: u8,
    pub points: u8,
    pub categories: Seq<Seq<char>>,
    pub difficulty: u8,
}

impl View for Question {
    type V = QuestionView;

    open spec fn view(&self) -> QuestionView {
        QuestionView {
            text: self.text@,
            choices: self.choices.deep_view(),
            correct_index: self.correct_index,
            points: self.points,
            categories: self.categories.deep_view(),
            difficulty: self.difficulty,
        }
    }
}

impl DeepView for Question {
    type V = QuestionView;

    open spec fn deep_view(&self) -> QuestionView {
        self.view()
    }
}

/// A registered user. Created on first contact from an identity, refreshed
/// on every later contact, never deleted.
pub struct User {
    /// The caller identity; unique, immutable, and the store key.
    pub principal: Identity,
    pub username: String,
    pub role: Role,
    /// The ids of the certificates this user has earned, in award order.
    pub certificates: Vec<u64>,
    pub created_at: Timestamp,
    pub last_login: Timestamp,
}

/// The mathematical content of a `User`.
#[verifier::ext_equal]
pub struct UserView {
    pub principal: Identity,
    pub username: Seq<char>,
    pub role: Role,
    pub certificates: Seq<u64>,
    pub created_at: Timestamp,
    pub last_login: Timestamp,
}

impl View for User {
    type V = UserView;

    open spec fn view(&self) -> UserView {
        UserView {
            principal: self.principal,
            username: self.username@,
            role: self.role,
            certificates: self.certificates@,
            created_at: self.created_at,
            last_login: self.last_login,
        }
    }
}

/// An exam: an ordered sequence of questions under a title.
pub struct Exam {
    /// Allocator-assigned id; unique, immutable, and the store key.
    pub id: u64,
    pub title: String,
    pub organization_name: String,
    pub questions: Vec<Question>,
    pub level: Level,
}

/// The mathematical content of an `Exam`.
#[verifier::ext_equal]
pub struct ExamView {
    pub id: u64,
    pub title: Seq<char>,
    pub organization_name: Seq<char>,
    pub questions: Seq<QuestionView>,
    pub level: Level,
}

impl View for Exam {
    type V = ExamView;

    open spec fn view(&self) -> ExamView {
        ExamView {
            id: self.id,
            title: self.title@,
            organization_name: self.organization_name@,
            questions: self.questions.deep_view(),
            level: self.level,
        }
    }
}

/// The record of one graded exam submission. Created exactly once per
/// successful submission; never mutated or deleted. Retakes are permitted,
/// so several certificates may pair the same user with the same exam.
#[derive(Clone, Copy, Debug)]
pub struct Certificate {
    /// Allocator-assigned id; unique, immutable, and the store key.
    pub id: u64,
    /// The exam this certificate was awarded for; the exam may since have
    /// been deleted.
    pub exam_id: u64,
    /// The identity the certificate was awarded to.
    pub user: Identity,
    /// The computed score of the graded submission.
    pub score: u128,
    pub awarded_at: Timestamp,
}

impl View for Certificate {
    type V = Certificate;

    open spec fn view(&self) -> Certificate {
        *self
    }
}

/// Duplicates a vector of ids.
pub fn dup_ids(v: &Vec<u64>) -> (r: Vec<u64>)
    ensures
        r@ == v@,
{
    let mut r: Vec<u64> = Vec::new();
    let mut i: usize = 0;
    while i < v.len()
        invariant
            i <= v@.len(),
            r@ == v@.take(i as int),
        decreases v@.len() - i,
    {
        r.push(v[i]);
        proof {
            assert(r@ =~= v@.take(i + 1));
        }
        i = i + 1;
    }
    proof {
        assert(v@.take(v@.len() as int) =~= v@);
    }
    r
}

/// Duplicates a vector of strings; the duplicate denotes the same sequence
/// of character sequences.
pub fn dup_strings(v: &Vec<String>) -> (r: Vec<String>)
    ensures
        r.deep_view() == v.deep_view(),
        r@.len() == v@.len(),
        forall|i: int| 0 <= i < v@.len() ==> r@[i]@ == #[trigger] v@[i]@,
{
    let mut r: Vec<String> = Vec::new();
    let mut i: usize = 0;
    while i < v.len()
        invariant
            i <= v@.len(),
            r@.len() == i,
            forall|j: int| 0 <= j < i ==> r@[j]@ == #[trigger] v@[j]@,
        decreases v@.len() - i,
    {
        let s = v[i].clone();
        r.push(s);
        i = i + 1;
    }
    proof {
        assert(r.deep_view() =~= v.deep_view());
    }
    r
}

/// Duplicates a vector of questions; the duplicate denotes the same
/// sequence of question views.
pub fn dup_questions(v: &Vec<Question>) -> (r: Vec<Question>)
    ensures
        r.deep_view() == v.deep_view(),
        r@.len() == v@.len(),
        forall|i: int| 0 <= i < v@.len() ==> r@[i]@ == #[trigger] v@[i]@,
{
    let mut r: Vec<Question> = Vec::new();
    let mut i: usize = 0;
    while i < v.len()
        invariant
            i <= v@.len(),
            r@.len() == i,
            forall|j: int| 0 <= j < i ==> r@[j]@ == #[trigger] v@[j]@,
        decreases v@.len() - i,
    {
        let q = v[i].dup();
        r.push(q);
        i = i + 1;
    }
    proof {
        assert(r.deep_view() =~= v.deep_view());
    }
    r
}

impl Record for Question {
    fn dup(&self) -> (r: Self) {
        Question {
            text: self.text.clone(),
            choices: dup_strings(&self.choices),
            correct_index: self.correct_index,
            points: self.points,
            categories: dup_strings(&self.categories),
            difficulty: self.difficulty,
        }
    }
}

impl Record for User {
    fn dup(&self) -> (r: Self) {
        User {
            principal: self.principal,
            username: self.username.clone(),
            role: self.role,
            certificates: dup_ids(&self.certificates),
            created_at: self.created_at,
            last_login: self.last_login,
        }
    }
}

impl Record for Exam {
    fn dup(&self) -> (r: Self) {
        Exam {
            id: self.id,
            title: self.title.clone(),
            organization_name: self.organization_name.clone(),
            questions: dup_questions(&self.questions),
            level: self.level,
        }
    }
}

impl Record for Certificate {
    fn dup(&self) -> (r: Self) {
        *self
    }
}

} // verus!
