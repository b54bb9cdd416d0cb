//! Tests of the individual components: id allocation, grading, the
//! question store and the category index.

use blockademy::counter::IdCounter;
use blockademy::grading::grade;
use blockademy::service::Service;
use blockademy::types::{AppError, Level, Question};

fn question(text: &str, choices: &[&str], correct: u8, points: u8) -> Question {
    Question {
        text: text.to_string(),
        choices: choices.iter().map(|c| c.to_string()).collect(),
        correct_index: correct,
        points,
        categories: Vec::new(),
        difficulty: 0,
    }
}

fn tagged_question(text: &str, categories: &[&str]) -> (String, Vec<String>, u8, u8, Vec<String>, u8) {
    (
        text.to_string(),
        vec!["a".to_string(), "b".to_string()],
        0,
        5,
        categories.iter().map(|c| c.to_string()).collect(),
        1,
    )
}

#[test]
fn test_id_counter_starts_at_zero_and_steps_by_one() {
    let mut c = IdCounter::new();
    assert_eq!(c.peek(), 0);
    assert_eq!(c.next(), 0);
    assert_eq!(c.next(), 1);
    assert_eq!(c.next(), 2);
    assert_eq!(c.peek(), 3);
}

#[test]
fn test_two_counters_are_independent() {
    let mut a = IdCounter::new();
    let mut b = IdCounter::new();
    assert_eq!(a.next(), 0);
    assert_eq!(a.next(), 1);
    assert_eq!(b.next(), 0);
    assert_eq!(a.next(), 2);
    assert_eq!(b.next(), 1);
}

#[test]
fn test_grading_two_questions_all_correct() {
    let exam = blockademy::types::Exam {
        id: 0,
        title: "t".to_string(),
        organization_name: "o".to_string(),
        questions: vec![
            question("Q1", &["Paris", "London"], 0, 10),
            question("Q2", &["3", "4"], 1, 10),
        ],
        level: Level::Beginner,
    };
    let answers = vec!["Paris".to_string(), "4".to_string()];
    assert_eq!(grade(&exam, &answers), 20);
    let answers = vec!["London".to_string(), "4".to_string()];
    assert_eq!(grade(&exam, &answers), 10);
    let answers: Vec<String> = Vec::new();
    assert_eq!(grade(&exam, &answers), 0);
    let answers = vec![
        "Paris".to_string(),
        "4".to_string(),
        "extra".to_string(),
        "more".to_string(),
    ];
    assert_eq!(grade(&exam, &answers), 20);
}

#[test]
fn test_grading_out_of_range_correct_index_never_matches() {
    let exam = blockademy::types::Exam {
        id: 0,
        title: "t".to_string(),
        organization_name: "o".to_string(),
        questions: vec![
            question("broken", &["only"], 7, 10),
            question("fine", &["x", "y"], 0, 3),
        ],
        level: Level::Advanced,
    };
    let answers = vec!["only".to_string(), "x".to_string()];
    assert_eq!(grade(&exam, &answers), 3);
}

#[test]
fn test_grading_is_case_sensitive_and_exact() {
    let exam = blockademy::types::Exam {
        id: 0,
        title: "t".to_string(),
        organization_name: "o".to_string(),
        questions: vec![question("Q", &["Paris"], 0, 10)],
        level: Level::Beginner,
    };
    assert_eq!(grade(&exam, &vec!["paris".to_string()]), 0);
    assert_eq!(grade(&exam, &vec!["Paris ".to_string()]), 0);
    assert_eq!(grade(&exam, &vec!["Paris".to_string()]), 10);
}

#[test]
fn test_store_question_ids_increase_by_one() {
    let mut s = Service::new();
    let (t, c, ci, p, g, d) = tagged_question("one", &["alpha"]);
    assert_eq!(s.store_question(t, c, ci, p, g, d), 0);
    let (t, c, ci, p, g, d) = tagged_question("two", &["alpha"]);
    assert_eq!(s.store_question(t, c, ci, p, g, d), 1);
    let (t, c, ci, p, g, d) = tagged_question("three", &[]);
    assert_eq!(s.store_question(t, c, ci, p, g, d), 2);
}

#[test]
fn test_get_question_roundtrip_and_missing() {
    let mut s = Service::new();
    let (t, c, ci, p, g, d) = tagged_question("one", &["alpha", "beta"]);
    let id = s.store_question(t, c, ci, p, g, d);
    let q = s.get_question(id).expect("stored question must be found");
    assert_eq!(q.text, "one");
    assert_eq!(q.choices, vec!["a".to_string(), "b".to_string()]);
    assert_eq!(q.correct_index, 0);
    assert_eq!(q.points, 5);
    assert_eq!(q.categories, vec!["alpha".to_string(), "beta".to_string()]);
    assert_eq!(q.difficulty, 1);
    assert!(s.get_question(id + 1).is_none());
}

#[test]
fn test_index_insert_then_lookup_finds_id_under_both_labels() {
    let mut s = Service::new();
    let (t, c, ci, p, g, d) = tagged_question("q", &["geo", "capitals"]);
    let id = s.store_question(t, c, ci, p, g, d);
    let geo = s.get_genre_questions(&"geo".to_string(), 1000);
    assert!(geo.iter().any(|q| q.text == "q"));
    let caps = s.get_genre_questions(&"capitals".to_string(), 1000);
    assert!(caps.iter().any(|q| q.text == "q"));
    assert_eq!(id, 0);
}

#[test]
fn test_lookup_unknown_category_is_empty_not_an_error() {
    let mut s = Service::new();
    let (t, c, ci, p, g, d) = tagged_question("q", &["geo"]);
    s.store_question(t, c, ci, p, g, d);
    let r = s.get_genre_questions(&"no-such-category".to_string(), 10);
    assert!(r.is_empty());
    let r = s.get_genre_questions(&"geo".to_string(), 0);
    assert!(r.is_empty());
}

#[test]
fn test_lookup_respects_limit() {
    let mut s = Service::new();
    for i in 0..3 {
        let (t, c, ci, p, g, d) = tagged_question(&format!("q{}", i), &["shared"]);
        s.store_question(t, c, ci, p, g, d);
    }
    assert_eq!(s.get_genre_questions(&"shared".to_string(), 2).len(), 2);
    assert_eq!(s.get_genre_questions(&"shared".to_string(), 3).len(), 3);
    assert_eq!(s.get_genre_questions(&"shared".to_string(), 1000).len(), 3);
    for q in s.get_genre_questions(&"shared".to_string(), 1000) {
        assert!(q.categories.contains(&"shared".to_string()));
    }
}

#[test]
fn test_duplicate_labels_index_once() {
    let mut s = Service::new();
    let (t, c, ci, p, _, d) = tagged_question("q", &[]);
    let g = vec!["dup".to_string(), "dup".to_string()];
    s.store_question(t, c, ci, p, g, d);
    assert_eq!(s.get_genre_questions(&"dup".to_string(), 1000).len(), 1);
}

#[test]
fn test_get_exam_not_found() {
    let s = Service::new();
    assert!(matches!(s.get_exam(0), Err(AppError::NotFound)));
}
