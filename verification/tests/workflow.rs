//! Tests of the full workflow: registration, authorization, exam
//! management and the certification sequence.

use blockademy::service::Service;
use blockademy::types::{AppError, Level, Question, Role};

const ALICE: u64 = 1;
const BOB: u64 = 2;

fn question(text: &str, choices: &[&str], correct: u8, points: u8) -> Question {
    Question {
        text: text.to_string(),
        choices: choices.iter().map(|c| c.to_string()).collect(),
        correct_index: correct,
        points,
        categories: Vec::new(),
        difficulty: 0,
    }
}

/// Registers the caller and makes them an admin through the seeding helper.
fn admin_service(caller: u64) -> Service {
    let mut s = Service::new();
    s.register_user(caller, "admin".to_string(), 100);
    s.create_test_data(caller);
    s
}

fn paris_exam(s: &mut Service, caller: u64) -> u64 {
    s.create_exam(
        caller,
        "General Knowledge Test".to_string(),
        "Testers".to_string(),
        vec![
            question("What is the capital of France?", &["Paris", "London", "Berlin"], 0, 10),
            question("2 + 2 = ?", &["3", "4", "5"], 1, 10),
        ],
        Level::Beginner,
    )
    .expect("admin can create an exam")
}

#[test]
fn test_register_user_creates_student_record() {
    let mut s = Service::new();
    let u = s.register_user(ALICE, "alice".to_string(), 42);
    assert_eq!(u.principal, ALICE);
    assert_eq!(u.username, "alice");
    assert_eq!(u.role, Role::Student);
    assert!(u.certificates.is_empty());
    assert_eq!(u.created_at, 42);
    assert_eq!(u.last_login, 42);
}

#[test]
fn test_register_twice_refreshes_without_duplicate() {
    let mut s = Service::new();
    s.register_user(ALICE, "alice".to_string(), 42);
    let again = s.register_user(ALICE, "other-name".to_string(), 99);
    assert_eq!(again.principal, ALICE);
    assert_eq!(again.username, "alice");
    assert_eq!(again.created_at, 42);
    assert_eq!(again.last_login, 99);
    assert!(again.certificates.is_empty());
    let mut admin = admin_service(BOB);
    admin.register_user(ALICE, "alice".to_string(), 1);
    admin.register_user(ALICE, "alice".to_string(), 2);
    let users = admin.list_users(BOB).expect("admin lists users");
    assert_eq!(users.iter().filter(|u| u.principal == ALICE).count(), 1);
    assert_eq!(users.len(), 2);
}

#[test]
fn test_get_user_data_requires_registration() {
    let mut s = Service::new();
    assert!(matches!(s.get_user_data(ALICE), Err(AppError::Unauthorized)));
    s.register_user(ALICE, "alice".to_string(), 7);
    let u = s.get_user_data(ALICE).expect("registered caller has a profile");
    assert_eq!(u.username, "alice");
}

#[test]
fn test_non_admin_create_exam_unauthorized_and_no_mutation() {
    let mut s = Service::new();
    s.register_user(ALICE, "alice".to_string(), 1);
    let before = s.list_exams().len();
    let r = s.create_exam(ALICE, "t".to_string(), "o".to_string(), Vec::new(), Level::Beginner);
    assert!(matches!(r, Err(AppError::Unauthorized)));
    assert_eq!(s.list_exams().len(), before);
    let r = s.create_exam(BOB, "t".to_string(), "o".to_string(), Vec::new(), Level::Beginner);
    assert!(matches!(r, Err(AppError::Unauthorized)));
    assert_eq!(s.list_exams().len(), before);
}

#[test]
fn test_non_admin_delete_exam_unauthorized_and_no_mutation() {
    let mut s = admin_service(ALICE);
    let id = paris_exam(&mut s, ALICE);
    s.register_user(BOB, "bob".to_string(), 1);
    assert!(matches!(s.delete_exam(BOB, id), Err(AppError::Unauthorized)));
    assert!(s.get_exam(id).is_ok());
}

#[test]
fn test_non_admin_promote_unauthorized_and_no_mutation() {
    let mut s = Service::new();
    s.register_user(ALICE, "alice".to_string(), 1);
    s.register_user(BOB, "bob".to_string(), 1);
    assert!(matches!(s.promote_to_admin(ALICE, BOB), Err(AppError::Unauthorized)));
    assert_eq!(s.get_user_data(BOB).expect("bob is registered").role, Role::Student);
}

#[test]
fn test_non_admin_list_users_unauthorized() {
    let mut s = Service::new();
    s.register_user(ALICE, "alice".to_string(), 1);
    assert!(matches!(s.list_users(ALICE), Err(AppError::Unauthorized)));
    assert!(matches!(s.list_users(BOB), Err(AppError::Unauthorized)));
}

#[test]
fn test_promote_flow() {
    let mut s = admin_service(ALICE);
    s.register_user(BOB, "bob".to_string(), 1);
    assert!(matches!(s.promote_to_admin(ALICE, 99), Err(AppError::NotFound)));
    s.promote_to_admin(ALICE, BOB).expect("admin promotes a registered user");
    assert_eq!(s.get_user_data(BOB).expect("bob is registered").role, Role::Admin);
    assert!(s.list_users(BOB).is_ok());
}

#[test]
fn test_list_exams_requires_no_authorization() {
    let mut s = admin_service(ALICE);
    paris_exam(&mut s, ALICE);
    assert_eq!(s.list_exams().len(), 1);
}

#[test]
fn test_exam_ids_increase_by_one() {
    let mut s = admin_service(ALICE);
    let a = paris_exam(&mut s, ALICE);
    let b = paris_exam(&mut s, ALICE);
    let c = paris_exam(&mut s, ALICE);
    assert_eq!(b, a + 1);
    assert_eq!(c, b + 1);
}

#[test]
fn test_submit_answers_scores_and_awards_certificate() {
    let mut s = admin_service(ALICE);
    let id = paris_exam(&mut s, ALICE);
    s.register_user(BOB, "bob".to_string(), 5);
    let score = s
        .submit_answers(BOB, id, vec!["Paris".to_string(), "4".to_string()], 6)
        .expect("registered caller submits");
    assert_eq!(score, 20);
    let score = s
        .submit_answers(BOB, id, vec!["London".to_string(), "4".to_string()], 7)
        .expect("retakes are permitted");
    assert_eq!(score, 10);
    let score = s.submit_answers(BOB, id, Vec::new(), 8).expect("empty submission");
    assert_eq!(score, 0);
    let bob = s.get_user_data(BOB).expect("bob is registered");
    assert_eq!(bob.certificates, vec![0, 1, 2]);
}

#[test]
fn test_submit_answers_unregistered_unauthorized() {
    let mut s = admin_service(ALICE);
    let id = paris_exam(&mut s, ALICE);
    let r = s.submit_answers(BOB, id, vec!["Paris".to_string()], 1);
    assert!(matches!(r, Err(AppError::Unauthorized)));
}

#[test]
fn test_submit_nonexistent_exam_not_found_consumes_no_id() {
    let mut s = admin_service(ALICE);
    let id = paris_exam(&mut s, ALICE);
    s.register_user(BOB, "bob".to_string(), 1);
    assert_eq!(s.next_certificate_id(), 0);
    let r = s.submit_answers(BOB, 999, vec!["Paris".to_string()], 2);
    assert!(matches!(r, Err(AppError::NotFound)));
    let bob = s.get_user_data(BOB).expect("bob is registered");
    assert!(bob.certificates.is_empty());
    assert_eq!(s.next_certificate_id(), 0);
    // The refused submission happened before id allocation, so the first
    // successful submission still receives certificate id zero.
    s.submit_answers(BOB, id, vec!["Paris".to_string()], 3).expect("exam exists");
    let bob = s.get_user_data(BOB).expect("bob is registered");
    assert_eq!(bob.certificates, vec![0]);
    assert_eq!(s.next_certificate_id(), 1);
}

#[test]
fn test_delete_exam_twice_not_found() {
    let mut s = admin_service(ALICE);
    let id = paris_exam(&mut s, ALICE);
    s.delete_exam(ALICE, id).expect("first delete succeeds");
    assert!(matches!(s.delete_exam(ALICE, id), Err(AppError::NotFound)));
    assert!(matches!(s.get_exam(id), Err(AppError::NotFound)));
}

#[test]
fn test_deleting_exam_keeps_awarded_certificates() {
    let mut s = admin_service(ALICE);
    let id = paris_exam(&mut s, ALICE);
    s.register_user(BOB, "bob".to_string(), 1);
    s.submit_answers(BOB, id, vec!["Paris".to_string(), "4".to_string()], 2).expect("submits");
    s.delete_exam(ALICE, id).expect("delete succeeds");
    let bob = s.get_user_data(BOB).expect("bob is registered");
    assert_eq!(bob.certificates, vec![0]);
}

#[test]
fn test_create_test_data_seeds_exam_and_promotes() {
    let mut s = Service::new();
    s.register_user(ALICE, "alice".to_string(), 1);
    // The exam creation inside the helper is admin-gated, so the first call
    // only promotes the caller; the second call can then create the exam.
    s.create_test_data(ALICE);
    assert_eq!(s.get_user_data(ALICE).expect("alice is registered").role, Role::Admin);
    assert_eq!(s.list_exams().len(), 0);
    s.create_test_data(ALICE);
    let exams = s.list_exams();
    assert_eq!(exams.len(), 1);
    assert_eq!(exams[0].title, "General Knowledge Test");
    assert_eq!(exams[0].organization_name, "Testers");
    assert_eq!(exams[0].questions.len(), 2);
    let score = s
        .submit_answers(ALICE, exams[0].id, vec!["Paris".to_string(), "4".to_string()], 9)
        .expect("alice is registered");
    assert_eq!(score, 20);
}
