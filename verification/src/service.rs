//! The service: record stores, counters and category index behind a
//! role-gated operation surface.
//!
//! A `Service` owns four keyed stores (users, exams, certificates,
//! questions), a category index over the question store, and one id counter
//! per allocator-assigned entity class. Every operation takes the caller
//! identity, and a clock reading where one is recorded, as plain values;
//! authorization is checked before any store is touched, so a refused call
//! leaves every store exactly as it was.

use vstd::prelude::*;
use crate::counter::IdCounter;
use crate::store::{Record, StoreMap};
use crate::types::{
    AppError, Certificate, Exam, ExamView, Identity, Level, Question, QuestionView, Role,
    Timestamp, User, UserView,
};
use crate::grading::{grade, spec_grade};
use crate::types::{dup_ids, dup_strings};

verus! {

/// Membership of an id under a label in a category index map.
pub open spec fn index_mem(m: Map<Seq<char>, Seq<u64>>, label: Seq<char>, id: u64) -> bool {
    m.contains_key(label) && m[label].contains(id)
}

/// Whether a question carries a category label.
pub open spec fn question_has_label(q: QuestionView, label: Seq<char>) -> bool {
    q.categories.contains(label)
}

/// The in-memory record store backing the exam and certification workflow.
pub struct Service {
    users: StoreMap<u64, User>,
    exams: StoreMap<u64, Exam>,
    certificates: StoreMap<u64, Certificate>,
    questions: StoreMap<u64, Question>,
    category_index: StoreMap<String, Vec<u64>>,
    exam_ids: IdCounter,
    certificate_ids: IdCounter,
    question_ids: IdCounter,
}

impl Service {
    /// The registered users, keyed by caller identity.
    pub closed spec fn users(&self) -> Map<u64, UserView> {
        self.users@
    }

    /// The stored exams, keyed by exam id.
    pub closed spec fn exams(&self) -> Map<u64, ExamView> {
        self.exams@
    }

    /// The issued certificates, keyed by certificate id.
    pub closed spec fn certificates(&self) -> Map<u64, Certificate> {
        self.certificates@
    }

    /// The standalone questions, keyed by question id.
    pub closed spec fn questions(&self) -> Map<u64, QuestionView> {
        self.questions@
    }

    /// The category index: each known label maps to the ids of the stored
    /// questions carrying it.
    pub closed spec fn index(&self) -> Map<Seq<char>, Seq<u64>> {
        self.category_index@
    }

    /// The next exam id to be allocated.
    pub closed spec fn exam_counter(&self) -> u64 {
        self.exam_ids@
    }

    /// The next certificate id to be allocated.
    pub closed spec fn certificate_counter(&self) -> u64 {
        self.certificate_ids@
    }

    /// The next question id to be allocated.
    pub closed spec fn question_counter(&self) -> u64 {
        self.question_ids@
    }

    /// The ids indexed under a label; unknown labels index nothing.
    pub open spec fn category_ids(&self, label: Seq<char>) -> Seq<u64> {
        if self.index().contains_key(label) {
            self.index()[label]
        } else {
            Seq::empty()
        }
    }

    /// The caller has a user record.
    pub open spec fn is_registered(&self, caller: Identity) -> bool {
        self.users().contains_key(caller)
    }

    /// The caller has a user record whose role is `Admin`.
    pub open spec fn is_admin(&self, caller: Identity) -> bool {
        self.is_registered(caller) && self.users()[caller].role == Role::Admin
    }

    /// The internal stores keep each key at most once.
    pub closed spec fn stores_wf(&self) -> bool {
        self.users.wf() && self.exams.wf() && self.certificates.wf() && self.questions.wf()
            && self.category_index.wf()
    }

    /// Well-formedness: every operation requires and preserves it.
    ///
    /// Each record is stored under its own key; every allocator-assigned key
    /// is below its class counter, so a freshly allocated id is never in
    /// use; and the category index is exactly consistent with the question
    /// store: an id is indexed under a label if and only if the stored
    /// question carries that label, each at most once per label.
    pub open spec fn wf(&self) -> bool {
        &&& self.stores_wf()
        &&& forall|k: u64| #[trigger] self.users().contains_key(k) ==> self.users()[k].principal == k
        &&& forall|k: u64|
            #[trigger] self.exams().contains_key(k) ==> self.exams()[k].id == k && k
                < self.exam_counter()
        &&& forall|k: u64|
            #[trigger] self.certificates().contains_key(k) ==> self.certificates()[k].id == k && k
                < self.certificate_counter()
        &&& forall|k: u64| #[trigger] self.questions().contains_key(k) ==> k < self.question_counter()
        &&& forall|label: Seq<char>, x: u64|
            index_mem(self.index(), label, x) ==> self.questions().contains_key(x)
                && question_has_label(self.questions()[x], label)
        &&& forall|x: u64, label: Seq<char>|
            self.questions().contains_key(x) && #[trigger] question_has_label(
                self.questions()[x],
                label,
            ) ==> index_mem(self.index(), label, x)
        &&& forall|label: Seq<char>|
            #[trigger] self.index().contains_key(label) ==> self.index()[label].no_duplicates()
    }

    /// Everything observable is as it was: no store, index or counter moved.
    pub open spec fn unchanged(pre: &Service, post: &Service) -> bool {
        &&& post.users() == pre.users()
        &&& post.exams() == pre.exams()
        &&& post.certificates() == pre.certificates()
        &&& post.questions() == pre.questions()
        &&& post.index() == pre.index()
        &&& post.exam_counter() == pre.exam_counter()
        &&& post.certificate_counter() == pre.certificate_counter()
        &&& post.question_counter() == pre.question_counter()
    }

    /// A fresh service: no records, no index entries, all counters at zero.
    pub fn new() -> (r: Self)
        ensures
            r.wf(),
            r.users() == Map::<u64, UserView>::empty(),
            r.exams() == Map::<u64, ExamView>::empty(),
            r.certificates() == Map::<u64, Certificate>::empty(),
            r.questions() == Map::<u64, QuestionView>::empty(),
            r.index() == Map::<Seq<char>, Seq<u64>>::empty(),
            r.exam_counter() == 0,
            r.certificate_counter() == 0,
            r.question_counter() == 0,
    {
        Service {
            users: StoreMap::new(),
            exams: StoreMap::new(),
            certificates: StoreMap::new(),
            questions: StoreMap::new(),
            category_index: StoreMap::new(),
            exam_ids: IdCounter::new(),
            certificate_ids: IdCounter::new(),
            question_ids: IdCounter::new(),
        }
    }

    /// Registered check: succeeds exactly when the caller has a user record.
    /// An unknown caller is refused, never silently admitted: absence of a
    /// record is an authorization failure, and every gated operation runs
    /// this check before touching any store.
    pub fn is_user_registered(&self, caller: Identity) -> (r: Result<(), AppError>)
        ensures
            r == (if self.is_registered(caller) {
                Ok::<(), AppError>(())
            } else {
                Err::<(), AppError>(AppError::Unauthorized)
            }),
    {
        if self.users.contains_key(&caller) {
            Ok(())
        } else {
            Err(AppError::Unauthorized)
        }
    }

    /// Admin check: the registered check, then the role must be `Admin`.
    pub fn is_user_admin(&self, caller: Identity) -> (r: Result<(), AppError>)
        requires
            self.wf(),
        ensures
            r == (if self.is_admin(caller) {
                Ok::<(), AppError>(())
            } else {
                Err::<(), AppError>(AppError::Unauthorized)
            }),
    {
        match self.is_user_registered(caller) {
            Err(e) => Err(e),
            Ok(()) => match self.users.get(&caller) {
                Some(u) => {
                    if u.role == Role::Admin {
                        Ok(())
                    } else {
                        Err(AppError::Unauthorized)
                    }
                }
                None => Err(AppError::Unauthorized),
            },
        }
    }

    /// Creates a user record on first contact from an identity, refreshes
    /// the last-login timestamp on every later contact; never duplicates
    /// and never fails. The answer is the stored record.
    pub fn register_user(&mut self, caller: Identity, username: String, now: Timestamp) -> (r:
        User)
        requires
            old(self).wf(),
        ensures
            final(self).wf(),
            final(self).users() == users_after_register(
                old(self).users(),
                caller,
                username@,
                now,
            ),
            r@ == final(self).users()[caller],
            final(self).exams() == old(self).exams(),
            final(self).certificates() == old(self).certificates(),
            final(self).questions() == old(self).questions(),
            final(self).index() == old(self).index(),
            final(self).exam_counter() == old(self).exam_counter(),
            final(self).certificate_counter() == old(self).certificate_counter(),
            final(self).question_counter() == old(self).question_counter(),
    {
        let refreshed: Option<User> = match self.users.get(&caller) {
            Some(u) => Some(
                User {
                    principal: u.principal,
                    username: u.username.clone(),
                    role: u.role,
                    certificates: dup_ids(&u.certificates),
                    created_at: u.created_at,
                    last_login: now,
                },
            ),
            None => None,
        };
        let nu = match refreshed {
            Some(nu) => {
                proof {
                    assert(old(self).users().contains_key(caller));
                    assert(nu@ == refreshed_user(old(self).users()[caller], now));
                }
                nu
            }
            None => User {
                principal: caller,
                username,
                role: Role::Student,
                certificates: Vec::new(),
                created_at: now,
                last_login: now,
            },
        };
        proof {
            assert(nu@ == (if old(self).users().contains_key(caller) {
                refreshed_user(old(self).users()[caller], now)
            } else {
                fresh_user(caller, nu.username@, now)
            }));
        }
        let r = nu.dup();
        self.users.insert(caller, nu);
        proof {
            assert forall|k: u64| #[trigger] self.users().contains_key(k) implies self.users()[k].principal
                == k by {
                if k != caller {
                    assert(old(self).users().contains_key(k));
                }
            }
            assert(self.certificates() == old(self).certificates());
            assert(self.questions() == old(self).questions());
            assert(self.exams() == old(self).exams());
            assert(self.index() == old(self).index());
        }
        r
    }

    /// The caller's own user record; refused when the caller is not
    /// registered.
    pub fn get_user_data(&self, caller: Identity) -> (r: Result<User, AppError>)
        requires
            self.wf(),
        ensures
            (match r {
                Ok(u) => self.is_registered(caller) && u@ == self.users()[caller],
                Err(e) => !self.is_registered(caller) && e == AppError::Unauthorized,
            }),
    {
        match self.is_user_registered(caller) {
            Err(e) => Err(e),
            Ok(()) => match self.users.get(&caller) {
                Some(u) => Ok(u.dup()),
                None => Err(AppError::Unauthorized),
            },
        }
    }

    /// Every user record, one per registered identity, in unspecified
    /// order; refused unless the caller is an admin.
    pub fn list_users(&self, caller: Identity) -> (r: Result<Vec<User>, AppError>)
        requires
            self.wf(),
        ensures
            (match r {
                Ok(us) => self.is_admin(caller) && us@.len() == self.users().dom().len() && (
                forall|i: int|
                    0 <= i < us@.len() ==> self.users().contains_key(
                        (#[trigger] us@[i])@.principal,
                    ) && self.users()[us@[i]@.principal] == us@[i]@) && (forall|k: u64|
                    #[trigger] self.users().contains_key(k) ==> exists|i: int|
                        0 <= i < us@.len() && (#[trigger] us@[i])@.principal == k),
                Err(e) => !self.is_admin(caller) && e == AppError::Unauthorized,
            }),
    {
        match self.is_user_admin(caller) {
            Err(e) => Err(e),
            Ok(()) => {
                let us = self.users.values();
                proof {
                    assert forall|i: int| 0 <= i < us@.len() implies self.users().contains_key(
                        (#[trigger] us@[i])@.principal,
                    ) && self.users()[us@[i]@.principal] == us@[i]@ by {
                        assert(self.users().contains_key(self.users.key_seq()[i]));
                        assert(us@[i]@ == self.users()[self.users.key_seq()[i]]);
                    }
                    assert forall|k: u64| #[trigger] self.users().contains_key(k) implies exists|
                        i: int,
                    | 0 <= i < us@.len() && (#[trigger] us@[i])@.principal == k by {
                        assert(self.users.key_seq().contains(k));
                        let i = choose|i: int|
                            0 <= i < self.users.key_seq().len() && self.users.key_seq()[i] == k;
                        assert(us@[i]@ == self.users()[k]);
                        assert(us@[i]@.principal == k);
                    }
                }
                Ok(us)
            }
        }
    }

    /// Promotes the target user to admin; refused unless the caller is an
    /// admin, and `NotFound` when the target has no user record. A refused
    /// call mutates nothing.
    pub fn promote_to_admin(&mut self, caller: Identity, target: Identity) -> (r: Result<
        (),
        AppError,
    >)
        requires
            old(self).wf(),
        ensures
            final(self).wf(),
            (match r {
                Ok(()) => old(self).is_admin(caller) && old(self).users().contains_key(target)
                    && final(self).users() == old(self).users().insert(
                    target,
                    (UserView { role: Role::Admin, ..old(self).users()[target] }),
                ) && final(self).exams() == old(self).exams() && final(self).certificates() == old(self).certificates() && final(self).questions() == old(self).questions() && final(self).index() == old(self).index() && final(self).exam_counter() == old(self).exam_counter() && final(self).certificate_counter() == old(self).certificate_counter() && final(self).question_counter() == old(self).question_counter(),
                Err(e) => Service::unchanged(old(self), final(self)) && !(old(self).is_admin(
                    caller,
                ) && old(self).users().contains_key(target)) && e == (if old(self).is_admin(
                    caller,
                ) {
                    AppError::NotFound
                } else {
                    AppError::Unauthorized
                }),
            }),
    {
        match self.is_user_admin(caller) {
            Err(e) => {
                return Err(e);
            }
            Ok(()) => {}
        }
        let promoted: Option<User> = match self.users.get(&target) {
            Some(u) => Some(
                User {
                    principal: u.principal,
                    username: u.username.clone(),
                    role: Role::Admin,
                    certificates: dup_ids(&u.certificates),
                    created_at: u.created_at,
                    last_login: u.last_login,
                },
            ),
            None => None,
        };
        match promoted {
            None => Err(AppError::NotFound),
            Some(nu) => {
                proof {
                    assert(nu@ == (UserView { role: Role::Admin, ..old(self).users()[target] }));
                }
                self.users.insert(target, nu);
                proof {
                    assert forall|k: u64| #[trigger] self.users().contains_key(k) implies self.users()[k].principal
                        == k by {
                        if k != target {
                            assert(old(self).users().contains_key(k));
                        }
                    }
                    assert(self.certificates() == old(self).certificates());
                    assert(self.questions() == old(self).questions());
                    assert(self.index() == old(self).index());
                }
                Ok(())
            }
        }
    }

    /// Every stored exam, one per exam id, in unspecified order; no
    /// authorization is required.
    pub fn list_exams(&self) -> (r: Vec<Exam>)
        requires
            self.wf(),
        ensures
            r@.len() == self.exams().dom().len(),
            forall|i: int|
                0 <= i < r@.len() ==> self.exams().contains_key((#[trigger] r@[i])@.id)
                    && self.exams()[r@[i]@.id] == r@[i]@,
            forall|k: u64|
                #[trigger] self.exams().contains_key(k) ==> exists|i: int|
                    0 <= i < r@.len() && (#[trigger] r@[i])@.id == k,
    {
        let r = self.exams.values();
        proof {
            assert forall|i: int| 0 <= i < r@.len() implies self.exams().contains_key(
                (#[trigger] r@[i])@.id,
            ) && self.exams()[r@[i]@.id] == r@[i]@ by {
                assert(self.exams().contains_key(self.exams.key_seq()[i]));
                assert(r@[i]@ == self.exams()[self.exams.key_seq()[i]]);
            }
            assert forall|k: u64| #[trigger] self.exams().contains_key(k) implies exists|i: int|
                0 <= i < r@.len() && (#[trigger] r@[i])@.id == k by {
                assert(self.exams.key_seq().contains(k));
                let i = choose|i: int|
                    0 <= i < self.exams.key_seq().len() && self.exams.key_seq()[i] == k;
                assert(r@[i]@ == self.exams()[k]);
                assert(r@[i]@.id == k);
            }
        }
        r
    }

    /// The exam stored under an id, or `NotFound`.
    pub fn get_exam(&self, exam_id: u64) -> (r: Result<Exam, AppError>)
        requires
            self.wf(),
        ensures
            (match r {
                Ok(e) => self.exams().contains_key(exam_id) && e@ == self.exams()[exam_id],
                Err(e) => !self.exams().contains_key(exam_id) && e == AppError::NotFound,
            }),
    {
        match self.exams.get(&exam_id) {
            Some(e) => Ok(e.dup()),
            None => Err(AppError::NotFound),
        }
    }

    /// Creates an exam under a freshly allocated id; refused unless the
    /// caller is an admin. A refused call mutates nothing, and in
    /// particular consumes no id.
    pub fn create_exam(
        &mut self,
        caller: Identity,
        title: String,
        organization_name: String,
        questions: Vec<Question>,
        level: Level,
    ) -> (r: Result<u64, AppError>)
        requires
            old(self).wf(),
            old(self).exam_counter() < u64::MAX,
        ensures
            final(self).wf(),
            (match r {
                Ok(id) => old(self).is_admin(caller) && id == old(self).exam_counter() && !old(self).exams().contains_key(id) && final(self).exam_counter() == old(self).exam_counter()
                    + 1 && final(self).exams() == old(self).exams().insert(
                    id,
                    (ExamView {
                        id,
                        title: title@,
                        organization_name: organization_name@,
                        questions: questions.deep_view(),
                        level,
                    }),
                ) && final(self).users() == old(self).users() && final(self).certificates() == old(self).certificates() && final(self).questions() == old(self).questions() && final(self).index() == old(self).index() && final(self).certificate_counter() == old(self).certificate_counter() && final(self).question_counter() == old(self).question_counter(),
                Err(e) => Service::unchanged(old(self), final(self)) && !old(self).is_admin(caller)
                    && e == AppError::Unauthorized,
            }),
    {
        match self.is_user_admin(caller) {
            Err(e) => {
                return Err(e);
            }
            Ok(()) => {}
        }
        let id = self.exam_ids.next();
        let exam = Exam { id, title, organization_name, questions, level };
        proof {
            assert(!old(self).exams().contains_key(id));
        }
        self.exams.insert(id, exam);
        proof {
            assert forall|k: u64| #[trigger] self.exams().contains_key(k) implies self.exams()[k].id
                == k && k < self.exam_counter() by {
                if k != id {
                    assert(old(self).exams().contains_key(k));
                }
            }
            assert(self.certificates() == old(self).certificates());
            assert(self.questions() == old(self).questions());
            assert(self.index() == old(self).index());
            assert(self.users() == old(self).users());
        }
        Ok(id)
    }

    /// Deletes the exam stored under an id; refused unless the caller is an
    /// admin, and `NotFound` when no exam is stored under it — in
    /// particular on an id already deleted. Removal is terminal: nothing
    /// else is touched, certificates already issued against the exam stay.
    pub fn delete_exam(&mut self, caller: Identity, exam_id: u64) -> (r: Result<(), AppError>)
        requires
            old(self).wf(),
        ensures
            final(self).wf(),
            (match r {
                Ok(()) => old(self).is_admin(caller) && old(self).exams().contains_key(exam_id)
                    && final(self).exams() == old(self).exams().remove(exam_id) && final(self).users() == old(self).users() && final(self).certificates() == old(self).certificates() && final(self).questions() == old(self).questions() && final(self).index() == old(self).index() && final(self).exam_counter() == old(self).exam_counter() && final(self).certificate_counter() == old(self).certificate_counter() && final(self).question_counter() == old(self).question_counter(),
                Err(e) => Service::unchanged(old(self), final(self)) && !(old(self).is_admin(
                    caller,
                ) && old(self).exams().contains_key(exam_id)) && e == (if old(self).is_admin(
                    caller,
                ) {
                    AppError::NotFound
                } else {
                    AppError::Unauthorized
                }),
            }),
    {
        match self.is_user_admin(caller) {
            Err(e) => {
                return Err(e);
            }
            Ok(()) => {}
        }
        let was_there = self.exams.remove(&exam_id);
        if !was_there {
            proof {
                assert(old(self).exams().remove(exam_id) =~= old(self).exams());
                assert(self.exams() == old(self).exams());
                assert forall|k: u64| #[trigger] self.exams().contains_key(k) implies self.exams()[k].id
                    == k && k < self.exam_counter() by {
                    assert(old(self).exams().contains_key(k));
                }
                assert(self.users() == old(self).users());
                assert(self.certificates() == old(self).certificates());
                assert(self.questions() == old(self).questions());
                assert(self.index() == old(self).index());
            }
            return Err(AppError::NotFound);
        }
        proof {
            assert forall|k: u64| #[trigger] self.exams().contains_key(k) implies self.exams()[k].id
                == k && k < self.exam_counter() by {
                assert(old(self).exams().contains_key(k));
            }
            assert(self.certificates() == old(self).certificates());
            assert(self.questions() == old(self).questions());
            assert(self.index() == old(self).index());
            assert(self.users() == old(self).users());
        }
        Ok(())
    }

    /// Grades a submission against the stored exam and issues a
    /// certificate: the Registered check, the exam fetch, grading,
    /// certificate-id allocation, certificate insertion and the user-record
    /// linkage behave as one unit of work. A refused call — unregistered
    /// caller or unknown exam id — happens before the id allocation, so it
    /// mutates nothing and consumes no certificate id.
    pub fn submit_answers(
        &mut self,
        caller: Identity,
        exam_id: u64,
        answers: Vec<String>,
        now: Timestamp,
    ) -> (r: Result<u128, AppError>)
        requires
            old(self).wf(),
            old(self).certificate_counter() < u64::MAX,
        ensures
            final(self).wf(),
            (match r {
                Ok(score) => old(self).is_registered(caller) && old(self).exams().contains_key(
                    exam_id,
                ) && score == spec_grade(old(self).exams()[exam_id].questions, answers.deep_view())
                    && final(self).certificate_counter() == old(self).certificate_counter() + 1 && ({
                    let cid = old(self).certificate_counter();
                    &&& !old(self).certificates().contains_key(cid)
                    &&& final(self).certificates() == old(self).certificates().insert(
                        cid,
                        (Certificate { id: cid, exam_id, user: caller, score, awarded_at: now }),
                    )
                    &&& final(self).users() == old(self).users().insert(
                        caller,
                        (UserView {
                            certificates: old(self).users()[caller].certificates.push(cid),
                            ..old(self).users()[caller]
                        }),
                    )
                }) && final(self).exams() == old(self).exams() && final(self).questions() == old(self).questions() && final(self).index() == old(self).index() && final(self).exam_counter() == old(self).exam_counter() && final(self).question_counter()
                    == old(self).question_counter(),
                Err(e) => Service::unchanged(old(self), final(self)) && !(old(self).is_registered(
                    caller,
                ) && old(self).exams().contains_key(exam_id)) && e == (if old(self).is_registered(
                    caller,
                ) {
                    AppError::NotFound
                } else {
                    AppError::Unauthorized
                }),
            }),
    {
        match self.is_user_registered(caller) {
            Err(e) => {
                return Err(e);
            }
            Ok(()) => {}
        }
        let score = match self.exams.get(&exam_id) {
            None => {
                return Err(AppError::NotFound);
            }
            Some(exam) => grade(exam, &answers),
        };
        let cert_id = self.certificate_ids.next();
        proof {
            assert(!old(self).certificates().contains_key(cert_id));
        }
        let cert = Certificate { id: cert_id, exam_id, user: caller, score, awarded_at: now };
        self.certificates.insert(cert_id, cert);
        let linked: Option<User> = match self.users.get(&caller) {
            Some(u) => {
                let mut certs = dup_ids(&u.certificates);
                certs.push(cert_id);
                Some(
                    User {
                        principal: u.principal,
                        username: u.username.clone(),
                        role: u.role,
                        certificates: certs,
                        created_at: u.created_at,
                        last_login: u.last_login,
                    },
                )
            }
            None => None,
        };
        match linked {
            Some(nu) => {
                proof {
                    assert(nu@ == (UserView {
                        certificates: old(self).users()[caller].certificates.push(cert_id),
                        ..old(self).users()[caller]
                    }));
                }
                self.users.insert(caller, nu);
            }
            None => {
                proof {
                    assert(false);
                }
            }
        }
        proof {
            assert forall|k: u64| #[trigger] self.users().contains_key(k) implies self.users()[k].principal
                == k by {
                if k != caller {
                    assert(old(self).users().contains_key(k));
                }
            }
            assert forall|k: u64| #[trigger] self.certificates().contains_key(k) implies self.certificates()[k].id
                == k && k < self.certificate_counter() by {
                if k != cert_id {
                    assert(old(self).certificates().contains_key(k));
                }
            }
            assert(self.questions() == old(self).questions());
            assert(self.index() == old(self).index());
            assert(self.exams() == old(self).exams());
        }
        Ok(score)
    }

    /// Stores a standalone question under a freshly allocated id and
    /// indexes it under each of its category labels, creating index entries
    /// for labels not seen before. After the call an id is indexed under a
    /// label exactly when it already was, or it is the new id and the
    /// question carries the label.
    pub fn store_question(
        &mut self,
        text: String,
        choices: Vec<String>,
        correct_index: u8,
        points: u8,
        categories: Vec<String>,
        difficulty: u8,
    ) -> (r: u64)
        requires
            old(self).wf(),
            old(self).question_counter() < u64::MAX,
        ensures
            final(self).wf(),
            r == old(self).question_counter(),
            !old(self).questions().contains_key(r),
            final(self).question_counter() == old(self).question_counter() + 1,
            final(self).questions() == old(self).questions().insert(
                r,
                (QuestionView {
                    text: text@,
                    choices: choices.deep_view(),
                    correct_index,
                    points,
                    categories: categories.deep_view(),
                    difficulty,
                }),
            ),
            forall|label: Seq<char>, x: u64|
                #![trigger index_mem(final(self).index(), label, x)]
                #![trigger index_mem(old(self).index(), label, x)]
                index_mem(final(self).index(), label, x) <==> (index_mem(
                    old(self).index(),
                    label,
                    x,
                ) || (x == r && categories.deep_view().contains(label))),
            final(self).users() == old(self).users(),
            final(self).exams() == old(self).exams(),
            final(self).certificates() == old(self).certificates(),
            final(self).exam_counter() == old(self).exam_counter(),
            final(self).certificate_counter() == old(self).certificate_counter(),
    {
        let id = self.question_ids.next();
        let cats = dup_strings(&categories);
        let ghost dv = categories.deep_view();
        let q = Question { text, choices, correct_index, points, categories, difficulty };
        let ghost qv = q@;
        proof {
            assert(!old(self).questions().contains_key(id));
        }
        self.questions.insert(id, q);
        let ghost base = *self;
        proof {
            assert(base.index() == old(self).index());
            assert forall|label: Seq<char>| #[trigger] self.index().contains_key(label) implies self.index()[label].no_duplicates() by {
                assert(old(self).index().contains_key(label));
            }
            assert(dv.take(0) =~= Seq::<Seq<char>>::empty());
        }
        let n = cats.len();
        let mut k: usize = 0;
        while k < n
            invariant
                n == cats@.len(),
                k <= n,
                cats.deep_view() == dv,
                dv.len() == cats@.len(),
                self.users == base.users,
                self.exams == base.exams,
                self.certificates == base.certificates,
                self.questions == base.questions,
                self.exam_ids == base.exam_ids,
                self.certificate_ids == base.certificate_ids,
                self.question_ids == base.question_ids,
                self.category_index.wf(),
                forall|label: Seq<char>, x: u64|
                    #![trigger index_mem(self.index(), label, x)]
                    #![trigger index_mem(base.index(), label, x)]
                    index_mem(self.index(), label, x) <==> (index_mem(base.index(), label, x) || (x
                        == id && dv.take(k as int).contains(label))),
                forall|label: Seq<char>|
                    #[trigger] self.index().contains_key(label)
                        ==> self.index()[label].no_duplicates(),
            decreases n - k,
        {
            let genre = &cats[k];
            proof {
                assert(genre@ == cats.deep_view()[k as int]);
                assert(genre@ == dv[k as int]);
            }
            let current: Vec<u64> = match self.category_index.get(genre) {
                Some(v) => dup_ids(v),
                None => Vec::new(),
            };
            let ghost cur = self.index();
            proof {
                assert forall|x: u64| current@.contains(x) implies index_mem(cur, genre@, x) by {}
                if cur.contains_key(genre@) {
                    assert(current@ == cur[genre@]);
                    assert(current@.no_duplicates());
                }
            }
            let mut newlist = current;
            if !contains_id(&newlist, id) {
                newlist.push(id);
                proof {
                    let ghost old_list = newlist@.drop_last();
                    assert(newlist@.last() == id);
                    assert forall|a: int, b: int|
                        0 <= a < b < newlist@.len() implies newlist@[a] != newlist@[b] by {
                        if b < newlist@.len() - 1 {
                            assert(old_list[a] == newlist@[a] && old_list[b] == newlist@[b]);
                        } else {
                            assert(!old_list.contains(newlist@[a]) ==> true);
                            if newlist@[a] == id {
                                assert(old_list.contains(id));
                                assert(false);
                            }
                        }
                    }
                    assert(newlist@.no_duplicates());
                }
            }
            proof {
                assert(newlist@.contains(id)) by {
                    if newlist@.last() == id {
                        assert(newlist@[newlist@.len() - 1] == id);
                    }
                }
                assert forall|x: u64| #[trigger] newlist@.contains(x) implies (index_mem(
                    cur,
                    genre@,
                    x,
                ) || x == id) by {
                    if x != id {
                        let i = choose|i: int| 0 <= i < newlist@.len() && newlist@[i] == x;
                        assert(current@.contains(x)) by {
                            if i < current@.len() {
                                assert(current@[i] == x);
                            }
                        }
                    }
                }
                assert forall|x: u64| index_mem(cur, genre@, x) implies newlist@.contains(x) by {
                    let i = choose|i: int| 0 <= i < current@.len() && current@[i] == x;
                    assert(newlist@[i] == x);
                }
            }
            self.category_index.insert(genre.clone(), newlist);
            proof {
                let g = dv[k as int];
                assert(self.index() == cur.insert(g, newlist@));
                assert(dv.take(k + 1).last() == g);
                assert(dv.take(k + 1).contains(g)) by {
                    assert(dv.take(k + 1)[k as int] == g);
                }
                assert forall|label: Seq<char>, x: u64|
                    #![trigger index_mem(self.index(), label, x)]
                    #![trigger index_mem(base.index(), label, x)]
                    index_mem(self.index(), label, x) <==> (index_mem(base.index(), label, x) || (x
                        == id && dv.take(k + 1).contains(label))) by {
                    if label == g {
                        assert(index_mem(self.index(), g, x) == newlist@.contains(x));
                    } else {
                        assert(index_mem(self.index(), label, x) == index_mem(cur, label, x));
                        assert(dv.take(k + 1).contains(label) == dv.take(k as int).contains(label))
                            by {
                            if dv.take(k + 1).contains(label) {
                                let j = choose|j: int|
                                    0 <= j < k + 1 && #[trigger] dv.take(k + 1)[j] == label;
                                assert(j != k);
                                assert(dv.take(k as int)[j] == label);
                            }
                            if dv.take(k as int).contains(label) {
                                let j = choose|j: int|
                                    0 <= j < k && #[trigger] dv.take(k as int)[j] == label;
                                assert(dv.take(k + 1)[j] == label);
                            }
                        }
                    }
                }
                assert forall|label: Seq<char>|
                    #[trigger] self.index().contains_key(label) implies self.index()[label].no_duplicates()
                    by {
                    if label != g {
                        assert(cur.contains_key(label));
                    }
                }
            }
            k = k + 1;
        }
        proof {
            assert(dv.take(dv.len() as int) =~= dv);
            assert(base.index() == old(self).index());
            assert(base.questions() == old(self).questions().insert(id, qv));
            assert(qv.categories == dv);
            assert forall|k2: u64| #[trigger] self.questions().contains_key(k2) implies k2
                < self.question_counter() by {
                if k2 != id {
                    assert(old(self).questions().contains_key(k2));
                }
            }
            assert forall|label: Seq<char>, x: u64|
                index_mem(self.index(), label, x) implies self.questions().contains_key(x)
                && question_has_label(self.questions()[x], label) by {
                if x == id && dv.contains(label) {
                    assert(self.questions()[id] == qv);
                    assert(question_has_label(qv, label));
                } else {
                    assert(index_mem(old(self).index(), label, x));
                    assert(old(self).questions().contains_key(x));
                    assert(question_has_label(old(self).questions()[x], label));
                    assert(x < old(self).question_counter());
                    assert(x != id);
                    assert(self.questions()[x] == old(self).questions()[x]);
                }
            }
            assert forall|x: u64, label: Seq<char>|
                self.questions().contains_key(x) && #[trigger] question_has_label(
                    self.questions()[x],
                    label,
                ) implies index_mem(self.index(), label, x) by {
                if x == id {
                    assert(self.questions()[id] == qv);
                    assert(dv.contains(label));
                } else {
                    assert(old(self).questions().contains_key(x));
                    assert(question_has_label(old(self).questions()[x], label));
                    assert(index_mem(old(self).index(), label, x));
                }
            }
            assert(self.users() == old(self).users());
            assert(self.exams() == old(self).exams());
            assert(self.certificates() == old(self).certificates());
            assert forall|k2: u64| #[trigger] self.users().contains_key(k2) implies self.users()[k2].principal
                == k2 by {
                assert(old(self).users().contains_key(k2));
            }
            assert forall|k2: u64| #[trigger] self.exams().contains_key(k2) implies self.exams()[k2].id
                == k2 && k2 < self.exam_counter() by {
                assert(old(self).exams().contains_key(k2));
            }
            assert forall|k2: u64| #[trigger] self.certificates().contains_key(k2) implies self.certificates()[k2].id
                == k2 && k2 < self.certificate_counter() by {
                assert(old(self).certificates().contains_key(k2));
            }
        }
        id
    }

    /// The question stored under an id, if any.
    pub fn get_question(&self, question_id: u64) -> (r: Option<Question>)
        requires
            self.wf(),
        ensures
            (match r {
                Some(q) => self.questions().contains_key(question_id) && q@
                    == self.questions()[question_id],
                None => !self.questions().contains_key(question_id),
            }),
    {
        match self.questions.get(&question_id) {
            Some(q) => Some(q.dup()),
            None => None,
        }
    }

    /// Up to `limit` of the questions indexed under a label, in unspecified
    /// order; an unknown label yields the empty vector, never an error.
    /// Every returned question carries the label.
    pub fn get_genre_questions(&self, genre: &String, limit: usize) -> (r: Vec<Question>)
        requires
            self.wf(),
        ensures
            r@.len() == (if limit < self.category_ids(genre@).len() {
                limit as int
            } else {
                self.category_ids(genre@).len() as int
            }),
            forall|i: int|
                0 <= i < r@.len() ==> self.questions().contains_key(
                    #[trigger] self.category_ids(genre@)[i],
                ),
            forall|i: int|
                0 <= i < r@.len() ==> (#[trigger] r@[i])@ == self.questions()[self.category_ids(
                    genre@,
                )[i]] && question_has_label(r@[i]@, genre@),
    {
        let idvec: &Vec<u64> = match self.category_index.get(genre) {
            Some(v) => v,
            None => {
                proof {
                    assert(self.category_ids(genre@) =~= Seq::<u64>::empty());
                }
                return Vec::new();
            }
        };
        let n = if limit < idvec.len() {
            limit
        } else {
            idvec.len()
        };
        let ghost ids = self.category_ids(genre@);
        proof {
            assert(ids == idvec@);
        }
        let mut r: Vec<Question> = Vec::new();
        let mut i: usize = 0;
        while i < n
            invariant
                self.wf(),
                self.index().contains_key(genre@),
                idvec@ == ids,
                ids == self.category_ids(genre@),
                n <= ids.len(),
                i <= n,
                r@.len() == i,
                forall|j: int| 0 <= j < i ==> self.questions().contains_key(#[trigger] ids[j]),
                forall|j: int|
                    0 <= j < i ==> (#[trigger] r@[j])@ == self.questions()[ids[j]]
                        && question_has_label(r@[j]@, genre@),
            decreases n - i,
        {
            let qid = idvec[i];
            proof {
                assert(idvec@.contains(qid)) by {
                    assert(idvec@[i as int] == qid);
                }
                assert(index_mem(self.index(), genre@, qid));
            }
            match self.questions.get(&qid) {
                Some(q) => {
                    let d = q.dup();
                    proof {
                        assert(qid == ids[i as int]);
                        assert(self.questions().contains_key(ids[i as int]));
                        assert(question_has_label(self.questions()[qid], genre@));
                        assert(d@ == self.questions()[ids[i as int]]);
                    }
                    r.push(d);
                }
                None => {
                    proof {
                        assert(false);
                    }
                }
            }
            i = i + 1;
        }
        proof {
            assert forall|j: int|
                0 <= j < r@.len() implies self.questions().contains_key(
                self.category_ids(genre@)[j],
            ) by {
                assert(self.questions().contains_key(ids[j]));
            }
        }
        r
    }
    /// The id the next created exam will receive.
    pub fn next_exam_id(&self) -> (r: u64)
        ensures
            r == self.exam_counter(),
    {
        self.exam_ids.peek()
    }

    /// The id the next issued certificate will receive.
    pub fn next_certificate_id(&self) -> (r: u64)
        ensures
            r == self.certificate_counter(),
    {
        self.certificate_ids.peek()
    }

    /// The id the next stored question will receive.
    pub fn next_question_id(&self) -> (r: u64)
        ensures
            r == self.question_counter(),
    {
        self.question_ids.peek()
    }

    /// Seeds the store with a two-question sample exam and then makes the
    /// caller an admin. Exam creation is admin-gated, so for a caller who
    /// is not yet an admin only the promotion takes effect, and a repeated
    /// call can then create the exam.
    pub fn create_test_data(&mut self, caller: Identity)
        requires
            old(self).wf(),
            old(self).exam_counter() < u64::MAX,
        ensures
            final(self).wf(),
            (if old(self).is_admin(caller) {
                final(self).exams() == old(self).exams().insert(
                    old(self).exam_counter(),
                    sample_exam_view(old(self).exam_counter()),
                ) && final(self).exam_counter() == old(self).exam_counter() + 1
            } else {
                final(self).exams() == old(self).exams() && final(self).exam_counter() == old(self).exam_counter()
            }),
            (if old(self).is_registered(caller) {
                final(self).users() == old(self).users().insert(
                    caller,
                    (UserView { role: Role::Admin, ..old(self).users()[caller] }),
                )
            } else {
                final(self).users() == old(self).users()
            }),
            final(self).certificates() == old(self).certificates(),
            final(self).questions() == old(self).questions(),
            final(self).index() == old(self).index(),
            final(self).certificate_counter() == old(self).certificate_counter(),
            final(self).question_counter() == old(self).question_counter(),
    {
        let questions = sample_questions();
        let _ = self.create_exam(
            caller,
            "General Knowledge Test".to_owned(),
            "Testers".to_owned(),
            questions,
            Level::Beginner,
        );
        proof {
            if old(self).is_admin(caller) {
                assert(self.exams()[old(self).exam_counter()] =~= sample_exam_view(
                    old(self).exam_counter(),
                ));
                assert(self.exams() =~= old(self).exams().insert(
                    old(self).exam_counter(),
                    sample_exam_view(old(self).exam_counter()),
                ));
            }
        }
        let promoted: Option<User> = match self.users.get(&caller) {
            Some(u) => Some(
                User {
                    principal: u.principal,
                    username: u.username.clone(),
                    role: Role::Admin,
                    certificates: dup_ids(&u.certificates),
                    created_at: u.created_at,
                    last_login: u.last_login,
                },
            ),
            None => None,
        };
        let ghost mid = *self;
        match promoted {
            None => {}
            Some(nu) => {
                proof {
                    assert(nu@ == (UserView { role: Role::Admin, ..old(self).users()[caller] }));
                }
                self.users.insert(caller, nu);
                proof {
                    assert forall|k: u64| #[trigger] self.users().contains_key(k) implies self.users()[k].principal
                        == k by {
                        if k != caller {
                            assert(mid.users().contains_key(k));
                        }
                    }
                    assert(self.exams() == mid.exams());
                    assert(self.certificates() == mid.certificates());
                    assert(self.questions() == mid.questions());
                    assert(self.index() == mid.index());
                }
            }
        }
    }

}

/// Membership in a vector of ids.
fn contains_id(v: &Vec<u64>, x: u64) -> (r: bool)
    ensures
        r == v@.contains(x),
{
    let mut i: usize = 0;
    while i < v.len()
        invariant
            i <= v@.len(),
            forall|j: int| 0 <= j < i ==> v@[j] != x,
        decreases v@.len() - i,
    {
        if v[i] == x {
            proof {
                assert(v@[i as int] == x);
            }
            return true;
        }
        i = i + 1;
    }
    proof {
        assert(!v@.contains(x));
    }
    false
}

/// A user record as refreshed by a repeated registration: only the
/// last-login timestamp moves.
pub open spec fn refreshed_user(u: UserView, now: Timestamp) -> UserView {
    UserView { last_login: now, ..u }
}

/// The user record a first registration creates: a student with no
/// certificates.
pub open spec fn fresh_user(caller: Identity, username: Seq<char>, now: Timestamp) -> UserView {
    UserView {
        principal: caller,
        username: username,
        role: Role::Student,
        certificates: Seq::empty(),
        created_at: now,
        last_login: now,
    }
}

/// The user store after a registration from `caller`.
pub open spec fn users_after_register(
    users: Map<u64, UserView>,
    caller: Identity,
    username: Seq<char>,
    now: Timestamp,
) -> Map<u64, UserView> {
    if users.contains_key(caller) {
        users.insert(caller, refreshed_user(users[caller], now))
    } else {
        users.insert(caller, fresh_user(caller, username, now))
    }
}

/// Law: registering twice under one identity never duplicates the record.
/// The second registration keeps the identity set, the username, the
/// creation timestamp, the role and the certificate list, and only moves
/// the last-login timestamp.
pub proof fn lemma_register_refresh_no_duplicate(
    users: Map<u64, UserView>,
    caller: Identity,
    name1: Seq<char>,
    t1: Timestamp,
    name2: Seq<char>,
    t2: Timestamp,
)
    ensures
        ({
            let once = users_after_register(users, caller, name1, t1);
            let twice = users_after_register(once, caller, name2, t2);
            &&& twice.dom() == once.dom()
            &&& twice[caller].username == once[caller].username
            &&& twice[caller].role == once[caller].role
            &&& twice[caller].certificates == once[caller].certificates
            &&& twice[caller].created_at == once[caller].created_at
            &&& twice[caller].last_login == t2
        }),
{
    let once = users_after_register(users, caller, name1, t1);
    let twice = users_after_register(once, caller, name2, t2);
    assert(once.contains_key(caller));
    assert(twice.dom() =~= once.dom());
}

/// The two sample questions `create_test_data` seeds: a geography question
/// and an arithmetic question, ten points each.
pub open spec fn sample_questions_view() -> Seq<QuestionView> {
    seq![
        QuestionView {
            text: "What is the capital of France?"@,
            choices: seq!["Paris"@, "London"@, "Berlin"@],
            correct_index: 0,
            points: 10,
            categories: Seq::empty(),
            difficulty: 0,
        },
        QuestionView {
            text: "2 + 2 = ?"@,
            choices: seq!["3"@, "4"@, "5"@],
            correct_index: 1,
            points: 10,
            categories: Seq::empty(),
            difficulty: 0,
        },
    ]
}

/// The sample exam `create_test_data` seeds under a given id.
pub open spec fn sample_exam_view(id: u64) -> ExamView {
    ExamView {
        id,
        title: "General Knowledge Test"@,
        organization_name: "Testers"@,
        questions: sample_questions_view(),
        level: Level::Beginner,
    }
}

fn sample_questions() -> (r: Vec<Question>)
    ensures
        r.deep_view() == sample_questions_view(),
{
    let mut c1: Vec<String> = Vec::new();
    c1.push("Paris".to_owned());
    c1.push("London".to_owned());
    c1.push("Berlin".to_owned());
    let q1 = Question {
        text: "What is the capital of France?".to_owned(),
        choices: c1,
        correct_index: 0,
        points: 10,
        categories: Vec::new(),
        difficulty: 0,
    };
    let mut c2: Vec<String> = Vec::new();
    c2.push("3".to_owned());
    c2.push("4".to_owned());
    c2.push("5".to_owned());
    let q2 = Question {
        text: "2 + 2 = ?".to_owned(),
        choices: c2,
        correct_index: 1,
        points: 10,
        categories: Vec::new(),
        difficulty: 0,
    };
    let mut r: Vec<Question> = Vec::new();
    r.push(q1);
    r.push(q2);
    proof {
        assert(r@[0]@ =~~= sample_questions_view()[0]);
        assert(r@[1]@ =~~= sample_questions_view()[1]);
        assert(r.deep_view() =~~= sample_questions_view());
    }
    r
}

/// Law: under a consistent index, every stored question is found under
/// each label it carries: its id is among the label's indexed ids.
pub proof fn lemma_stored_question_found_by_label(s: &Service, id: u64, label: Seq<char>)
    requires
        s.wf(),
        s.questions().contains_key(id),
        question_has_label(s.questions()[id], label),
    ensures
        s.category_ids(label).contains(id),
{
    assert(index_mem(s.index(), label, id));
}

/// Law: a label no stored question carries indexes nothing, so a lookup of
/// an unknown category yields the empty sequence rather than an error.
pub proof fn lemma_unknown_category_indexes_nothing(s: &Service, label: Seq<char>)
    requires
        s.wf(),
        forall|id: u64|
            #[trigger] s.questions().contains_key(id) ==> !question_has_label(
                s.questions()[id],
                label,
            ),
    ensures
        s.category_ids(label).len() == 0,
{
    if s.category_ids(label).len() > 0 {
        let x = s.category_ids(label)[0];
        assert(s.index().contains_key(label));
        assert(s.index()[label].contains(x));
        assert(index_mem(s.index(), label, x));
        assert(false);
    }
}

/// Law: exam removal is terminal for that id: the store resulting from a
/// deletion no longer holds the id, so deleting it again finds nothing and
/// reports `NotFound` rather than crashing.
pub proof fn lemma_deleted_exam_stays_gone(exams: Map<u64, ExamView>, exam_id: u64)
    ensures
        !exams.remove(exam_id).contains_key(exam_id),
{
}

} // verus!
