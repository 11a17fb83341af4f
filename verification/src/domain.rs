//! The entity domain: dense, stable ordinals for users and questions.
//!
//! Every distinct user and question identity seen in the input is assigned a
//! zero-based ordinal in first-seen order; all downstream structures are
//! indexed by these ordinals instead of by the raw strings.
use vstd::prelude::*;

use crate::{CorrSetError, Question, Row, User};

verus! {

/// The distinct names of `s`, in first-seen order.
pub open spec fn dedup_names(s: Seq<Seq<char>>) -> Seq<Seq<char>>
    decreases s.len(),
{
    if s.len() == 0 {
        Seq::empty()
    } else {
        let d = dedup_names(s.drop_last());
        if d.contains(s.last()) {
            d
        } else {
            d.push(s.last())
        }
    }
}

/// Membership in a sequence extended by one element.
proof fn lemma_push_contains(d: Seq<Seq<char>>, y: Seq<char>, x: Seq<char>)
    ensures
        d.push(y).contains(x) == (d.contains(x) || x == y),
{
    if d.push(y).contains(x) {
        let i = choose|i: int| 0 <= i < d.push(y).len() && d.push(y)[i] == x;
        if i < d.len() {
            assert(d[i] == x);
        }
    }
    if d.contains(x) {
        let i = choose|i: int| 0 <= i < d.len() && d[i] == x;
        assert(d.push(y)[i] == x);
    }
    if x == y {
        assert(d.push(y)[d.len() as int] == x);
    }
}

/// Deduplication keeps exactly the names that occur.
pub proof fn lemma_dedup_membership(s: Seq<Seq<char>>, x: Seq<char>)
    ensures
        dedup_names(s).contains(x) == s.contains(x),
    decreases s.len(),
{
    if s.len() > 0 {
        lemma_dedup_membership(s.drop_last(), x);
        lemma_push_contains(dedup_names(s.drop_last()), s.last(), x);
        assert(s.contains(x) == (s.drop_last().contains(x) || s.last() == x)) by {
            if s.contains(x) {
                let i = choose|i: int| 0 <= i < s.len() && s[i] == x;
                if i < s.len() - 1 {
                    assert(s.drop_last()[i] == x);
                }
            }
            if s.drop_last().contains(x) {
                let i = choose|i: int| 0 <= i < s.drop_last().len() && s.drop_last()[i] == x;
                assert(s[i] == x);
            }
            if s.last() == x {
                assert(s[s.len() - 1] == x);
            }
        }
    }
}

/// Deduplication never repeats a name.
pub proof fn lemma_dedup_distinct(s: Seq<Seq<char>>)
    ensures
        forall|i: int, j: int|
            0 <= i < j < dedup_names(s).len() ==> dedup_names(s)[i] != dedup_names(s)[j],
    decreases s.len(),
{
    if s.len() > 0 {
        let d = dedup_names(s.drop_last());
        lemma_dedup_distinct(s.drop_last());
        if !d.contains(s.last()) {
            assert forall|i: int, j: int|
                0 <= i < j < dedup_names(s).len() implies dedup_names(s)[i] != dedup_names(
                s,
            )[j] by {
                if j < d.len() {
                } else {
                    assert(dedup_names(s)[j] == s.last());
                    assert(dedup_names(s)[i] == d[i]);
                }
            }
        }
    }
}

/// Assigns each distinct user and question identity a dense ordinal.
pub struct Domain {
    pub users: Vec<User>,
    pub questions: Vec<Question>,
}

impl Domain {
    /// User names by ordinal.
    pub open spec fn user_names(&self) -> Seq<Seq<char>> {
        self.users@.map_values(|u: User| u.0@)
    }

    /// Question names by ordinal.
    pub open spec fn question_names(&self) -> Seq<Seq<char>> {
        self.questions@.map_values(|q: Question| q.0@)
    }

    /// Ordinals are a bijection with the distinct identities: no name repeats.
    pub open spec fn wf(&self) -> bool {
        &&& forall|i: int, j: int|
            0 <= i < j < self.user_names().len() ==> self.user_names()[i] != self.user_names()[j]
        &&& forall|i: int, j: int|
            0 <= i < j < self.question_names().len() ==> self.question_names()[i]
                != self.question_names()[j]
    }

    /// Build the domain from the observations: deduplicate the user and
    /// question identities in first-seen order and assign ordinals.
    pub fn build(rows: &Vec<Row>) -> (r: Domain)
        ensures
            r.wf(),
            r.user_names() == dedup_names(rows@.map_values(|x: Row| x@.user)),
            r.question_names() == dedup_names(rows@.map_values(|x: Row| x@.question)),
    {
        let ghost unames = rows@.map_values(|x: Row| x@.user);
        let ghost qnames = rows@.map_values(|x: Row| x@.question);
        let mut users: Vec<User> = Vec::new();
        let mut questions: Vec<Question> = Vec::new();
        let n = rows.len();
        let mut i: usize = 0;
        while i < n
            invariant
                0 <= i <= n,
                n == rows@.len(),
                unames == rows@.map_values(|x: Row| x@.user),
                qnames == rows@.map_values(|x: Row| x@.question),
                users@.map_values(|u: User| u.0@) == dedup_names(unames.take(i as int)),
                questions@.map_values(|q: Question| q.0@) == dedup_names(qnames.take(i as int)),
            decreases n - i,
        {
            let ghost us0 = users@.map_values(|u: User| u.0@);
            let ghost qs0 = questions@.map_values(|q: Question| q.0@);
            proof {
                assert(unames.take(i as int + 1).drop_last() =~= unames.take(i as int));
                assert(unames.take(i as int + 1).last() == rows@[i as int]@.user);
                assert(qnames.take(i as int + 1).drop_last() =~= qnames.take(i as int));
                assert(qnames.take(i as int + 1).last() == rows@[i as int]@.question);
            }
            let row = &rows[i];
            let fu = find_user(&users, &row.user);
            match fu {
                Some(j) => {
                    proof {
                        assert(us0[j as int] == rows@[i as int]@.user);
                        assert(us0.contains(rows@[i as int]@.user));
                    }
                },
                None => {
                    proof {
                        assert forall|j: int| 0 <= j < us0.len() implies us0[j] != rows@[
                        i as int]@.user by {
                            assert(us0[j] == users@[j].0@);
                        }
                        assert(!us0.contains(rows@[i as int]@.user));
                    }
                    users.push(User((row.user.0).clone()));
                    proof {
                        assert(users@.map_values(|u: User| u.0@) =~= us0.push(
                            rows@[i as int]@.user,
                        ));
                    }
                },
            }
            let fq = find_question(&questions, &row.question);
            match fq {
                Some(j) => {
                    proof {
                        assert(qs0[j as int] == rows@[i as int]@.question);
                        assert(qs0.contains(rows@[i as int]@.question));
                    }
                },
                None => {
                    proof {
                        assert forall|j: int| 0 <= j < qs0.len() implies qs0[j] != rows@[
                        i as int]@.question by {
                            assert(qs0[j] == questions@[j].0@);
                        }
                        assert(!qs0.contains(rows@[i as int]@.question));
                    }
                    questions.push(Question((row.question.0).clone()));
                    proof {
                        assert(questions@.map_values(|q: Question| q.0@) =~= qs0.push(
                            rows@[i as int]@.question,
                        ));
                    }
                },
            }
            i += 1;
        }
        proof {
            assert(unames.take(n as int) =~= unames);
            assert(qnames.take(n as int) =~= qnames);
            lemma_dedup_distinct(unames);
            lemma_dedup_distinct(qnames);
        }
        Domain { users, questions }
    }

    /// The ordinal of a user identity; fails loudly on an identity that was
    /// never seen when the domain was built.
    pub fn index_of_user(&self, u: &User) -> (r: Result<usize, CorrSetError>)
        ensures
            match r {
                Ok(i) => 0 <= i < self.user_names().len() && self.user_names()[i as int] == u.0@,
                Err(e) => e == CorrSetError::UnknownIdentity && !self.user_names().contains(u.0@),
            },
    {
        match find_user(&self.users, u) {
            Some(i) => Ok(i),
            None => Err(CorrSetError::UnknownIdentity),
        }
    }

    /// The ordinal of a question identity; fails loudly on an identity that
    /// was never seen when the domain was built.
    pub fn index_of_question(&self, q: &Question) -> (r: Result<usize, CorrSetError>)
        ensures
            match r {
                Ok(i) => 0 <= i < self.question_names().len() && self.question_names()[i as int]
                    == q.0@,
                Err(e) => e == CorrSetError::UnknownIdentity && !self.question_names().contains(
                    q.0@,
                ),
            },
    {
        match find_question(&self.questions, q) {
            Some(i) => Ok(i),
            None => Err(CorrSetError::UnknownIdentity),
        }
    }

    /// The user identity of an ordinal: a cheap reverse lookup.
    pub fn value_of_user(&self, i: usize) -> (r: &User)
        requires
            i < self.users@.len(),
        ensures
            r.0@ == self.user_names()[i as int],
    {
        &self.users[i]
    }

    /// The question identity of an ordinal: a cheap reverse lookup.
    pub fn value_of_question(&self, i: usize) -> (r: &Question)
        requires
            i < self.questions@.len(),
        ensures
            r.0@ == self.question_names()[i as int],
    {
        &self.questions[i]
    }
}

/// Linear scan for a user name.
fn find_user(v: &Vec<User>, u: &User) -> (r: Option<usize>)
    ensures
        match r {
            Some(i) => 0 <= i < v@.len() && v@[i as int].0@ == u.0@,
            None => forall|i: int| 0 <= i < v@.len() ==> v@[i].0@ != u.0@,
        },
{
    let n = v.len();
    let mut i: usize = 0;
    while i < n
        invariant
            0 <= i <= n,
            n == v@.len(),
            forall|j: int| 0 <= j < i ==> v@[j].0@ != u.0@,
        decreases n - i,
    {
        if v[i].0 == u.0 {
            return Some(i);
        }
        i += 1;
    }
    None
}

/// Linear scan for a question name.
fn find_question(v: &Vec<Question>, q: &Question) -> (r: Option<usize>)
    ensures
        match r {
            Some(i) => 0 <= i < v@.len() && v@[i as int].0@ == q.0@,
            None => forall|i: int| 0 <= i < v@.len() ==> v@[i].0@ != q.0@,
        },
{
    let n = v.len();
    let mut i: usize = 0;
    while i < n
        invariant
            0 <= i <= n,
            n == v@.len(),
            forall|j: int| 0 <= j < i ==> v@[j].0@ != q.0@,
        decreases n - i,
    {
        if v[i].0 == q.0 {
            return Some(i);
        }
        i += 1;
    }
    None
}

} // verus!
