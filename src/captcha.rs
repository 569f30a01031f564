//! Captchas: questions that identify a client as human. Each captcha handed out is
//! remembered under a random id until the client tries to answer it once.

use crate::text::str_eq;
use rand::seq::SliceRandom;
use vstd::prelude::*;

verus! {

/// A question to identify users as human.
#[derive(Debug)]
pub struct Question {
    /// The question that will be sent to the client.
    pub question: String,
    /// The answer that the client has to provide.
    pub answer: String,
}

/// Response body data for captcha requests.
#[derive(Debug)]
pub struct Captcha {
    pub id: String,
    pub question: String,
}

/// A captcha that was handed out and not yet answered.
pub struct PendingModel {
    pub id: Seq<char>,
    pub question: Seq<char>,
    pub answer: Seq<char>,
}

/// A generator and manager for captchas. This keeps track of the captchas that were
/// created for clients and deletes them once the client has tried to solve them.
pub struct CaptchaManager {
    captchas: Vec<(String, Question)>,
}

impl View for CaptchaManager {
    type V = Seq<PendingModel>;

    closed spec fn view(&self) -> Seq<PendingModel> {
        self.captchas@.map_values(
            |c: (String, Question)|
                PendingModel { id: c.0@, question: c.1.question@, answer: c.1.answer@ },
        )
    }
}

/// The position of the pending captcha with this id.
pub open spec fn find_pending(pending: Seq<PendingModel>, id: Seq<char>) -> Option<int>
    decreases pending.len(),
{
    if pending.len() == 0 {
        None
    } else {
        match find_pending(pending.drop_last(), id) {
            Some(i) => Some(i),
            None => if pending.last().id == id {
                Some(pending.len() - 1)
            } else {
                None
            },
        }
    }
}

pub proof fn lemma_find_pending(pending: Seq<PendingModel>, id: Seq<char>)
    ensures
        match find_pending(pending, id) {
            Some(i) => 0 <= i < pending.len() && pending[i].id == id && forall|j: int|
                0 <= j < i ==> pending[j].id != id,
            None => forall|j: int| 0 <= j < pending.len() ==> pending[j].id != id,
        },
    decreases pending.len(),
{
    if pending.len() > 0 {
        let init = pending.drop_last();
        lemma_find_pending(init, id);
        assert(forall|j: int| 0 <= j < init.len() ==> init[j] == pending[j]);
    }
}

/// All available captcha questions.
pub fn questions() -> (r: Vec<Question>)
    ensures
        r@.len() == 8,
{
    let pairs = [
        ("In welchem Jahr wurde Johannes Brahms geboren?", "1833"),
        ("In welchem Jahr ist Johannes Brahms gestorben?", "1897"),
        ("In welchem Jahr wurde Ludwig van Beethoven geboren?", "1770"),
        ("In welchem Jahr ist Ludwig van Beethoven gestorben?", "1827"),
        ("In welchem Jahr wurde Debussy geboren?", "1862"),
        ("In welchem Jahr ist Debussy gestorben?", "1918"),
        ("In welchem Jahr wurde Sergei Rachmaninow geboren?", "1873"),
        ("In welchem Jahr ist Sergei Rachmaninow gestorben?", "1943"),
    ];
    let mut r: Vec<Question> = Vec::new();
    let mut i: usize = 0;
    while i < 8
        invariant
            i <= 8,
            r@.len() == i,
        decreases 8 - i,
    {
        let (q, a) = pairs[i];
        r.push(Question { question: String::from_str(q), answer: String::from_str(a) });
        i = i + 1;
    }
    r
}

/// Relies on `uuid::Uuid::new_v4`, written in its simple lower-case form: a random id.
/// Nothing is known of its value.
#[verifier::external_body]
fn random_captcha_id() -> (r: String) {
    let mut buffer = uuid::Uuid::encode_buffer();
    uuid::Uuid::new_v4().to_simple().encode_lower(&mut buffer).to_owned()
}

/// Relies on `rand::seq::SliceRandom::choose` with the thread-local generator: one of
/// the questions, and `None` only for an empty list.
#[verifier::external_body]
fn choose_question(qs: &Vec<Question>) -> (r: Option<&Question>)
    ensures
        r is None <==> qs@.len() == 0,
        r matches Some(q) ==> exists|i: int| 0 <= i < qs@.len() && qs@[i] == *q,
{
    qs.choose(&mut rand::thread_rng())
}

impl CaptchaManager {
    /// Create a new captcha manager.
    pub fn new() -> (r: Self)
        ensures
            r@.len() == 0,
    {
        Self { captchas: Vec::new() }
    }

    fn position(&self, id: &str) -> (r: Option<usize>)
        ensures
            r matches Some(i) ==> find_pending(self@, id@) == Some(i as int),
            r is None ==> find_pending(self@, id@) is None,
    {
        proof {
            lemma_find_pending(self@, id@);
        }
        let mut i: usize = 0;
        while i < self.captchas.len()
            invariant
                i <= self.captchas.len(),
                forall|j: int| 0 <= j < i ==> self@[j].id != id@,
            decreases self.captchas.len() - i,
        {
            if str_eq(self.captchas[i].0.as_str(), id) {
                proof {
                    assert(self@[i as int].id == id@);
                    lemma_find_pending(self@, id@);
                }
                return Some(i);
            }
            i = i + 1;
        }
        None
    }

    /// Remember `question` under `id`, replacing what was pending under that id, and
    /// return what the client is shown.
    pub fn register_captcha(&mut self, id: String, question: Question) -> (r: Captcha)
        ensures
            r.id@ == id@,
            r.question@ == question.question@,
            ({
                let entry = PendingModel { id: id@, question: question.question@, answer: question.answer@ };
                match find_pending(old(self)@, id@) {
                    Some(i) => final(self)@ == old(self)@.update(i, entry),
                    None => final(self)@ == old(self)@.push(entry),
                }
            }),
    {
        let captcha = Captcha { id: id.clone(), question: question.question.clone() };
        let ghost entry = PendingModel { id: id@, question: question.question@, answer: question.answer@ };
        proof {
            lemma_find_pending(self@, id@);
        }
        match self.position(id.as_str()) {
            Some(i) => {
                self.captchas.set(i, (id, question));
                assert(self@ =~= old(self)@.update(i as int, entry));
            },
            None => {
                self.captchas.push((id, question));
                assert(self@ =~= old(self)@.push(entry));
            },
        }
        captcha
    }

    fn register_and_find(&mut self, id: String, question: Question) -> (r: Captcha)
        ensures
            final(self)@.len() == old(self)@.len() || final(self)@.len() == old(self)@.len() + 1,
            find_pending(final(self)@, r.id@) is Some,
    {
        proof {
            lemma_find_pending(self@, id@);
        }
        let ghost i0 = find_pending(self@, id@);
        let c = self.register_captcha(id, question);
        proof {
            lemma_find_pending(self@, c.id@);
            match i0 {
                Some(i) => assert(self@[i].id == c.id@),
                None => assert(self@[self@.len() - 1].id == c.id@),
            }
        }
        c
    }

    /// Create a new captcha with a random id and a random question.
    pub fn generate_captcha(&mut self) -> (r: Captcha)
        ensures
            final(self)@.len() == old(self)@.len() || final(self)@.len() == old(self)@.len() + 1,
            find_pending(final(self)@, r.id@) is Some,
    {
        let id = random_captcha_id();
        let qs = questions();
        let q = match choose_question(&qs) {
            Some(q) => Question { question: q.question.clone(), answer: q.answer.clone() },
            None => {
                return vstd::pervasive::unreached();
            },
        };
        self.register_and_find(id, q)
    }

    /// Check whether the provided answer is correct, and forget the captcha either way.
    /// An unknown id is never answered correctly.
    pub fn check_captcha(&mut self, id: &str, answer: &str) -> (r: bool)
        ensures
            match find_pending(old(self)@, id@) {
                Some(i) => r == (answer@ == old(self)@[i].answer) && final(self)@ == old(self)@.remove(i),
                None => !r && final(self)@ == old(self)@,
            },
    {
        match self.position(id) {
            Some(i) => {
                proof {
                    lemma_find_pending(self@, id@);
                }
                let result = str_eq(answer, self.captchas[i].1.answer.as_str());
                self.captchas.remove(i);
                assert(self@ =~= old(self)@.remove(i as int));
                result
            },
            None => false,
        }
    }
}

} // verus!
