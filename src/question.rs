//! Questions and their content identities.

use vstd::prelude::*;

verus! {

/// One multiple-choice question; `answer` is the 1-based number of the
/// correct option, `hash` an optional precomputed identity.
pub struct Question {
    pub question: String,
    pub options: Vec<String>,
    pub answer: usize,
    pub hash: Option<String>,
}

/// A described, ordered set of questions.
pub struct QuestionSet {
    pub description: String,
    pub questions: Vec<Question>,
}

/// What a question holds, as plain values: text, options, answer, identity.
pub struct QuestionView {
    pub text: Seq<char>,
    pub options: Seq<Seq<char>>,
    pub answer: usize,
    pub hash: Option<Seq<char>>,
}

impl View for Question {
    type V = QuestionView;

    open spec fn view(&self) -> QuestionView {
        QuestionView {
            text: self.question@,
            options: self.options@.map_values(|o: String| o@),
            answer: self.answer,
            hash: match self.hash {
                Some(h) => Some(h@),
                None => None,
            },
        }
    }
}

/// The options written one after another, with no separator.
pub open spec fn joined(options: Seq<Seq<char>>) -> Seq<char>
    decreases options.len(),
{
    if options.len() == 0 {
        seq![]
    } else {
        joined(options.drop_last()) + options.last()
    }
}

/// The text a computed identity is the digest of: the question's text
/// followed by all its options.
pub open spec fn hash_input_of(q: QuestionView) -> Seq<char> {
    q.text + joined(q.options)
}

/// The lowercase hexadecimal SHA-256 digest of the UTF-8 encoding of `s`.
pub uninterp spec fn sha256_hex_of(s: Seq<char>) -> Seq<char>;

/// A question's identity: its precomputed one if it has it, else the digest
/// of its text and options.
pub open spec fn identity_of(q: QuestionView) -> Seq<char> {
    match q.hash {
        Some(h) => h,
        None => sha256_hex_of(hash_input_of(q)),
    }
}

/// Relies on `sha2::Sha256::digest` over the UTF-8 bytes of `s`, written out
/// by the digest's `LowerHex` formatting: a function of `s` alone.
#[verifier::external_body]
fn sha256_hex(s: &str) -> (r: String)
    ensures
        r@ == sha256_hex_of(s@),
{
    format!("{:x}", <sha2::Sha256 as sha2::Digest>::digest(s.as_bytes()))
}

impl Question {
    /// The question's text followed by all its options, with no separator.
    pub fn hash_input(&self) -> (r: String)
        ensures
            r@ == hash_input_of(self@),
    {
        let mut r = self.question.clone();
        let mut i: usize = 0;
        while i < self.options.len()
            invariant
                i <= self.options@.len(),
                r@ == self.question@ + joined(self@.options.subrange(0, i as int)),
            decreases self.options@.len() - i,
        {
            r.append(self.options[i].as_str());
            proof {
                let opts = self@.options;
                assert(opts.subrange(0, i as int + 1).drop_last() =~= opts.subrange(0, i as int));
                assert(r@ =~= self.question@ + joined(opts.subrange(0, i as int + 1)));
            }
            i = i + 1;
        }
        assert(self@.options.subrange(0, i as int) =~= self@.options);
        r
    }

    /// A copy of the question that holds the same values.
    pub fn copy(&self) -> (r: Question)
        ensures
            r@ == self@,
    {
        let mut options: Vec<String> = Vec::new();
        let mut i: usize = 0;
        while i < self.options.len()
            invariant
                i <= self.options@.len(),
                options@.len() == i,
                forall|j: int| 0 <= j < i ==> (#[trigger] options@[j])@ == self.options@[j]@,
            decreases self.options@.len() - i,
        {
            options.push(self.options[i].clone());
            i = i + 1;
        }
        let hash = match &self.hash {
            Some(h) => Some(h.clone()),
            None => None,
        };
        let r = Question { question: self.question.clone(), options, answer: self.answer, hash };
        assert(r@.options =~= self@.options);
        r
    }
}

/// The identity of `q`: its precomputed identity verbatim if it carries one,
/// else the lowercase hex SHA-256 digest of its text and options.
pub fn hash_question(q: &Question) -> (r: String)
    ensures
        r@ == identity_of(q@),
{
    match &q.hash {
        Some(h) => h.clone(),
        None => {
            let input = q.hash_input();
            sha256_hex(input.as_str())
        },
    }
}

/// Identities depend on a question's values alone: two questions that hold
/// the same values have the same identity, whenever and in whatever order
/// they are asked for.
pub proof fn lemma_identity_stable(a: Question, b: Question)
    requires
        a@ == b@,
    ensures
        identity_of(a@) == identity_of(b@),
{
}

} // verus!
