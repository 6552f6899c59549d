use vstd::prelude::*;
use rand::Rng;
use crate::color::{alphabet, Color, ALPHABET_SIZE};

verus! {

/// A candidate: a fixed-length sequence of colours, used both as a possible
/// secret and as a guess.
pub struct Password {
    answer: Vec<Color>,
}

impl View for Password {
    type V = Seq<Color>;

    closed spec fn view(&self) -> Seq<Color> {
        self.answer@
    }
}

/// Number of positions below `i` where `a` and `b` hold the same colour.
pub open spec fn matches_upto(a: Seq<Color>, b: Seq<Color>, i: int) -> nat
    decreases i,
{
    if i <= 0 {
        0
    } else {
        matches_upto(a, b, i - 1) + if a[i - 1] == b[i - 1] { 1nat } else { 0nat }
    }
}

/// The feedback of a guess against a secret: the number of positions where
/// they agree.
pub open spec fn feedback(a: Seq<Color>, b: Seq<Color>) -> nat {
    matches_upto(a, b, a.len() as int)
}

proof fn lemma_matches_upto_symmetric(a: Seq<Color>, b: Seq<Color>, i: int)
    ensures
        matches_upto(a, b, i) == matches_upto(b, a, i),
    decreases i,
{
    if i > 0 {
        lemma_matches_upto_symmetric(a, b, i - 1);
    }
}

proof fn lemma_matches_upto_bounded(a: Seq<Color>, b: Seq<Color>, i: int)
    requires
        i >= 0,
    ensures
        matches_upto(a, b, i) <= i,
    decreases i,
{
    if i > 0 {
        lemma_matches_upto_bounded(a, b, i - 1);
    }
}

proof fn lemma_matches_upto_full(a: Seq<Color>, b: Seq<Color>, i: int)
    requires
        0 <= i,
        matches_upto(a, b, i) == i,
    ensures
        forall|j: int| 0 <= j < i ==> a[j] == b[j],
    decreases i,
{
    if i > 0 {
        lemma_matches_upto_bounded(a, b, i - 1);
        lemma_matches_upto_full(a, b, i - 1);
    }
}

proof fn lemma_matches_upto_self(a: Seq<Color>, i: int)
    requires
        i >= 0,
    ensures
        matches_upto(a, a, i) == i,
    decreases i,
{
    if i > 0 {
        lemma_matches_upto_self(a, i - 1);
    }
}

/// A candidate compared with itself matches in every position.
pub proof fn lemma_feedback_reflexive(a: Seq<Color>)
    ensures
        feedback(a, a) == a.len(),
{
    lemma_matches_upto_self(a, a.len() as int);
}

/// Feedback is symmetric and lies between zero and the common length.
pub proof fn lemma_feedback_symmetric_bounded(a: Seq<Color>, b: Seq<Color>)
    requires
        a.len() == b.len(),
    ensures
        feedback(a, b) == feedback(b, a),
        0 <= feedback(a, b) <= a.len(),
{
    lemma_matches_upto_symmetric(a, b, a.len() as int);
    lemma_matches_upto_bounded(a, b, a.len() as int);
}

/// Two candidates of one length whose feedback is that length are equal.
pub proof fn lemma_full_feedback_equal(a: Seq<Color>, b: Seq<Color>)
    requires
        a.len() == b.len(),
        feedback(a, b) == a.len(),
    ensures
        a == b,
{
    lemma_matches_upto_full(a, b, a.len() as int);
    assert(a =~= b);
}

/// Relies on rand's `Rng::gen_range` over the thread-local generator: a
/// uniformly drawn integer below `bound`; it panics on an empty range.
#[verifier::external_body]
fn draw_below(bound: usize) -> (r: usize)
    requires
        bound > 0,
    ensures
        r < bound,
{
    rand::thread_rng().gen_range(0..bound)
}

impl Clone for Password {
    fn clone(&self) -> (r: Self)
        ensures
            r@ == self@,
    {
        Password::new(self.answer.as_slice())
    }
}

impl Password {
    /// A candidate holding the given colours.
    pub fn new(comb: &[Color]) -> (r: Password)
        ensures
            r@ == comb@,
    {
        let mut answer: Vec<Color> = Vec::with_capacity(comb.len());
        let mut i: usize = 0;
        while i < comb.len()
            invariant
                i <= comb@.len(),
                answer@ == comb@.subrange(0, i as int),
            decreases comb@.len() - i,
        {
            answer.push(comb[i]);
            i += 1;
            assert(answer@ =~= comb@.subrange(0, i as int));
        }
        assert(answer@ =~= comb@);
        Password { answer }
    }

    /// A secret of length `n` whose colours are drawn independently and
    /// uniformly from the alphabet.
    pub fn generate(n: usize) -> (r: Password)
        ensures
            r@.len() == n,
    {
        let mut answer: Vec<Color> = Vec::with_capacity(n);
        let mut i: usize = 0;
        while i < n
            invariant
                i <= n,
                answer@.len() == i,
            decreases n - i,
        {
            let d = draw_below(ALPHABET_SIZE);
            answer.push(Color::from_position(d));
            i += 1;
        }
        Password { answer }
    }

    /// Number of colours in the candidate.
    pub fn len(&self) -> (r: usize)
        ensures
            r == self@.len(),
    {
        self.answer.len()
    }

    /// The colours of the candidate.
    pub fn colors(&self) -> (r: &[Color])
        ensures
            r@ == self@,
    {
        self.answer.as_slice()
    }

    /// Number of positions where `self` and `answer` hold the same colour.
    pub fn check_answer(&self, answer: &Password) -> (r: usize)
        requires
            self@.len() == answer@.len(),
        ensures
            r == feedback(self@, answer@),
    {
        let mut correct: usize = 0;
        let mut i: usize = 0;
        while i < self.answer.len()
            invariant
                self@.len() == answer@.len(),
                i <= self@.len(),
                correct == matches_upto(self@, answer@, i as int),
            decreases self@.len() - i,
        {
            proof {
                lemma_matches_upto_bounded(self@, answer@, i as int);
            }
            if self.answer[i] == answer.answer[i] {
                correct += 1;
            }
            i += 1;
        }
        correct
    }

    /// Whether `description` would have produced the feedback `hint` against
    /// `self`.
    pub fn matches_description(&self, description: &Password, hint: usize) -> (r: bool)
        requires
            self@.len() == description@.len(),
        ensures
            r == (feedback(self@, description@) == hint),
    {
        self.check_answer(description) == hint
    }
}

impl Color {
    /// The candidate made of the given colours.
    pub fn to_password(colors: &[Color]) -> (r: Password)
        ensures
            r@ == colors@,
    {
        Password::new(colors)
    }
}

} // verus!
