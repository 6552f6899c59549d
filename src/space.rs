use vstd::prelude::*;
use itertools::Itertools;
use crate::color::{alphabet, Color, ALPHABET_SIZE};
use crate::partition::{uniform_len, views};
use crate::password::Password;

verus! {

/// The number of candidates of length `n`: the number of colours, four,
/// raised to the power `n`.
pub open spec fn candidate_count(n: nat) -> nat
    decreases n,
{
    if n == 0 {
        1
    } else {
        4 * candidate_count((n - 1) as nat)
    }
}

/// The candidate of length `n` at position `i` of the enumeration order: the
/// digits of `i` in base four, most significant first, read as colours.
pub open spec fn candidate_at(n: nat, i: nat) -> Seq<Color>
    decreases n,
{
    if n == 0 {
        Seq::empty()
    } else {
        candidate_at((n - 1) as nat, i / 4).push(alphabet()[(i % 4) as int])
    }
}

proof fn lemma_candidate_count_monotone(k: nat, n: nat)
    requires
        k <= n,
    ensures
        1 <= candidate_count(k) <= candidate_count(n),
    decreases n,
{
    if k < n {
        lemma_candidate_count_monotone(k, (n - 1) as nat);
    } else if n > 0 {
        lemma_candidate_count_monotone((n - 1) as nat, (n - 1) as nat);
    }
}

proof fn lemma_candidate_at_len(n: nat, i: nat)
    ensures
        candidate_at(n, i).len() == n,
    decreases n,
{
    if n > 0 {
        lemma_candidate_at_len((n - 1) as nat, i / 4);
    }
}

proof fn lemma_candidate_at_injective(n: nat, i: nat, j: nat)
    requires
        i < candidate_count(n),
        j < candidate_count(n),
        candidate_at(n, i) == candidate_at(n, j),
    ensures
        i == j,
    decreases n,
{
    if n > 0 {
        let m = (n - 1) as nat;
        let a = candidate_at(m, i / 4);
        let b = candidate_at(m, j / 4);
        let x = candidate_at(n, i);
        assert(x.drop_last() =~= a);
        assert(candidate_at(n, j).drop_last() =~= b);
        assert(x.last() == alphabet()[(i % 4) as int]);
        assert(candidate_at(n, j).last() == alphabet()[(j % 4) as int]);
        assert(i % 4 == j % 4);
        lemma_candidate_at_injective(m, i / 4, j / 4);
    }
}

/// Appends a colour to a list of colours.
fn extended(left: Vec<Color>, c: Color) -> (r: Vec<Color>)
    ensures
        r@ == left@.push(c),
{
    let mut r = left;
    r.push(c);
    r
}

/// Relies on itertools' `Itertools::cartesian_product`, which yields each
/// item of `prefixes` paired with each colour of `colors`, the colour varying
/// fastest; each prefix is cloned for every pairing, which keeps its colours.
#[verifier::external_body]
fn extend_each(prefixes: Vec<Vec<Color>>, colors: [Color; 4]) -> (r: Vec<Vec<Color>>)
    requires
        prefixes@.len() * 4 <= usize::MAX,
    ensures
        r@.len() == prefixes@.len() * 4,
        forall|i: int, j: int|
            0 <= i < prefixes@.len() && 0 <= j < 4 ==> (#[trigger] r@[i * 4 + j])@
                == prefixes@[i]@.push(colors@[j]),
{
    prefixes.into_iter().cartesian_product(colors).map(|(left, c)| extended(left, c)).collect_vec()
}

/// Enumerates every candidate of length `n`, in the order where the last
/// position varies fastest and each position runs through the alphabet in
/// order.
pub fn initialize_problem_set(n: usize) -> (r: Vec<Password>)
    requires
        n >= 1,
        candidate_count(n as nat) <= usize::MAX,
    ensures
        r@.len() == candidate_count(n as nat),
        forall|i: int| 0 <= i < r@.len() ==> (#[trigger] r@[i])@ == candidate_at(n as nat, i as nat),
        uniform_len(views(r@), n as nat),
        views(r@).no_duplicates(),
{
    let colors = Color::all();
    let mut problem_set: Vec<Vec<Color>> = Vec::with_capacity(ALPHABET_SIZE);
    let mut c: usize = 0;
    while c < ALPHABET_SIZE
        invariant
            colors@ == alphabet(),
            c <= ALPHABET_SIZE,
            problem_set@.len() == c,
            forall|i: int| 0 <= i < c ==> (#[trigger] problem_set@[i])@ == candidate_at(1, i as nat),
        decreases ALPHABET_SIZE - c,
    {
        assert(alphabet().len() == 4);
        let mut one: Vec<Color> = Vec::new();
        one.push(colors[c]);
        assert(one@ =~= candidate_at(1, c as nat)) by {
            assert(candidate_at(0, c as nat / 4) =~= Seq::<Color>::empty());
        }
        problem_set.push(one);
        c += 1;
    }
    assert(candidate_count(0) == 1);
    assert(candidate_count(1) == 4);
    let mut k: usize = 1;
    while k < n
        invariant
            colors@ == alphabet(),
            1 <= k <= n,
            candidate_count(n as nat) <= usize::MAX,
            problem_set@.len() == candidate_count(k as nat),
            forall|i: int|
                0 <= i < problem_set@.len() ==> (#[trigger] problem_set@[i])@ == candidate_at(
                    k as nat,
                    i as nat,
                ),
        decreases n - k,
    {
        proof {
            lemma_candidate_count_monotone((k + 1) as nat, n as nat);
        }
        let ghost prev = problem_set@;
        problem_set = extend_each(problem_set, colors);
        proof {
            assert forall|t: int| 0 <= t < problem_set@.len() implies (#[trigger] problem_set@[t])@
                == candidate_at((k + 1) as nat, t as nat) by {
                let i = t / 4;
                let j = t % 4;
                assert(t == i * 4 + j);
                assert(problem_set@[i * 4 + j]@ == prev[i]@.push(colors@[j]));
            }
        }
        k += 1;
    }
    let mut r: Vec<Password> = Vec::with_capacity(problem_set.len());
    let mut i: usize = 0;
    while i < problem_set.len()
        invariant
            i <= problem_set@.len(),
            problem_set@.len() == candidate_count(n as nat),
            r@.len() == i,
            forall|t: int|
                0 <= t < problem_set@.len() ==> (#[trigger] problem_set@[t])@ == candidate_at(
                    n as nat,
                    t as nat,
                ),
            forall|t: int| 0 <= t < i ==> (#[trigger] r@[t])@ == candidate_at(n as nat, t as nat),
        decreases problem_set@.len() - i,
    {
        let p = Color::to_password(problem_set[i].as_slice());
        r.push(p);
        i += 1;
    }
    proof {
        assert forall|t: int| 0 <= t < views(r@).len() implies (#[trigger] views(r@)[t]).len()
            == n by {
            lemma_candidate_at_len(n as nat, t as nat);
        }
        assert forall|a: int, b: int|
            0 <= a < views(r@).len() && 0 <= b < views(r@).len() && a != b implies views(r@)[a]
            != views(r@)[b] by {
            if views(r@)[a] == views(r@)[b] {
                lemma_candidate_at_injective(n as nat, a as nat, b as nat);
            }
        }
    }
    r
}

} // verus!
