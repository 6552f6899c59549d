use vstd::prelude::*;
use crate::color::Color;
use crate::partition::{
    bucket, lemma_bucket_contains, lemma_bucket_no_duplicates, lemma_partition_covers,
    lemma_split_shrinks, lemma_total_len_ge_two, partition,
    uniform_len, views,
};
use crate::password::{
    feedback, lemma_feedback_reflexive, lemma_feedback_symmetric_bounded,
    lemma_full_feedback_equal, Password,
};

verus! {

/// Some two distinct feedback values each receive a candidate of `r` when
/// `g` is guessed: the guess tells the candidates apart.
pub open spec fn informative(g: Seq<Color>, r: Seq<Seq<Color>>) -> bool {
    exists|a: nat, b: nat|
        a < b <= g.len() && #[trigger] bucket(g, r, a).len() > 0 && #[trigger] bucket(
            g,
            r,
            b,
        ).len() > 0
}

/// No guess tells apart the candidates of a set of at most one: all of them
/// fall in a single bucket, so such a guess carries no information.
pub proof fn lemma_small_set_uninformative(g: Seq<Color>, r: Seq<Seq<Color>>)
    requires
        r.len() <= 1,
        uniform_len(r, g.len()),
    ensures
        !informative(g, r),
{
    if informative(g, r) {
        let (a, b) = choose|a: nat, b: nat|
            a < b <= g.len() && #[trigger] bucket(g, r, a).len() > 0 && #[trigger] bucket(
                g,
                r,
                b,
            ).len() > 0;
        lemma_partition_covers(g, r);
        lemma_total_len_ge_two(g, r, g.len() + 1, a, b);
    }
}

/// Position `i` holds a score, no score is higher, and every score before
/// position `i` is strictly lower.
pub open spec fn first_best(scores: Seq<Option<u64>>, i: int) -> bool {
    &&& 0 <= i < scores.len()
    &&& scores[i] is Some
    &&& forall|j: int|
        0 <= j < scores.len() && (#[trigger] scores[j]) is Some ==> scores[j].unwrap()
            <= scores[i].unwrap()
    &&& forall|j: int|
        0 <= j < i && (#[trigger] scores[j]) is Some ==> scores[j].unwrap() < scores[i].unwrap()
}

/// The candidates of `pool` still consistent with the feedback that `secret`
/// gives to each of `guesses` in turn.
pub open spec fn consistent(pool: Seq<Seq<Color>>, secret: Seq<Color>, guesses: Seq<Seq<Color>>) -> Seq<
    Seq<Color>,
>
    decreases guesses.len(),
{
    if guesses.len() == 0 {
        pool
    } else {
        bucket(
            guesses.last(),
            consistent(pool, secret, guesses.drop_last()),
            feedback(guesses.last(), secret),
        )
    }
}

/// One round of a solving run.
pub struct Round {
    /// The guess made.
    pub guess: Password,
    /// Its feedback against the secret.
    pub hint: usize,
    /// How many candidates remained after the feedback.
    pub remaining: usize,
}

/// The guesses of a run, in order.
pub open spec fn guesses(rounds: Seq<Round>) -> Seq<Seq<Color>> {
    rounds.map_values(|r: Round| r.guess@)
}

/// Whether two distinct buckets of a partition are nonempty.
pub fn is_informative(parts: &Vec<Vec<Password>>) -> (r: bool)
    ensures
        r == exists|a: int, b: int|
            0 <= a < b < parts@.len() && (#[trigger] parts@[a])@.len() > 0 && (#[trigger] parts@[
                b
            ])@.len() > 0,
{
    let mut seen: Option<usize> = None;
    let mut k: usize = 0;
    while k < parts.len()
        invariant
            k <= parts@.len(),
            match seen {
                None => forall|a: int| 0 <= a < k ==> (#[trigger] parts@[a])@.len() == 0,
                Some(a) => a < k && parts@[a as int]@.len() > 0,
            },
            forall|a: int, b: int|
                0 <= a < b < k ==> !((#[trigger] parts@[a])@.len() > 0 && (#[trigger] parts@[
                    b
                ])@.len() > 0),
        decreases parts@.len() - k,
    {
        if parts[k].len() > 0 {
            match seen {
                Some(a) => {
                    assert(parts@[a as int]@.len() > 0 && parts@[k as int]@.len() > 0);
                    return true;
                },
                None => {
                    seen = Some(k);
                },
            }
        }
        k += 1;
    }
    false
}

/// The size of each bucket of a partition.
pub fn bucket_sizes(parts: &Vec<Vec<Password>>) -> (r: Vec<usize>)
    ensures
        r@.len() == parts@.len(),
        forall|k: int| 0 <= k < r@.len() ==> #[trigger] r@[k] == parts@[k]@.len(),
{
    let mut r: Vec<usize> = Vec::with_capacity(parts.len());
    let mut k: usize = 0;
    while k < parts.len()
        invariant
            k <= parts@.len(),
            r@.len() == k,
            forall|j: int| 0 <= j < k ==> #[trigger] r@[j] == parts@[j]@.len(),
        decreases parts@.len() - k,
    {
        r.push(parts[k].len());
        k += 1;
    }
    r
}

/// The first position holding the highest score, or `None` when no position
/// holds a score.
pub fn select_best(scores: &Vec<Option<u64>>) -> (r: Option<usize>)
    ensures
        r is None <==> forall|j: int| 0 <= j < scores@.len() ==> (#[trigger] scores@[j]) is None,
        r matches Some(i) ==> first_best(scores@, i as int),
{
    let mut best: Option<usize> = None;
    let mut k: usize = 0;
    while k < scores.len()
        invariant
            k <= scores@.len(),
            match best {
                None => forall|j: int| 0 <= j < k ==> (#[trigger] scores@[j]) is None,
                Some(i) => first_best(scores@.subrange(0, k as int), i as int),
            },
        decreases scores@.len() - k,
    {
        let ghost pre = scores@.subrange(0, k as int);
        let ghost post = scores@.subrange(0, k as int + 1);
        proof {
            assert forall|j: int| 0 <= j < k implies #[trigger] post[j] == pre[j] by {}
            assert(post[k as int] == scores@[k as int]);
        }
        match scores[k] {
            None => {},
            Some(s) => {
                match best {
                    None => {
                        best = Some(k);
                    },
                    Some(i) => {
                        if s > scores[i].unwrap() {
                            best = Some(k);
                        }
                    },
                }
            },
        }
        k += 1;
        proof {
            match best {
                None => {},
                Some(i) => {
                    assert forall|j: int|
                        0 <= j < post.len() && (#[trigger] post[j]) is Some implies post[j].unwrap()
                        <= post[i as int].unwrap() by {
                        if j < k - 1 {
                            assert(post[j] == pre[j]);
                        }
                    }
                },
            }
        }
    }
    proof {
        assert(scores@.subrange(0, k as int) =~= scores@);
    }
    best
}

/// The bucket sizes of guess `g` against `r`, one per feedback value.
pub open spec fn sizes_of(g: Seq<Color>, r: Seq<Seq<Color>>) -> Seq<usize> {
    Seq::new(g.len() + 1, |k: int| bucket(g, r, k as nat).len() as usize)
}

/// `s` is a score that `score` may give to the bucket sizes of `g` against
/// `r`.
pub open spec fn scored<F: Fn(Vec<usize>) -> u64>(
    score: F,
    g: Seq<Color>,
    r: Seq<Seq<Color>>,
    s: u64,
) -> bool {
    exists|v: Vec<usize>| v@ == sizes_of(g, r) && call_ensures(score, (v,), s)
}

/// Guess `i` of `pool` is the pick for `r`: some list of scores, one per
/// guess, is empty exactly at the guesses that are not informative, holds
/// elsewhere a score that `score` gave, and has its first highest score at
/// `i`.
#[verifier::opaque]
pub open spec fn best_by_score<F: Fn(Vec<usize>) -> u64>(
    score: F,
    pool: Seq<Seq<Color>>,
    r: Seq<Seq<Color>>,
    i: int,
) -> bool {
    exists|scores: Seq<Option<u64>>|
        {
            &&& scores.len() == pool.len()
            &&& first_best(scores, i)
            &&& forall|j: int|
                0 <= j < pool.len() ==> ((#[trigger] scores[j]) is None <==> !informative(
                    pool[j],
                    r,
                ))
            &&& forall|j: int|
                0 <= j < pool.len() && (#[trigger] scores[j]) is Some ==> scored(
                    score,
                    pool[j],
                    r,
                    scores[j].unwrap(),
                )
        }
}

/// Scores every guess of `pool` against `remaining` and picks one. A guess
/// that tells no two candidates apart gets no score; each other guess is
/// scored by `score` on the bucket sizes of its partition. The pick is the
/// first guess of `pool` with the highest score, returned with its
/// partition; `None` when no guess of `pool` is informative.
pub fn choose_guess<F: Fn(Vec<usize>) -> u64>(
    pool: &Vec<Password>,
    remaining: &Vec<Password>,
    n: usize,
    score: &F,
) -> (r: Option<(usize, Vec<Vec<Password>>)>)
    requires
        n < usize::MAX,
        uniform_len(views(pool@), n as nat),
        uniform_len(views(remaining@), n as nat),
        forall|v: Vec<usize>| #[trigger] score.requires((v,)),
    ensures
        r is None <==> forall|i: int|
            0 <= i < pool@.len() ==> !informative(#[trigger] pool@[i]@, views(remaining@)),
        r matches Some((i, parts)) ==> {
            &&& i < pool@.len()
            &&& informative(pool@[i as int]@, views(remaining@))
            &&& parts@.len() == n + 1
            &&& best_by_score(*score, views(pool@), views(remaining@), i as int)
            &&& forall|k: int|
                0 <= k < parts@.len() ==> views((#[trigger] parts@[k])@) == bucket(
                    pool@[i as int]@,
                    views(remaining@),
                    k as nat,
                )
        },
{
    let ghost rem = views(remaining@);
    let mut scores: Vec<Option<u64>> = Vec::with_capacity(pool.len());
    let mut i: usize = 0;
    while i < pool.len()
        invariant
            n < usize::MAX,
            uniform_len(views(pool@), n as nat),
            uniform_len(rem, n as nat),
            rem == views(remaining@),
            forall|v: Vec<usize>| #[trigger] score.requires((v,)),
            i <= pool@.len(),
            scores@.len() == i,
            forall|j: int|
                0 <= j < i ==> ((#[trigger] scores@[j]) is None <==> !informative(
                    pool@[j]@,
                    rem,
                )),
            forall|j: int|
                0 <= j < i && (#[trigger] scores@[j]) is Some ==> scored(
                    *score,
                    pool@[j]@,
                    rem,
                    scores@[j].unwrap(),
                ),
        decreases pool@.len() - i,
    {
        let g = &pool[i];
        assert(views(pool@)[i as int] == g@);
        let parts = partition(g, remaining);
        let split = is_informative(&parts);
        proof {
            if split {
                let (a, b) = choose|a: int, b: int|
                    0 <= a < b < parts@.len() && (#[trigger] parts@[a])@.len() > 0
                        && (#[trigger] parts@[b])@.len() > 0;
                assert(views(parts@[a]@).len() == parts@[a]@.len());
                assert(views(parts@[b]@).len() == parts@[b]@.len());
                assert(bucket(g@, rem, a as nat).len() > 0 && bucket(g@, rem, b as nat).len() > 0);
            } else {
                if informative(g@, rem) {
                    let (a, b) = choose|a: nat, b: nat|
                        a < b <= g@.len() && #[trigger] bucket(g@, rem, a).len() > 0
                            && #[trigger] bucket(g@, rem, b).len() > 0;
                    assert(views(parts@[a as int]@) == bucket(g@, rem, a));
                    assert(views(parts@[b as int]@) == bucket(g@, rem, b));
                    assert(parts@[a as int]@.len() > 0 && parts@[b as int]@.len() > 0);
                }
            }
        }
        if split {
            let sizes = bucket_sizes(&parts);
            proof {
                assert forall|k: int| 0 <= k < sizes@.len() implies sizes@[k] == sizes_of(
                    g@,
                    rem,
                )[k] by {
                    assert(views(parts@[k]@).len() == parts@[k]@.len());
                }
                assert(sizes@ =~= sizes_of(g@, rem));
            }
            let ghost v = sizes;
            let s = score(sizes);
            assert(scored(*score, g@, rem, s));
            scores.push(Some(s));
        } else {
            scores.push(None);
        }
        i += 1;
    }
    match select_best(&scores) {
        None => {
            assert forall|j: int| 0 <= j < pool@.len() implies !informative(
                #[trigger] pool@[j]@,
                rem,
            ) by {
                assert(scores@[j] is None);
            }
            None
        },
        Some(best) => {
            assert(scores@[best as int] is Some);
            assert(informative(pool@[best as int]@, rem));
            assert(views(pool@)[best as int] == pool@[best as int]@);
            proof {
                let pv = views(pool@);
                assert forall|j: int| 0 <= j < pool@.len() implies (#[trigger] scores@[j] is None)
                    <==> !informative(pv[j], rem) by {
                    assert(pv[j] == pool@[j]@);
                }
                assert forall|j: int|
                    0 <= j < pool@.len() && (#[trigger] scores@[j]) is Some implies scored(
                    *score,
                    pv[j],
                    rem,
                    scores@[j].unwrap(),
                ) by {
                    assert(pv[j] == pool@[j]@);
                }
                reveal(best_by_score);
                assert(best_by_score(*score, pv, rem, best as int));
            }
            let parts = partition(&pool[best], remaining);
            Some((best, parts))
        },
    }
}

fn copy_all(v: &Vec<Password>) -> (r: Vec<Password>)
    ensures
        views(r@) == views(v@),
{
    let mut r: Vec<Password> = Vec::with_capacity(v.len());
    let mut i: usize = 0;
    while i < v.len()
        invariant
            i <= v@.len(),
            r@.len() == i,
            views(r@) == views(v@).subrange(0, i as int),
        decreases v@.len() - i,
    {
        let ghost old = r@;
        let c = v[i].clone();
        r.push(c);
        assert(r@ == old.push(c));
        assert(views(v@)[i as int] == c@);
        i += 1;
        assert(views(r@) =~= views(v@).subrange(0, i as int)) by {
            assert forall|j: int| 0 <= j < i - 1 implies views(r@)[j] == views(old)[j] by {
                assert(r@[j] == old[j]);
            }
        }
    }
    assert(views(v@).subrange(0, i as int) =~= views(v@));
    r
}

/// Solves for `solution` by repeated guessing from `problem_set`. Each round
/// takes the guess that `choose_guess` picks against the candidates still
/// consistent with the feedback so far, and keeps the bucket of the
/// solution's feedback. The run ends when one candidate is left; it is the
/// solution.
#[verifier::rlimit(40)]
pub fn solve_automatically<F: Fn(Vec<usize>) -> u64>(
    problem_set: &Vec<Password>,
    solution: &Password,
    score: &F,
) -> (r: Vec<Round>)
    requires
        solution@.len() < usize::MAX,
        uniform_len(views(problem_set@), solution@.len()),
        views(problem_set@).no_duplicates(),
        views(problem_set@).contains(solution@),
        forall|v: Vec<usize>| #[trigger] score.requires((v,)),
    ensures
        consistent(views(problem_set@), solution@, guesses(r@)) == seq![solution@],
        r@.len() < problem_set@.len(),
        problem_set@.len() >= 2 ==> r@.len() >= 1,
        forall|i: int|
            0 <= i < r@.len() ==> views(problem_set@).contains((#[trigger] r@[i]).guess@),
        forall|i: int|
            0 <= i < r@.len() ==> (#[trigger] r@[i]).hint == feedback(r@[i].guess@, solution@),
        forall|i: int|
            0 <= i < r@.len() ==> informative(
                (#[trigger] r@[i]).guess@,
                consistent(views(problem_set@), solution@, guesses(r@).subrange(0, i)),
            ),
        forall|i: int|
            0 <= i < r@.len() ==> (#[trigger] r@[i]).remaining == consistent(
                views(problem_set@),
                solution@,
                guesses(r@).subrange(0, i + 1),
            ).len(),
{
    let n = solution.len();
    let ghost pool = views(problem_set@);
    let ghost s = solution@;
    let mut answer_set = copy_all(problem_set);
    let mut rounds: Vec<Round> = Vec::new();
    assert(guesses(rounds@) =~= Seq::empty());
    while answer_set.len() > 1
        invariant
            n == s.len(),
            n < usize::MAX,
            s == solution@,
            pool == views(problem_set@),
            uniform_len(pool, n as nat),
            pool.no_duplicates(),
            forall|v: Vec<usize>| #[trigger] score.requires((v,)),
            views(answer_set@) == consistent(pool, s, guesses(rounds@)),
            uniform_len(views(answer_set@), n as nat),
            views(answer_set@).no_duplicates(),
            views(answer_set@).contains(s),
            forall|c: Seq<Color>| views(answer_set@).contains(c) ==> pool.contains(c),
            answer_set@.len() + rounds@.len() <= pool.len(),
            rounds@.len() == 0 ==> answer_set@.len() == pool.len(),
            forall|i: int| 0 <= i < rounds@.len() ==> pool.contains((#[trigger] rounds@[i]).guess@),
            forall|i: int|
                0 <= i < rounds@.len() ==> (#[trigger] rounds@[i]).hint == feedback(
                    rounds@[i].guess@,
                    s,
                ),
            forall|i: int|
                0 <= i < rounds@.len() ==> informative(
                    (#[trigger] rounds@[i]).guess@,
                    consistent(pool, s, guesses(rounds@).subrange(0, i)),
                ),
            forall|i: int|
                0 <= i < rounds@.len() ==> (#[trigger] rounds@[i]).remaining == consistent(
                    pool,
                    s,
                    guesses(rounds@).subrange(0, i + 1),
                ).len(),
        decreases answer_set@.len(),
    {
        let ghost rem = views(answer_set@);
        proof {
            let g = rem[0];
            let other = rem[1];
            assert(g != other);
            assert(g.len() == n && other.len() == n);
            lemma_feedback_reflexive(g);
            assert(rem.contains(g));
            assert(rem.contains(other));
            lemma_bucket_contains(g, rem, n as nat, g);
            let f = feedback(g, other);
            lemma_feedback_symmetric_bounded(g, other);
            if f == n {
                lemma_full_feedback_equal(g, other);
            }
            lemma_bucket_contains(g, rem, f, other);
            assert(bucket(g, rem, f).len() > 0);
            assert(bucket(g, rem, n as nat).len() > 0);
            assert(informative(g, rem));
            assert(pool.contains(g));
            let ip = choose|ip: int| 0 <= ip < pool.len() && pool[ip] == g;
            assert(pool[ip] == problem_set@[ip]@);
        }
        let chosen = choose_guess(problem_set, &answer_set, n, score);
        let (i, mut parts) = chosen.unwrap();
        let guess = problem_set[i].clone();
        assert(pool[i as int] == guess@);
        let hint = solution.check_answer(&guess);
        proof {
            lemma_feedback_symmetric_bounded(s, guess@);
        }
        let next = parts.remove(hint);
        proof {
            let nr = views(next@);
            assert(nr == bucket(guess@, rem, hint as nat));
            lemma_bucket_contains(guess@, rem, hint as nat, s);
            lemma_bucket_no_duplicates(guess@, rem, hint as nat);
            assert forall|c: Seq<Color>| nr.contains(c) implies pool.contains(c) by {
                lemma_bucket_contains(guess@, rem, hint as nat, c);
            }
            assert forall|j: int| 0 <= j < nr.len() implies (#[trigger] nr[j]).len() == n by {
                assert(nr.contains(nr[j]));
                lemma_bucket_contains(guess@, rem, hint as nat, nr[j]);
                let t = choose|t: int| 0 <= t < rem.len() && rem[t] == nr[j];
            }
            let (a, b) = choose|a: nat, b: nat|
                a < b <= guess@.len() && #[trigger] bucket(guess@, rem, a).len() > 0
                    && #[trigger] bucket(guess@, rem, b).len() > 0;
            lemma_split_shrinks(guess@, rem, a, b, hint as nat);
        }
        let ghost old_rounds = rounds@;
        answer_set = next;
        let remaining = answer_set.len();
        rounds.push(Round { guess, hint, remaining });
        proof {
            let gs_old = guesses(old_rounds);
            let gs = guesses(rounds@);
            assert(gs =~= gs_old.push(guess@));
            assert(gs.drop_last() =~= gs_old);
            assert(gs.subrange(0, old_rounds.len() as int) =~= gs_old);
            assert(gs.subrange(0, old_rounds.len() as int + 1) =~= gs);
            assert forall|j: int| 0 <= j < rounds@.len() implies informative(
                (#[trigger] rounds@[j]).guess@,
                consistent(pool, s, gs.subrange(0, j)),
            ) && rounds@[j].remaining == consistent(pool, s, gs.subrange(0, j + 1)).len() by {
                if j < old_rounds.len() {
                    assert(rounds@[j] == old_rounds[j]);
                    assert(gs.subrange(0, j) =~= gs_old.subrange(0, j));
                    assert(gs.subrange(0, j + 1) =~= gs_old.subrange(0, j + 1));
                }
            }
            assert forall|j: int| 0 <= j < rounds@.len() implies pool.contains(
                (#[trigger] rounds@[j]).guess@,
            ) && rounds@[j].hint == feedback(rounds@[j].guess@, s) by {
                if j < old_rounds.len() {
                    assert(rounds@[j] == old_rounds[j]);
                } else {
                    assert(pool[i as int] == guess@);
                }
            }
        }
    }
    proof {
        let rem = views(answer_set@);
        let t = choose|t: int| 0 <= t < rem.len() && rem[t] == s;
        assert(rem =~= seq![s]);
    }
    rounds
}

/// The sum of a list of counts.
pub open spec fn sum_of(s: Seq<usize>) -> int
    decreases s.len(),
{
    if s.len() == 0 {
        0
    } else {
        sum_of(s.drop_last()) + s.last()
    }
}

/// What a batch of solving runs came to.
pub struct BatchSummary {
    /// Position of the first run with the most attempts.
    pub worst_index: usize,
    /// The attempt count of that run.
    pub worst_attempts: usize,
    /// The attempt counts added up.
    pub total_attempts: u128,
}

/// Reduces the attempt counts of a batch of runs to its worst case, the
/// first run with the most attempts, and its total; `None` for no runs.
pub fn summarize(attempts: &Vec<usize>) -> (r: Option<BatchSummary>)
    ensures
        r is None <==> attempts@.len() == 0,
        r matches Some(b) ==> {
            &&& b.worst_index < attempts@.len()
            &&& b.worst_attempts == attempts@[b.worst_index as int]
            &&& forall|j: int| 0 <= j < attempts@.len() ==> #[trigger] attempts@[j] <= b.worst_attempts
            &&& forall|j: int| 0 <= j < b.worst_index ==> #[trigger] attempts@[j] < b.worst_attempts
            &&& b.total_attempts == sum_of(attempts@)
        },
{
    if attempts.len() == 0 {
        return None;
    }
    let mut worst: usize = 0;
    let mut total: u128 = 0;
    let mut k: usize = 0;
    while k < attempts.len()
        invariant
            attempts@.len() > 0,
            k <= attempts@.len(),
            worst < attempts@.len(),
            worst <= k,
            forall|j: int| 0 <= j < k ==> #[trigger] attempts@[j] <= attempts@[worst as int],
            forall|j: int| 0 <= j < worst ==> #[trigger] attempts@[j] < attempts@[worst as int],
            total == sum_of(attempts@.subrange(0, k as int)),
            total <= k * 0x1_0000_0000_0000_0000,
        decreases attempts@.len() - k,
    {
        proof {
            let post = attempts@.subrange(0, k as int + 1);
            assert(post.drop_last() =~= attempts@.subrange(0, k as int));
        }
        if attempts[k] > attempts[worst] {
            worst = k;
        }
        total = total + attempts[k] as u128;
        k += 1;
    }
    assert(attempts@.subrange(0, k as int) =~= attempts@);
    Some(BatchSummary { worst_index: worst, worst_attempts: attempts[worst], total_attempts: total })
}

} // verus!
