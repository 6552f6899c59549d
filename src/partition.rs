use vstd::prelude::*;
use crate::color::Color;
use crate::password::{feedback, lemma_feedback_symmetric_bounded, Password};

verus! {

/// The colour sequences of a list of candidates.
pub open spec fn views(s: Seq<Password>) -> Seq<Seq<Color>> {
    s.map_values(|p: Password| p@)
}

/// Every candidate of `r` has length `n`.
pub open spec fn uniform_len(r: Seq<Seq<Color>>, n: nat) -> bool {
    forall|i: int| 0 <= i < r.len() ==> (#[trigger] r[i]).len() == n
}

/// The candidates of `r` whose feedback against `g` is `k`, in their order
/// in `r`.
pub open spec fn bucket(g: Seq<Color>, r: Seq<Seq<Color>>, k: nat) -> Seq<Seq<Color>>
    decreases r.len(),
{
    if r.len() == 0 {
        Seq::empty()
    } else {
        let rest = bucket(g, r.drop_last(), k);
        if feedback(g, r.last()) == k {
            rest.push(r.last())
        } else {
            rest
        }
    }
}

/// Total size of the buckets for the feedback values below `k`.
pub open spec fn total_len(g: Seq<Color>, r: Seq<Seq<Color>>, k: nat) -> nat
    decreases k,
{
    if k == 0 {
        0
    } else {
        total_len(g, r, (k - 1) as nat) + bucket(g, r, (k - 1) as nat).len()
    }
}

/// A candidate lies in bucket `k` exactly when it lies in `r` and its
/// feedback against `g` is `k`.
pub proof fn lemma_bucket_contains(g: Seq<Color>, r: Seq<Seq<Color>>, k: nat, c: Seq<Color>)
    ensures
        bucket(g, r, k).contains(c) <==> (r.contains(c) && feedback(g, c) == k),
    decreases r.len(),
{
    if r.len() > 0 {
        let p = r.drop_last();
        lemma_bucket_contains(g, p, k, c);
        let rest = bucket(g, p, k);
        if r.contains(c) {
            let i = choose|i: int| 0 <= i < r.len() && r[i] == c;
            if i < r.len() - 1 {
                assert(p[i] == c);
            }
        }
        if p.contains(c) {
            let i = choose|i: int| 0 <= i < p.len() && p[i] == c;
            assert(r[i] == c);
        }
        if feedback(g, r.last()) == k {
            assert(rest.push(r.last())[rest.len() as int] == r.last());
            if rest.contains(c) {
                let i = choose|i: int| 0 <= i < rest.len() && rest[i] == c;
                assert(rest.push(r.last())[i] == c);
            }
            if rest.push(r.last()).contains(c) {
                let i = choose|i: int| 0 <= i < rest.len() + 1 && rest.push(r.last())[i] == c;
                if i < rest.len() {
                    assert(rest[i] == c);
                }
            }
        }
        assert(r[r.len() - 1] == r.last());
    }
}

/// A bucket of a list without repeats has no repeats.
pub proof fn lemma_bucket_no_duplicates(g: Seq<Color>, r: Seq<Seq<Color>>, k: nat)
    requires
        r.no_duplicates(),
    ensures
        bucket(g, r, k).no_duplicates(),
    decreases r.len(),
{
    if r.len() > 0 {
        let p = r.drop_last();
        let x = r.last();
        assert(r[r.len() - 1] == x);
        assert(p.no_duplicates()) by {
            assert forall|i: int, j: int|
                0 <= i < p.len() && 0 <= j < p.len() && i != j implies p[i] != p[j] by {
                assert(p[i] == r[i] && p[j] == r[j]);
            }
        }
        lemma_bucket_no_duplicates(g, p, k);
        if feedback(g, x) == k {
            let rest = bucket(g, p, k);
            lemma_bucket_contains(g, p, k, x);
            assert(!p.contains(x)) by {
                if p.contains(x) {
                    let i = choose|i: int| 0 <= i < p.len() && p[i] == x;
                    assert(r[i] == r[r.len() - 1]);
                }
            }
            let q = rest.push(x);
            assert forall|i: int, j: int|
                0 <= i < q.len() && 0 <= j < q.len() && i != j implies q[i] != q[j] by {
                if i == rest.len() {
                    assert(rest[j] == q[j]);
                    assert(rest.contains(rest[j]));
                } else if j == rest.len() {
                    assert(rest[i] == q[i]);
                    assert(rest.contains(rest[i]));
                } else {
                    assert(q[i] == rest[i] && q[j] == rest[j]);
                }
            }
        }
    }
}

proof fn lemma_total_len_step(g: Seq<Color>, r: Seq<Seq<Color>>, k: nat)
    requires
        r.len() > 0,
    ensures
        total_len(g, r, k) == total_len(g, r.drop_last(), k) + if feedback(g, r.last()) < k {
            1nat
        } else {
            0nat
        },
    decreases k,
{
    if k > 0 {
        lemma_total_len_step(g, r, (k - 1) as nat);
    }
}

proof fn lemma_total_len_empty(g: Seq<Color>, r: Seq<Seq<Color>>, k: nat)
    requires
        r.len() == 0,
    ensures
        total_len(g, r, k) == 0,
    decreases k,
{
    if k > 0 {
        lemma_total_len_empty(g, r, (k - 1) as nat);
    }
}

proof fn lemma_total_len_whole(g: Seq<Color>, r: Seq<Seq<Color>>)
    requires
        uniform_len(r, g.len()),
    ensures
        total_len(g, r, g.len() + 1) == r.len(),
    decreases r.len(),
{
    if r.len() > 0 {
        let p = r.drop_last();
        assert(uniform_len(p, g.len())) by {
            assert forall|i: int| 0 <= i < p.len() implies (#[trigger] p[i]).len() == g.len() by {
                assert(p[i] == r[i]);
            }
        }
        lemma_total_len_whole(g, p);
        lemma_total_len_step(g, r, g.len() + 1);
        assert(r[r.len() - 1] == r.last());
        lemma_feedback_symmetric_bounded(g, r.last());
    } else {
        lemma_total_len_empty(g, r, g.len() + 1);
    }
}

proof fn lemma_total_len_ge_one(g: Seq<Color>, r: Seq<Seq<Color>>, k: nat, h: nat)
    requires
        h < k,
    ensures
        total_len(g, r, k) >= bucket(g, r, h).len(),
    decreases k,
{
    if h < k - 1 {
        lemma_total_len_ge_one(g, r, (k - 1) as nat, h);
    }
}

/// Two distinct buckets below `k` together hold no more than all buckets
/// below `k`.
pub proof fn lemma_total_len_ge_two(g: Seq<Color>, r: Seq<Seq<Color>>, k: nat, h: nat, j: nat)
    requires
        h < k,
        j < k,
        h != j,
    ensures
        total_len(g, r, k) >= bucket(g, r, h).len() + bucket(g, r, j).len(),
    decreases k,
{
    if h == k - 1 {
        lemma_total_len_ge_one(g, r, (k - 1) as nat, j);
    } else if j == k - 1 {
        lemma_total_len_ge_one(g, r, (k - 1) as nat, h);
    } else {
        lemma_total_len_ge_two(g, r, (k - 1) as nat, h, j);
    }
}

/// The buckets of a guess cover the candidates: their sizes add up to the
/// number of candidates, and each candidate lies in the bucket of its own
/// feedback and in no other.
pub proof fn lemma_partition_covers(g: Seq<Color>, r: Seq<Seq<Color>>)
    requires
        uniform_len(r, g.len()),
    ensures
        total_len(g, r, g.len() + 1) == r.len(),
        forall|c: Seq<Color>, k: nat|
            r.contains(c) ==> (#[trigger] bucket(g, r, k).contains(c) <==> k == feedback(g, c)),
{
    lemma_total_len_whole(g, r);
    assert forall|c: Seq<Color>, k: nat| r.contains(c) implies (#[trigger] bucket(
        g,
        r,
        k,
    ).contains(c) <==> k == feedback(g, c)) by {
        lemma_bucket_contains(g, r, k, c);
    }
}

/// When two distinct buckets are nonempty, every bucket is smaller than the
/// whole set.
pub proof fn lemma_split_shrinks(g: Seq<Color>, r: Seq<Seq<Color>>, a: nat, b: nat, h: nat)
    requires
        uniform_len(r, g.len()),
        a <= g.len(),
        b <= g.len(),
        h <= g.len(),
        a != b,
        bucket(g, r, a).len() > 0,
        bucket(g, r, b).len() > 0,
    ensures
        bucket(g, r, h).len() < r.len(),
{
    lemma_total_len_whole(g, r);
    if h != a {
        lemma_total_len_ge_two(g, r, g.len() + 1, h, a);
    } else {
        lemma_total_len_ge_two(g, r, g.len() + 1, h, b);
    }
}

/// Groups `remaining` by feedback against `guess`: entry `k` of the result
/// holds, in order, the candidates whose feedback is `k`.
pub fn partition(guess: &Password, remaining: &Vec<Password>) -> (r: Vec<Vec<Password>>)
    requires
        guess@.len() < usize::MAX,
        uniform_len(views(remaining@), guess@.len()),
    ensures
        r@.len() == guess@.len() + 1,
        forall|k: int|
            0 <= k < r@.len() ==> views((#[trigger] r@[k])@) == bucket(
                guess@,
                views(remaining@),
                k as nat,
            ),
{
    let n = guess.len();
    let ghost all = views(remaining@);
    let mut buckets: Vec<Vec<Password>> = Vec::with_capacity(n + 1);
    let mut k: usize = 0;
    while k <= n
        invariant
            n == guess@.len(),
            n < usize::MAX,
            k <= n + 1,
            buckets@.len() == k,
            forall|j: int| 0 <= j < k ==> (#[trigger] buckets@[j])@.len() == 0,
        decreases n + 1 - k,
    {
        buckets.push(Vec::new());
        k += 1;
    }
    proof {
        assert forall|j: int| 0 <= j < buckets@.len() implies views(
            (#[trigger] buckets@[j])@,
        ) == bucket(guess@, all.subrange(0, 0), j as nat) by {
            assert(views(buckets@[j]@) =~= Seq::empty());
        }
    }
    let mut i: usize = 0;
    while i < remaining.len()
        invariant
            n == guess@.len(),
            n < usize::MAX,
            all == views(remaining@),
            uniform_len(all, n as nat),
            i <= remaining@.len(),
            buckets@.len() == n + 1,
            forall|j: int|
                0 <= j < buckets@.len() ==> views((#[trigger] buckets@[j])@) == bucket(
                    guess@,
                    all.subrange(0, i as int),
                    j as nat,
                ),
        decreases remaining@.len() - i,
    {
        let c = &remaining[i];
        assert(all[i as int] == c@);
        assert(c@.len() == n);
        let h = guess.check_answer(c);
        proof {
            lemma_feedback_symmetric_bounded(guess@, c@);
        }
        let ghost before = buckets@;
        let mut b = buckets.remove(h);
        b.push(c.clone());
        buckets.insert(h, b);
        proof {
            let pre = all.subrange(0, i as int);
            let post = all.subrange(0, i as int + 1);
            assert(post.drop_last() =~= pre);
            assert(post.last() == c@);
            assert forall|j: int| 0 <= j < buckets@.len() implies views(
                (#[trigger] buckets@[j])@,
            ) == bucket(guess@, post, j as nat) by {
                if j == h {
                    assert(views(buckets@[j]@) =~= views(before[j]@).push(c@));
                } else {
                    assert(buckets@[j] == before[j]);
                }
            }
        }
        i += 1;
    }
    proof {
        assert(all.subrange(0, remaining@.len() as int) =~= all);
    }
    buckets
}

} // verus!
