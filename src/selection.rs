//! The selection engine: the order in which a session asks its questions.

use vstd::prelude::*;
use vstd::seq_lib::lemma_multiset_commutative;
use vstd::multiset::Multiset;
use crate::question::{Question, QuestionView, identity_of, hash_question};
use crate::ledger::{Ledger, count_in};

verus! {

broadcast use vstd::seq_lib::group_to_multiset_ensures, vstd::multiset::lemma_multiset_empty_len;

/// How a session orders its questions.
pub enum Policy {
    /// A uniform shuffle of all questions.
    Random,
    /// Questions still owed a correct answer first, each bucket shuffled.
    MissWeighted,
}

/// The ledger still counts a miss against the question.
pub open spec fn is_owed(m: Map<Seq<char>, (nat, Seq<char>)>, q: QuestionView) -> bool {
    count_in(m, identity_of(q)) > 0
}

/// The positions `0, 1, ..., n - 1`.
pub open spec fn positions(n: nat) -> Seq<usize> {
    Seq::new(n, |i: int| i as usize)
}

/// `p` lists every position below `n` exactly once.
pub open spec fn is_order(p: Seq<usize>, n: nat) -> bool {
    p.to_multiset() == positions(n).to_multiset()
}

/// Relies on `rand::seq::SliceRandom::shuffle` with `rand::thread_rng`:
/// it reorders the slice in place by swaps, so what it holds is kept.
#[verifier::external_body]
fn shuffle(v: &mut Vec<usize>)
    ensures
        final(v)@.to_multiset() == old(v)@.to_multiset(),
{
    rand::seq::SliceRandom::shuffle(v.as_mut_slice(), &mut rand::thread_rng());
}

proof fn lemma_positions_push(n: nat)
    ensures
        positions(n + 1) == positions(n).push(n as usize),
{
    assert(positions(n + 1) =~= positions(n).push(n as usize));
}

proof fn lemma_order_bound(p: Seq<usize>, n: nat, k: int)
    requires
        is_order(p, n),
        0 <= k < p.len(),
    ensures
        p[k] < n,
{
    assert(p.contains(p[k]));
    assert(p.to_multiset().count(p[k]) > 0);
    assert(positions(n).to_multiset().count(p[k]) > 0);
    assert(positions(n).contains(p[k]));
    let i = choose|i: int| 0 <= i < positions(n).len() && positions(n)[i] == p[k];
}

/// An element of `s` is an element of `t`, which holds the same multiset.
proof fn lemma_same_elements(s: Seq<usize>, t: Seq<usize>, k: int)
    requires
        s.to_multiset() == t.to_multiset(),
        0 <= k < s.len(),
    ensures
        exists|j: int| 0 <= j < t.len() && t[j] == s[k],
{
    assert(s.contains(s[k]));
    assert(s.to_multiset().count(s[k]) > 0);
    assert(t.to_multiset().count(s[k]) > 0);
    assert(t.contains(s[k]));
}

/// Moves every element of `from` onto the end of `to`, taking from the back.
fn drain_into(to: &mut Vec<usize>, from: &mut Vec<usize>)
    ensures
        final(from)@.len() == 0,
        final(to)@.len() == old(to)@.len() + old(from)@.len(),
        final(to)@.subrange(0, old(to)@.len() as int) == old(to)@,
        final(to)@.to_multiset() == old(to)@.to_multiset().add(old(from)@.to_multiset()),
        forall|k: int|
            old(to)@.len() <= k < final(to)@.len() ==> old(from)@.contains(#[trigger] final(to)@[k]),
{
    let ghost t0 = to@;
    let ghost f0 = from@;
    while from.len() > 0
        invariant
            to@.len() + from@.len() == t0.len() + f0.len(),
            to@.subrange(0, t0.len() as int) == t0,
            to@.len() >= t0.len(),
            from@ == f0.subrange(0, from@.len() as int),
            to@.to_multiset().add(from@.to_multiset()) == t0.to_multiset().add(f0.to_multiset()),
            forall|k: int| t0.len() <= k < to@.len() ==> f0.contains(#[trigger] to@[k]),
        decreases from@.len(),
    {
        let ghost before_to = to@;
        let ghost before_from = from@;
        let x = from.pop().unwrap();
        to.push(x);
        proof {
            assert(before_from =~= from@.push(x));
            from@.to_multiset_ensures();
            before_to.to_multiset_ensures();
            assert(to@.to_multiset() =~= before_to.to_multiset().insert(x));
            assert(before_from.to_multiset() =~= from@.to_multiset().insert(x));
            assert(to@.subrange(0, t0.len() as int) =~= t0);
            assert(from@ =~= f0.subrange(0, from@.len() as int));
            assert(f0[from@.len() as int] == x);
            assert forall|k: int| t0.len() <= k < to@.len() implies f0.contains(#[trigger] to@[k]) by {
                if k == to@.len() - 1 {
                    assert(f0[from@.len() as int] == to@[k]);
                } else {
                    assert(to@[k] == before_to[k]);
                }
            }
        }
    }
    proof {
        assert(from@.to_multiset().len() == 0);
        assert(from@.to_multiset() =~= Multiset::empty());
        assert(to@.to_multiset().add(Multiset::empty()) =~= to@.to_multiset());
        assert(t0 == old(to)@ && f0 == old(from)@);
    }
}

/// The order in which to ask `questions`, as positions into it: a
/// permutation of all positions. Under the miss-weighted policy every
/// question the ledger still counts a miss against comes before every
/// question it does not.
pub fn select_order(questions: &Vec<Question>, ledger: &Ledger, policy: Policy) -> (r: Vec<usize>)
    requires
        ledger.wf(),
    ensures
        is_order(r@, questions@.len() as nat),
        r@.len() == questions@.len(),
        forall|k: int| 0 <= k < r@.len() ==> #[trigger] r@[k] < questions@.len(),
        policy is MissWeighted ==> forall|i: int, j: int|
            0 <= i < r@.len() && 0 <= j < r@.len() && is_owed(ledger@, questions@[r@[i] as int]@)
                && !is_owed(ledger@, questions@[r@[j] as int]@) ==> i < j,
{
    let ghost n = questions@.len() as nat;
    let ghost m = ledger@;
    let mut priority: Vec<usize> = Vec::new();
    let mut other: Vec<usize> = Vec::new();
    let mut i: usize = 0;
    proof {
        assert(positions(0) =~= Seq::<usize>::empty());
        assert((priority@ + other@) =~= Seq::<usize>::empty());
    }
    while i < questions.len()
        invariant
            i <= n,
            n == questions@.len(),
            m == ledger@,
            ledger.wf(),
            (priority@ + other@).to_multiset() == positions(i as nat).to_multiset(),
            forall|k: int|
                0 <= k < priority@.len() ==> #[trigger] priority@[k] < n && is_owed(
                    m,
                    questions@[priority@[k] as int]@,
                ),
            forall|k: int|
                0 <= k < other@.len() ==> #[trigger] other@[k] < n && !is_owed(
                    m,
                    questions@[other@[k] as int]@,
                ),
        decreases n - i,
    {
        let ghost p0 = priority@;
        let ghost o0 = other@;
        let id = hash_question(&questions[i]);
        let c = ledger.miss_count(&id);
        if c > 0 {
            priority.push(i);
        } else {
            other.push(i);
        }
        proof {
            lemma_positions_push(i as nat);
            lemma_multiset_commutative(p0, o0);
            lemma_multiset_commutative(priority@, other@);
            p0.to_multiset_ensures();
            o0.to_multiset_ensures();
            positions(i as nat).to_multiset_ensures();
        }
        i = i + 1;
    }
    match policy {
        Policy::Random => {
            let mut order: Vec<usize> = Vec::new();
            let mut j: usize = 0;
            while j < questions.len()
                invariant
                    j <= n,
                    n == questions@.len(),
                    order@ == positions(j as nat),
                decreases n - j,
            {
                proof {
                    lemma_positions_push(j as nat);
                }
                order.push(j);
                j = j + 1;
            }
            shuffle(&mut order);
            proof {
                order@.to_multiset_ensures();
                positions(n).to_multiset_ensures();
                assert forall|k: int| 0 <= k < order@.len() implies #[trigger] order@[k] < n by {
                    lemma_order_bound(order@, n, k);
                }
            }
            order
        },
        Policy::MissWeighted => {
            let ghost p1 = priority@;
            let ghost o1 = other@;
            shuffle(&mut priority);
            shuffle(&mut other);
            let ghost p2 = priority@;
            let ghost o2 = other@;
            let mut order: Vec<usize> = Vec::new();
            drain_into(&mut order, &mut priority);
            let ghost split = order@.len();
            let ghost first = order@;
            drain_into(&mut order, &mut other);
            proof {
                lemma_multiset_commutative(p1, o1);
                assert(Seq::<usize>::empty().to_multiset().len() == 0);
                assert(Seq::<usize>::empty().to_multiset() =~= Multiset::empty());
                assert(Multiset::<usize>::empty().add(p2.to_multiset()) =~= p2.to_multiset());
                assert(order@.to_multiset() =~= positions(n).to_multiset());
                order@.to_multiset_ensures();
                positions(n).to_multiset_ensures();
                p1.to_multiset_ensures();
                p2.to_multiset_ensures();
                assert forall|k: int| 0 <= k < order@.len() implies #[trigger] order@[k] < n by {
                    lemma_order_bound(order@, n, k);
                }
                assert forall|k: int| 0 <= k < split implies is_owed(m, questions@[#[trigger] order@[k] as int]@) by {
                    assert(order@[k] == first[k]);
                    let j = choose|j: int| 0 <= j < p2.len() && p2[j] == #[trigger] first[k];
                    lemma_same_elements(p2, p1, j);
                    let j1 = choose|j1: int| 0 <= j1 < p1.len() && p1[j1] == p2[j];
                }
                assert forall|k: int| split <= k < order@.len() implies !is_owed(m, questions@[#[trigger] order@[k] as int]@) by {
                    let j = choose|j: int| 0 <= j < o2.len() && o2[j] == #[trigger] order@[k];
                    lemma_same_elements(o2, o1, j);
                    let j1 = choose|j1: int| 0 <= j1 < o1.len() && o1[j1] == o2[j];
                }
            }
            order
        },
    }
}

/// The questions in the order `select_order` gives: every question of the
/// set exactly once, and under the miss-weighted policy each question the
/// ledger still counts a miss against before each one it does not.
pub fn select(questions: &Vec<Question>, ledger: &Ledger, policy: Policy) -> (r: Vec<Question>)
    requires
        ledger.wf(),
    ensures
        r@.len() == questions@.len(),
        exists|p: Seq<usize>|
            is_order(p, questions@.len() as nat) && p.len() == r@.len() && forall|k: int|
                0 <= k < p.len() ==> p[k] < questions@.len() && (#[trigger] r@[k])@
                    == questions@[p[k] as int]@,
        policy is MissWeighted ==> forall|i: int, j: int|
            0 <= i < r@.len() && 0 <= j < r@.len() && is_owed(ledger@, r@[i]@) && !is_owed(
                ledger@,
                r@[j]@,
            ) ==> i < j,
{
    let ghost weighted = policy is MissWeighted;
    let order = select_order(questions, ledger, policy);
    let mut r: Vec<Question> = Vec::new();
    let mut k: usize = 0;
    while k < order.len()
        invariant
            k <= order@.len(),
            order@.len() == questions@.len(),
            forall|x: int| 0 <= x < order@.len() ==> #[trigger] order@[x] < questions@.len(),
            r@.len() == k,
            forall|x: int| 0 <= x < k ==> (#[trigger] r@[x])@ == questions@[order@[x] as int]@,
        decreases order@.len() - k,
    {
        let q = questions[order[k]].copy();
        r.push(q);
        k = k + 1;
    }
    proof {
        assert(is_order(order@, questions@.len() as nat) && order@.len() == r@.len() && forall|x: int|
            0 <= x < order@.len() ==> order@[x] < questions@.len() && (#[trigger] r@[x])@
                == questions@[order@[x] as int]@);
        if weighted {
            assert forall|i: int, j: int|
                0 <= i < r@.len() && 0 <= j < r@.len() && is_owed(ledger@, r@[i]@) && !is_owed(
                    ledger@,
                    r@[j]@,
                ) implies i < j by {
                assert(r@[i]@ == questions@[order@[i] as int]@);
                assert(r@[j]@ == questions@[order@[j] as int]@);
            }
        }
    }
    r
}

} // verus!
