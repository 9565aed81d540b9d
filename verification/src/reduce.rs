//! Reduction of a list by pairs, through a queue.
//!
//! The two values at the front of the queue are combined and the result is
//! put at its back, until one value is left.  Values that were combined
//! equally often meet each other, so a list of `n` values is reduced by a
//! tree of depth about `log n`, where a fold from the left would combine
//! one ever larger value with one list item after the other.

use std::collections::VecDeque;
use vstd::prelude::*;

verus! {

/// `end` is a value with which the reduction of `queue` by `reduction`
/// can end.
pub open spec fn reduces_to<T, F: Fn(T, T) -> T>(reduction: F, queue: Seq<T>, end: T) -> bool
    decreases queue.len(),
{
    if queue.len() == 0 {
        false
    } else if queue.len() == 1 {
        end == queue[0]
    } else {
        exists|both: T|
            #[trigger] reduction.ensures((queue[0], queue[1]), both) && reduces_to(
                reduction,
                queue.skip(2).push(both),
                end,
            )
    }
}

/// `reduction` admits every call that the reduction of `queue` makes:
/// the call on the two values in front, and, whatever that call returns,
/// every call that the reduction of the queue after it makes.
pub open spec fn admits<T, F: Fn(T, T) -> T>(reduction: F, queue: Seq<T>) -> bool
    decreases queue.len(),
{
    queue.len() < 2 || (reduction.requires((queue[0], queue[1])) && forall|both: T| #[trigger]
        reduction.ensures((queue[0], queue[1]), both) ==> admits(
            reduction,
            queue.skip(2).push(both),
        ))
}

/// A reduction admits every call that is made where the queue has a
/// property `inv`, the reduction admits the two values in front of any
/// queue with that property, and the queue after the call has the
/// property again.
pub proof fn lemma_admits_by_queue_invariant<T, F: Fn(T, T) -> T>(
    reduction: F,
    inv: spec_fn(Seq<T>) -> bool,
    queue: Seq<T>,
)
    requires
        inv(queue),
        forall|q: Seq<T>| #[trigger] inv(q) && q.len() >= 2 ==> reduction.requires((q[0], q[1])),
        forall|q: Seq<T>, both: T|
            inv(q) && q.len() >= 2 && #[trigger] reduction.ensures((q[0], q[1]), both) ==> inv(
                #[trigger] q.skip(2).push(both),
            ),
    ensures
        admits(reduction, queue),
    decreases queue.len(),
{
    if queue.len() >= 2 {
        assert forall|both: T| #[trigger]
            reduction.ensures((queue[0], queue[1]), both) implies admits(
            reduction,
            queue.skip(2).push(both),
        ) by {
            lemma_admits_by_queue_invariant(reduction, inv, queue.skip(2).push(both));
        }
    }
}

/// A reduction admits every call that is made where all values of the
/// queue have a property `inv`, the reduction admits any two values with
/// that property, and what it returns for them has the property again.
pub proof fn lemma_admits_by_invariant<T, F: Fn(T, T) -> T>(
    reduction: F,
    inv: spec_fn(T) -> bool,
    queue: Seq<T>,
)
    requires
        forall|i: int| 0 <= i < queue.len() ==> inv(#[trigger] queue[i]),
        forall|a: T, b: T| inv(a) && inv(b) ==> #[trigger] reduction.requires((a, b)),
        forall|a: T, b: T, c: T|
            inv(a) && inv(b) && #[trigger] reduction.ensures((a, b), c) ==> inv(c),
    ensures
        admits(reduction, queue),
    decreases queue.len(),
{
    if queue.len() >= 2 {
        assert(inv(queue[0]) && inv(queue[1]));
        assert forall|both: T| #[trigger]
            reduction.ensures((queue[0], queue[1]), both) implies admits(
            reduction,
            queue.skip(2).push(both),
        ) by {
            let next = queue.skip(2).push(both);
            assert forall|i: int| 0 <= i < next.len() implies inv(#[trigger] next[i]) by {
                if i < next.len() - 1 {
                    assert(next[i] == queue[i + 2]);
                }
            }
            lemma_admits_by_invariant(reduction, inv, next);
        }
    }
}

/// A reduction that admits any two values admits every call that is
/// made.
pub proof fn lemma_admits_all<T, F: Fn(T, T) -> T>(reduction: F, queue: Seq<T>)
    requires
        forall|a: T, b: T| reduction.requires((a, b)),
    ensures
        admits(reduction, queue),
{
    lemma_admits_by_invariant(reduction, |t: T| true, queue);
}

/// The value with which the reduction of the non-empty `queue` by `op`
/// ends.
pub open spec fn reduced<T>(op: spec_fn(T, T) -> T, queue: Seq<T>) -> T
    decreases queue.len(),
{
    if queue.len() <= 1 {
        queue[0]
    } else {
        reduced(op, queue.skip(2).push(op(queue[0], queue[1])))
    }
}

/// `reduction` returns what `op` gives.
pub open spec fn computes<T, F: Fn(T, T) -> T>(reduction: F, op: spec_fn(T, T) -> T) -> bool {
    forall|a: T, b: T, c: T| #[trigger] reduction.ensures((a, b), c) ==> c == op(a, b)
}

/// Where `reduction` returns what `op` gives, a reduction by `reduction`
/// can only end with the value of the reduction by `op`.
pub proof fn lemma_reduces_to_reduced<T, F: Fn(T, T) -> T>(
    reduction: F,
    op: spec_fn(T, T) -> T,
    queue: Seq<T>,
    end: T,
)
    requires
        computes(reduction, op),
        reduces_to(reduction, queue, end),
    ensures
        end == reduced(op, queue),
    decreases queue.len(),
{
    if queue.len() >= 2 {
        let both = choose|both: T|
            #[trigger] reduction.ensures((queue[0], queue[1]), both) && reduces_to(
                reduction,
                queue.skip(2).push(both),
                end,
            );
        lemma_reduces_to_reduced(reduction, op, queue.skip(2).push(both), end);
    }
}

/// `op` gives the same for `a, b` as for `b, a`, and the same whichever
/// two of three values it combines first.
#[verifier::opaque]
pub open spec fn commutative_associative<T>(op: spec_fn(T, T) -> T) -> bool {
    &&& forall|a: T, b: T| #[trigger] op(a, b) == op(b, a)
    &&& forall|a: T, b: T, c: T| #[trigger] op(op(a, b), c) == op(a, op(b, c))
}

/// The non-empty `list` combined from the left, one item after the other.
pub open spec fn folded<T>(op: spec_fn(T, T) -> T, list: Seq<T>) -> T
    decreases list.len(),
{
    if list.len() <= 1 {
        list[0]
    } else {
        op(folded(op, list.drop_last()), list.last())
    }
}

/// `op` is commutative.
proof fn lemma_swap<T>(op: spec_fn(T, T) -> T, a: T, b: T)
    requires
        commutative_associative(op),
    ensures
        op(a, b) == op(b, a),
{
    reveal(commutative_associative);
}

/// `op` is associative.
proof fn lemma_regroup<T>(op: spec_fn(T, T) -> T, a: T, b: T, c: T)
    requires
        commutative_associative(op),
    ensures
        op(op(a, b), c) == op(a, op(b, c)),
{
    reveal(commutative_associative);
}

/// Folding two lists one after the other combines their folds.
proof fn lemma_folded_concat<T>(op: spec_fn(T, T) -> T, front: Seq<T>, back: Seq<T>)
    requires
        commutative_associative(op),
        front.len() > 0,
        back.len() > 0,
    ensures
        folded(op, front + back) == op(folded(op, front), folded(op, back)),
    decreases back.len(),
{
    assert((front + back).drop_last() =~= front + back.drop_last());
    if back.len() == 1 {
        assert(front + back.drop_last() =~= front);
    } else {
        lemma_folded_concat(op, front, back.drop_last());
        lemma_regroup(op, folded(op, front), folded(op, back.drop_last()), back.last());
    }
}

/// The order in which the queue combines the values does not show in the
/// result, where `op` is commutative and associative: the reduction ends
/// with the fold of the list from the left.
pub proof fn lemma_reduced_is_folded<T>(op: spec_fn(T, T) -> T, list: Seq<T>)
    requires
        commutative_associative(op),
        list.len() > 0,
    ensures
        reduced(op, list) == folded(op, list),
    decreases list.len(),
{
    if list.len() >= 2 {
        let both = op(list[0], list[1]);
        let rest = list.skip(2);
        let next = rest.push(both);
        lemma_reduced_is_folded(op, next);
        let pair = seq![list[0], list[1]];
        assert(pair.drop_last() =~= seq![list[0]]);
        assert(folded(op, seq![list[0]]) == list[0]);
        assert(folded(op, pair) == both);
        if rest.len() == 0 {
            assert(list =~= pair);
        } else {
            assert(next.drop_last() =~= rest);
            assert(folded(op, next) == op(folded(op, rest), both));
            lemma_swap(op, folded(op, rest), both);
            lemma_folded_concat(op, pair, rest);
            assert(pair + rest =~= list);
        }
    }
}

/// Two to the power of `d`.
pub open spec fn two_to(d: nat) -> nat
    decreases d,
{
    if d == 0 {
        1
    } else {
        2 * two_to((d - 1) as nat)
    }
}

/// The depth of the value that combines values of the depths `a` and `b`.
pub open spec fn deeper(a: nat, b: nat) -> nat {
    if a < b {
        b + 1
    } else {
        a + 1
    }
}

/// The depth of the tree by which `n` values are combined: how often the
/// reduction is applied on the longest way from one of the values to the
/// result.
pub open spec fn depth_of(n: nat) -> nat {
    reduced(|a: nat, b: nat| deeper(a, b), Seq::new(n, |i: int| 0nat))
}

/// A queue that holds `shallow` values of the depth `depth` and behind
/// them `deep` values of the depth above.
spec fn layered(depth: nat, shallow: nat, deep: nat) -> Seq<nat> {
    Seq::new(
        shallow + deep,
        |i: int|
            if i < shallow {
                depth
            } else {
                depth + 1
            },
    )
}

/// The queue never holds values of more than two depths, the shallower
/// ones in front; so the depth of the result exceeds the logarithm of
/// what the queue weighs by less than one.
proof fn lemma_layered(depth: nat, shallow: nat, deep: nat)
    requires
        shallow >= 1,
    ensures
        ({
            let end = reduced(|a: nat, b: nat| deeper(a, b), layered(depth, shallow, deep));
            let weight = shallow * two_to(depth) + deep * two_to(depth + 1);
            &&& end >= depth
            &&& weight <= two_to(end)
            &&& end > depth ==> two_to((end - 1) as nat) + two_to(depth) <= weight
        }),
    decreases 2 * shallow + 3 * deep,
{
    let op = |a: nat, b: nat| deeper(a, b);
    let queue = layered(depth, shallow, deep);
    let unit = two_to(depth);
    assert(two_to(depth + 1) == 2 * unit);
    assert(two_to(depth + 2) == 4 * unit) by {
        assert(two_to(depth + 2) == 2 * two_to(depth + 1));
    }
    let weight = shallow * unit + deep * (2 * unit);
    if shallow + deep == 1 {
        assert(weight == unit) by (nonlinear_arith)
            requires
                shallow == 1,
                deep == 0,
                weight == shallow * unit + deep * (2 * unit),
        ;
    } else if shallow >= 2 {
        let next = queue.skip(2).push(op(queue[0], queue[1]));
        if shallow >= 3 {
            assert(next =~= layered(depth, (shallow - 2) as nat, deep + 1));
            lemma_layered(depth, (shallow - 2) as nat, deep + 1);
            assert((shallow - 2) * unit + (deep + 1) * (2 * unit) == weight) by (nonlinear_arith)
                requires
                    weight == shallow * unit + deep * (2 * unit),
            ;
        } else {
            assert(next =~= layered(depth + 1, deep + 1, 0));
            lemma_layered(depth + 1, deep + 1, 0);
            assert((deep + 1) * (2 * unit) + 0 * two_to(depth + 2) == weight) by (nonlinear_arith)
                requires
                    shallow == 2,
                    weight == shallow * unit + deep * (2 * unit),
            ;
            let end = reduced(op, queue);
            if end == depth + 1 {
                assert(two_to(depth + 1) <= weight) by (nonlinear_arith)
                    requires
                        shallow == 2,
                        weight == shallow * unit + deep * (2 * unit),
                        two_to(depth + 1) == 2 * unit,
                        unit >= 0,
                ;
            }
        }
    } else {
        let next = queue.skip(2).push(op(queue[0], queue[1]));
        assert(op(queue[0], queue[1]) == depth + 2);
        if deep >= 2 {
            assert(next =~= layered(depth + 1, (deep - 1) as nat, 1));
            lemma_layered(depth + 1, (deep - 1) as nat, 1);
            assert((deep - 1) * (2 * unit) + 1 * (4 * unit) == weight + unit) by (nonlinear_arith)
                requires
                    shallow == 1,
                    weight == shallow * unit + deep * (2 * unit),
            ;
            let end = reduced(op, queue);
            assert(end >= depth + 1);
            if end == depth + 1 {
                // the reduced queue ends with a value of depth + 2
                assert(next[next.len() - 1] == depth + 2);
                lemma_reduced_at_least(next, next.len() - 1);
            }
        } else {
            assert(next =~= seq![(depth + 2) as nat]);
            assert(reduced(op, next) == depth + 2);
            assert(weight == 3 * unit) by (nonlinear_arith)
                requires
                    shallow == 1,
                    deep == 1,
                    weight == shallow * unit + deep * (2 * unit),
            ;
        }
    }
}

/// The result is at least as deep as each value of the queue.
proof fn lemma_reduced_at_least(queue: Seq<nat>, i: int)
    requires
        0 <= i < queue.len(),
    ensures
        reduced(|a: nat, b: nat| deeper(a, b), queue) >= queue[i],
    decreases queue.len(),
{
    let op = |a: nat, b: nat| deeper(a, b);
    if queue.len() >= 2 {
        let next = queue.skip(2).push(op(queue[0], queue[1]));
        if i >= 2 {
            assert(next[i - 2] == queue[i]);
            lemma_reduced_at_least(next, i - 2);
        } else {
            assert(next[next.len() - 1] >= queue[i]);
            lemma_reduced_at_least(next, next.len() - 1);
        }
    }
}

/// The reduction is balanced: the tree by which `n` values are combined
/// is as shallow as a binary tree over `n` values can be.  Its depth `d`
/// is the least with `n <= 2^d`, where a fold from the left has the depth
/// `n - 1`.
pub proof fn lemma_reduction_is_balanced(n: nat)
    requires
        n >= 1,
    ensures
        n <= two_to(depth_of(n)),
        depth_of(n) > 0 ==> two_to((depth_of(n) - 1) as nat) < n,
{
    assert(Seq::new(n, |i: int| 0nat) =~= layered(0, n, 0));
    lemma_layered(0, n, 0);
    assert(n * two_to(0) + 0 * two_to(1) == n) by (nonlinear_arith)
        requires
            two_to(0) == 1,
    ;
}

/// Reduces `list` to one value: while more than one value is left, the
/// first two are taken from the front, combined by `reduction`, and the
/// result is put at the back.  An empty list gives `None`.
pub fn divide_reduce<T, F: Fn(T, T) -> T>(list: Vec<T>, reduction: F) -> (r: Option<T>)
    requires
        admits(reduction, list@),
    ensures
        r is None <==> list@.len() == 0,
        r matches Some(end) ==> reduces_to(reduction, list@, end),
        forall|op: spec_fn(T, T) -> T|
            computes(reduction, op) && list@.len() > 0 ==> r == Some(#[trigger] reduced(op, list@)),
{
    let mut queue: VecDeque<T> = VecDeque::new();
    for item in it: list
        invariant
            it.seq() == list@,
            queue@ == list@.take(it.index() as int),
    {
        queue.push_back(item);
        assert(list@.take(it.index() + 1) =~= list@.take(it.index() as int).push(item));
    }
    assert(list@.take(list@.len() as int) =~= list@);
    while queue.len() > 1
        invariant
            admits(reduction, queue@),
            queue@.len() == 0 <==> list@.len() == 0,
            forall|end: T| #[trigger]
                reduces_to(reduction, queue@, end) ==> reduces_to(reduction, list@, end),
        decreases queue@.len(),
    {
        let ghost before = queue@;
        let one = queue.pop_front().unwrap();
        let two = queue.pop_front().unwrap();
        assert(one == before[0] && two == before[1]);
        let both = reduction(one, two);
        queue.push_back(both);
        proof {
            assert(queue@ =~= before.skip(2).push(both));
            assert forall|end: T| #[trigger] reduces_to(reduction, queue@, end) implies reduces_to(
                reduction,
                list@,
                end,
            ) by {
                assert(reduces_to(reduction, before, end));
            }
        }
    }
    let ghost last = queue@;
    let r = queue.pop_back();
    proof {
        if r is Some {
            let end = r->Some_0;
            assert(reduces_to(reduction, last, end));
            assert forall|op: spec_fn(T, T) -> T|
                computes(reduction, op) && list@.len() > 0 implies r == Some(
                #[trigger] reduced(op, list@),
            ) by {
                lemma_reduces_to_reduced(reduction, op, list@, end);
            }
        }
    }
    r
}

} // verus!
