//! The pipeline (push/pull) pattern: one-directional task
//! distribution, with fan-out across connected pullers delegated to
//! the transport.
//!
//! Pushing is encoding an envelope and sending the frame; pulling is
//! receiving a frame and interpreting it with `decode_recv` or
//! `decode_recv_bounded`. What this module adds is the fan-out model:
//! if the transport hands each pushed task to exactly one puller, the
//! tasks received across all pullers are exactly the tasks pushed.

use vstd::prelude::*;

use vstd::multiset::Multiset;

verus! {

/// The tasks a single worker receives, when task `i` of `tasks` goes
/// to the worker numbered `assign[i]`.
pub open spec fn delivered_to<T>(tasks: Seq<T>, assign: Seq<int>, w: int) -> Multiset<T>
    decreases tasks.len(),
{
    if tasks.len() == 0 || assign.len() != tasks.len() {
        Multiset::empty()
    } else {
        let rest = delivered_to(tasks.drop_last(), assign.drop_last(), w);
        if assign.last() == w {
            rest.insert(tasks.last())
        } else {
            rest
        }
    }
}

/// Everything received across workers `0` to `n - 1` together.
pub open spec fn union_delivered<T>(tasks: Seq<T>, assign: Seq<int>, n: int) -> Multiset<T>
    decreases n,
{
    if n <= 0 {
        Multiset::empty()
    } else {
        union_delivered(tasks, assign, n - 1).add(delivered_to(tasks, assign, n - 1))
    }
}

/// With no tasks, nothing is received anywhere.
proof fn lemma_union_of_nothing<T>(tasks: Seq<T>, assign: Seq<int>, n: int)
    requires
        tasks.len() == 0,
    ensures
        union_delivered(tasks, assign, n) =~= Multiset::<T>::empty(),
    decreases n,
{
    if n > 0 {
        lemma_union_of_nothing(tasks, assign, n - 1);
        assert(delivered_to(tasks, assign, n - 1) =~= Multiset::<T>::empty());
    }
}

/// Workers the last task does not go to receive nothing new from it.
proof fn lemma_union_skip<T>(tasks: Seq<T>, assign: Seq<int>, k: int)
    requires
        tasks.len() > 0,
        assign.len() == tasks.len(),
        assign.last() >= k,
    ensures
        union_delivered(tasks, assign, k) =~= union_delivered(
            tasks.drop_last(),
            assign.drop_last(),
            k,
        ),
    decreases k,
{
    if k > 0 {
        lemma_union_skip(tasks, assign, k - 1);
    }
}

/// One more task assigned to a worker under `n` adds exactly that
/// task to the union of what the workers receive.
proof fn lemma_union_snoc<T>(tasks: Seq<T>, assign: Seq<int>, n: int)
    requires
        tasks.len() > 0,
        assign.len() == tasks.len(),
        0 <= assign.last() < n,
    ensures
        union_delivered(tasks, assign, n) =~= union_delivered(
            tasks.drop_last(),
            assign.drop_last(),
            n,
        ).insert(tasks.last()),
    decreases n,
{
    if assign.last() == n - 1 {
        lemma_union_skip(tasks, assign, n - 1);
    } else {
        lemma_union_snoc(tasks, assign, n - 1);
    }
}

/// Pipeline fan-out: with one bound pusher, `n` connected pullers and
/// a transport that hands each pushed task to exactly one puller, the
/// union of the tasks received across all pullers is exactly the
/// multiset of the tasks pushed — the same count, no duplicate, no
/// loss.
pub proof fn lemma_pipeline_fan_out<T>(tasks: Seq<T>, assign: Seq<int>, n: int)
    requires
        assign.len() == tasks.len(),
        forall|i: int| 0 <= i < assign.len() ==> 0 <= #[trigger] assign[i] < n,
    ensures
        union_delivered(tasks, assign, n) == tasks.to_multiset(),
        union_delivered(tasks, assign, n).len() == tasks.len(),
    decreases tasks.len(),
{
    broadcast use vstd::seq_lib::group_to_multiset_ensures;

    if tasks.len() == 0 {
        lemma_union_of_nothing(tasks, assign, n);
        assert(tasks.to_multiset() =~= Multiset::<T>::empty());
    } else {
        lemma_union_snoc(tasks, assign, n);
        assert forall|i: int|
            0 <= i < assign.drop_last().len() implies 0 <= #[trigger] assign.drop_last()[i]
            < n by {
            assert(assign.drop_last()[i] == assign[i]);
        }
        lemma_pipeline_fan_out(tasks.drop_last(), assign.drop_last(), n);
        assert(tasks.drop_last().push(tasks.last()) =~= tasks);
        assert(tasks.drop_last().push(tasks.last()).to_multiset() =~= tasks.drop_last()
            .to_multiset().insert(tasks.last()));
        assert(union_delivered(tasks, assign, n) =~= tasks.to_multiset());
    }
}

} // verus!
