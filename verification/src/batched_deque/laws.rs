//! What holds of the arena over its whole life.
use crate::batched_deque::batched_deque::Batch;
use crate::batched_deque::batched_deque::BatchHeader;
use crate::batched_deque::model::arena_wf;
use crate::batched_deque::model::ArenaView;
use crate::batched_deque::model::batch_entries;
use crate::batched_deque::model::batch_live;
use crate::batched_deque::model::entry_at;
use crate::batched_deque::model::fresh_headers;
use crate::batched_deque::model::kept;
use crate::batched_deque::model::lemma_retired_run_bounds;
use crate::batched_deque::model::lemma_retired_run_maximal;
use crate::batched_deque::model::lemma_retired_run_shift;
use crate::batched_deque::model::lemma_run_stops_before;
use crate::batched_deque::model::lemma_tiled_append;
use crate::batched_deque::model::lemma_tiled_run;
use crate::batched_deque::model::lemma_tiled_shift;
use crate::batched_deque::model::lemma_tiled_update;
use crate::batched_deque::model::lemma_visited_same;
use crate::batched_deque::model::released;
use crate::batched_deque::model::released_all;
use crate::batched_deque::model::retired_run;
use crate::batched_deque::model::batch_held;
use vstd::prelude::*;

verus! {

/// Releasing one batch leaves every other live batch live, and what it
/// reaches as it was.
pub proof fn lemma_release_keeps_live<T>(arena: ArenaView<T>, gone: Batch, other: Batch)
    requires
        arena_wf(arena),
        batch_live(arena, other),
        other.len == 0 || other != gone,
    ensures
        batch_live(released(arena, gone), other),
        batch_entries(released(arena, gone), other) == batch_entries(arena, other),
{
    let after = released(arena, gone);
    let at = gone.start_index - arena.base;
    if other.len == 0 {
        lemma_visited_same(after, arena, other, 0);
    } else if 0 <= at < arena.headers.len() && arena.headers[at] is Some
        && arena.headers[at]->Some_0.len == gone.len {
        let h = arena.headers[at]->Some_0;
        let marked = arena.headers.update(at, Some(BatchHeader { len: h.len, is_removed: true }));
        let start = other.start_index - arena.base;
        if at == start {
            assert(gone.start_index == other.start_index && gone.len == other.len);
            assert(gone == other);
        }
        assert(marked[start] == arena.headers[start]);
        if at == 0 {
            lemma_tiled_update(arena.headers, 0, 0, BatchHeader { len: h.len, is_removed: true });
            lemma_run_stops_before(marked, 0, start);
            lemma_retired_run_bounds(marked, 0);
            let drained = retired_run(marked, 0);
            assert(after.base == arena.base + drained);
            assert(after.entries.len() == arena.entries.len() - drained);
            assert(after.headers[start - drained] == marked[start]);
            assert forall|offset: int| 0 <= offset < other.len implies entry_at(
                after,
                other,
                offset,
            ) == entry_at(arena, other, offset) by {
                assert(after.entries[other.start_index + offset - after.base]
                    == arena.entries[other.start_index + offset - arena.base]);
            }
        }
        lemma_visited_same(after, arena, other, other.len as int);
    }
}

/// An arena in which every batch is retired holds no entries: once every
/// handle that was issued has been released, all that was appended is gone
/// and the base stands at the number of entries ever appended.
pub proof fn lemma_all_retired_is_empty<T>(arena: ArenaView<T>)
    requires
        arena_wf(arena),
        forall|i: int|
            0 <= i < arena.headers.len() && arena.headers[i] is Some
                ==> arena.headers[i]->Some_0.is_removed,
    ensures
        arena.entries.len() == 0,
{
    if arena.headers.len() > 0 {
        let h = arena.headers[0]->Some_0;
        lemma_retired_run_bounds(arena.headers, h.len as int);
    }
}

/// A release never moves the end of the arena: base plus entries held stays
/// the number of entries ever appended.
pub proof fn lemma_release_keeps_end<T>(arena: ArenaView<T>, batch: Batch)
    requires
        arena_wf(arena),
    ensures
        released(arena, batch).base + released(arena, batch).entries.len() == arena.base
            + arena.entries.len(),
{
    let at = batch.start_index - arena.base;
    if 0 <= at < arena.headers.len() && arena.headers[at] is Some {
        let h = arena.headers[at]->Some_0;
        let marked = arena.headers.update(at, Some(BatchHeader { len: h.len, is_removed: true }));
        lemma_retired_run_bounds(marked, 0);
    }
}

/// A release never moves the base down.
pub proof fn lemma_retired_run_nonneg_base<T>(arena: ArenaView<T>, batch: Batch)
    requires
        arena_wf(arena),
    ensures
        released(arena, batch).base >= arena.base,
{
    let at = batch.start_index - arena.base;
    if 0 <= at < arena.headers.len() && arena.headers[at] is Some {
        let h = arena.headers[at]->Some_0;
        let marked = arena.headers.update(at, Some(BatchHeader { len: h.len, is_removed: true }));
        lemma_retired_run_bounds(marked, 0);
    }
}

/// Releasing a batch that is not at the front only marks it: no entry leaves
/// the arena and the base stays.
pub proof fn lemma_release_behind_front<T>(arena: ArenaView<T>, batch: Batch)
    requires
        arena_wf(arena),
        batch.start_index != arena.base,
    ensures
        released(arena, batch).base == arena.base,
        released(arena, batch).entries == arena.entries,
{
}

/// Releasing the front batch drains it together with every retired batch
/// that follows it without a gap: the arena that is left is well formed, so
/// its front batch, if any, is live.
pub proof fn lemma_release_front_drains<T>(arena: ArenaView<T>, batch: Batch)
    requires
        arena_wf(arena),
        arena.entries.len() > 0,
        batch.start_index == arena.base,
        arena.headers[0] == Some(BatchHeader { len: batch.len, is_removed: false }),
    ensures
        arena_wf(released(arena, batch)),
        released(arena, batch).base >= arena.base + batch.len,
{
    let marked = arena.headers.update(0, Some(BatchHeader { len: batch.len, is_removed: true }));
    let gone = retired_run(marked, 0);
    lemma_tiled_update(arena.headers, 0, 0, BatchHeader { len: batch.len, is_removed: true });
    lemma_retired_run_bounds(marked, 0);
    lemma_retired_run_bounds(marked, batch.len as int);
    lemma_retired_run_maximal(marked, 0);
    lemma_retired_run_shift(marked, gone, gone);
    lemma_tiled_run(marked, 0);
    lemma_tiled_shift(marked, gone, gone);
}

/// A release leaves a well-formed arena well formed.
pub proof fn lemma_released_wf<T>(arena: ArenaView<T>, batch: Batch)
    requires
        arena_wf(arena),
    ensures
        arena_wf(released(arena, batch)),
{
    let at = batch.start_index - arena.base;
    if 0 <= at < arena.headers.len() && arena.headers[at] is Some
        && arena.headers[at]->Some_0.len == batch.len {
        let h = arena.headers[at]->Some_0;
        let retired = BatchHeader { len: h.len, is_removed: true };
        let marked = arena.headers.update(at, Some(retired));
        lemma_tiled_update(arena.headers, 0, at, retired);
        let front = arena.headers[0]->Some_0;
        lemma_retired_run_bounds(arena.headers, front.len as int);
        if at == 0 {
            let gone = retired_run(marked, 0);
            lemma_retired_run_bounds(marked, 0);
            lemma_retired_run_maximal(marked, 0);
            lemma_retired_run_shift(marked, gone, gone);
            lemma_tiled_run(marked, 0);
            lemma_tiled_shift(marked, gone, gone);
        } else {
            assert(marked[0] == arena.headers[0]);
        }
    }
}

/// Releases leave a well-formed arena well formed, never move its end and
/// never move its base down. A live batch that is none of the released
/// batches is still live afterwards, and reaches what it reached.
pub proof fn lemma_released_all<T>(arena: ArenaView<T>, gone: Seq<Batch>, other: Batch)
    requires
        arena_wf(arena),
    ensures
        arena_wf(released_all(arena, gone)),
        released_all(arena, gone).base + released_all(arena, gone).entries.len() == arena.base
            + arena.entries.len(),
        released_all(arena, gone).base >= arena.base,
        batch_live(arena, other) && (other.len == 0 || forall|i: int|
            0 <= i < gone.len() ==> #[trigger] gone[i] != other) ==> kept(
            arena,
            released_all(arena, gone),
            other,
        ),
    decreases gone.len(),
{
    if gone.len() > 0 {
        let earlier = gone.drop_last();
        let before = released_all(arena, earlier);
        lemma_released_all(arena, earlier, other);
        lemma_released_wf(before, gone.last());
        lemma_release_keeps_end(before, gone.last());
        lemma_retired_run_nonneg_base(before, gone.last());
        if batch_live(arena, other) && (other.len == 0 || forall|i: int|
            0 <= i < gone.len() ==> #[trigger] gone[i] != other) {
            if other.len != 0 {
                assert forall|i: int| 0 <= i < earlier.len() implies #[trigger] earlier[i]
                    != other by {
                    assert(earlier[i] == gone[i]);
                }
                assert(gone[gone.len() - 1] == gone.last());
            }
            lemma_release_keeps_live(before, gone.last(), other);
        }
    }
}

/// A live batch is held.
pub proof fn lemma_live_is_held<T>(arena: ArenaView<T>, batch: Batch)
    requires
        batch_live(arena, batch),
    ensures
        batch_held(arena, batch),
{
}

/// An append leaves every live batch live, and makes the batch that it
/// issues live, which is none of the batches that were live before unless
/// it is empty.
pub proof fn lemma_append_keeps_live<T>(arena: ArenaView<T>, payloads: Seq<T>, other: Batch)
    requires
        arena.entries.len() == arena.headers.len(),
        arena.base + arena.entries.len() + payloads.len() <= usize::MAX,
        batch_live(arena, other),
    ensures
        batch_live(appended(arena, payloads), other),
        batch_live(appended(arena, payloads), issued(arena, payloads)),
        other.len > 0 ==> issued(arena, payloads) != other,
{
    let after = appended(arena, payloads);
    if other.len > 0 {
        assert(after.headers[other.start_index - arena.base]
            == arena.headers[other.start_index - arena.base]);
    }
    if payloads.len() > 0 {
        assert(after.headers[arena.entries.len() as int] == fresh_headers(payloads.len())[0]);
    }
}

/// An append behind a batch that the arena holds leaves the batch held, and
/// what it reaches as it was.
pub proof fn lemma_append_keeps_held<T>(arena: ArenaView<T>, payloads: Seq<T>, other: Batch)
    requires
        batch_held(arena, other),
    ensures
        batch_held(appended(arena, payloads), other),
        batch_entries(appended(arena, payloads), other) == batch_entries(arena, other),
{
    let after = appended(arena, payloads);
    assert forall|offset: int| 0 <= offset < other.len implies entry_at(after, other, offset)
        == entry_at(arena, other, offset) by {
        assert(after.entries[other.start_index + offset - arena.base]
            == arena.entries[other.start_index + offset - arena.base]);
    }
    lemma_visited_same(after, arena, other, other.len as int);
}

/// One step in the life of an arena: a batch of payloads is appended, or a
/// handle is released.
pub enum ArenaStep<T> {
    Append(Seq<T>),
    Release(Batch),
}

/// The arena after `payloads` have been appended to `arena` as one batch.
pub open spec fn appended<T>(arena: ArenaView<T>, payloads: Seq<T>) -> ArenaView<T> {
    ArenaView {
        base: arena.base,
        entries: arena.entries + payloads,
        headers: arena.headers + fresh_headers(payloads.len()),
    }
}

/// The handle that appending `payloads` to `arena` issues.
pub open spec fn issued<T>(arena: ArenaView<T>, payloads: Seq<T>) -> Batch {
    Batch {
        start_index: (arena.base + arena.entries.len()) as usize,
        len: payloads.len() as usize,
    }
}

/// The arena after `steps`, taken in order from `arena`.
pub open spec fn arena_after<T>(arena: ArenaView<T>, steps: Seq<ArenaStep<T>>) -> ArenaView<T>
    decreases steps.len(),
{
    if steps.len() == 0 {
        arena
    } else {
        let before = arena_after(arena, steps.drop_last());
        match steps.last() {
            ArenaStep::Append(payloads) => appended(before, payloads),
            ArenaStep::Release(batch) => released(before, batch),
        }
    }
}

/// The handles that `steps`, taken from `arena`, have issued and not
/// released.
pub open spec fn outstanding<T>(arena: ArenaView<T>, steps: Seq<ArenaStep<T>>) -> Set<Batch>
    decreases steps.len(),
{
    if steps.len() == 0 {
        Set::empty()
    } else {
        let before = outstanding(arena, steps.drop_last());
        match steps.last() {
            ArenaStep::Append(payloads) => before.insert(
                issued(arena_after(arena, steps.drop_last()), payloads),
            ),
            ArenaStep::Release(batch) => before.remove(batch),
        }
    }
}

/// Number of payloads that `steps` append.
pub open spec fn total_appended<T>(steps: Seq<ArenaStep<T>>) -> nat
    decreases steps.len(),
{
    if steps.len() == 0 {
        0
    } else {
        total_appended(steps.drop_last()) + match steps.last() {
            ArenaStep::Append(payloads) => payloads.len(),
            ArenaStep::Release(_) => 0,
        }
    }
}

/// Every batch of `arena` that is not retired has its handle among
/// `handles`.
pub open spec fn accounted<T>(arena: ArenaView<T>, handles: Set<Batch>) -> bool {
    forall|i: int|
        0 <= i < arena.headers.len() && (#[trigger] arena.headers[i]) is Some
            && !arena.headers[i]->Some_0.is_removed ==> handles.contains(
            Batch { start_index: (arena.base + i) as usize, len: arena.headers[i]->Some_0.len },
        )
}

/// An append keeps the arena well formed and every live batch accounted
/// for, the new batch by the handle that the append issues.
pub proof fn lemma_append_accounted<T>(
    arena: ArenaView<T>,
    handles: Set<Batch>,
    payloads: Seq<T>,
)
    requires
        arena_wf(arena),
        accounted(arena, handles),
        arena.base + arena.entries.len() + payloads.len() <= usize::MAX,
    ensures
        arena_wf(appended(arena, payloads)),
        accounted(appended(arena, payloads), handles.insert(issued(arena, payloads))),
{
    let after = appended(arena, payloads);
    let k = payloads.len();
    lemma_tiled_append(arena.headers, 0, k);
    if arena.headers.len() > 0 {
        let front = arena.headers[0]->Some_0;
        lemma_retired_run_bounds(arena.headers, front.len as int);
        assert(after.headers[0] == arena.headers[0]);
    } else if k > 0 {
        assert(after.headers[0] == fresh_headers(k)[0]);
    }
    assert forall|i: int|
        0 <= i < after.headers.len() && (#[trigger] after.headers[i]) is Some
            && !after.headers[i]->Some_0.is_removed implies handles.insert(
        issued(arena, payloads),
    ).contains(
        Batch { start_index: (after.base + i) as usize, len: after.headers[i]->Some_0.len },
    ) by {
        if i < arena.headers.len() {
            assert(after.headers[i] == arena.headers[i]);
        } else {
            assert(after.headers[i] == fresh_headers(k)[i - arena.headers.len()]);
        }
    }
}

/// A release keeps every live batch accounted for by the handles that are
/// left.
pub proof fn lemma_release_accounted<T>(arena: ArenaView<T>, handles: Set<Batch>, batch: Batch)
    requires
        arena_wf(arena),
        accounted(arena, handles),
    ensures
        accounted(released(arena, batch), handles.remove(batch)),
{
    let after = released(arena, batch);
    let at = batch.start_index - arena.base;
    if 0 <= at < arena.headers.len() && arena.headers[at] is Some
        && arena.headers[at]->Some_0.len == batch.len {
        let h = arena.headers[at]->Some_0;
        let marked = arena.headers.update(at, Some(BatchHeader { len: h.len, is_removed: true }));
        lemma_retired_run_bounds(marked, 0);
        let gone = if at == 0 {
            retired_run(marked, 0)
        } else {
            0
        };
        if at == 0 {
            lemma_retired_run_bounds(marked, h.len as int);
            assert(gone >= 1);
        }
        assert forall|i: int|
            0 <= i < after.headers.len() && (#[trigger] after.headers[i]) is Some
                && !after.headers[i]->Some_0.is_removed implies handles.remove(batch).contains(
            Batch { start_index: (after.base + i) as usize, len: after.headers[i]->Some_0.len },
        ) by {
            assert(after.headers[i] == marked[i + gone]);
            assert(i + gone != at);
            assert(marked[i + gone] == arena.headers[i + gone]);
        }
    } else {
        assert forall|i: int|
            0 <= i < after.headers.len() && (#[trigger] after.headers[i]) is Some
                && !after.headers[i]->Some_0.is_removed implies handles.remove(batch).contains(
            Batch { start_index: (after.base + i) as usize, len: after.headers[i]->Some_0.len },
        ) by {
            assert(arena.headers[i] is Some);
        }
    }
}

/// Every append of `steps`, taken from `arena`, finds absolute indices left
/// for its payloads.
pub open spec fn steps_fit<T>(arena: ArenaView<T>, steps: Seq<ArenaStep<T>>) -> bool
    decreases steps.len(),
{
    if steps.len() == 0 {
        true
    } else {
        let before = arena_after(arena, steps.drop_last());
        &&& steps_fit(arena, steps.drop_last())
        &&& match steps.last() {
            ArenaStep::Append(payloads) => before.base + before.entries.len() + payloads.len()
                <= usize::MAX,
            ArenaStep::Release(_) => true,
        }
    }
}

/// The life of an arena: after any appends and releases, taken from the
/// empty arena, the arena is well formed, its end stands at the number of
/// payloads ever appended, and every batch that is not retired has its
/// handle among those issued and not released. So once every handle that
/// was issued has been released, the arena holds nothing and its base
/// stands at the number of payloads ever appended.
pub proof fn lemma_arena_life<T>(steps: Seq<ArenaStep<T>>)
    requires
        steps_fit(ArenaView::<T> { base: 0, entries: Seq::empty(), headers: Seq::empty() }, steps),
    ensures
        ({
            let start = ArenaView::<T> { base: 0, entries: Seq::empty(), headers: Seq::empty() };
            let arena = arena_after(start, steps);
            &&& arena_wf(arena)
            &&& arena.base + arena.entries.len() == total_appended(steps)
            &&& accounted(arena, outstanding(start, steps))
            &&& outstanding(start, steps) == Set::<Batch>::empty() ==> arena.entries.len() == 0
                && arena.base == total_appended(steps)
        }),
    decreases steps.len(),
{
    let start = ArenaView::<T> { base: 0, entries: Seq::empty(), headers: Seq::empty() };
    if steps.len() > 0 {
        let earlier = steps.drop_last();
        lemma_arena_life(earlier);
        let before = arena_after(start, earlier);
        match steps.last() {
            ArenaStep::Append(payloads) => {
                lemma_append_accounted(before, outstanding(start, earlier), payloads);
            },
            ArenaStep::Release(batch) => {
                lemma_released_wf(before, batch);
                lemma_release_keeps_end(before, batch);
                lemma_release_accounted(before, outstanding(start, earlier), batch);
            },
        }
    }
    let arena = arena_after(start, steps);
    if outstanding(start, steps) == Set::<Batch>::empty() {
        assert forall|i: int|
            0 <= i < arena.headers.len() && arena.headers[i] is Some implies arena.headers[i]->Some_0
            .is_removed by {
            if !arena.headers[i]->Some_0.is_removed {
                assert(outstanding(start, steps).contains(
                    Batch {
                        start_index: (arena.base + i) as usize,
                        len: arena.headers[i]->Some_0.len,
                    },
                ));
            }
        }
        lemma_all_retired_is_empty(arena);
    }
}

} // verus!
