//! What holds of books and buffered books over sequences of records.
use crate::batched_deque::model::ArenaView;
use crate::batched_deque::model::kept;
use crate::order_book::model::all_positive;
use crate::order_book::model::applied_count;
use crate::order_book::model::apply_all;
use crate::order_book::model::apply_changes;
use crate::order_book::model::book_wf;
use crate::order_book::model::BookView;
use crate::order_book::model::buffer_all;
use crate::order_book::model::buffered_update;
use crate::order_book::model::BufferedView;
use crate::order_book::model::catch_up;
use crate::order_book::model::Change;
use crate::order_book::model::collected;
use crate::order_book::model::distinct_seq_nos;
use crate::order_book::model::entries_rejection;
use crate::order_book::model::kept_changes;
use crate::order_book::model::Levels;
use crate::order_book::model::max_pending;
use crate::order_book::model::pending_view;
use crate::order_book::model::rebuilt;
use crate::order_book::model::Rejection;
use crate::order_book::model::same_updates;
use crate::order_book::model::side_changes;
use crate::order_book::model::step;
use crate::order_book::model::strictly_increasing;
use crate::order_book::model::update_rejection;
use crate::order_book::model::updated;
use crate::order_book::model::UpdateView;
use crate::parsing::order_book_snapshot::OrderBookSnapshot;
use crate::parsing::order_book_update::Level as UpdateLevel;
use crate::parsing::order_book_update::OrderBookUpdate;
use crate::batched_deque::laws::appended;
use crate::batched_deque::laws::lemma_append_keeps_held;
use crate::batched_deque::model::batch_held;
use crate::order_book::buffered_order_book::pending_held;
use crate::order_book::model::update_view;
use crate::batched_deque::batched_deque::Batch;
use crate::batched_deque::laws::issued;
use crate::batched_deque::laws::lemma_append_keeps_live;
use crate::batched_deque::laws::lemma_live_is_held;
use crate::batched_deque::model::batch_live;
use crate::order_book::buffered_order_book::fits_among;
use crate::order_book::buffered_order_book::pending_live;
use vstd::prelude::*;

verus! {

/// Changes keep every quantity positive.
pub proof fn lemma_apply_changes_positive(levels: Levels, changes: Seq<Change>)
    requires
        all_positive(levels),
    ensures
        all_positive(apply_changes(levels, changes)),
    decreases changes.len(),
{
    if changes.len() > 0 {
        lemma_apply_changes_positive(levels, changes.drop_last());
    }
}

/// The changes of an update are refused for a price or a side only.
pub proof fn lemma_entries_rejection_kind(entries: Seq<UpdateLevel>)
    ensures
        match entries_rejection(entries) {
            None => true,
            Some(Rejection::InvalidPrice(_)) => true,
            Some(Rejection::InvalidSide(_)) => true,
            Some(_) => false,
        },
    decreases entries.len(),
{
    if entries.len() > 0 {
        lemma_entries_rejection_kind(entries.drop_last());
    }
}

/// An update is refused for a gap exactly where it is for the book's
/// security and ahead of the book by more than a step.
pub proof fn lemma_gap_means_ahead(book: BookView, update: UpdateView)
    ensures
        update_rejection(book, update) == Some(Rejection::SequenceNumberGap) <==> (
        update.security_id == book.security_id && update.seq_no > book.seq_no + 1),
{
    lemma_entries_rejection_kind(update.entries);
}

/// After any sequence of updates the book's sequence number is the one it
/// started with plus the number of updates that were applied.
pub proof fn lemma_seq_no_counts_applied(book: BookView, updates: Seq<UpdateView>)
    ensures
        apply_all(book, updates).seq_no == book.seq_no + applied_count(book, updates),
    decreases updates.len(),
{
    if updates.len() > 0 {
        lemma_seq_no_counts_applied(step(book, updates[0]), updates.drop_first());
    }
}

/// An update leaves every quantity of the book positive, applied or not.
pub proof fn lemma_step_keeps_wf(book: BookView, update: UpdateView)
    requires
        book_wf(book),
    ensures
        book_wf(step(book, update)),
{
    lemma_apply_changes_positive(book.bids, side_changes(update.entries, 0));
    lemma_apply_changes_positive(book.asks, side_changes(update.entries, 1));
}

/// A book rebuilt from a snapshot holds positive quantities only.
pub proof fn lemma_rebuilt_wf(snapshot: OrderBookSnapshot)
    ensures
        book_wf(rebuilt(snapshot)),
{
    lemma_apply_changes_positive(Map::empty(), kept_changes(snapshot.bids()));
    lemma_apply_changes_positive(Map::empty(), kept_changes(snapshot.asks()));
}

/// An update that is refused leaves the book as it was; one that is applied
/// moves the sequence number up by one.
pub proof fn lemma_step_atomic(book: BookView, update: UpdateView)
    ensures
        update_rejection(book, update) is Some ==> step(book, update) == book,
        update_rejection(book, update) is None ==> step(book, update).seq_no == book.seq_no + 1,
{
}

/// What `collected` holds: the updates that waited and stay undisturbed, and
/// each new update under its sequence number.
pub proof fn lemma_collected(pending: Map<u64, UpdateView>, updates: Seq<UpdateView>)
    requires
        distinct_seq_nos(updates),
        pending.dom().finite(),
    ensures
        collected(pending, updates).dom().finite(),
        collected(pending, updates).len() <= pending.len() + updates.len(),
        forall|i: int|
            0 <= i < updates.len() ==> collected(pending, updates).contains_key(
                #[trigger] updates[i].seq_no,
            ) && collected(pending, updates)[updates[i].seq_no] == updates[i],
        forall|k: u64|
            #[trigger] collected(pending, updates).contains_key(k) ==> pending.contains_key(k)
                || exists|i: int| 0 <= i < updates.len() && updates[i].seq_no == k,
        forall|k: u64|
            pending.contains_key(k) && (forall|i: int|
                0 <= i < updates.len() ==> updates[i].seq_no != k) ==> #[trigger] collected(
                pending,
                updates,
            ).contains_key(k) && collected(pending, updates)[k] == pending[k],
    decreases updates.len(),
{
    if updates.len() > 0 {
        let first = updates[0];
        let rest = updates.drop_first();
        let next = pending.insert(first.seq_no, first);
        assert forall|i: int, j: int|
            0 <= i < rest.len() && 0 <= j < rest.len() && i != j implies rest[i].seq_no
            != rest[j].seq_no by {
            assert(rest[i] == updates[i + 1] && rest[j] == updates[j + 1]);
        }
        lemma_collected(next, rest);
        let all = collected(pending, updates);
        assert forall|i: int| 0 <= i < updates.len() implies all.contains_key(
            #[trigger] updates[i].seq_no,
        ) && all[updates[i].seq_no] == updates[i] by {
            if i > 0 {
                assert(rest[i - 1] == updates[i]);
            } else {
                assert forall|j: int| 0 <= j < rest.len() implies rest[j].seq_no
                    != first.seq_no by {
                    assert(rest[j] == updates[j + 1]);
                }
            }
        }
        assert forall|k: u64| #[trigger] all.contains_key(k) implies pending.contains_key(k)
            || exists|i: int| 0 <= i < updates.len() && updates[i].seq_no == k by {
            if !pending.contains_key(k) && k != first.seq_no {
                let i = choose|i: int| 0 <= i < rest.len() && rest[i].seq_no == k;
                assert(updates[i + 1].seq_no == k);
            }
        }
        assert forall|k: u64|
            pending.contains_key(k) && (forall|i: int|
                0 <= i < updates.len() ==> updates[i].seq_no != k) implies #[trigger] all.contains_key(
            k,
        ) && all[k] == pending[k] by {
            assert(updates[0].seq_no != k);
            assert forall|i: int| 0 <= i < rest.len() implies rest[i].seq_no != k by {
                assert(rest[i] == updates[i + 1]);
            }
            assert(next.contains_key(k));
        }
    }
}

/// Updates that are all ahead of the book by more than a step, no two with
/// the same sequence number and no more than there is room for, are all kept
/// waiting, whatever the order of their arrival; the book stays as it was.
pub proof fn lemma_buffering_collects(state: BufferedView, updates: Seq<UpdateView>)
    requires
        forall|i: int|
            0 <= i < updates.len() ==> update_rejection(state.book, #[trigger] updates[i])
                == Some(Rejection::SequenceNumberGap),
        distinct_seq_nos(updates),
        state.pending.dom().finite(),
        state.pending.len() + updates.len() <= max_pending(),
    ensures
        buffer_all(state, updates).book == state.book,
        buffer_all(state, updates).pending == collected(state.pending, updates),
    decreases updates.len(),
{
    if updates.len() > 0 {
        let first = updates[0];
        let rest = updates.drop_first();
        let next = buffered_update(state, first);
        assert(next.pending == state.pending.insert(first.seq_no, first));
        assert forall|i: int| 0 <= i < rest.len() implies update_rejection(
            next.book,
            #[trigger] rest[i],
        ) == Some(Rejection::SequenceNumberGap) by {
            assert(rest[i] == updates[i + 1]);
        }
        assert forall|i: int, j: int|
            0 <= i < rest.len() && 0 <= j < rest.len() && i != j implies rest[i].seq_no
            != rest[j].seq_no by {
            assert(rest[i] == updates[i + 1] && rest[j] == updates[j + 1]);
        }
        lemma_buffering_collects(next, rest);
    }
}

/// Updates that are all ahead of the book by more than a step leave it as
/// it is, handed to it without buffering.
pub proof fn lemma_all_ahead(book: BookView, updates: Seq<UpdateView>)
    requires
        forall|i: int| 0 <= i < updates.len() ==> (#[trigger] updates[i]).seq_no > book.seq_no + 1,
    ensures
        apply_all(book, updates) == book,
    decreases updates.len(),
{
    if updates.len() > 0 {
        let rest = updates.drop_first();
        assert(update_rejection(book, updates[0]) is Some);
        assert forall|i: int| 0 <= i < rest.len() implies (#[trigger] rest[i]).seq_no
            > book.seq_no + 1 by {
            assert(rest[i] == updates[i + 1]);
        }
        lemma_all_ahead(book, rest);
    }
}

/// Catch-up on waiting updates gives the book that the same updates give
/// when they are handed to the book one by one in the order of their
/// sequence numbers.
pub proof fn lemma_catch_up_in_order(
    book: BookView,
    pending: Map<u64, UpdateView>,
    sorted: Seq<UpdateView>,
)
    requires
        strictly_increasing(sorted),
        forall|i: int| 0 <= i < sorted.len() ==> (#[trigger] sorted[i]).seq_no > book.seq_no,
        forall|i: int|
            0 <= i < sorted.len() ==> pending.contains_key(#[trigger] sorted[i].seq_no)
                && pending[sorted[i].seq_no] == sorted[i],
        forall|k: u64|
            #[trigger] pending.contains_key(k) && k > book.seq_no ==> exists|i: int|
                0 <= i < sorted.len() && sorted[i].seq_no == k,
    ensures
        catch_up(book, pending).book == apply_all(book, sorted),
    decreases sorted.len(),
{
    let next = (book.seq_no + 1) as u64;
    if sorted.len() == 0 {
        if book.seq_no < u64::MAX && pending.contains_key(next) {
            assert(false);
        }
    } else {
        let first = sorted[0];
        let rest = sorted.drop_first();
        assert forall|i: int| 0 <= i < rest.len() implies (#[trigger] rest[i]).seq_no
            > first.seq_no by {
            assert(rest[i] == sorted[i + 1]);
        }
        if first.seq_no == book.seq_no + 1 {
            assert(pending.contains_key(next) && pending[next] == first);
            if update_rejection(book, first) is None {
                let after = updated(book, first);
                let left = pending.remove(next);
                assert forall|i: int| 0 <= i < rest.len() implies left.contains_key(
                    #[trigger] rest[i].seq_no,
                ) && left[rest[i].seq_no] == rest[i] by {
                    assert(rest[i] == sorted[i + 1]);
                }
                assert forall|k: u64|
                    #[trigger] left.contains_key(k) && k > after.seq_no implies exists|i: int|
                    0 <= i < rest.len() && rest[i].seq_no == k by {
                    let i = choose|i: int| 0 <= i < sorted.len() && sorted[i].seq_no == k;
                    assert(rest[i - 1] == sorted[i]);
                }
                assert forall|i: int, j: int| 0 <= i < j < rest.len() implies rest[i].seq_no
                    < rest[j].seq_no by {
                    assert(rest[i] == sorted[i + 1] && rest[j] == sorted[j + 1]);
                }
                lemma_catch_up_in_order(after, left, rest);
            } else {
                lemma_all_ahead(book, rest);
            }
        } else {
            if book.seq_no < u64::MAX && pending.contains_key(next) {
                let i = choose|i: int| 0 <= i < sorted.len() && sorted[i].seq_no == next;
                if i > 0 {
                    assert(sorted[0].seq_no < sorted[i].seq_no);
                }
                assert(false);
            }
            assert forall|i: int| 0 <= i < sorted.len() implies (#[trigger] sorted[i]).seq_no
                > book.seq_no + 1 by {
                if i > 0 {
                    assert(sorted[0].seq_no < sorted[i].seq_no);
                }
            }
            lemma_all_ahead(book, sorted);
        }
    }
}

/// Gap and fill: updates that arrive ahead of the book, in any order, and
/// then the update that closes the gap before them, leave the book as the
/// same updates leave it when they arrive in the order of their sequence
/// numbers and nothing is buffered.
///
/// The updates ahead are no more than there is room for, and no two of them
/// have the same sequence number.
pub proof fn lemma_gap_fill_in_order(
    book: BookView,
    ahead: Seq<UpdateView>,
    fill: UpdateView,
    sorted: Seq<UpdateView>,
)
    requires
        forall|i: int|
            0 <= i < ahead.len() ==> update_rejection(book, #[trigger] ahead[i]) == Some(
                Rejection::SequenceNumberGap,
            ),
        ahead.len() <= max_pending(),
        distinct_seq_nos(ahead),
        fill.seq_no == book.seq_no + 1,
        strictly_increasing(sorted),
        same_updates(ahead, sorted),
    ensures
        buffered_update(
            buffer_all(BufferedView { book, pending: Map::empty() }, ahead),
            fill,
        ).book == apply_all(book, seq![fill] + sorted),
{
    let start = BufferedView { book, pending: Map::<u64, UpdateView>::empty() };
    lemma_buffering_collects(start, ahead);
    lemma_collected(start.pending, ahead);
    let waiting = collected(start.pending, ahead);
    let all = seq![fill] + sorted;
    assert(all[0] == fill);
    assert(all.drop_first() =~= sorted);
    assert forall|i: int| 0 <= i < sorted.len() implies (#[trigger] sorted[i]).seq_no
        > book.seq_no + 1 && waiting.contains_key(sorted[i].seq_no)
        && waiting[sorted[i].seq_no] == sorted[i] by {
        assert(ahead.contains(sorted[i]));
        let j = choose|j: int| 0 <= j < ahead.len() && ahead[j] == sorted[i];
        assert(update_rejection(book, ahead[j]) == Some(Rejection::SequenceNumberGap));
        lemma_gap_means_ahead(book, ahead[j]);
        assert(waiting.contains_key(ahead[j].seq_no) && waiting[ahead[j].seq_no] == ahead[j]);
    }
    assert forall|k: u64| #[trigger] waiting.contains_key(k) implies exists|i: int|
        0 <= i < sorted.len() && sorted[i].seq_no == k by {
        let j = choose|j: int| 0 <= j < ahead.len() && ahead[j].seq_no == k;
        assert(sorted.contains(ahead[j]));
        let i = choose|i: int| 0 <= i < sorted.len() && sorted[i] == ahead[j];
        assert(sorted[i].seq_no == k);
    }
    if update_rejection(book, fill) is None {
        lemma_catch_up_in_order(updated(book, fill), waiting, sorted);
    } else {
        lemma_all_ahead(book, sorted);
    }
}

/// Waiting updates whose batches are kept from one arena to another show
/// the same content in both.
pub proof fn lemma_pending_view_kept(
    pending: Map<u64, OrderBookUpdate>,
    before: ArenaView<UpdateLevel>,
    after: ArenaView<UpdateLevel>,
)
    requires
        forall|k: u64| #[trigger]
            pending.contains_key(k) ==> kept(before, after, pending[k].updates.batch),
    ensures
        pending_view(pending, after) == pending_view(pending, before),
{
    assert(pending_view(pending, after) =~= pending_view(pending, before));
}


/// An append to the arena leaves every waiting update that the arena holds
/// held, and its content as it was.
pub proof fn lemma_pending_after_append(
    pending: Map<u64, OrderBookUpdate>,
    arena: ArenaView<UpdateLevel>,
    payloads: Seq<UpdateLevel>,
)
    requires
        pending_held(pending, arena),
    ensures
        pending_held(pending, appended(arena, payloads)),
        pending_view(pending, appended(arena, payloads)) == pending_view(pending, arena),
{
    assert forall|k: u64| #[trigger] pending.contains_key(k) implies batch_held(
        appended(arena, payloads),
        pending[k].updates.batch,
    ) && update_view(pending[k], appended(arena, payloads)) == update_view(pending[k], arena) by {
        lemma_append_keeps_held(arena, payloads, pending[k].updates.batch);
    }
    assert(pending_view(pending, appended(arena, payloads)) =~= pending_view(pending, arena));
}


/// An append to the arena leaves the batches of the waiting updates live,
/// and the update that takes the batch issued fits among them.
pub proof fn lemma_pending_live_after_append(
    pending: Map<u64, OrderBookUpdate>,
    arena: ArenaView<UpdateLevel>,
    payloads: Seq<UpdateLevel>,
    update: OrderBookUpdate,
)
    requires
        arena.entries.len() == arena.headers.len(),
        arena.base + arena.entries.len() + payloads.len() <= usize::MAX,
        pending_live(pending, arena),
        update.updates.batch == issued(arena, payloads),
    ensures
        pending_live(pending, appended(arena, payloads)),
        fits_among(update, pending, appended(arena, payloads)),
        pending_view(pending, appended(arena, payloads)) == pending_view(pending, arena),
{
    let after = appended(arena, payloads);
    assert forall|k: u64| #[trigger] pending.contains_key(k) implies batch_live(
        after,
        pending[k].updates.batch,
    ) && batch_held(arena, pending[k].updates.batch) && (pending[k].updates.batch.len > 0
        ==> pending[k].updates.batch != update.updates.batch) by {
        lemma_append_keeps_live(arena, payloads, pending[k].updates.batch);
        lemma_live_is_held(arena, pending[k].updates.batch);
    }
    lemma_append_keeps_live(arena, payloads, Batch { start_index: 0, len: 0 });
    lemma_pending_after_append(pending, arena, payloads);
}

} // verus!
