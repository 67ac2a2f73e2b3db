//! A book with a buffer for the updates that arrive ahead of their turn.
use crate::batched_deque::batched_deque::Batch;
use crate::batched_deque::batched_deque::BatchedDeque;
use crate::batched_deque::laws::lemma_released_all;
use crate::batched_deque::model::ArenaView;
use crate::batched_deque::model::batch_held;
use crate::batched_deque::model::released_all;
use crate::order_book::errors::Errors;
use crate::order_book::model::buffered_snapshot;
use crate::order_book::model::buffered_update;
use crate::order_book::model::BufferedView;
use crate::order_book::model::catch_up;
use crate::order_book::model::max_pending;
use crate::order_book::model::pending_view;
use crate::order_book::model::Rejection;
use crate::order_book::model::reports;
use crate::order_book::model::snapshot_rejection;
use crate::order_book::model::update_rejection;
use crate::order_book::model::update_view;
use crate::order_book::model::with_room;
use crate::order_book::model::without_range;
use crate::order_book::order_book::OrderBook;
use crate::order_book::render::book_text;
use crate::parsing::order_book_snapshot::OrderBookSnapshot;
use crate::parsing::order_book_update::Level as UpdateLevel;
use crate::parsing::order_book_update::OrderBookUpdate;
use std::collections::HashMap;
use crate::batched_deque::model::arena_wf;
use crate::batched_deque::model::batch_live;
use crate::batched_deque::model::kept;
use vstd::prelude::*;
use vstd::std_specs::iter::IteratorSpec;

verus! {

broadcast use vstd::std_specs::hash::group_hash_axioms;

/// One book with the updates that arrived ahead of their turn.
///
/// The waiting updates are kept in a hash map by sequence number, at most
/// [`Self::MAX_PENDING_UPDATES`] of them. When that many wait and one more
/// arrives ahead of the book, all that wait are dropped to make room: under
/// gaps that last, the next snapshot brings the book up to date.
#[derive(Debug)]
pub struct BufferedOrderBook {
    pub order_book: OrderBook,
    pub pending_updates: HashMap<u64, OrderBookUpdate>,
}

/// Among the updates that wait in `before` and no longer in `after`, one
/// with a live handle has the batch `batch`.
pub open spec fn left_with(
    before: Map<u64, OrderBookUpdate>,
    after: Map<u64, OrderBookUpdate>,
    batch: Batch,
) -> bool {
    exists|k: u64|
        #[trigger] before.contains_key(k) && !after.contains_key(k) && before[k].updates.owned
            && before[k].updates.batch == batch
}

/// Handing `update` to the buffered book releases `batch`: the batch of the
/// update itself, unless the update is kept waiting or its handle is inert,
/// and the batch of each waiting update with a live handle that left. An
/// update that is displaced by one of the same sequence number does not
/// leave in this sense: its handle is made inert.
pub open spec fn update_releases(
    before: Map<u64, OrderBookUpdate>,
    after: Map<u64, OrderBookUpdate>,
    rejection: Option<Rejection>,
    update: OrderBookUpdate,
    batch: Batch,
) -> bool {
    match rejection {
        Some(Rejection::SequenceNumberGap) => before.len() >= max_pending() && left_with(
            before,
            Map::empty(),
            batch,
        ),
        None => (update.updates.owned && batch == update.updates.batch) || left_with(
            before,
            after,
            batch,
        ),
        Some(_) => update.updates.owned && batch == update.updates.batch,
    }
}

/// The batches that handing `update` to the buffered book releases.
pub open spec fn update_released(
    before: Map<u64, OrderBookUpdate>,
    after: Map<u64, OrderBookUpdate>,
    rejection: Option<Rejection>,
    update: OrderBookUpdate,
) -> Set<Batch> {
    Set::new(|batch: Batch| update_releases(before, after, rejection, update, batch))
}

/// The batches of the live handles among the updates that wait in `before`
/// and no longer in `after`.
pub open spec fn left_batches(
    before: Map<u64, OrderBookUpdate>,
    after: Map<u64, OrderBookUpdate>,
) -> Set<Batch> {
    Set::new(|batch: Batch| left_with(before, after, batch))
}

/// The arena `after` is the arena `before` with the batches of `released`
/// released, those and no others, in some order.
pub open spec fn released_exactly(
    before: ArenaView<UpdateLevel>,
    after: ArenaView<UpdateLevel>,
    released: Set<Batch>,
) -> bool {
    exists|gone: Seq<Batch>|
        #![trigger released_all(before, gone)]
        after == released_all(before, gone) && gone.to_set() == released
}

/// Where no batch is released the arena stays as it is.
pub proof fn lemma_nothing_released(
    before: ArenaView<UpdateLevel>,
    after: ArenaView<UpdateLevel>,
    released: Set<Batch>,
)
    requires
        released_exactly(before, after, released),
        forall|batch: Batch| !released.contains(batch),
    ensures
        after == before,
{
    let gone = choose|gone: Seq<Batch>|
        #![trigger released_all(before, gone)]
        after == released_all(before, gone) && gone.to_set() == released;
    if gone.len() > 0 {
        assert(gone.to_set().contains(gone[0]));
    }
}

/// Every waiting update has its batch live in `arena`, and no two of them
/// have the same batch, unless it is empty.
pub open spec fn pending_live(
    pending: Map<u64, OrderBookUpdate>,
    arena: ArenaView<UpdateLevel>,
) -> bool {
    &&& forall|k: u64| #[trigger]
        pending.contains_key(k) ==> batch_live(arena, pending[k].updates.batch)
    &&& forall|j: u64, k: u64|
        #[trigger] pending.contains_key(j) && #[trigger] pending.contains_key(k) && j != k
            && pending[j].updates.batch.len > 0 ==> pending[j].updates.batch
            != pending[k].updates.batch
}

/// `update` has its batch live in `arena`, and none of the waiting updates
/// has the same batch, unless it is empty.
pub open spec fn fits_among(
    update: OrderBookUpdate,
    pending: Map<u64, OrderBookUpdate>,
    arena: ArenaView<UpdateLevel>,
) -> bool {
    &&& batch_live(arena, update.updates.batch)
    &&& update.updates.batch.len > 0 ==> forall|k: u64| #[trigger]
        pending.contains_key(k) ==> pending[k].updates.batch != update.updates.batch
}

/// Waiting updates with live batches keep them live through the release of
/// batches that are none of theirs.
pub proof fn lemma_pending_stays_live(
    pending: Map<u64, OrderBookUpdate>,
    arena: ArenaView<UpdateLevel>,
    gone: Seq<Batch>,
)
    requires
        arena_wf(arena),
        pending_live(pending, arena),
        forall|i: int, k: u64|
            0 <= i < gone.len() && #[trigger] pending.contains_key(k)
                && pending[k].updates.batch.len > 0 ==> #[trigger] gone[i]
                != pending[k].updates.batch,
    ensures
        pending_live(pending, released_all(arena, gone)),
        pending_view(pending, released_all(arena, gone)) == pending_view(pending, arena),
{
    let after = released_all(arena, gone);
    assert forall|k: u64| #[trigger] pending.contains_key(k) implies batch_live(
        after,
        pending[k].updates.batch,
    ) && update_view(pending[k], after) == update_view(pending[k], arena) by {
        lemma_released_all(arena, gone, pending[k].updates.batch);
        assert(kept(arena, after, pending[k].updates.batch));
    }
    assert(pending_view(pending, after) =~= pending_view(pending, arena));
}

/// What handing `update` to the buffered book `before` does: `after` is the
/// buffered book and `new_arena` the arena that it leaves, and `result` is
/// what it returns.
///
/// * Read in the arena of the call, the buffered book is what
///   [`buffered_update`] gives.
/// * Where the book takes the update the result is `Ok`, and the updates
///   that wait are among those that waited.
/// * Otherwise the result is the error of the book. On a gap `update` itself
///   waits under its sequence number, with the updates that waited, or alone
///   where those had reached the limit. On any other error the waiting
///   updates are as they were.
/// * The arena changes by the releases of [`update_released`].
/// * Where the batches of the waiting updates and of `update` were live and
///   no two of them the same, the batches of the updates that wait
///   afterwards are live in the arena that is left, and their content is as
///   it was.
pub open spec fn handled_update(
    before: BufferedOrderBook,
    after: BufferedOrderBook,
    update: OrderBookUpdate,
    result: Result<(), Errors>,
    old_arena: ArenaView<UpdateLevel>,
    new_arena: ArenaView<UpdateLevel>,
) -> bool {
    let rejection = update_rejection(before.order_book@, update_view(update, old_arena));
    &&& after.view(old_arena) == buffered_update(
        before.view(old_arena),
        update_view(update, old_arena),
    )
    &&& match rejection {
        None => result is Ok && after.pending_updates@.submap_of(before.pending_updates@),
        Some(rejection) => {
            &&& result is Err
            &&& reports(result->Err_0, rejection, update.security_id, update.seq_no)
            &&& after.pending_updates@ == if rejection is SequenceNumberGap {
                (if before.pending_updates@.len() >= max_pending() {
                    Map::empty()
                } else {
                    before.pending_updates@
                }).insert(update.seq_no, update)
            } else {
                before.pending_updates@
            }
        },
    }
    &&& released_exactly(
        old_arena,
        new_arena,
        update_released(before.pending_updates@, after.pending_updates@, rejection, update),
    )
    &&& arena_wf(old_arena) && pending_live(before.pending_updates@, old_arena) && fits_among(
        update,
        before.pending_updates@,
        old_arena,
    ) ==> pending_live(after.pending_updates@, new_arena) && pending_view(
        after.pending_updates@,
        new_arena,
    ) == pending_view(after.pending_updates@, old_arena)
}

/// What handing `snapshot` to the buffered book `before` does: `after` is
/// the buffered book and `new_arena` the arena that it leaves, and `result`
/// is what it returns.
///
/// * Read in the arena of the call, the buffered book is what
///   [`buffered_snapshot`] gives.
/// * Where the book takes the snapshot the result is `Ok`, and the updates
///   that wait are among those that waited. Otherwise the result is the
///   error of the book and the waiting updates are as they were.
/// * The arena changes by the releases of the live handles of the updates
///   that no longer wait.
/// * Where the batches of the waiting updates were live and no two of them
///   the same, the batches of the updates that wait afterwards are live in
///   the arena that is left, and their content is as it was.
pub open spec fn handled_snapshot(
    before: BufferedOrderBook,
    after: BufferedOrderBook,
    snapshot: OrderBookSnapshot,
    result: Result<(), Errors>,
    old_arena: ArenaView<UpdateLevel>,
    new_arena: ArenaView<UpdateLevel>,
) -> bool {
    &&& after.view(old_arena) == buffered_snapshot(before.view(old_arena), snapshot)
    &&& match snapshot_rejection(before.order_book@, snapshot) {
        None => result is Ok && after.pending_updates@.submap_of(before.pending_updates@),
        Some(rejection) => {
            &&& result is Err
            &&& reports(result->Err_0, rejection, snapshot.security_id, snapshot.seq_no)
            &&& after.pending_updates@ == before.pending_updates@
        },
    }
    &&& released_exactly(
        old_arena,
        new_arena,
        left_batches(before.pending_updates@, after.pending_updates@),
    )
    &&& arena_wf(old_arena) && pending_live(before.pending_updates@, old_arena) ==> pending_live(
        after.pending_updates@,
        new_arena,
    ) && pending_view(after.pending_updates@, new_arena) == pending_view(
        after.pending_updates@,
        old_arena,
    )
}

/// `arena` holds every entry of every waiting update.
pub open spec fn pending_held(
    pending: Map<u64, OrderBookUpdate>,
    arena: ArenaView<UpdateLevel>,
) -> bool {
    forall|k: u64| #[trigger] pending.contains_key(k) ==> batch_held(arena, pending[k].updates.batch)
}

/// Behind its first `mark` batches, `retired` holds the batches of the live
/// handles among the updates that wait in `before` and no longer in
/// `after`: those and no others.
pub open spec fn gained(
    mark: Seq<Batch>,
    retired: Seq<Batch>,
    before: Map<u64, OrderBookUpdate>,
    after: Map<u64, OrderBookUpdate>,
) -> bool {
    &&& mark.len() <= retired.len()
    &&& retired.subrange(0, mark.len() as int) == mark
    &&& forall|i: int|
        mark.len() <= i < retired.len() ==> left_with(before, after, #[trigger] retired[i])
    &&& forall|k: u64|
        #[trigger] before.contains_key(k) && !after.contains_key(k) && before[k].updates.owned
            ==> exists|i: int|
            mark.len() <= i < retired.len() && #[trigger] retired[i] == before[k].updates.batch
}

/// What `retired` gains while updates leave in two steps is what it gains
/// over both.
proof fn lemma_gained_twice(
    r0: Seq<Batch>,
    r1: Seq<Batch>,
    r2: Seq<Batch>,
    m0: Map<u64, OrderBookUpdate>,
    m1: Map<u64, OrderBookUpdate>,
    m2: Map<u64, OrderBookUpdate>,
)
    requires
        gained(r0, r1, m0, m1),
        gained(r1, r2, m1, m2),
        m1.submap_of(m0),
        m2.submap_of(m1),
    ensures
        gained(r0, r2, m0, m2),
{
    assert(r2.subrange(0, r0.len() as int) =~= r0) by {
        assert forall|i: int| 0 <= i < r0.len() implies r2[i] == r0[i] by {
            assert(r2.subrange(0, r1.len() as int)[i] == r1[i]);
            assert(r1.subrange(0, r0.len() as int)[i] == r0[i]);
        }
    }
    assert forall|i: int| r0.len() <= i < r2.len() implies left_with(m0, m2, #[trigger] r2[i]) by {
        if i < r1.len() {
            assert(r2.subrange(0, r1.len() as int)[i] == r1[i]);
            assert(left_with(m0, m1, r1[i]));
            let k = choose|k: u64|
                #[trigger] m0.contains_key(k) && !m1.contains_key(k) && m0[k].updates.owned
                    && m0[k].updates.batch == r1[i];
            assert(!m2.contains_key(k));
        } else {
            assert(left_with(m1, m2, r2[i]));
            let k = choose|k: u64|
                #[trigger] m1.contains_key(k) && !m2.contains_key(k) && m1[k].updates.owned
                    && m1[k].updates.batch == r2[i];
            assert(m1.dom().contains(k));
            assert(m0.contains_key(k) && m0[k] == m1[k]);
        }
    }
    assert forall|k: u64|
        #[trigger] m0.contains_key(k) && !m2.contains_key(k)
            && m0[k].updates.owned implies exists|i: int|
        r0.len() <= i < r2.len() && #[trigger] r2[i] == m0[k].updates.batch by {
        if m1.contains_key(k) {
            assert(m1.dom().contains(k));
            assert(m0[k] == m1[k]);
            let i = choose|i: int|
                r1.len() <= i < r2.len() && #[trigger] r2[i] == m1[k].updates.batch;
            assert(r2[i] == m0[k].updates.batch);
        } else {
            let i = choose|i: int|
                r0.len() <= i < r1.len() && #[trigger] r1[i] == m0[k].updates.batch;
            assert(r2.subrange(0, r1.len() as int)[i] == r1[i]);
            assert(r2[i] == m0[k].updates.batch);
        }
    }
}

impl BufferedOrderBook {
    pub const MAX_PENDING_UPDATES: usize = 10000;

    /// The content of the buffered book, the waiting updates read from
    /// `arena`.
    pub open spec fn view(&self, arena: ArenaView<UpdateLevel>) -> BufferedView {
        BufferedView {
            book: self.order_book@,
            pending: pending_view(self.pending_updates@, arena),
        }
    }

    /// The buffered book of `order_book`, with no update waiting.
    pub fn new(order_book: OrderBook) -> (buffered: Self)
        ensures
            buffered.order_book == order_book,
            buffered.pending_updates@ == Map::<u64, OrderBookUpdate>::empty(),
    {
        Self { order_book, pending_updates: HashMap::new() }
    }

    /// The book as text.
    pub fn to_text(&self) -> (text: String)
        ensures
            text@ == book_text(self.order_book@),
    {
        self.order_book.to_text()
    }

    /// Number of updates that wait.
    pub fn pending_len(&self) -> (n: usize)
        ensures
            n == self.pending_updates@.len(),
    {
        self.pending_updates.len()
    }

    /// Whether an update waits under `seq_no`.
    pub fn is_pending(&self, seq_no: u64) -> (waits: bool)
        ensures
            waits == self.pending_updates@.contains_key(seq_no),
    {
        self.pending_updates.contains_key(&seq_no)
    }

    /// Whether `deque` holds every entry of every waiting update.
    pub fn holds_pending(&self, deque: &BatchedDeque<UpdateLevel>) -> (held: bool)
        requires
            deque.state.wf(),
        ensures
            held == pending_held(self.pending_updates@, deque.state@),
    {
        let values = self.pending_updates.values();
        let ghost listed = values.remaining().unref();
        let ghost pending = self.pending_updates@;
        let ghost arena = deque.state@;
        let ghost mut seen: int = 0;
        proof {
            assert(listed.to_set() == pending.values());
        }
        let mut held = true;
        for update in it: values
            invariant
                it.seq().unref() == listed,
                seen == it.index(),
                arena == deque.state@,
                deque.state.wf(),
                pending == self.pending_updates@,
                listed.to_set() == pending.values(),
                held ==> forall|j: int|
                    0 <= j < seen ==> batch_held(arena, (#[trigger] listed[j]).updates.batch),
                !held ==> !pending_held(pending, arena),
        {
            proof {
                assert(listed[seen] == *update);
            }
            if !deque.state.holds(&update.updates.batch) {
                proof {
                    assert(listed.to_set().contains(*update));
                    assert(pending.values().contains(*update));
                    let k = choose|k: u64| #[trigger]
                        pending.contains_key(k) && pending[k] == *update;
                    assert(!batch_held(arena, pending[k].updates.batch));
                }
                held = false;
            }
            proof {
                seen = seen + 1;
            }
        }
        proof {
            if held {
                assert forall|k: u64| #[trigger] pending.contains_key(k) implies batch_held(
                    arena,
                    pending[k].updates.batch,
                ) by {
                    assert(pending.values().contains(pending[k]));
                    assert(listed.to_set().contains(pending[k]));
                    let j = choose|j: int| 0 <= j < listed.len() && listed[j] == pending[k];
                    assert(batch_held(arena, listed[j].updates.batch));
                }
            }
        }
        held
    }

    /// Hands `update` to the book, its changes read from `deque`, which
    /// must hold every entry of the update and of the updates that wait.
    ///
    /// Where the book takes the update, catch-up follows. Where the update
    /// is ahead of the book by more than a step, it is kept waiting, handle
    /// and all: every waiting update is dropped first if they have reached
    /// the limit, and an update that waited under the same sequence number
    /// is displaced, its handle made inert. The error of the book is returned
    /// as it is.
    ///
    /// The live handles of the updates that are done with are released in
    /// `deque` before the call returns: that of `update`, unless it is kept
    /// waiting, and those of the waiting updates that were applied, refused
    /// in catch-up or dropped to make room.
    pub fn apply_update(
        &mut self,
        update: OrderBookUpdate,
        deque: &mut BatchedDeque<UpdateLevel>,
    ) -> (result: Result<(), Errors>)
        requires
            old(deque).state.wf(),
            batch_held(old(deque).state@, update.updates.batch),
            pending_held(old(self).pending_updates@, old(deque).state@),
        ensures
            final(deque).state.wf(),
            final(deque).state@.base + final(deque).state@.entries.len() == old(
                deque,
            ).state@.base + old(deque).state@.entries.len(),
            handled_update(
                *old(self),
                *final(self),
                update,
                result,
                old(deque).state@,
                final(deque).state@,
            ),
    {
        let ghost arena = deque.state@;
        let ghost before = self.pending_updates@;
        let ghost given = update;
        let ghost rejection = update_rejection(self.order_book@, update_view(update, arena));
        let mut retired: Vec<Batch> = Vec::new();
        let result = match self.order_book.apply_update(&update, deque) {
            Ok(()) => {
                if update.updates.owned {
                    retired.push(update.updates.batch);
                }
                let ghost mark = retired@;
                self.try_apply_pending_updates(deque, &mut retired);
                proof {
                    if given.updates.owned {
                        assert(retired@.subrange(0, 1)[0] == mark[0]);
                    }
                }
                Ok(())
            },
            Err(e) => match e {
                Errors::SequenceNumberGap => {
                    if self.pending_updates.len() >= Self::MAX_PENDING_UPDATES {
                        self.clear_pending(&mut retired);
                    }
                    let ghost room = self.pending_updates@;
                    let seq_no = update.seq_no;
                    match self.pending_updates.insert(seq_no, update) {
                        Some(displaced) => {
                            let mut displaced = displaced;
                            displaced.updates.drop_ownership();
                        },
                        None => {},
                    }
                    proof {
                        assert(pending_view(room, arena) =~= with_room(pending_view(before, arena)))
                            by {
                            assert(pending_view(before, arena).dom() =~= before.dom());
                        }
                        assert(pending_view(self.pending_updates@, arena) =~= with_room(
                            pending_view(before, arena),
                        ).insert(seq_no, update_view(given, arena)));
                    }
                    Err(e)
                },
                _ => {
                    if update.updates.owned {
                        retired.push(update.updates.batch);
                    }
                    Err(e)
                },
            },
        };
        let ghost released = update_released(before, self.pending_updates@, rejection, given);
        proof {
            assert forall|i: int| 0 <= i < retired@.len() implies released.contains(
                #[trigger] retired@[i],
            ) by {}
            assert forall|batch: Batch| #[trigger] released.contains(batch) implies retired@.contains(
                batch,
            ) by {
                if rejection is None && left_with(before, self.pending_updates@, batch) {
                    let k = choose|k: u64|
                        #[trigger] before.contains_key(k) && !self.pending_updates@.contains_key(
                            k,
                        ) && before[k].updates.owned && before[k].updates.batch == batch;
                    let i = choose|i: int|
                        0 <= i < retired@.len() && #[trigger] retired@[i]
                            == before[k].updates.batch;
                    assert(retired@[i] == batch);
                } else if rejection == Some(Rejection::SequenceNumberGap) {
                    let k = choose|k: u64|
                        #[trigger] before.contains_key(k) && before[k].updates.owned
                            && before[k].updates.batch == batch;
                    let i = choose|i: int|
                        0 <= i < retired@.len() && #[trigger] retired@[i]
                            == before[k].updates.batch;
                    assert(retired@[i] == batch);
                } else {
                    assert(retired@[0] == batch);
                }
            }
            assert(retired@.to_set() =~= released);
        }
        deque.release_batches(&retired);
        proof {
            lemma_released_all(arena, retired@, Batch { start_index: 0, len: 0 });
            assert(deque.state@ == released_all(arena, retired@));
            if pending_live(before, arena) && fits_among(given, before, arena) {
                let after = self.pending_updates@;
                assert forall|k: u64| #[trigger] after.contains_key(k) implies (
                after[k] == given || (before.contains_key(k) && after[k] == before[k])) by {
                    if rejection is None {
                        assert(after.dom().contains(k));
                        assert(before.dom().contains(k));
                    }
                }
                assert forall|j: u64, k: u64|
                    #[trigger] after.contains_key(j) && #[trigger] after.contains_key(k) && j != k
                        && after[j].updates.batch.len > 0 implies after[j].updates.batch
                    != after[k].updates.batch by {
                    if rejection == Some(Rejection::SequenceNumberGap) {
                        if j == given.seq_no {
                            assert(after[j] == given);
                            assert(before.contains_key(k) && after[k] == before[k]);
                        } else {
                            assert(before.contains_key(j) && after[j] == before[j]);
                            if k != given.seq_no {
                                assert(before.contains_key(k) && after[k] == before[k]);
                            } else {
                                assert(after[k] == given);
                            }
                        }
                    } else {
                        assert(before.contains_key(j) && after[j] == before[j]);
                        assert(before.contains_key(k) && after[k] == before[k]);
                    }
                }
                assert(pending_live(after, arena));
                assert forall|i: int, k: u64|
                    0 <= i < retired@.len() && #[trigger] after.contains_key(k)
                        && after[k].updates.batch.len > 0 implies #[trigger] retired@[i]
                    != after[k].updates.batch by {
                    assert(released.contains(retired@[i]));
                    assert(update_releases(before, after, rejection, given, retired@[i]));
                    if rejection == Some(Rejection::SequenceNumberGap) {
                        assert(after[k] == given) by {
                            assert(before.len() >= max_pending());
                        }
                    }
                    if left_with(before, after, retired@[i]) {
                        let gone_key = choose|j: u64|
                            #[trigger] before.contains_key(j) && !after.contains_key(j)
                                && before[j].updates.owned && before[j].updates.batch
                                == retired@[i];
                        assert(gone_key != k);
                    }
                    if left_with(before, Map::empty(), retired@[i]) {
                        let gone_key = choose|j: u64|
                            #[trigger] before.contains_key(j) && before[j].updates.owned
                                && before[j].updates.batch == retired@[i];
                        assert(before.contains_key(gone_key));
                    }
                }
                lemma_pending_stays_live(after, arena, retired@);
            }
        }
        result
    }

    /// Hands `snapshot` to the book. `deque` must hold every entry of the
    /// updates that wait.
    ///
    /// Where the book takes the snapshot, the waiting updates from the
    /// book's old sequence number up to the snapshot's are dropped and
    /// catch-up follows, read from `deque`. The error of the book is returned
    /// as it is, and then nothing else changes.
    ///
    /// The live handles of the waiting updates that are done with, dropped
    /// or taken by catch-up, are released in `deque` before the call returns.
    pub fn apply_snapshot(
        &mut self,
        snapshot: &OrderBookSnapshot,
        deque: &mut BatchedDeque<UpdateLevel>,
    ) -> (result: Result<(), Errors>)
        requires
            old(deque).state.wf(),
            pending_held(old(self).pending_updates@, old(deque).state@),
        ensures
            final(deque).state.wf(),
            final(deque).state@.base + final(deque).state@.entries.len() == old(
                deque,
            ).state@.base + old(deque).state@.entries.len(),
            handled_snapshot(
                *old(self),
                *final(self),
                *snapshot,
                result,
                old(deque).state@,
                final(deque).state@,
            ),
    {
        let ghost arena = deque.state@;
        let ghost before = self.pending_updates@;
        let old_seq_no = self.order_book.seq_no;
        let mut retired: Vec<Batch> = Vec::new();
        match self.order_book.apply_snapshot(snapshot) {
            Ok(()) => {},
            Err(e) => {
                proof {
                    assert(retired@ =~= Seq::<Batch>::empty());
                    assert(retired@.to_set() =~= left_batches(before, self.pending_updates@));
                }
                deque.release_batches(&retired);
                proof {
                    lemma_released_all(arena, retired@, Batch { start_index: 0, len: 0 });
                    assert(deque.state@ == released_all(arena, retired@));
                    if pending_live(before, arena) {
                        lemma_pending_stays_live(before, arena, retired@);
                    }
                }
                return Err(e);
            },
        }
        // Remove all pending updates that the snapshot covers
        self.drop_covered(old_seq_no, snapshot.seq_no, &mut retired);
        let ghost ranged = self.pending_updates@;
        let ghost mid = retired@;
        proof {
            assert(pending_view(ranged, arena) =~= without_range(
                pending_view(before, arena),
                old_seq_no,
                snapshot.seq_no,
            ));
        }
        self.try_apply_pending_updates(deque, &mut retired);
        let ghost released = left_batches(before, self.pending_updates@);
        proof {
            lemma_gained_twice(
                Seq::<Batch>::empty(),
                mid,
                retired@,
                before,
                ranged,
                self.pending_updates@,
            );
            assert forall|batch: Batch| #[trigger] released.contains(batch) implies retired@.contains(
                batch,
            ) by {
                let k = choose|k: u64|
                    #[trigger] before.contains_key(k) && !self.pending_updates@.contains_key(k)
                        && before[k].updates.owned && before[k].updates.batch == batch;
                let i = choose|i: int|
                    0 <= i < retired@.len() && #[trigger] retired@[i] == before[k].updates.batch;
                assert(retired@[i] == batch);
            }
            assert forall|i: int| 0 <= i < retired@.len() implies released.contains(
                #[trigger] retired@[i],
            ) by {}
            assert(retired@.to_set() =~= released);
        }
        deque.release_batches(&retired);
        proof {
            lemma_released_all(arena, retired@, Batch { start_index: 0, len: 0 });
            assert(deque.state@ == released_all(arena, retired@));
            assert(released_exactly(arena, deque.state@, released));
            assert(self.pending_updates@.submap_of(before)) by {
                assert forall|k: u64| #[trigger]
                    self.pending_updates@.dom().contains(k) implies #[trigger] before.dom().contains(
                    k,
                ) && self.pending_updates@[k] == before[k] by {
                    assert(ranged.dom().contains(k));
                    assert(before.dom().contains(k));
                }
            }
            assert(self.view(arena) == buffered_snapshot(old(self).view(arena), *snapshot));
            if pending_live(before, arena) {
                let after = self.pending_updates@;
                assert forall|k: u64| #[trigger] after.contains_key(k) implies before.contains_key(
                    k,
                ) && after[k] == before[k] by {
                    assert(after.dom().contains(k));
                    assert(before.dom().contains(k));
                }
                assert(pending_live(after, arena));
                assert forall|i: int, k: u64|
                    0 <= i < retired@.len() && #[trigger] after.contains_key(k)
                        && after[k].updates.batch.len > 0 implies #[trigger] retired@[i]
                    != after[k].updates.batch by {
                    assert(released.contains(retired@[i]));
                    let gone_key = choose|j: u64|
                        #[trigger] before.contains_key(j) && !after.contains_key(j)
                            && before[j].updates.owned && before[j].updates.batch == retired@[i];
                    assert(gone_key != k);
                }
                lemma_pending_stays_live(after, arena, retired@);
            }
        }
        Ok(())
    }

    /// Drops the waiting updates from sequence number `from` up to, not
    /// including, `to`. The batches of their live handles are added to
    /// `retired`.
    fn drop_covered(&mut self, from: u64, to: u64, retired: &mut Vec<Batch>)
        ensures
            final(self).order_book == old(self).order_book,
            final(self).pending_updates@ == old(self).pending_updates@.remove_keys(
                Set::new(|k: u64| from <= k < to),
            ),
            gained(
                old(retired)@,
                final(retired)@,
                old(self).pending_updates@,
                final(self).pending_updates@,
            ),
    {
        let ghost before = self.pending_updates@;
        let ghost mark = retired@;
        let mut covered: Vec<u64> = Vec::new();
        let keys = self.pending_updates.keys();
        let ghost listed = keys.remaining().unref();
        let ghost mut seen: int = 0;
        proof {
            assert(listed.to_set() == before.dom());
        }
        for key in it: keys
            invariant
                self == old(self),
                it.seq().unref() == listed,
                seen == it.index(),
                forall|j: int|
                    0 <= j < covered@.len() ==> from <= (#[trigger] covered@[j]) < to,
                forall|j: int|
                    0 <= j < seen && from <= listed[j] < to ==> covered@.contains(
                        #[trigger] listed[j],
                    ),
        {
            let ghost found = covered@;
            if from <= *key && *key < to {
                covered.push(*key);
            }
            proof {
                assert(listed[seen] == *key);
                assert forall|j: int|
                    0 <= j < seen + 1 && from <= listed[j] < to implies covered@.contains(
                    #[trigger] listed[j],
                ) by {
                    if j < seen {
                        let w = choose|w: int| 0 <= w < found.len() && found[w] == listed[j];
                        assert(covered@[w] == listed[j]);
                    } else {
                        assert(covered@[covered@.len() - 1] == *key);
                    }
                }
                seen = seen + 1;
            }
        }
        proof {
            assert(seen == listed.len());
            assert forall|k: u64| before.contains_key(k) && from <= k < to implies covered@.contains(
                k,
            ) by {
                assert(listed.to_set().contains(k));
                let j = choose|j: int| 0 <= j < listed.len() && listed[j] == k;
                assert(covered@.contains(listed[j]));
            }
            assert(self.pending_updates@ =~= before.remove_keys(
                Set::new(|k: u64| exists|j: int| 0 <= j < 0 && covered@[j] == k),
            ));
            assert(retired@.subrange(0, mark.len() as int) =~= mark);
        }
        let mut i: usize = 0;
        while i < covered.len()
            invariant
                i <= covered@.len(),
                self.order_book == old(self).order_book,
                before == old(self).pending_updates@,
                mark == old(retired)@,
                forall|j: int|
                    0 <= j < covered@.len() ==> from <= (#[trigger] covered@[j]) < to,
                self.pending_updates@ == before.remove_keys(
                    Set::new(|k: u64| exists|j: int| 0 <= j < i && covered@[j] == k),
                ),
                gained(mark, retired@, before, self.pending_updates@),
            decreases covered@.len() - i,
        {
            let seq_no = covered[i];
            self.take_out(seq_no, retired, Ghost(before), Ghost(mark));
            proof {
                assert(self.pending_updates@ =~= before.remove_keys(
                    Set::new(|k: u64| exists|j: int| 0 <= j < i + 1 && covered@[j] == k),
                ));
            }
            i += 1;
        }
        proof {
            assert(self.pending_updates@ =~= before.remove_keys(
                Set::new(|k: u64| from <= k < to),
            )) by {
                assert forall|k: u64| before.contains_key(k) implies ((exists|j: int|
                    0 <= j < covered@.len() && covered@[j] == k) <==> from <= k < to) by {
                    if from <= k < to {
                        assert(covered@.contains(k));
                    }
                }
            }
        }
    }

    /// Takes the update that waits under `seq_no`, if one does, out of the
    /// waiting updates and returns it. The batch of its handle, if that is
    /// live, is added to `retired`.
    fn take_out(
        &mut self,
        seq_no: u64,
        retired: &mut Vec<Batch>,
        Ghost(before): Ghost<Map<u64, OrderBookUpdate>>,
        Ghost(mark): Ghost<Seq<Batch>>,
    ) -> (taken: Option<OrderBookUpdate>)
        requires
            old(self).pending_updates@.submap_of(before),
            gained(mark, old(retired)@, before, old(self).pending_updates@),
        ensures
            final(self).order_book == old(self).order_book,
            final(self).pending_updates@ == old(self).pending_updates@.remove(seq_no),
            final(self).pending_updates@.submap_of(before),
            gained(mark, final(retired)@, before, final(self).pending_updates@),
            match taken {
                Some(update) => old(self).pending_updates@.contains_key(seq_no) && update == old(
                    self,
                ).pending_updates@[seq_no],
                None => !old(self).pending_updates@.contains_key(seq_no),
            },
    {
        let ghost current = self.pending_updates@;
        let ghost stood = retired@;
        let taken = self.pending_updates.remove(&seq_no);
        match &taken {
            Some(update) => {
                if update.updates.owned {
                    retired.push(update.updates.batch);
                }
            },
            None => {},
        }
        proof {
            let after = self.pending_updates@;
            assert(retired@.subrange(0, mark.len() as int) =~= mark) by {
                assert forall|i: int| 0 <= i < mark.len() implies retired@[i] == mark[i] by {
                    assert(stood.subrange(0, mark.len() as int)[i] == mark[i]);
                }
            }
            assert forall|i: int| mark.len() <= i < retired@.len() implies left_with(
                before,
                after,
                #[trigger] retired@[i],
            ) by {
                if i < stood.len() {
                    assert(retired@[i] == stood[i]);
                    assert(left_with(before, current, stood[i]));
                    let k = choose|k: u64|
                        #[trigger] before.contains_key(k) && !current.contains_key(k)
                            && before[k].updates.owned && before[k].updates.batch == stood[i];
                    assert(!after.contains_key(k));
                } else {
                    assert(current.contains_key(seq_no));
                    assert(current.dom().contains(seq_no));
                    assert(before.contains_key(seq_no) && before[seq_no] == current[seq_no]);
                }
            }
            assert forall|k: u64|
                #[trigger] before.contains_key(k) && !after.contains_key(k)
                    && before[k].updates.owned implies exists|i: int|
                mark.len() <= i < retired@.len() && #[trigger] retired@[i]
                    == before[k].updates.batch by {
                if current.contains_key(k) {
                    assert(k == seq_no);
                    assert(current.dom().contains(k));
                    assert(before[k] == current[k]);
                    assert(retired@[retired@.len() - 1] == before[k].updates.batch);
                } else {
                    let i = choose|i: int|
                        mark.len() <= i < stood.len() && #[trigger] stood[i]
                            == before[k].updates.batch;
                    assert(retired@[i] == stood[i]);
                }
            }
        }
        taken
    }

    /// Drops every waiting update. The batches of their live handles are
    /// added to `retired`.
    fn clear_pending(&mut self, retired: &mut Vec<Batch>)
        ensures
            final(self).order_book == old(self).order_book,
            final(self).pending_updates@ == Map::<u64, OrderBookUpdate>::empty(),
            gained(
                old(retired)@,
                final(retired)@,
                old(self).pending_updates@,
                Map::<u64, OrderBookUpdate>::empty(),
            ),
    {
        let ghost before = self.pending_updates@;
        let ghost mark = retired@;
        let values = self.pending_updates.values();
        let ghost listed = values.remaining().unref();
        let ghost mut seen: int = 0;
        proof {
            assert(listed.to_set() == before.values());
            assert(retired@.subrange(0, mark.len() as int) =~= mark);
        }
        for update in it: values
            invariant
                self == old(self),
                it.seq().unref() == listed,
                seen == it.index(),
                listed.to_set() == before.values(),
                mark.len() <= retired@.len(),
                retired@.subrange(0, mark.len() as int) == mark,
                forall|i: int|
                    mark.len() <= i < retired@.len() ==> left_with(
                        before,
                        Map::<u64, OrderBookUpdate>::empty(),
                        #[trigger] retired@[i],
                    ),
                forall|j: int|
                    0 <= j < seen && (#[trigger] listed[j]).updates.owned ==> exists|i: int|
                        mark.len() <= i < retired@.len() && #[trigger] retired@[i]
                            == listed[j].updates.batch,
        {
            let ghost stood = retired@;
            proof {
                assert(listed[seen] == *update);
                assert(listed.to_set().contains(*update));
                assert(before.values().contains(*update));
                let k = choose|k: u64| #[trigger] before.contains_key(k) && before[k] == *update;
                assert(before.contains_key(k));
            }
            if update.updates.owned {
                retired.push(update.updates.batch);
            }
            proof {
                assert(retired@.subrange(0, mark.len() as int) =~= mark) by {
                    assert forall|i: int| 0 <= i < mark.len() implies retired@[i] == mark[i] by {
                        assert(stood.subrange(0, mark.len() as int)[i] == mark[i]);
                    }
                }
                assert forall|i: int| mark.len() <= i < retired@.len() implies left_with(
                    before,
                    Map::<u64, OrderBookUpdate>::empty(),
                    #[trigger] retired@[i],
                ) by {
                    if i < stood.len() {
                        assert(retired@[i] == stood[i]);
                    }
                }
                assert forall|j: int|
                    0 <= j < seen + 1 && (#[trigger] listed[j]).updates.owned implies exists|
                    i: int,
                |
                    mark.len() <= i < retired@.len() && #[trigger] retired@[i]
                        == listed[j].updates.batch by {
                    if j < seen {
                        let i = choose|i: int|
                            mark.len() <= i < stood.len() && #[trigger] stood[i]
                                == listed[j].updates.batch;
                        assert(retired@[i] == stood[i]);
                    } else {
                        assert(retired@[retired@.len() - 1] == listed[j].updates.batch);
                    }
                }
                seen = seen + 1;
            }
        }
        proof {
            assert(seen == listed.len());
            assert forall|k: u64|
                #[trigger] before.contains_key(k) && before[k].updates.owned implies exists|i: int|
                mark.len() <= i < retired@.len() && #[trigger] retired@[i]
                    == before[k].updates.batch by {
                assert(before.values().contains(before[k]));
                assert(listed.to_set().contains(before[k]));
                let j = choose|j: int| 0 <= j < listed.len() && listed[j] == before[k];
                assert(listed[j].updates.owned);
            }
        }
        self.pending_updates.clear();
    }

    /// Catch-up, read from `deque`. The batches of the live handles of the
    /// updates taken out of the waiting updates are added to `retired`.
    fn try_apply_pending_updates(
        &mut self,
        deque: &BatchedDeque<UpdateLevel>,
        retired: &mut Vec<Batch>,
    )
        requires
            deque.state.wf(),
            pending_held(old(self).pending_updates@, deque.state@),
        ensures
            final(self).view(deque.state@) == catch_up(
                old(self).order_book@,
                pending_view(old(self).pending_updates@, deque.state@),
            ),
            final(self).pending_updates@.submap_of(old(self).pending_updates@),
            gained(
                old(retired)@,
                final(retired)@,
                old(self).pending_updates@,
                final(self).pending_updates@,
            ),
    {
        let ghost arena = deque.state@;
        let ghost before = self.pending_updates@;
        let ghost mark = retired@;
        let ghost goal = catch_up(self.order_book@, pending_view(self.pending_updates@, arena));
        proof {
            assert(retired@.subrange(0, mark.len() as int) =~= mark);
        }
        loop
            invariant
                arena == deque.state@,
                deque.state.wf(),
                before == old(self).pending_updates@,
                mark == old(retired)@,
                pending_held(before, arena),
                goal == catch_up(self.order_book@, pending_view(self.pending_updates@, arena)),
                self.pending_updates@.submap_of(before),
                gained(mark, retired@, before, self.pending_updates@),
            ensures
                goal == self.view(arena),
            decreases u64::MAX - self.order_book.seq_no,
        {
            if self.order_book.seq_no == u64::MAX {
                break ;
            }
            let next_seq_no = self.order_book.seq_no + 1;
            let ghost current = self.pending_updates@;
            match self.take_out(next_seq_no, retired, Ghost(before), Ghost(mark)) {
                Some(update) => {
                    proof {
                        assert(pending_view(self.pending_updates@, arena) =~= pending_view(
                            current,
                            arena,
                        ).remove(next_seq_no));
                        assert(current.dom().contains(next_seq_no));
                        assert(before.dom().contains(next_seq_no));
                        assert(before[next_seq_no] == current[next_seq_no]);
                    }
                    if self.order_book.apply_update(&update, deque).is_err() {
                        break ;
                    }
                },
                None => {
                    proof {
                        assert(self.pending_updates@ =~= current);
                    }
                    break ;
                },
            }
        }
    }
}

} // verus!
