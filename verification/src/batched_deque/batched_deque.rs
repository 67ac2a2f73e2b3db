//! The batch arena and the handles on its batches.
use crate::batched_deque::laws::appended;
use crate::batched_deque::model::arena_wf;
use crate::batched_deque::model::ArenaView;
use crate::batched_deque::model::batch_entries;
use crate::batched_deque::model::batch_held;
use crate::batched_deque::model::lemma_held_entries;
use crate::batched_deque::model::entry_at;
use crate::batched_deque::model::first_err;
use crate::batched_deque::model::fresh_headers;
use crate::batched_deque::model::lemma_first_err;
use crate::batched_deque::model::lemma_retired_run_bounds;
use crate::batched_deque::model::lemma_retired_run_shift;
use crate::batched_deque::model::lemma_tiled_append;
use crate::batched_deque::model::lemma_tiled_shift;
use crate::batched_deque::model::lemma_tiled_update;
use crate::batched_deque::model::ok_values;
use crate::batched_deque::model::released;
use crate::batched_deque::model::released_all;
use crate::batched_deque::model::retired_run;
use crate::batched_deque::model::tiled;
use crate::generational_deque::generational_deque::buffer_capacity;
use std::collections::VecDeque;
use vstd::prelude::*;

verus! {

/// Bookkeeping stored with the first entry of a batch.
#[derive(Debug, Clone, Copy)]
pub struct BatchHeader {
    pub len: usize,
    pub is_removed: bool,
}

/// One arena entry: a payload, and a header where the entry opens a batch.
#[derive(Debug)]
pub struct Item<T> {
    pub data: T,
    pub batch_header: Option<BatchHeader>,
}

/// Position and length of one batch, in absolute arena coordinates.
#[derive(Debug, Clone, Copy)]
pub struct Batch {
    pub start_index: usize,
    pub len: usize,
}

/// `VecDeque::get_mut`, used to write the header of the entry at `index`:
/// that entry keeps its payload and gets `header`, every other entry stays as
/// it is.
#[verifier::external_body]
fn set_batch_header<T>(buffer: &mut VecDeque<Item<T>>, index: usize, header: BatchHeader)
    requires
        index < old(buffer)@.len(),
    ensures
        final(buffer)@.len() == old(buffer)@.len(),
        final(buffer)@[index as int].data == old(buffer)@[index as int].data,
        final(buffer)@[index as int].batch_header == Some(header),
        forall|j: int|
            0 <= j < old(buffer)@.len() && j != index ==> final(buffer)@[j] == old(buffer)@[j],
{
    if let Some(item) = buffer.get_mut(index) {
        item.batch_header = Some(header);
    }
}

/// The arena proper: entries in arrival order, grouped into batches, and the
/// absolute index of the first entry still held.
#[derive(Debug)]
pub struct BatchedDequeState<T> {
    buffer: VecDeque<Item<T>>,
    start_index: usize,
}

impl<T> View for BatchedDequeState<T> {
    type V = ArenaView<T>;

    closed spec fn view(&self) -> ArenaView<T> {
        ArenaView {
            base: self.start_index as nat,
            entries: Seq::new(self.buffer@.len(), |i: int| self.buffer@[i].data),
            headers: Seq::new(self.buffer@.len(), |i: int| self.buffer@[i].batch_header),
        }
    }
}

spec fn headers_of<T>(buffer: Seq<Item<T>>) -> Seq<Option<BatchHeader>> {
    Seq::new(buffer.len(), |i: int| buffer[i].batch_header)
}

spec fn payloads_of<T>(buffer: Seq<Item<T>>) -> Seq<T> {
    Seq::new(buffer.len(), |i: int| buffer[i].data)
}

proof fn lemma_parts_of_subrange<T>(buffer: Seq<Item<T>>, from: int)
    requires
        0 <= from <= buffer.len(),
    ensures
        headers_of(buffer.subrange(from, buffer.len() as int)) == headers_of(buffer).subrange(
            from,
            buffer.len() as int,
        ),
        payloads_of(buffer.subrange(from, buffer.len() as int)) == payloads_of(buffer).subrange(
            from,
            buffer.len() as int,
        ),
{
    assert(headers_of(buffer.subrange(from, buffer.len() as int)) =~= headers_of(buffer).subrange(
        from,
        buffer.len() as int,
    ));
    assert(payloads_of(buffer.subrange(from, buffer.len() as int)) =~= payloads_of(
        buffer,
    ).subrange(from, buffer.len() as int));
}

impl<T> BatchedDequeState<T> {
    /// The entries are cut into whole batches, the front batch is live, and
    /// every absolute index in use fits the machine word.
    pub open spec fn wf(&self) -> bool {
        arena_wf(self@)
    }

    pub fn new(capacity: usize) -> (state: Self)
        ensures
            state.wf(),
            state@.base == 0,
            state@.entries == Seq::<T>::empty(),
            state@.headers == Seq::<Option<BatchHeader>>::empty(),
    {
        let state = Self { buffer: VecDeque::with_capacity(capacity), start_index: 0 };
        assert(state@.entries =~= Seq::<T>::empty());
        assert(state@.headers =~= Seq::<Option<BatchHeader>>::empty());
        state
    }

    /// Number of entries held.
    pub fn len(&self) -> (n: usize)
        ensures
            n == self@.entries.len(),
    {
        self.buffer.len()
    }

    /// Absolute index of the first entry held.
    pub fn start_index(&self) -> (base: usize)
        ensures
            base == self@.base,
    {
        self.start_index
    }

    /// Whether the arena holds every entry of `batch`.
    pub fn holds(&self, batch: &Batch) -> (held: bool)
        requires
            self.wf(),
        ensures
            held == batch_held(self@, *batch),
    {
        batch.len == 0 || (batch.start_index >= self.start_index && batch.start_index
            - self.start_index <= self.buffer.len() && batch.len <= self.buffer.len() - (
        batch.start_index - self.start_index))
    }

    /// The absolute index that the next entry will get.
    pub fn end_index(&self) -> (end: usize)
        requires
            self.wf(),
        ensures
            end == self@.base + self@.entries.len(),
    {
        self.start_index + self.buffer.len()
    }

    /// Number of entries the arena can hold before it allocates again: as
    /// many as it holds, or more.
    pub fn capacity(&self) -> (capacity: usize)
        ensures
            capacity >= self@.entries.len(),
    {
        buffer_capacity(&self.buffer)
    }

    /// The header of the held entry at `position`, counted from the front.
    pub fn header(&self, position: usize) -> (header: Option<BatchHeader>)
        ensures
            header == if position < self@.headers.len() {
                self@.headers[position as int]
            } else {
                None
            },
    {
        if position < self.buffer.len() {
            self.buffer[position].batch_header
        } else {
            None
        }
    }

    /// Appends `items` as one batch.
    ///
    /// Where every item is `Ok`, the payloads are appended in order, the
    /// first of them carries the header of the new batch, and the batch is
    /// returned. At the first `Err` the arena is put back as it was and the
    /// error is returned.
    pub fn push_back_batch<E>(&mut self, items: Vec<Result<T, E>>) -> (result: Result<Batch, E>)
        requires
            old(self).wf(),
            old(self)@.base + old(self)@.entries.len() + items@.len() <= usize::MAX,
        ensures
            final(self).wf(),
            match result {
                Ok(batch) => {
                    &&& first_err(items@) == items@.len()
                    &&& batch.start_index == old(self)@.base + old(self)@.entries.len()
                    &&& batch.len == items@.len()
                    &&& final(self)@.base == old(self)@.base
                    &&& final(self)@.entries == old(self)@.entries + ok_values(items@)
                    &&& final(self)@.headers == old(self)@.headers + fresh_headers(items@.len())
                    &&& final(self)@ == appended(old(self)@, ok_values(items@))
                },
                Err(e) => {
                    &&& first_err(items@) < items@.len()
                    &&& e == items@[first_err(items@)]->Err_0
                    &&& final(self)@ == old(self)@
                },
            },
    {
        let batch_start = self.buffer.len();
        let mut batch_len: usize = 0;
        let ghost before = self.buffer@;
        let ghost all = items@;
        for item in it: items
            invariant
                it.seq() == all,
                all == items@,
                before == old(self).buffer@,
                old(self).wf(),
                batch_len == it.index(),
                batch_start == before.len(),
                self.start_index == old(self).start_index,
                self.buffer@.len() == before.len() + batch_len,
                forall|j: int| 0 <= j < before.len() ==> self.buffer@[j] == before[j],
                forall|j: int|
                    0 <= j < batch_len ==> all[j] is Ok && self.buffer@[before.len() + j] == (Item {
                        data: all[j]->Ok_0,
                        batch_header: None,
                    }),
                before.len() + all.len() <= usize::MAX,
        {
            match item {
                Ok(item) => {
                    self.buffer.push_back(Item { data: item, batch_header: None });
                    batch_len += 1;
                },
                Err(e) => {
                    self.buffer.truncate(batch_start);
                    proof {
                        lemma_first_err(all);
                        assert(self.buffer@ =~= before);
                        assert(self@.entries =~= old(self)@.entries);
                        assert(self@.headers =~= old(self)@.headers);
                    }
                    return Err(e);
                },
            }
        }
        let ghost pushed = self.buffer@;
        if batch_len > 0 {
            set_batch_header(
                &mut self.buffer,
                batch_start,
                BatchHeader { len: batch_len, is_removed: false },
            );
        }
        proof {
            let old_view = old(self)@;
            lemma_first_err(all);
            let fresh = old_view.headers + fresh_headers(all.len());
            assert(self@.entries =~= old_view.entries + ok_values(all));
            assert forall|j: int| 0 <= j < fresh.len() implies self@.headers[j] == fresh[j] by {
                if j >= before.len() {
                    let k = j - before.len();
                    assert(all[k] is Ok);
                    assert(pushed[before.len() + k].batch_header is None);
                    assert(fresh[j] == fresh_headers(all.len())[k]);
                } else {
                    assert(pushed[j] == before[j]);
                }
            }
            assert(self@.headers =~= fresh);
            lemma_tiled_append(old_view.headers, 0, all.len());
            if old_view.headers.len() > 0 {
                let h = old_view.headers[0]->Some_0;
                lemma_retired_run_bounds(old_view.headers, h.len as int);
                assert(self@.headers[0] == old_view.headers[0]);
            } else if all.len() > 0 {
                assert(self@.headers[0] == fresh_headers(all.len())[0]);
            }
        }
        Ok(Batch { start_index: batch_start + self.start_index, len: batch_len })
    }

    /// Marks `batch` retired and, where it is the front batch, drains the
    /// retired batches at the front. A batch that the arena does not hold, or
    /// whose length differs from the header at its start, is ignored.
    pub fn remove_batch(&mut self, batch: &Batch)
        requires
            old(self).wf(),
        ensures
            final(self).wf(),
            final(self)@ == released(old(self)@, *batch),
    {
        let deque_index = match self.convert_to_deque_index(batch.start_index) {
            Some(idx) => idx,
            None => {
                return ;
            },
        };
        let header = match self.buffer[deque_index].batch_header {
            Some(header) => header,
            None => {
                return ;
            },
        };
        if header.len != batch.len {
            return ;
        }
        let ghost before = self@;
        let ghost marked = before.headers.update(
            deque_index as int,
            Some(BatchHeader { len: header.len, is_removed: true }),
        );
        set_batch_header(
            &mut self.buffer,
            deque_index,
            BatchHeader { len: header.len, is_removed: true },
        );
        proof {
            assert(self@.headers =~= marked);
            assert(self@.entries =~= before.entries);
            lemma_tiled_update(
                before.headers,
                0,
                deque_index as int,
                BatchHeader { len: header.len, is_removed: true },
            );
        }
        if deque_index == 0 {
            self.cleanup_removed_batchs();
        } else {
            proof {
                let front = before.headers[0]->Some_0;
                lemma_retired_run_bounds(before.headers, front.len as int);
                assert(marked[0] == before.headers[0]);
            }
        }
    }

    /// Drains every retired batch at the front and moves the base up by the
    /// entries drained.
    fn cleanup_removed_batchs(&mut self)
        requires
            old(self)@.entries.len() == old(self)@.headers.len(),
            old(self)@.base + old(self)@.entries.len() <= usize::MAX,
            tiled(old(self)@.headers, 0),
        ensures
            final(self).wf(),
            final(self)@.base == old(self)@.base + retired_run(old(self)@.headers, 0),
            final(self)@.entries == old(self)@.entries.subrange(
                retired_run(old(self)@.headers, 0),
                old(self)@.entries.len() as int,
            ),
            final(self)@.headers == old(self)@.headers.subrange(
                retired_run(old(self)@.headers, 0),
                old(self)@.headers.len() as int,
            ),
    {
        let ghost start = self.buffer@;
        let ghost mut gone: int = 0;
        proof {
            assert(start.subrange(0, start.len() as int) =~= start);
        }
        loop
            invariant
                start == old(self).buffer@,
                0 <= gone <= start.len(),
                self.buffer@ == start.subrange(gone, start.len() as int),
                self.start_index == old(self).start_index + gone,
                old(self).start_index + start.len() <= usize::MAX,
                tiled(headers_of(self.buffer@), 0),
                retired_run(headers_of(start), 0) == gone + retired_run(
                    headers_of(self.buffer@),
                    0,
                ),
            ensures
                retired_run(headers_of(self.buffer@), 0) == 0,
            decreases self.buffer@.len(),
        {
            if self.buffer.len() == 0 {
                break ;
            }
            let batch_len = match self.buffer[0].batch_header {
                Some(header) => {
                    if !header.is_removed {
                        break ;
                    }
                    header.len
                },
                None => {
                    break ;
                },
            };
            let ghost current = self.buffer@;
            proof {
                assert(headers_of(current)[0] == current[0].batch_header);
                lemma_tiled_shift(headers_of(current), batch_len as int, batch_len as int);
                lemma_retired_run_shift(headers_of(current), batch_len as int, batch_len as int);
                lemma_parts_of_subrange(current, batch_len as int);
            }
            let mut drained: usize = 0;
            while drained < batch_len
                invariant
                    drained <= batch_len <= current.len(),
                    self.buffer@ == current.subrange(drained as int, current.len() as int),
                    self.start_index == old(self).start_index + gone,
                decreases batch_len - drained,
            {
                self.buffer.pop_front();
                drained += 1;
                proof {
                    assert(self.buffer@ =~= current.subrange(drained as int, current.len() as int));
                }
            }
            self.start_index += batch_len;
            proof {
                assert(self.buffer@ =~= start.subrange(
                    gone + batch_len,
                    start.len() as int,
                ));
                gone = gone + batch_len;
            }
        }
        proof {
            lemma_parts_of_subrange(start, gone);
            assert(self@.headers =~= headers_of(self.buffer@));
            assert(self@.entries =~= payloads_of(self.buffer@));
            assert(old(self)@.headers =~= headers_of(start));
            assert(old(self)@.entries =~= payloads_of(start));
        }
    }

    fn convert_to_deque_index(&self, index: usize) -> (position: Option<usize>)
        requires
            self.wf(),
        ensures
            position == if self@.base <= index < self@.base + self@.entries.len() {
                Some((index - self@.base) as usize)
            } else {
                None::<usize>
            },
    {
        if index >= self.start_index && index - self.start_index < self.buffer.len() {
            Some(index - self.start_index)
        } else {
            None
        }
    }

    /// The payload at the absolute index `index`, if the arena still holds it.
    pub fn get(&self, index: usize) -> (entry: Option<&T>)
        requires
            self.wf(),
        ensures
            entry == if self@.base <= index < self@.base + self@.entries.len() {
                Some(&self@.entries[index - self@.base])
            } else {
                None::<&T>
            },
    {
        match self.convert_to_deque_index(index) {
            Some(position) => Some(&self.buffer[position].data),
            None => None,
        }
    }
}

/// A call of `f` on `entry` may return `Ok`.
pub open spec fn accepts<T, E, F: FnMut(&T) -> Result<(), E>>(f: F, entry: T) -> bool {
    exists|outcome: Result<(), E>| outcome is Ok && call_ensures(f, (&entry,), outcome)
}

/// `error` is what a call of `f` on one of `entries` may return, and `f`
/// accepts every entry before that one.
pub open spec fn stopped_at<T, E, F: FnMut(&T) -> Result<(), E>>(
    f: F,
    entries: Seq<T>,
    error: Result<(), E>,
) -> bool {
    exists|j: int|
        #![trigger entries[j]]
        0 <= j < entries.len() && call_ensures(f, (&entries[j],), error) && forall|i: int|
            0 <= i < j ==> accepts(f, #[trigger] entries[i])
}

/// On each of `entries`, `f` returns nothing but `Ok`.
pub open spec fn always_accepts<T, E, F: FnMut(&T) -> Result<(), E>>(f: F, entries: Seq<T>) -> bool {
    forall|i: int, outcome: Result<(), E>|
        #![trigger call_ensures(f, (&entries[i],), outcome)]
        0 <= i < entries.len() && call_ensures(f, (&entries[i],), outcome) ==> outcome is Ok
}

/// A handle on one batch of an arena.
///
/// The handle names its batch by absolute indices and holds no reference to
/// the arena: the arena is handed to each operation. A handle is released
/// through [`BatchedDeque::release`]; one whose ownership was dropped is inert
/// and its release changes nothing.
#[derive(Debug)]
pub struct BatchGuard {
    pub batch: Batch,
    pub owned: bool,
}

impl BatchGuard {
    /// Makes the handle inert: its release will not retire the batch.
    pub fn drop_ownership(&mut self)
        ensures
            final(self).batch == old(self).batch,
            !final(self).owned,
    {
        self.owned = false;
    }

    /// Number of entries in the batch.
    pub fn len(&self) -> (n: usize)
        ensures
            n == self.batch.len,
    {
        self.batch.len
    }

    /// The payload at `offset` within the batch, if the batch has that many
    /// entries and `deque` still holds the entry.
    pub fn get<'a, T>(&self, deque: &'a BatchedDeque<T>, offset: usize) -> (entry: Option<&'a T>)
        requires
            deque.state.wf(),
        ensures
            entry is Some == entry_at(deque.state@, self.batch, offset as int) is Some,
            entry is Some ==> *entry->Some_0 == entry_at(
                deque.state@,
                self.batch,
                offset as int,
            )->Some_0,
    {
        if offset >= self.batch.len {
            return None;
        }
        match self.batch.start_index.checked_add(offset) {
            Some(index) => deque.state.get(index),
            None => None,
        }
    }

    /// Calls `f` on each payload of the batch, in order, and stops at the
    /// first error, which it returns.
    ///
    /// `deque` must hold every entry of the batch. `Ok` says that `f`
    /// accepted every payload. An `Err` is what `f` returned for some
    /// payload, after it had accepted all the payloads before that one. So
    /// `Ok` is owed where `f` can return nothing but `Ok` on the payloads of
    /// the batch.
    pub fn for_each<T, E, F: FnMut(&T) -> Result<(), E>>(
        &self,
        deque: &BatchedDeque<T>,
        mut f: F,
    ) -> (result: Result<(), E>)
        requires
            deque.state.wf(),
            batch_held(deque.state@, self.batch),
            forall|entry: &T| call_requires(f, (entry,)),
        ensures
            result is Ok ==> forall|i: int|
                0 <= i < batch_entries(deque.state@, self.batch).len() ==> accepts(
                    f,
                    #[trigger] batch_entries(deque.state@, self.batch)[i],
                ),
            result is Err ==> stopped_at(f, batch_entries(deque.state@, self.batch), result),
            always_accepts(f, batch_entries(deque.state@, self.batch)) ==> result is Ok,
    {
        let ghost arena = deque.state@;
        let ghost given = f;
        let ghost all = batch_entries(arena, self.batch);
        let mut failure: Option<E> = None;
        let mut i: usize = 0;
        proof {
            lemma_held_entries(arena, self.batch, self.batch.len as int);
        }
        while i < self.batch.len && failure.is_none()
            invariant
                i <= self.batch.len == all.len(),
                arena == deque.state@,
                all == batch_entries(arena, self.batch),
                deque.state.wf(),
                batch_held(arena, self.batch),
                forall|entry: &T| call_requires(f, (entry,)),
                f == given,
                forall|k: int| 0 <= k < i ==> accepts(given, #[trigger] all[k]),
                failure is Some ==> stopped_at(given, all, Err::<(), E>(failure->Some_0)),
            decreases self.batch.len - i + if failure is None { 1int } else { 0int },
        {
            proof {
                lemma_held_entries(arena, self.batch, self.batch.len as int);
            }
            match self.get(deque, i) {
                Some(item) => {
                    assert(*item == all[i as int]);
                    let outcome = f(item);
                    let ghost got = outcome;
                    match outcome {
                        Ok(()) => {
                            proof {
                                assert(got is Ok && call_ensures(given, (&all[i as int],), got));
                            }
                            i += 1;
                        },
                        Err(e) => {
                            proof {
                                assert(call_ensures(given, (&all[i as int],), got));
                                assert(got == Err::<(), E>(e));
                            }
                            failure = Some(e);
                        },
                    }
                },
                None => {
                    proof {
                        assert(false);
                    }
                },
            }
        }
        match failure {
            Some(e) => Err(e),
            None => Ok(()),
        }
    }
}

/// A batch arena: an append-only deque of payloads grouped into batches,
/// which gives up space when the batches at its front are retired.
#[derive(Debug)]
pub struct BatchedDeque<T> {
    pub state: BatchedDequeState<T>,
}

impl<T> BatchedDeque<T> {
    pub fn new(capacity: usize) -> (deque: Self)
        ensures
            deque.state.wf(),
            deque.state@.base == 0,
            deque.state@.entries == Seq::<T>::empty(),
            deque.state@.headers == Seq::<Option<BatchHeader>>::empty(),
    {
        Self { state: BatchedDequeState::new(capacity) }
    }

    /// Appends `items` as one batch and returns the handle on it; at the
    /// first `Err` among them the arena stays as it was and the error is
    /// returned.
    pub fn push_back_batch<E>(&mut self, items: Vec<Result<T, E>>) -> (result: Result<
        BatchGuard,
        E,
    >)
        requires
            old(self).state.wf(),
            old(self).state@.base + old(self).state@.entries.len() + items@.len() <= usize::MAX,
        ensures
            final(self).state.wf(),
            match result {
                Ok(guard) => {
                    &&& first_err(items@) == items@.len()
                    &&& guard.owned
                    &&& guard.batch.start_index == old(self).state@.base
                        + old(self).state@.entries.len()
                    &&& guard.batch.len == items@.len()
                    &&& final(self).state@.base == old(self).state@.base
                    &&& final(self).state@.entries == old(self).state@.entries + ok_values(
                        items@,
                    )
                    &&& final(self).state@.headers == old(self).state@.headers + fresh_headers(
                        items@.len(),
                    )
                    &&& final(self).state@ == appended(old(self).state@, ok_values(items@))
                    &&& batch_held(final(self).state@, guard.batch)
                },
                Err(e) => {
                    &&& first_err(items@) < items@.len()
                    &&& e == items@[first_err(items@)]->Err_0
                    &&& final(self).state@ == old(self).state@
                },
            },
    {
        match self.state.push_back_batch(items) {
            Ok(batch) => Ok(BatchGuard { batch, owned: true }),
            Err(e) => Err(e),
        }
    }

    /// Releases each of `batches`, in order.
    pub fn release_batches(&mut self, batches: &Vec<Batch>)
        requires
            old(self).state.wf(),
        ensures
            final(self).state.wf(),
            final(self).state@ == released_all(old(self).state@, batches@),
    {
        let mut i: usize = 0;
        proof {
            assert(batches@.take(0) =~= Seq::<Batch>::empty());
        }
        while i < batches.len()
            invariant
                i <= batches@.len(),
                self.state.wf(),
                self.state@ == released_all(old(self).state@, batches@.take(i as int)),
            decreases batches@.len() - i,
        {
            let batch = batches[i];
            self.state.remove_batch(&batch);
            proof {
                assert(batches@.take(i + 1).drop_last() =~= batches@.take(i as int));
            }
            i += 1;
        }
        proof {
            assert(batches@.take(batches@.len() as int) =~= batches@);
        }
    }

    /// Gives the batch of `guard` back: the batch is retired, and drained
    /// with the retired batches behind it where it is the front batch. An
    /// inert handle changes nothing.
    pub fn release(&mut self, guard: BatchGuard)
        requires
            old(self).state.wf(),
        ensures
            final(self).state.wf(),
            final(self).state@ == if guard.owned {
                released(old(self).state@, guard.batch)
            } else {
                old(self).state@
            },
    {
        if guard.owned {
            self.state.remove_batch(&guard.batch);
        }
    }
}

} // verus!
