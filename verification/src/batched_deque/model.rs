//! What an arena is, mathematically: its content, what a release does to
//! it, and what a handle reaches in it.
use crate::batched_deque::batched_deque::Batch;
use crate::batched_deque::batched_deque::BatchHeader;
use vstd::prelude::*;

verus! {

/// The mathematical content of an arena.
pub struct ArenaView<T> {
    /// Absolute index of the first entry still held.
    pub base: nat,
    /// The payloads still held, oldest first.
    pub entries: Seq<T>,
    /// The header of each entry still held.
    pub headers: Seq<Option<BatchHeader>>,
}

/// The headers from `from` on are cut into whole batches: each batch opens
/// with a header that gives its positive length and is followed by
/// headerless entries only.
pub open spec fn tiled(headers: Seq<Option<BatchHeader>>, from: int) -> bool
    decreases headers.len() - from,
{
    if from >= headers.len() {
        from == headers.len()
    } else {
        match headers[from] {
            Some(h) => h.len >= 1 && from + h.len <= headers.len() && (forall|j: int|
                from < j < from + h.len ==> headers[j] is None) && tiled(headers, from + h.len),
            None => false,
        }
    }
}

/// Number of entries covered by the run of retired batches that starts at
/// `from`.
pub open spec fn retired_run(headers: Seq<Option<BatchHeader>>, from: int) -> int
    decreases headers.len() - from,
{
    if 0 <= from < headers.len() {
        match headers[from] {
            Some(h) => if h.is_removed && h.len >= 1 && from + h.len <= headers.len() {
                h.len + retired_run(headers, from + h.len)
            } else {
                0
            },
            None => 0,
        }
    } else {
        0
    }
}

/// Headers of one freshly appended batch of `k` entries.
pub open spec fn fresh_headers(k: nat) -> Seq<Option<BatchHeader>> {
    Seq::new(
        k,
        |i: int|
            if i == 0 {
                Some(BatchHeader { len: k as usize, is_removed: false })
            } else {
                None
            },
    )
}

/// Index of the first `Err` among `items`, or their number if all are `Ok`.
pub open spec fn first_err<T, E>(items: Seq<Result<T, E>>) -> int
    decreases items.len(),
{
    if items.len() == 0 {
        0
    } else if items[0] is Err {
        0
    } else {
        1 + first_err(items.drop_first())
    }
}

/// The payloads of `items`, each of which is taken to be `Ok`.
pub open spec fn ok_values<T, E>(items: Seq<Result<T, E>>) -> Seq<T> {
    Seq::new(items.len(), |i: int| items[i]->Ok_0)
}

/// `first_err` lies within the items, has only `Ok` before it and, unless
/// it is their number, an `Err` at it.
pub proof fn lemma_first_err<T, E>(items: Seq<Result<T, E>>)
    ensures
        0 <= first_err(items) <= items.len(),
        forall|i: int| 0 <= i < first_err(items) ==> items[i] is Ok,
        first_err(items) < items.len() ==> items[first_err(items)] is Err,
    decreases items.len(),
{
    if items.len() > 0 && items[0] is Ok {
        let rest = items.drop_first();
        lemma_first_err(rest);
        assert forall|i: int| 0 <= i < first_err(items) implies items[i] is Ok by {
            if i > 0 {
                assert(items[i] == rest[i - 1]);
            }
        }
        if first_err(items) < items.len() {
            assert(items[first_err(items)] == rest[first_err(rest)]);
        }
    }
}

/// Cutting off the first `k` headers shifts a tiling by `k`.
pub proof fn lemma_tiled_shift(headers: Seq<Option<BatchHeader>>, k: int, from: int)
    requires
        0 <= k <= from,
        k <= headers.len(),
    ensures
        tiled(headers, from) == tiled(headers.subrange(k, headers.len() as int), from - k),
    decreases headers.len() - from,
{
    let rest = headers.subrange(k, headers.len() as int);
    if from < headers.len() {
        assert(rest[from - k] == headers[from]);
        match headers[from] {
            Some(h) => {
                if h.len >= 1 && from + h.len <= headers.len() {
                    lemma_tiled_shift(headers, k, from + h.len);
                    assert forall|j: int| from < j < from + h.len implies (headers[j] is None)
                        == (rest[j - k] is None) by {
                        assert(rest[j - k] == headers[j]);
                    }
                    if forall|j: int| from < j < from + h.len ==> headers[j] is None {
                        assert forall|j: int|
                            from - k < j < from - k + h.len implies rest[j] is None by {
                            assert(rest[j] == headers[j + k]);
                        }
                    }
                    if forall|j: int| from - k < j < from - k + h.len ==> rest[j] is None {
                        assert forall|j: int| from < j < from + h.len implies headers[j] is None by {
                            assert(rest[j - k] == headers[j]);
                        }
                    }
                }
            },
            None => {},
        }
    }
}

/// Cutting off the first `k` headers shifts a run of retired batches by `k`.
pub proof fn lemma_retired_run_shift(headers: Seq<Option<BatchHeader>>, k: int, from: int)
    requires
        0 <= k <= from,
        k <= headers.len(),
    ensures
        retired_run(headers, from) == retired_run(
            headers.subrange(k, headers.len() as int),
            from - k,
        ),
    decreases headers.len() - from,
{
    let rest = headers.subrange(k, headers.len() as int);
    if from < headers.len() {
        assert(rest[from - k] == headers[from]);
        match headers[from] {
            Some(h) => {
                if h.is_removed && h.len >= 1 && from + h.len <= headers.len() {
                    lemma_retired_run_shift(headers, k, from + h.len);
                }
            },
            None => {},
        }
    }
}

/// A run of retired batches never reaches past the end of the headers.
pub proof fn lemma_retired_run_bounds(headers: Seq<Option<BatchHeader>>, from: int)
    requires
        0 <= from <= headers.len(),
    ensures
        0 <= retired_run(headers, from) <= headers.len() - from,
    decreases headers.len() - from,
{
    if from < headers.len() {
        match headers[from] {
            Some(h) => {
                if h.is_removed && h.len >= 1 && from + h.len <= headers.len() {
                    lemma_retired_run_bounds(headers, from + h.len);
                }
            },
            None => {},
        }
    }
}

/// Rewriting the header that opens a batch, with the same length, keeps the
/// tiling.
pub proof fn lemma_tiled_update(
    headers: Seq<Option<BatchHeader>>,
    from: int,
    at: int,
    header: BatchHeader,
)
    requires
        0 <= from,
        0 <= at < headers.len(),
        tiled(headers, from),
        headers[at] is Some,
        headers[at]->Some_0.len == header.len,
    ensures
        tiled(headers.update(at, Some(header)), from),
    decreases headers.len() - from,
{
    let next = headers.update(at, Some(header));
    if from < headers.len() {
        let h = headers[from]->Some_0;
        lemma_tiled_update(headers, from + h.len, at, header);
        assert forall|j: int| from < j < from + h.len implies next[j] is None by {
            assert(headers[j] is None);
        }
    }
}

/// Headers appended behind a tiling, themselves one batch, extend the tiling.
pub proof fn lemma_tiled_append(headers: Seq<Option<BatchHeader>>, from: int, k: nat)
    requires
        0 <= from,
        tiled(headers, from),
        k <= usize::MAX,
    ensures
        tiled(headers + fresh_headers(k), from),
    decreases headers.len() - from,
{
    let all = headers + fresh_headers(k);
    if from < headers.len() {
        let h = headers[from]->Some_0;
        assert(all[from] == headers[from]);
        lemma_tiled_append(headers, from + h.len, k);
        assert forall|j: int| from < j < from + h.len implies all[j] is None by {
            assert(all[j] == headers[j]);
        }
    } else if k > 0 {
        assert(all[from] == fresh_headers(k)[0]);
        assert forall|j: int| from < j < from + k implies all[j] is None by {
            assert(all[j] == fresh_headers(k)[j - from]);
        }
        assert(tiled(all, from + k));
    } else {
        assert(all =~= headers);
    }
}

/// The arena after `batch` has been released from `arena`.
///
/// A batch that lies outside the arena, or whose header does not carry the
/// batch's length, changes nothing. Otherwise the batch is marked retired;
/// where it is the front batch, the whole run of retired batches at the front
/// leaves the arena and the base moves up by their entries.
pub open spec fn released<T>(arena: ArenaView<T>, batch: Batch) -> ArenaView<T> {
    let at = batch.start_index - arena.base;
    if 0 <= at < arena.headers.len() {
        match arena.headers[at] {
            Some(h) => if h.len == batch.len {
                let marked = arena.headers.update(
                    at,
                    Some(BatchHeader { len: h.len, is_removed: true }),
                );
                if at == 0 {
                    let gone = retired_run(marked, 0);
                    ArenaView {
                        base: (arena.base + gone) as nat,
                        entries: arena.entries.subrange(gone, arena.entries.len() as int),
                        headers: marked.subrange(gone, marked.len() as int),
                    }
                } else {
                    ArenaView { base: arena.base, entries: arena.entries, headers: marked }
                }
            } else {
                arena
            },
            None => arena,
        }
    } else {
        arena
    }
}

/// The arena after each of `batches` has been released from `arena`, in
/// order.
pub open spec fn released_all<T>(arena: ArenaView<T>, batches: Seq<Batch>) -> ArenaView<T>
    decreases batches.len(),
{
    if batches.len() == 0 {
        arena
    } else {
        released(released_all(arena, batches.drop_last()), batches.last())
    }
}

/// What holds of every arena between two operations.
pub open spec fn arena_wf<T>(arena: ArenaView<T>) -> bool {
    &&& arena.entries.len() == arena.headers.len()
    &&& arena.base + arena.entries.len() <= usize::MAX
    &&& tiled(arena.headers, 0)
    &&& retired_run(arena.headers, 0) == 0
}

/// The payload at `offset` within `batch`, where the batch has that many
/// entries and `arena` still holds the entry.
pub open spec fn entry_at<T>(arena: ArenaView<T>, batch: Batch, offset: int) -> Option<T> {
    if 0 <= offset < batch.len && arena.base <= batch.start_index + offset < arena.base
        + arena.entries.len() {
        Some(arena.entries[batch.start_index + offset - arena.base])
    } else {
        None
    }
}

/// The payloads at the first `upto` offsets of `batch` that `arena` still
/// holds, in order.
pub open spec fn visited<T>(arena: ArenaView<T>, batch: Batch, upto: int) -> Seq<T>
    decreases upto,
{
    if upto <= 0 {
        Seq::empty()
    } else {
        match entry_at(arena, batch, upto - 1) {
            Some(entry) => visited(arena, batch, upto - 1).push(entry),
            None => visited(arena, batch, upto - 1),
        }
    }
}

/// The payloads of `batch` that `arena` still holds, in order.
pub open spec fn batch_entries<T>(arena: ArenaView<T>, batch: Batch) -> Seq<T> {
    visited(arena, batch, batch.len as int)
}

/// `arena` holds every entry of `batch`. An empty batch has no entry to
/// hold.
pub open spec fn batch_held<T>(arena: ArenaView<T>, batch: Batch) -> bool {
    batch.len == 0 || (arena.base <= batch.start_index && batch.start_index + batch.len
        <= arena.base + arena.entries.len())
}

/// Of a batch that the arena holds, every entry is reached: the batch
/// reaches as many payloads as it has entries, in the order of the arena.
pub proof fn lemma_held_entries<T>(arena: ArenaView<T>, batch: Batch, upto: int)
    requires
        batch_held(arena, batch),
        0 <= upto <= batch.len,
    ensures
        visited(arena, batch, upto).len() == upto,
        forall|i: int|
            0 <= i < upto ==> (#[trigger] visited(arena, batch, upto)[i])
                == arena.entries[batch.start_index + i - arena.base],
    decreases upto,
{
    if upto > 0 {
        lemma_held_entries(arena, batch, upto - 1);
    }
}

/// `batch` is held by `arena` and not retired. An empty batch takes no space
/// and counts as live.
pub open spec fn batch_live<T>(arena: ArenaView<T>, batch: Batch) -> bool {
    batch.len == 0 || (arena.base <= batch.start_index && batch.start_index + batch.len
        <= arena.base + arena.entries.len() && arena.headers[batch.start_index - arena.base]
        == Some(BatchHeader { len: batch.len, is_removed: false }))
}

/// `other` is live in the arena `after` and reaches there what it reached in
/// the arena `before`.
pub open spec fn kept<T>(before: ArenaView<T>, after: ArenaView<T>, other: Batch) -> bool {
    batch_live(after, other) && batch_entries(after, other) == batch_entries(before, other)
}

/// A run of retired batches ends at or before any later batch that is not
/// retired.
pub proof fn lemma_run_stops_before(headers: Seq<Option<BatchHeader>>, from: int, at: int)
    requires
        0 <= from <= at < headers.len(),
        tiled(headers, from),
        headers[at] is Some,
        !headers[at]->Some_0.is_removed,
    ensures
        from + retired_run(headers, from) <= at,
    decreases headers.len() - from,
{
    if from < at {
        let h = headers[from]->Some_0;
        if h.is_removed {
            if at < from + h.len {
                assert(headers[at] is None);
            }
            lemma_run_stops_before(headers, from + h.len, at);
        }
    }
}

/// What a batch reaches is the same in two arenas that hold the same payload
/// at each of its absolute indices.
pub proof fn lemma_visited_same<T>(a: ArenaView<T>, b: ArenaView<T>, batch: Batch, upto: int)
    requires
        forall|offset: int|
            0 <= offset < upto ==> entry_at(a, batch, offset) == entry_at(b, batch, offset),
    ensures
        visited(a, batch, upto) == visited(b, batch, upto),
    decreases upto,
{
    if upto > 0 {
        lemma_visited_same(a, b, batch, upto - 1);
    }
}

/// Behind a run of retired batches stands no further retired batch.
pub proof fn lemma_retired_run_maximal(headers: Seq<Option<BatchHeader>>, from: int)
    requires
        0 <= from <= headers.len(),
    ensures
        retired_run(headers, from + retired_run(headers, from)) == 0,
    decreases headers.len() - from,
{
    if from < headers.len() {
        match headers[from] {
            Some(h) => {
                if h.is_removed && h.len >= 1 && from + h.len <= headers.len() {
                    lemma_retired_run_maximal(headers, from + h.len);
                }
            },
            None => {},
        }
    }
}

/// A tiling holds again behind a run of retired batches.
pub proof fn lemma_tiled_run(headers: Seq<Option<BatchHeader>>, from: int)
    requires
        0 <= from,
        tiled(headers, from),
    ensures
        tiled(headers, from + retired_run(headers, from)),
    decreases headers.len() - from,
{
    if from < headers.len() {
        let h = headers[from]->Some_0;
        if h.is_removed {
            lemma_tiled_run(headers, from + h.len);
        }
    }
}

} // verus!
