//! The books of all securities.
use crate::batched_deque::batched_deque::Batch;
use crate::batched_deque::batched_deque::BatchedDeque;
use crate::batched_deque::laws::lemma_released_all;
use crate::batched_deque::model::ArenaView;
use crate::batched_deque::model::batch_held;
use crate::batched_deque::model::released_all;
use crate::order_book::buffered_order_book::BufferedOrderBook;
use crate::order_book::buffered_order_book::handled_snapshot;
use crate::order_book::buffered_order_book::handled_update;
use crate::order_book::buffered_order_book::pending_held;
use crate::order_book::buffered_order_book::released_exactly;
use crate::order_book::errors::Errors;
use crate::order_book::order_book::OrderBook;
use crate::order_book::model::rebuilt;
use crate::order_book::model::reports;
use crate::order_book::model::sides_rejection;
use crate::order_book::render::book_text;
use crate::parsing::order_book_snapshot::OrderBookSnapshot;
use crate::parsing::order_book_update::Level as UpdateLevel;
use crate::parsing::order_book_update::OrderBookUpdate;
use std::collections::BTreeMap;
use vstd::prelude::*;
use vstd::std_specs::cmp::OrdSpec;
use vstd::std_specs::iter::IteratorSpec;

verus! {

broadcast use {vstd::std_specs::btree::group_btree_axioms, vstd::laws_cmp::group_laws_cmp};

/// The buffered books of all securities, by security id.
pub struct Manager {
    pub buffered_order_books: BTreeMap<u64, BufferedOrderBook>,
}

impl Default for Manager {
    fn default() -> (manager: Self)
        ensures
            manager.buffered_order_books@ == Map::<u64, BufferedOrderBook>::empty(),
    {
        Manager { buffered_order_books: BTreeMap::new() }
    }
}

/// The book of the update's security, if there is one, is ready for
/// `update`: `arena` holds every entry of the update and of the updates that
/// wait at that book.
pub open spec fn ready_for_update(
    books: Map<u64, BufferedOrderBook>,
    update: OrderBookUpdate,
    arena: ArenaView<UpdateLevel>,
) -> bool {
    match books.get(update.security_id) {
        None => true,
        Some(book) => batch_held(arena, update.updates.batch) && pending_held(
            book.pending_updates@,
            arena,
        ),
    }
}

/// The book of `security_id`, if there is one, is ready for a snapshot:
/// `arena` holds every entry of the updates that wait at that book.
pub open spec fn ready_for_snapshot(
    books: Map<u64, BufferedOrderBook>,
    security_id: u64,
    arena: ArenaView<UpdateLevel>,
) -> bool {
    match books.get(security_id) {
        None => true,
        Some(book) => pending_held(book.pending_updates@, arena),
    }
}

/// The batches that are released when `update` finds no book: its own, if
/// its handle is live.
pub open spec fn own_batch(update: OrderBookUpdate) -> Set<Batch> {
    Set::new(|batch: Batch| update.updates.owned && batch == update.updates.batch)
}

/// Ids that a map of books hands out in its order go up from each to the
/// next.
proof fn lemma_ids_go_up(ids: Seq<u64>)
    requires
        vstd::std_specs::btree::increasing_seq(ids),
    ensures
        forall|i: int, j: int| 0 <= i < j < ids.len() ==> (#[trigger] ids[i]) < (#[trigger] ids[j]),
{
    vstd::std_specs::btree::axiom_increasing_seq_meaning::<u64>(ids);
    assert forall|i: int, j: int| 0 <= i < j < ids.len() implies (#[trigger] ids[i]) < (
    #[trigger] ids[j]) by {
        assert(ids[i].cmp_spec(&ids[j]) is Less);
    }
}

/// `ids` lists the securities of `books` from the lowest id up: each once.
pub open spec fn lists_ascending(books: Map<u64, BufferedOrderBook>, ids: Seq<u64>) -> bool {
    &&& forall|i: int, j: int| 0 <= i < j < ids.len() ==> ids[i] < ids[j]
    &&& forall|i: int| 0 <= i < ids.len() ==> books.contains_key(#[trigger] ids[i])
    &&& forall|id: u64| #[trigger]
        books.contains_key(id) ==> exists|i: int| 0 <= i < ids.len() && ids[i] == id
}

/// The texts of the books of `ids`, in order.
pub open spec fn books_text(books: Map<u64, BufferedOrderBook>, ids: Seq<u64>) -> Seq<char>
    decreases ids.len(),
{
    if ids.len() == 0 {
        Seq::empty()
    } else {
        books_text(books, ids.drop_last()) + book_text(books[ids.last()].order_book@)
    }
}

/// Two listings of the securities of the same books from the lowest id up
/// are the same.
pub proof fn lemma_ids_unique(books: Map<u64, BufferedOrderBook>, a: Seq<u64>, b: Seq<u64>)
    requires
        lists_ascending(books, a),
        lists_ascending(books, b),
    ensures
        a == b,
    decreases a.len(),
{
    if a.len() == 0 {
        if b.len() > 0 {
            assert(books.contains_key(b[0]));
        }
        assert(a =~= b);
    } else {
        assert(books.contains_key(a[0]));
        let j = choose|j: int| 0 <= j < b.len() && b[j] == a[0];
        assert(books.contains_key(b[0]));
        let i = choose|i: int| 0 <= i < a.len() && a[i] == b[0];
        assert(a[0] == b[0]);
        let rest = books.remove(a[0]);
        let ta = a.drop_first();
        let tb = b.drop_first();
        assert forall|id: u64| #[trigger] rest.contains_key(id) implies (exists|i: int|
            0 <= i < ta.len() && ta[i] == id) && (exists|i: int| 0 <= i < tb.len() && tb[i] == id) by {
            let ia = choose|i: int| 0 <= i < a.len() && a[i] == id;
            assert(ta[ia - 1] == a[ia]);
            let ib = choose|i: int| 0 <= i < b.len() && b[i] == id;
            assert(tb[ib - 1] == b[ib]);
        }
        assert forall|i: int| 0 <= i < ta.len() implies rest.contains_key(#[trigger] ta[i]) by {
            assert(ta[i] == a[i + 1]);
            assert(a[0] < a[i + 1]);
        }
        assert forall|i: int| 0 <= i < tb.len() implies rest.contains_key(#[trigger] tb[i]) by {
            assert(tb[i] == b[i + 1]);
            assert(b[0] < b[i + 1]);
        }
        assert forall|i: int, j: int| 0 <= i < j < ta.len() implies ta[i] < ta[j] by {
            assert(ta[i] == a[i + 1] && ta[j] == a[j + 1]);
        }
        assert forall|i: int, j: int| 0 <= i < j < tb.len() implies tb[i] < tb[j] by {
            assert(tb[i] == b[i + 1] && tb[j] == b[j + 1]);
        }
        lemma_ids_unique(rest, ta, tb);
        assert(a =~= seq![a[0]] + ta);
        assert(b =~= seq![b[0]] + tb);
    }
}

/// The securities of `books`, from the lowest id up.
pub open spec fn ascending_ids(books: Map<u64, BufferedOrderBook>) -> Seq<u64> {
    choose|ids: Seq<u64>| lists_ascending(books, ids)
}

/// The texts of all `books`, one after the other, from the lowest security
/// id up.
pub open spec fn manager_text(books: Map<u64, BufferedOrderBook>) -> Seq<char> {
    books_text(books, ascending_ids(books))
}

impl Manager {
    /// The books as text, one after the other, from the lowest security id
    /// up.
    pub fn to_text(&self) -> (text: String)
        ensures
            text@ == manager_text(self.buffered_order_books@),
    {
        let mut text = String::new();
        let iter = self.buffered_order_books.iter();
        let ghost books = self.buffered_order_books@;
        let ghost listed = iter.remaining();
        let ghost ids = listed.map_values(|kv: (&u64, &BufferedOrderBook)| *kv.0);
        proof {
            assert(vstd::std_specs::btree::increasing_seq(ids));
            lemma_ids_go_up(ids);
            assert forall|i: int| 0 <= i < ids.len() implies books.contains_key(
                #[trigger] ids[i],
            ) && books[ids[i]] == *listed[i].1 by {
                assert(books.contains_key(*listed[i].0));
            }
            assert forall|id: u64| #[trigger] books.contains_key(id) implies exists|i: int|
                0 <= i < ids.len() && ids[i] == id by {
                assert(listed.contains((&id, &books[id])));
                let i = choose|i: int| 0 <= i < listed.len() && listed[i] == (&id, &books[id]);
                assert(ids[i] == id);
            }
            assert(ids.take(0) =~= Seq::<u64>::empty());
        }
        for entry in it: iter
            invariant
                it.seq() == listed,
                ids == listed.map_values(|kv: (&u64, &BufferedOrderBook)| *kv.0),
                forall|i: int|
                    0 <= i < ids.len() ==> books.contains_key(#[trigger] ids[i]) && books[ids[i]]
                        == *listed[i].1,
                text@ == books_text(books, ids.take(it.index())),
        {
            let ghost at = it.index();
            let book = entry.1.to_text();
            text.append(book.as_str());
            proof {
                assert(ids.take(at + 1).drop_last() =~= ids.take(at));
                assert(ids.take(at + 1).last() == ids[at]);
                assert(books[ids[at]] == *listed[at].1);
            }
        }
        proof {
            assert(ids.take(ids.len() as int) =~= ids);
            assert(lists_ascending(books, ids));
            lemma_ids_unique(books, ids, ascending_ids(books));
        }
        text
    }

    /// Number of books.
    pub fn len(&self) -> (n: usize)
        ensures
            n == self.buffered_order_books@.len(),
    {
        self.buffered_order_books.len()
    }

    /// Whether a book exists for `security_id`.
    pub fn contains(&self, security_id: u64) -> (exists: bool)
        ensures
            exists == self.buffered_order_books@.contains_key(security_id),
    {
        self.buffered_order_books.contains_key(&security_id)
    }

    /// Whether the book of `security_id`, if there is one, is ready for a
    /// record: `deque` holds every entry of the updates that wait at it.
    pub fn holds_pending(&self, security_id: u64, deque: &BatchedDeque<UpdateLevel>) -> (held:
        bool)
        requires
            deque.state.wf(),
        ensures
            held == ready_for_snapshot(self.buffered_order_books@, security_id, deque.state@),
    {
        match self.buffered_order_books.get(&security_id) {
            Some(book) => book.holds_pending(deque),
            None => true,
        }
    }

    /// Hands `update` to the book of its security, its changes read from
    /// `deque`, the arena of that security. Where the security has a book,
    /// the arena must hold every entry of the update and of the updates that
    /// wait at that book.
    ///
    /// Where no book exists for the security, the update is refused with
    /// `OrderBookNotFound`, nothing changes but that its handle is released.
    /// Otherwise the buffered book of the security deals with the update; no
    /// other book changes.
    pub fn apply_update(
        &mut self,
        update: OrderBookUpdate,
        deque: &mut BatchedDeque<UpdateLevel>,
    ) -> (result: Result<(), Errors>)
        requires
            old(deque).state.wf(),
            ready_for_update(old(self).buffered_order_books@, update, old(deque).state@),
        ensures
            final(deque).state.wf(),
            final(deque).state@.base + final(deque).state@.entries.len() == old(deque).state@.base
                + old(deque).state@.entries.len(),
            final(self).buffered_order_books@.dom() == old(self).buffered_order_books@.dom(),
            forall|id: u64|
                id != update.security_id && old(self).buffered_order_books@.contains_key(id)
                    ==> final(self).buffered_order_books@[id] == old(self).buffered_order_books@[id],
            match old(self).buffered_order_books@.get(update.security_id) {
                None => {
                    &&& result is Err && result->Err_0 is OrderBookNotFound
                    &&& final(self).buffered_order_books@ == old(self).buffered_order_books@
                    &&& released_exactly(
                        old(deque).state@,
                        final(deque).state@,
                        own_batch(update),
                    )
                },
                Some(book) => handled_update(
                    book,
                    final(self).buffered_order_books@[update.security_id],
                    update,
                    result,
                    old(deque).state@,
                    final(deque).state@,
                ),
            },
    {
        let security_id = update.security_id;
        let ghost books = self.buffered_order_books@;
        match self.buffered_order_books.remove(&security_id) {
            Some(book) => {
                let mut book = book;
                let result = book.apply_update(update, deque);
                self.buffered_order_books.insert(security_id, book);
                proof {
                    assert(self.buffered_order_books@.dom() =~= books.dom());
                }
                result
            },
            None => {
                let mut retired: Vec<Batch> = Vec::new();
                if update.updates.owned {
                    retired.push(update.updates.batch);
                }
                let ghost arena = deque.state@;
                proof {
                    if update.updates.owned {
                        assert(retired@[0] == update.updates.batch);
                    }
                    assert(retired@.to_set() =~= own_batch(update));
                }
                deque.release_batches(&retired);
                proof {
                    lemma_released_all(arena, retired@, Batch { start_index: 0, len: 0 });
                    assert(deque.state@ == released_all(arena, retired@));
                    assert(self.buffered_order_books@ =~= books);
                }
                Err(Errors::OrderBookNotFound)
            },
        }
    }

    /// Hands `snapshot` to the book of its security. Where the security has
    /// a book, `deque`, the arena of that security, must hold every entry of
    /// the updates that wait at that book.
    ///
    /// Where no book exists for the security, one is made of the snapshot,
    /// with no update waiting, unless the snapshot's levels are refused.
    /// Otherwise the buffered book of the security deals with the snapshot.
    /// No other book changes.
    pub fn apply_snapshot(
        &mut self,
        snapshot: &OrderBookSnapshot,
        deque: &mut BatchedDeque<UpdateLevel>,
    ) -> (result: Result<(), Errors>)
        requires
            old(deque).state.wf(),
            ready_for_snapshot(
                old(self).buffered_order_books@,
                snapshot.security_id,
                old(deque).state@,
            ),
        ensures
            final(deque).state.wf(),
            final(deque).state@.base + final(deque).state@.entries.len() == old(deque).state@.base
                + old(deque).state@.entries.len(),
            forall|id: u64|
                id != snapshot.security_id ==> final(self).buffered_order_books@.contains_key(id)
                    == old(self).buffered_order_books@.contains_key(id),
            forall|id: u64|
                id != snapshot.security_id && old(self).buffered_order_books@.contains_key(id)
                    ==> final(self).buffered_order_books@[id] == old(self).buffered_order_books@[id],
            match old(self).buffered_order_books@.get(snapshot.security_id) {
                None => match sides_rejection(*snapshot) {
                    None => {
                        &&& result is Ok
                        &&& final(self).buffered_order_books@.contains_key(snapshot.security_id)
                        &&& final(self).buffered_order_books@[snapshot.security_id].order_book@
                            == rebuilt(*snapshot)
                        &&& final(self).buffered_order_books@[snapshot.security_id].pending_updates@
                            == Map::<u64, OrderBookUpdate>::empty()
                        &&& final(deque).state@ == old(deque).state@
                    },
                    Some(rejection) => {
                        &&& result is Err
                        &&& reports(
                            result->Err_0,
                            rejection,
                            snapshot.security_id,
                            snapshot.seq_no,
                        )
                        &&& final(self).buffered_order_books@ == old(self).buffered_order_books@
                        &&& final(deque).state@ == old(deque).state@
                    },
                },
                Some(book) => final(self).buffered_order_books@.contains_key(
                    snapshot.security_id,
                ) && handled_snapshot(
                    book,
                    final(self).buffered_order_books@[snapshot.security_id],
                    *snapshot,
                    result,
                    old(deque).state@,
                    final(deque).state@,
                ),
            },
    {
        let security_id = snapshot.security_id;
        let ghost books = self.buffered_order_books@;
        match self.buffered_order_books.remove(&security_id) {
            Some(book) => {
                let mut book = book;
                let result = book.apply_snapshot(snapshot, deque);
                self.buffered_order_books.insert(security_id, book);
                result
            },
            None => {
                proof {
                    assert(self.buffered_order_books@ =~= books);
                }
                match OrderBook::new(snapshot) {
                    Ok(order_book) => {
                        let buffered_order_book = BufferedOrderBook::new(order_book);
                        self.buffered_order_books.insert(security_id, buffered_order_book);
                        Ok(())
                    },
                    Err(e) => Err(e),
                }
            },
        }
    }
}

} // verus!
