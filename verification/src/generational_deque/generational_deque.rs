//! A deque that expires its items by generation.
use std::collections::VecDeque;
use vstd::prelude::*;

verus! {

/// What the deque asks of its items: each belongs to a generation.
///
/// The deque asks an item for its generation when it decides whether the item
/// has expired. It takes the answer to depend on the item alone:
/// `generation_of` is the name of that answer, and stands for whatever
/// `generation` returns.
pub trait Item {
    /// The generation of the item.
    spec fn generation_of(&self) -> usize;

    /// The generation of the item.
    fn generation(&self) -> (g: usize)
        ensures
            g == self.generation_of(),
    ;
}

/// Number of items at the front of `items` that have expired once
/// `generation` is released: those before the first item of a later
/// generation.
pub open spec fn expired_prefix<T: Item>(items: Seq<T>, generation: usize) -> nat
    decreases items.len(),
{
    if items.len() > 0 && items[0].generation_of() <= generation {
        1 + expired_prefix(items.drop_first(), generation)
    } else {
        0
    }
}

/// No more items have expired than there are.
pub proof fn lemma_expired_prefix_bound<T: Item>(items: Seq<T>, generation: usize)
    ensures
        expired_prefix(items, generation) <= items.len(),
    decreases items.len(),
{
    if items.len() > 0 && items[0].generation_of() <= generation {
        lemma_expired_prefix_bound(items.drop_first(), generation);
    }
}

/// Whether an item of generation `item_generation` has expired once
/// `generation` is released.
pub fn is_expired(item_generation: usize, generation: usize) -> (expired: bool)
    ensures
        expired == (item_generation <= generation),
{
    item_generation <= generation
}

/// `VecDeque::capacity`: the number of items the buffer can hold without
/// allocating again. That number is the allocator's to choose; all that is
/// claimed of it is that the items which the buffer holds now are within it.
#[verifier::external_body]
pub(crate) fn buffer_capacity<T>(buffer: &VecDeque<T>) -> (capacity: usize)
    ensures
        capacity >= buffer@.len(),
{
    buffer.capacity()
}

/// A deque whose items keep their absolute index while items leave at the
/// front.
#[derive(Debug)]
pub struct GenerationalDeque<T: Item> {
    buffer: VecDeque<T>,
    start_index: usize,
}

impl<T: Item> GenerationalDeque<T> {
    /// The items held, oldest first.
    pub closed spec fn items(&self) -> Seq<T> {
        self.buffer@
    }

    /// Absolute index of the first item held.
    pub closed spec fn base(&self) -> nat {
        self.start_index as nat
    }

    /// Every absolute index in use fits the machine word.
    pub open spec fn wf(&self) -> bool {
        self.base() + self.items().len() <= usize::MAX
    }

    pub fn new(capacity: usize) -> (deque: Self)
        ensures
            deque.wf(),
            deque.base() == 0,
            deque.items() == Seq::<T>::empty(),
    {
        Self { buffer: VecDeque::with_capacity(capacity), start_index: 0 }
    }

    pub fn push_back(&mut self, item: T)
        requires
            old(self).wf(),
            old(self).base() + old(self).items().len() < usize::MAX,
        ensures
            final(self).wf(),
            final(self).base() == old(self).base(),
            final(self).items() == old(self).items().push(item),
    {
        self.buffer.push_back(item);
    }

    /// The absolute index that the next item will get.
    pub fn end_index(&self) -> (end: usize)
        requires
            self.wf(),
        ensures
            end == self.base() + self.items().len(),
    {
        self.start_index + self.buffer.len()
    }

    /// The item at the absolute index `index`, if the deque holds it.
    pub fn get(&self, index: usize) -> (item: Option<&T>)
        requires
            self.wf(),
        ensures
            item == if self.base() <= index < self.base() + self.items().len() {
                Some(&self.items()[index - self.base()])
            } else {
                None::<&T>
            },
    {
        if index >= self.start_index && index < self.end_index() {
            Some(&self.buffer[index - self.start_index])
        } else {
            None
        }
    }

    /// Number of items the deque can hold before it allocates again: as
    /// many as it holds, or more.
    pub fn capacity(&self) -> (capacity: usize)
        ensures
            capacity >= self.items().len(),
    {
        buffer_capacity(&self.buffer)
    }

    /// Number of items held.
    pub fn len(&self) -> (n: usize)
        ensures
            n == self.items().len(),
    {
        self.buffer.len()
    }

    /// Absolute index of the first item held.
    pub fn start_index(&self) -> (base: usize)
        ensures
            base == self.base(),
    {
        self.start_index
    }

    /// Drops from the front every item whose generation is at most
    /// `generation`, up to the first item of a later generation.
    ///
    /// The base moves up by the number of items dropped, so that every item
    /// that stays keeps its absolute index.
    pub fn remove_expired_generations(&mut self, generation: usize)
        requires
            old(self).wf(),
        ensures
            final(self).wf(),
            final(self).base() == old(self).base() + expired_prefix(
                old(self).items(),
                generation,
            ),
            final(self).items() == old(self).items().subrange(
                expired_prefix(old(self).items(), generation) as int,
                old(self).items().len() as int,
            ),
    {
        let ghost start = self.buffer@;
        let ghost mut gone: nat = 0;
        proof {
            assert(start.subrange(0, start.len() as int) =~= start);
        }
        loop
            invariant
                start == old(self).buffer@,
                gone <= start.len(),
                self.buffer@ == start.subrange(gone as int, start.len() as int),
                self.start_index == old(self).start_index + gone,
                old(self).start_index + start.len() <= usize::MAX,
                expired_prefix(start, generation) == gone + expired_prefix(
                    self.buffer@,
                    generation,
                ),
            ensures
                expired_prefix(self.buffer@, generation) == 0,
            decreases self.buffer@.len(),
        {
            if self.buffer.len() == 0 {
                break ;
            }
            if !is_expired(self.buffer[0].generation(), generation) {
                break ;
            }
            let ghost current = self.buffer@;
            self.buffer.pop_front();
            self.start_index += 1;
            proof {
                assert(self.buffer@ =~= current.drop_first());
                assert(self.buffer@ =~= start.subrange(gone as int + 1, start.len() as int));
                gone = gone + 1;
            }
        }
    }
}

} // verus!
