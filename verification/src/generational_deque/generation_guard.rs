//! Handles on runs of items of a generational deque.
use crate::batched_deque::batched_deque::accepts;
use crate::batched_deque::batched_deque::always_accepts;
use crate::batched_deque::batched_deque::stopped_at;
use crate::generational_deque::generational_deque::expired_prefix;
use crate::generational_deque::generational_deque::GenerationalDeque;
use crate::generational_deque::generational_deque::Item;
use vstd::prelude::*;

verus! {

/// A handle on a run of items of a [`GenerationalDeque`], tagged with the
/// generation that its release expires.
///
/// The handle holds no reference to the deque: the deque is handed to each
/// operation. A handle whose ownership was dropped is inert: it visits
/// nothing and its release changes nothing.
#[derive(Debug)]
pub struct GenerationGuard {
    pub owned: bool,
    pub start_index: usize,
    pub count: usize,
    pub generation: usize,
}

/// The item at `offset` within the run of `guard`, where the handle is
/// live, the run has that many items, and a deque of the items `items` from
/// the absolute index `base` on holds the item.
pub open spec fn item_at<T>(items: Seq<T>, base: nat, guard: GenerationGuard, offset: int) -> Option<
    T,
> {
    if guard.owned && 0 <= offset < guard.count && base <= guard.start_index + offset < base
        + items.len() {
        Some(items[guard.start_index + offset - base])
    } else {
        None
    }
}

/// The items at the first `upto` offsets of the run of `guard` that a deque
/// of the items `items` from `base` on holds, in order.
pub open spec fn reached<T>(items: Seq<T>, base: nat, guard: GenerationGuard, upto: int) -> Seq<T>
    decreases upto,
{
    if upto <= 0 {
        Seq::empty()
    } else {
        match item_at(items, base, guard, upto - 1) {
            Some(item) => reached(items, base, guard, upto - 1).push(item),
            None => reached(items, base, guard, upto - 1),
        }
    }
}

/// What the handle reaches at its first offsets is the beginning of all that
/// it reaches.
pub proof fn lemma_reached_grows<T>(
    items: Seq<T>,
    base: nat,
    guard: GenerationGuard,
    seen: int,
    upto: int,
)
    requires
        0 <= seen <= upto,
    ensures
        reached(items, base, guard, seen).len() <= reached(items, base, guard, upto).len(),
        reached(items, base, guard, upto).subrange(
            0,
            reached(items, base, guard, seen).len() as int,
        ) == reached(items, base, guard, seen),
    decreases upto - seen,
{
    let part = reached(items, base, guard, seen);
    if seen < upto {
        lemma_reached_grows(items, base, guard, seen, upto - 1);
        let before = reached(items, base, guard, upto - 1);
        assert(reached(items, base, guard, upto).subrange(0, part.len() as int)
            =~= before.subrange(0, part.len() as int));
    } else {
        assert(part.subrange(0, part.len() as int) =~= part);
    }
}

impl GenerationGuard {
    pub fn new(start_index: usize, count: usize, generation: usize) -> (guard: Self)
        ensures
            guard.owned,
            guard.start_index == start_index,
            guard.count == count,
            guard.generation == generation,
    {
        Self { owned: true, start_index, count, generation }
    }

    /// Makes the handle inert.
    pub fn drop_ownership(&mut self)
        ensures
            !final(self).owned,
            final(self).start_index == old(self).start_index,
            final(self).count == old(self).count,
            final(self).generation == old(self).generation,
    {
        self.owned = false;
    }

    /// The item at `offset` within the run, if the handle is live, the run
    /// has that many items and `deque` still holds the item.
    pub fn get<'a, T: Item>(&self, deque: &'a GenerationalDeque<T>, offset: usize) -> (item:
        Option<&'a T>)
        requires
            deque.wf(),
        ensures
            item is Some == item_at(deque.items(), deque.base(), *self, offset as int) is Some,
            item is Some ==> *item->Some_0 == item_at(
                deque.items(),
                deque.base(),
                *self,
                offset as int,
            )->Some_0,
    {
        if !self.owned || offset >= self.count {
            return None;
        }
        match self.start_index.checked_add(offset) {
            Some(index) => deque.get(index),
            None => None,
        }
    }

    /// Calls `f` on each item of the run that `deque` still holds, in order,
    /// and stops at the first error, which it returns. An inert handle visits
    /// nothing.
    ///
    /// `Ok` says that `f` accepted every item reached. An `Err` is what `f`
    /// returned for some item reached, after it had accepted all the items
    /// before that one. So `Ok` is owed where `f` can return nothing but `Ok`
    /// on the items reached.
    pub fn for_each<T: Item, E, F: FnMut(&T) -> Result<(), E>>(
        &self,
        deque: &GenerationalDeque<T>,
        mut f: F,
    ) -> (result: Result<(), E>)
        requires
            deque.wf(),
            forall|item: &T| call_requires(f, (item,)),
        ensures
            result is Ok ==> forall|i: int|
                0 <= i < reached(deque.items(), deque.base(), *self, self.count as int).len()
                    ==> accepts(
                    f,
                    #[trigger] reached(deque.items(), deque.base(), *self, self.count as int)[i],
                ),
            result is Err ==> stopped_at(
                f,
                reached(deque.items(), deque.base(), *self, self.count as int),
                result,
            ),
            always_accepts(f, reached(deque.items(), deque.base(), *self, self.count as int))
                ==> result is Ok,
    {
        let ghost items = deque.items();
        let ghost base = deque.base();
        let ghost given = f;
        let ghost all = reached(items, base, *self, self.count as int);
        let mut failure: Option<E> = None;
        let mut i: usize = 0;
        while i < self.count && failure.is_none()
            invariant
                i <= self.count,
                items == deque.items(),
                base == deque.base(),
                all == reached(items, base, *self, self.count as int),
                deque.wf(),
                forall|item: &T| call_requires(f, (item,)),
                f == given,
                forall|k: int|
                    0 <= k < reached(items, base, *self, i as int).len() ==> accepts(
                        given,
                        #[trigger] all[k],
                    ),
                failure is Some ==> stopped_at(given, all, Err::<(), E>(failure->Some_0)),
            decreases self.count - i + if failure is None { 1int } else { 0int },
        {
            let ghost seen = reached(items, base, *self, i as int);
            proof {
                lemma_reached_grows(items, base, *self, i as int, self.count as int);
                lemma_reached_grows(items, base, *self, i + 1, self.count as int);
            }
            match self.get(deque, i) {
                Some(item) => {
                    let ghost next = reached(items, base, *self, i + 1);
                    proof {
                        assert(next == seen.push(*item));
                        assert(all.subrange(0, next.len() as int)[seen.len() as int]
                            == next[seen.len() as int]);
                        assert(all[seen.len() as int] == *item);
                    }
                    let outcome = f(item);
                    let ghost got = outcome;
                    match outcome {
                        Ok(()) => {
                            proof {
                                assert(got is Ok && call_ensures(
                                    given,
                                    (&all[seen.len() as int],),
                                    got,
                                ));
                            }
                            i += 1;
                        },
                        Err(e) => {
                            proof {
                                assert(call_ensures(given, (&all[seen.len() as int],), got));
                                assert(got == Err::<(), E>(e));
                            }
                            failure = Some(e);
                        },
                    }
                },
                None => {
                    proof {
                        assert(reached(items, base, *self, i + 1) == seen);
                    }
                    i += 1;
                },
            }
        }
        match failure {
            Some(e) => Err(e),
            None => Ok(()),
        }
    }

    /// Gives the handle back: a live handle expires its generation in
    /// `deque`, so that every item at the front whose generation is at most
    /// the handle's leaves, up to the first item of a later generation; an
    /// inert handle changes nothing.
    pub fn release<T: Item>(self, deque: &mut GenerationalDeque<T>)
        requires
            old(deque).wf(),
        ensures
            final(deque).wf(),
            self.owned ==> final(deque).base() == old(deque).base() + expired_prefix(
                old(deque).items(),
                self.generation,
            ) && final(deque).items() == old(deque).items().subrange(
                expired_prefix(old(deque).items(), self.generation) as int,
                old(deque).items().len() as int,
            ),
            !self.owned ==> final(deque).base() == old(deque).base() && final(deque).items()
                == old(deque).items(),
    {
        if self.owned {
            deque.remove_expired_generations(self.generation);
        }
    }
}

} // verus!
