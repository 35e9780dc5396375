//! Task identifiers, and the allocator that hands them out: the next unused
//! number, or a number that was given back.

use vstd::prelude::*;

verus! {

/// The stable identifier of a task.
#[derive(Clone, Copy, Debug, PartialEq, Eq, Hash, Structural)]
pub struct TaskId(pub u64);

/// Hands out identifiers, and takes back those that are no longer in use.
pub struct IdAllocator {
    next: u64,
    free: Vec<u64>,
}

impl IdAllocator {
    /// The smallest number that was never handed out.
    pub closed spec fn next_fresh(&self) -> u64 {
        self.next
    }

    /// The numbers that were given back and not handed out again, oldest
    /// first.
    pub closed spec fn released(&self) -> Seq<u64> {
        self.free@
    }

    /// The identifiers in use: handed out and not given back.
    pub open spec fn live(&self) -> Set<u64> {
        Set::new(|i: u64| i < self.next_fresh() && !self.released().contains(i))
    }

    /// What was given back was handed out before, and is listed once.
    pub open spec fn wf(&self) -> bool {
        &&& forall|k: int| 0 <= k < self.released().len() ==> #[trigger] self.released()[k]
            < self.next_fresh()
        &&& self.released().no_duplicates()
    }

    /// An allocator with no identifier in use.
    pub fn new() -> (ids: IdAllocator)
        ensures
            ids.wf(),
            ids.next_fresh() == 0,
            ids.released() == Seq::<u64>::empty(),
            ids.live() == Set::<u64>::empty(),
    {
        let ids = IdAllocator { next: 0, free: Vec::new() };
        assert(ids.live() =~= Set::<u64>::empty());
        ids
    }

    /// Hands out an identifier that is not in use: the one given back last,
    /// or the next unused number if none is waiting. `None` only when every
    /// number below `u64::MAX` is in use.
    pub fn allocate(&mut self) -> (r: Option<TaskId>)
        requires
            old(self).wf(),
        ensures
            final(self).wf(),
            match r {
                Some(id) => {
                    &&& !old(self).live().contains(id.0)
                    &&& final(self).live() == old(self).live().insert(id.0)
                    &&& if old(self).released().len() > 0 {
                        &&& id.0 == old(self).released().last()
                        &&& final(self).released() == old(self).released().drop_last()
                        &&& final(self).next_fresh() == old(self).next_fresh()
                    } else {
                        &&& id.0 == old(self).next_fresh()
                        &&& final(self).released() == old(self).released()
                        &&& final(self).next_fresh() == old(self).next_fresh() + 1
                    }
                },
                None => {
                    &&& old(self).released().len() == 0
                    &&& old(self).next_fresh() == u64::MAX
                    &&& forall|i: u64| i < u64::MAX ==> old(self).live().contains(i)
                    &&& final(self).released() == old(self).released()
                    &&& final(self).next_fresh() == old(self).next_fresh()
                },
            },
    {
        let ghost before = self.free@;
        match self.free.pop() {
            Some(id) => {
                proof {
                    let rest = self.free@;
                    assert(rest =~= before.drop_last());
                    assert(before[before.len() - 1] == id);
                    assert(before.contains(id));
                    assert(!rest.contains(id)) by {
                        if rest.contains(id) {
                            let k = choose|k: int| 0 <= k < rest.len() && rest[k] == id;
                            assert(before[k] == id);
                        }
                    }
                    assert forall|i: u64| i != id implies (before.contains(i) <==> rest.contains(
                        i,
                    )) by {
                        if before.contains(i) {
                            let k = choose|k: int| 0 <= k < before.len() && before[k] == i;
                            assert(rest[k] == i);
                        }
                        if rest.contains(i) {
                            let k = choose|k: int| 0 <= k < rest.len() && rest[k] == i;
                            assert(before[k] == i);
                        }
                    }
                    assert(self.live() =~= old(self).live().insert(id));
                }
                Some(TaskId(id))
            },
            None => {
                if self.next < u64::MAX {
                    let id = self.next;
                    self.next = id + 1;
                    proof {
                        assert(self.live() =~= old(self).live().insert(id));
                    }
                    Some(TaskId(id))
                } else {
                    None
                }
            },
        }
    }

    /// Whether `id` is in use.
    pub fn is_live(&self, id: TaskId) -> (r: bool)
        ensures
            r == self.live().contains(id.0),
    {
        if id.0 >= self.next {
            return false;
        }
        let mut k: usize = 0;
        while k < self.free.len()
            invariant
                k <= self.free@.len(),
                forall|j: int| 0 <= j < k ==> self.free@[j] != id.0,
            decreases self.free.len() - k,
        {
            if self.free[k] == id.0 {
                return false;
            }
            k += 1;
        }
        true
    }

    /// Takes `id` back if it is in use; tells whether it was.
    pub fn free(&mut self, id: TaskId) -> (released: bool)
        requires
            old(self).wf(),
        ensures
            final(self).wf(),
            released == old(self).live().contains(id.0),
            final(self).live() == old(self).live().remove(id.0),
            final(self).next_fresh() == old(self).next_fresh(),
            final(self).released() == if released {
                old(self).released().push(id.0)
            } else {
                old(self).released()
            },
    {
        if !self.is_live(id) {
            assert(self.live() =~= old(self).live().remove(id.0));
            return false;
        }
        let ghost before = self.free@;
        self.free.push(id.0);
        proof {
            let after = self.free@;
            assert forall|i: u64| after.contains(i) <==> (before.contains(i) || i == id.0) by {
                if after.contains(i) {
                    let k = choose|k: int| 0 <= k < after.len() && after[k] == i;
                    if k < before.len() {
                        assert(before[k] == i);
                    }
                }
                if before.contains(i) {
                    let k = choose|k: int| 0 <= k < before.len() && before[k] == i;
                    assert(after[k] == i);
                }
                if i == id.0 {
                    assert(after[before.len() as int] == i);
                }
            }
            assert(self.live() =~= old(self).live().remove(id.0));
        }
        true
    }
}

} // verus!
