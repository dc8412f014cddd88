//! Bookkeeping of natively created threads: a fixed table of slots, each
//! recording a thread's id and its stack mapping.
use vstd::prelude::*;

verus! {

/// Threads tracked at most.
pub const MAX_THREADS: usize = 64;
/// Stack size of each thread (2 MiB).
pub const STACK_SIZE: usize = 2097152;
/// `EINVAL` errno value.
pub const EINVAL: i32 = 22;
/// `ENOMEM` errno value.
pub const ENOMEM: i32 = 12;
/// `EAGAIN` errno value.
pub const EAGAIN: i32 = 11;
/// `ESRCH` errno value.
pub const ESRCH: i32 = 3;

/// A tracked thread: its id (0 until the kernel reports it) and its stack.
#[derive(Clone, Copy, PartialEq, Eq, Structural)]
pub struct ThreadSlot {
    pub tid: u32,
    pub stack: usize,
    pub stack_size: usize,
}

/// The table of tracked threads.
pub struct ThreadTable {
    slots: Vec<Option<ThreadSlot>>,
}

impl View for ThreadTable {
    type V = Seq<Option<ThreadSlot>>;

    closed spec fn view(&self) -> Seq<Option<ThreadSlot>> {
        self.slots@
    }
}

/// The first free slot from `i` on, if any.
pub open spec fn first_free_from(t: Seq<Option<ThreadSlot>>, i: int) -> Option<int>
    decreases t.len() - i,
{
    if i >= t.len() || i < 0 {
        None
    } else if t[i] is None {
        Some(i)
    } else {
        first_free_from(t, i + 1)
    }
}

/// The first slot from `i` on that tracks thread `tid`, if any.
pub open spec fn find_tid_from(t: Seq<Option<ThreadSlot>>, tid: u32, i: int) -> Option<int>
    decreases t.len() - i,
{
    if i >= t.len() || i < 0 {
        None
    } else if t[i] matches Some(s) && s.tid == tid {
        Some(i)
    } else {
        find_tid_from(t, tid, i + 1)
    }
}

/// What `pthread_create` finds wrong with its arguments: `EINVAL` for a
/// null thread handle or a missing start routine.
pub fn create_args_check(thread_is_null: bool, routine_is_none: bool) -> (r: Option<i32>)
    ensures
        r == (if thread_is_null || routine_is_none { Some(EINVAL) } else { None::<i32> }),
{
    if thread_is_null || routine_is_none {
        Some(EINVAL)
    } else {
        None
    }
}

impl ThreadTable {
    pub closed spec fn wf(&self) -> bool {
        self.slots@.len() == MAX_THREADS
    }

    /// An empty table.
    pub fn new() -> (t: Self)
        ensures
            t.wf(),
            t@.len() == MAX_THREADS,
            forall|i: int| 0 <= i < MAX_THREADS ==> (#[trigger] t@[i]) is None,
    {
        let mut slots: Vec<Option<ThreadSlot>> = Vec::new();
        let mut i: usize = 0;
        while i < MAX_THREADS
            invariant
                i <= MAX_THREADS,
                slots@.len() == i,
                forall|j: int| 0 <= j < i ==> (#[trigger] slots@[j]) is None,
            decreases MAX_THREADS - i,
        {
            slots.push(None);
            i = i + 1;
        }
        ThreadTable { slots }
    }

    /// Records a new thread with the given stack in the first free slot;
    /// `None` when all slots are taken (the caller fails with `EAGAIN`).
    pub fn reserve_slot(&mut self, stack: usize) -> (r: Option<usize>)
        requires
            old(self).wf(),
        ensures
            final(self).wf(),
            r is None <==> first_free_from(old(self)@, 0) is None,
            r is None ==> final(self)@ == old(self)@,
            r matches Some(i) ==> first_free_from(old(self)@, 0) == Some(i as int) && final(self)@ == old(self)@.update(
                i as int,
                Some(ThreadSlot { tid: 0, stack, stack_size: STACK_SIZE }),
            ),
    {
        let mut i: usize = 0;
        while i < self.slots.len()
            invariant
                self.wf(),
                self@ == old(self)@,
                i <= MAX_THREADS,
                first_free_from(old(self)@, i as int) == first_free_from(old(self)@, 0),
            decreases MAX_THREADS - i,
        {
            if self.slots[i].is_none() {
                self.slots.set(i, Some(ThreadSlot { tid: 0, stack, stack_size: STACK_SIZE }));
                return Some(i);
            }
            i = i + 1;
        }
        None
    }

    /// Records the id the kernel gave the thread of slot `i`.
    pub fn set_tid(&mut self, i: usize, tid: u32)
        requires
            old(self).wf(),
            i < MAX_THREADS,
            old(self)@[i as int] is Some,
        ensures
            final(self).wf(),
            final(self)@ == old(self)@.update(
                i as int,
                Some(ThreadSlot { tid, stack: old(self)@[i as int].unwrap().stack, stack_size: old(self)@[i as int].unwrap().stack_size }),
            ),
    {
        match self.slots[i] {
            Some(s) => {
                self.slots.set(i, Some(ThreadSlot { tid, stack: s.stack, stack_size: s.stack_size }));
            },
            None => {},
        }
    }

    /// Finds the first slot that tracks thread `tid`.
    pub fn find_by_tid(&self, tid: u32) -> (r: Option<usize>)
        requires
            self.wf(),
        ensures
            match r {
                Some(i) => find_tid_from(self@, tid, 0) == Some(i as int),
                None => find_tid_from(self@, tid, 0) is None,
            },
    {
        let mut i: usize = 0;
        while i < self.slots.len()
            invariant
                self.wf(),
                i <= MAX_THREADS,
                find_tid_from(self@, tid, i as int) == find_tid_from(self@, tid, 0),
            decreases MAX_THREADS - i,
        {
            match self.slots[i] {
                Some(s) => if s.tid == tid {
                    return Some(i);
                },
                None => {},
            }
            i = i + 1;
        }
        None
    }

    /// Frees slot `i`, returning what it tracked (the stack to unmap).
    pub fn release(&mut self, i: usize) -> (r: Option<ThreadSlot>)
        requires
            old(self).wf(),
            i < MAX_THREADS,
        ensures
            final(self).wf(),
            r == old(self)@[i as int],
            final(self)@ == old(self)@.update(i as int, None),
    {
        let r = self.slots[i];
        self.slots.set(i, None);
        r
    }
}

/// The `pthread_join` lookup: the slot of thread `tid`, or `ESRCH` when no
/// slot tracks it.
pub fn join_lookup(table: &ThreadTable, tid: u32) -> (r: Result<usize, i32>)
    requires
        table.wf(),
    ensures
        match r {
            Ok(i) => find_tid_from(table@, tid, 0) == Some(i as int),
            Err(e) => e == ESRCH && find_tid_from(table@, tid, 0) is None,
        },
{
    match table.find_by_tid(tid) {
        Some(i) => Ok(i),
        None => Err(ESRCH),
    }
}

/// What a `clone3` return means to the creating thread: 0 in the child, a
/// thread id in the parent, and a negated errno on failure.
#[derive(PartialEq, Eq, Structural)]
pub enum CloneOutcome {
    /// Running in the new thread.
    Child,
    /// The thread was created with this id.
    Created(u32),
    /// No thread was created; `pthread_create` returns this error number.
    Failed(i32),
}

/// Reads a `clone3` return: the child sees 0, the parent the new thread's id
/// (truncated to 32 bits as a thread id is), and a failure gives the error
/// number that `pthread_create` returns.
pub fn clone_outcome(ret: isize) -> (o: CloneOutcome)
    ensures
        ret == 0 ==> o == CloneOutcome::Child,
        ret > 0 ==> o == CloneOutcome::Created(ret as u32),
        ret < 0 ==> (crate::guard::syscall_errno(ret) matches Some(e) && o == CloneOutcome::Failed(e)),
{
    if ret == 0 {
        CloneOutcome::Child
    } else if ret > 0 {
        CloneOutcome::Created(#[verifier::truncate] (ret as u32))
    } else {
        match crate::guard::errno_from_syscall(ret) {
            Some(e) => CloneOutcome::Failed(e),
            None => CloneOutcome::Child,
        }
    }
}

/// A slot tracks thread `tid`.
pub open spec fn tracks(s: Option<ThreadSlot>, tid: u32) -> bool {
    s matches Some(t) && t.tid == tid
}

/// Law: a join after the thread's slot was released reports `ESRCH`: once
/// the only slot tracking `tid` is freed, looking `tid` up finds nothing.
pub proof fn law_release_then_lookup_fails(t: Seq<Option<ThreadSlot>>, tid: u32, i: int)
    requires
        0 <= i < t.len(),
        forall|k: int| 0 <= k < t.len() && k != i ==> !tracks(#[trigger] t[k], tid),
    ensures
        find_tid_from(t.update(i, None), tid, 0) is None,
{
    lemma_find_none(t.update(i, None), tid, 0);
}

proof fn lemma_find_none(t: Seq<Option<ThreadSlot>>, tid: u32, j: int)
    requires
        0 <= j,
        forall|k: int| j <= k < t.len() ==> !tracks(#[trigger] t[k], tid),
    ensures
        find_tid_from(t, tid, j) is None,
    decreases t.len() - j,
{
    if j < t.len() {
        assert(!tracks(t[j], tid));
        lemma_find_none(t, tid, j + 1);
    }
}

/// Law: a slot that is reserved and released again leaves the table as it
/// was; the reserved slot is free before and tracks the new stack after.
pub proof fn law_reserve_then_release(t: Seq<Option<ThreadSlot>>, i: int, stack: usize)
    requires
        first_free_from(t, 0) == Some(i),
    ensures
        0 <= i < t.len(),
        t[i] is None,
        t.update(i, Some(ThreadSlot { tid: 0, stack, stack_size: STACK_SIZE })).update(i, None) == t,
{
    lemma_first_free(t, 0);
    assert(t.update(i, Some(ThreadSlot { tid: 0, stack, stack_size: STACK_SIZE })).update(i, None) =~= t);
}

proof fn lemma_first_free(t: Seq<Option<ThreadSlot>>, j: int)
    requires
        0 <= j,
    ensures
        first_free_from(t, j) matches Some(i) ==> j <= i < t.len() && t[i] is None && forall|k: int| j <= k < i ==> t[k] is Some,
    decreases t.len() - j,
{
    if j < t.len() && t[j] is Some {
        lemma_first_free(t, j + 1);
    }
}

/// Law: a thread whose id was recorded is found again: after `set_tid` on a
/// slot before which no slot tracks the same id, looking the id up gives
/// that slot.
pub proof fn law_set_tid_then_find(t: Seq<Option<ThreadSlot>>, i: int, tid: u32, stack: usize, size: usize)
    requires
        0 <= i < t.len(),
        forall|k: int| 0 <= k < i ==> !(#[trigger] t[k] matches Some(s) && s.tid == tid),
    ensures
        find_tid_from(t.update(i, Some(ThreadSlot { tid, stack, stack_size: size })), tid, 0) == Some(i),
{
    let u = t.update(i, Some(ThreadSlot { tid, stack, stack_size: size }));
    lemma_find_upto(u, tid, 0, i);
}

proof fn lemma_find_upto(t: Seq<Option<ThreadSlot>>, tid: u32, j: int, i: int)
    requires
        0 <= j <= i < t.len(),
        t[i] matches Some(s) && s.tid == tid,
        forall|k: int| j <= k < i ==> !(#[trigger] t[k] matches Some(s) && s.tid == tid),
    ensures
        find_tid_from(t, tid, j) == Some(i),
    decreases i - j,
{
    if j < i {
        lemma_find_upto(t, tid, j + 1, i);
    }
}

} // verus!
