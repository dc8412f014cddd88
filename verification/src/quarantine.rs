//! Per-thread quarantine of freed blocks: a bounded FIFO that delays the
//! reuse of freed memory, capped by entry count and by total bytes.
use vstd::prelude::*;
use crate::decimal::parse_usize_spec;

verus! {

/// Entries a quarantine holds at most.
pub const QUARANTINE_MAX_ENTRIES: usize = 256;
/// Bytes a quarantine holds at most unless configured otherwise.
pub const QUARANTINE_BYTES_CAP: usize = 524288;
/// The smallest configured byte cap (one page).
pub const QUARANTINE_CAP_MIN: usize = 4096;
/// The largest configured byte cap (1 GiB).
pub const QUARANTINE_CAP_MAX: usize = 1073741824;

/// The byte cap that the configuration text gives: the default when there is
/// none or it is not a number, 0 (quarantine off) for 0, and otherwise the
/// number clamped to one page ..= 1 GiB.
pub open spec fn cap_from_env(env: Option<Seq<u8>>) -> usize {
    match env {
        None => QUARANTINE_BYTES_CAP,
        Some(s) => match parse_usize_spec(s) {
            None => QUARANTINE_BYTES_CAP,
            Some(v) => if v == 0 {
                0
            } else if v < QUARANTINE_CAP_MIN {
                QUARANTINE_CAP_MIN
            } else if v > QUARANTINE_CAP_MAX {
                QUARANTINE_CAP_MAX
            } else {
                v
            },
        },
    }
}

/// The quarantine byte cap from the text of `IRONLUNG_QUARANTINE_SIZE`
/// (`None` when it is unset).
pub fn quarantine_bytes_cap(env: Option<&[u8]>) -> (cap: usize)
    ensures
        cap == cap_from_env(
            match env {
                Some(s) => Some(s@),
                None => None,
            },
        ),
{
    match env {
        None => QUARANTINE_BYTES_CAP,
        Some(s) => match crate::decimal::parse_usize(s) {
            None => QUARANTINE_BYTES_CAP,
            Some(v) => if v == 0 {
                0
            } else if v < QUARANTINE_CAP_MIN {
                QUARANTINE_CAP_MIN
            } else if v > QUARANTINE_CAP_MAX {
                QUARANTINE_CAP_MAX
            } else {
                v
            },
        },
    }
}

/// Law: the configured cap is 0 (quarantine off) or between one page and 1 GiB.
pub proof fn law_cap_in_range(env: Option<Seq<u8>>)
    ensures
        cap_from_env(env) == 0 || QUARANTINE_CAP_MIN <= cap_from_env(env) <= QUARANTINE_CAP_MAX,
{
}

/// The total size of the blocks in a queue of (address, size) entries.
pub open spec fn sum_sizes(q: Seq<(usize, usize)>) -> nat
    decreases q.len(),
{
    if q.len() == 0 {
        0
    } else {
        sum_sizes(q.drop_last()) + q.last().1 as nat
    }
}

pub proof fn lemma_sum_drop_first(q: Seq<(usize, usize)>)
    requires
        q.len() > 0,
    ensures
        sum_sizes(q) == q[0].1 + sum_sizes(q.drop_first()),
    decreases q.len(),
{
    if q.len() > 1 {
        lemma_sum_drop_first(q.drop_last());
        assert(q.drop_last().drop_first() =~= q.drop_first().drop_last());
    } else {
        assert(q.drop_first() =~= Seq::<(usize, usize)>::empty());
        assert(q.drop_last() =~= Seq::<(usize, usize)>::empty());
    }
}

pub proof fn lemma_sum_push(q: Seq<(usize, usize)>, e: (usize, usize))
    ensures
        sum_sizes(q.push(e)) == sum_sizes(q) + e.1,
{
    assert(q.push(e).drop_last() =~= q);
}

/// A block that can never be held: quarantine is off, or the block alone
/// passes the byte cap. Such a block is released at once and nothing leaves.
pub open spec fn rejects_new(cap: usize, size: usize) -> bool {
    cap == 0 || size > cap
}

/// The queue has room for a block of `size`: fewer than
/// `QUARANTINE_MAX_ENTRIES` entries, and the bytes stay within the cap.
pub open spec fn room_for(q: Seq<(usize, usize)>, cap: usize, size: usize) -> bool {
    q.len() < QUARANTINE_MAX_ENTRIES && sum_sizes(q) + size <= cap
}

/// How many of the oldest entries leave so that a block of `size` fits:
/// oldest first, just as many as needed.
pub open spec fn drain_count(q: Seq<(usize, usize)>, cap: usize, size: usize) -> nat
    decreases q.len(),
{
    if q.len() == 0 || room_for(q, cap, size) {
        0
    } else {
        1 + drain_count(q.drop_first(), cap, size)
    }
}

/// The queue after the block `(ptr, size)` is pushed: the oldest entries
/// that must leave are gone and the block is the newest entry.
pub open spec fn pushed_queue(q: Seq<(usize, usize)>, cap: usize, ptr: usize, size: usize) -> Seq<(usize, usize)> {
    if rejects_new(cap, size) {
        q
    } else {
        q.skip(drain_count(q, cap, size) as int).push((ptr, size))
    }
}

/// The blocks handed back for deallocation when `(ptr, size)` is pushed, in
/// order: the oldest entries that leave, or the block itself when it can
/// never be held.
pub open spec fn released_blocks(q: Seq<(usize, usize)>, cap: usize, ptr: usize, size: usize) -> Seq<(usize, usize)> {
    if rejects_new(cap, size) {
        seq![(ptr, size)]
    } else {
        q.take(drain_count(q, cap, size) as int)
    }
}

/// The global byte count after a push of a block of `size` on a quarantine
/// holding `q`: less the bytes that leave, plus the block when it is held.
pub open spec fn global_after_push(g: usize, q: Seq<(usize, usize)>, cap: usize, size: usize) -> usize {
    if rejects_new(cap, size) {
        g
    } else {
        wrap_add(wrap_sub(g, sum_sizes(q.take(drain_count(q, cap, size) as int)) as usize), size)
    }
}

pub proof fn lemma_sum_split(q: Seq<(usize, usize)>, k: int)
    requires
        0 <= k <= q.len(),
    ensures
        sum_sizes(q) == sum_sizes(q.take(k)) + sum_sizes(q.skip(k)),
    decreases k,
{
    if k > 0 {
        lemma_sum_split(q, k - 1);
        assert(q.take(k) =~= q.take(k - 1).push(q[k - 1]));
        lemma_sum_push(q.take(k - 1), q[k - 1]);
        lemma_sum_drop_first(q.skip(k - 1));
        assert(q.skip(k - 1).drop_first() =~= q.skip(k));
    } else {
        assert(q.take(0) =~= Seq::<(usize, usize)>::empty());
        assert(q.skip(0) =~= q);
    }
}

/// The count of leaving entries is just enough: the block fits once they
/// are gone, and it does not fit with fewer of them gone.
pub proof fn lemma_drain_count(q: Seq<(usize, usize)>, cap: usize, size: usize)
    requires
        !rejects_new(cap, size),
    ensures
        drain_count(q, cap, size) <= q.len(),
        room_for(q.skip(drain_count(q, cap, size) as int), cap, size),
        forall|j: int| 0 <= j < drain_count(q, cap, size) ==> !room_for(#[trigger] q.skip(j), cap, size),
    decreases q.len(),
{
    if q.len() == 0 {
        assert(q.skip(0) =~= q);
    } else if room_for(q, cap, size) {
        assert(q.skip(0) =~= q);
    } else {
        let t = q.drop_first();
        lemma_drain_count(t, cap, size);
        let k = drain_count(q, cap, size);
        assert(q.skip(k as int) =~= t.skip(k - 1));
        assert forall|j: int| 0 <= j < k implies !room_for(#[trigger] q.skip(j), cap, size) by {
            if j == 0 {
                assert(q.skip(0) =~= q);
            } else {
                assert(q.skip(j) =~= t.skip(j - 1));
            }
        }
    }
}

/// The bytes quarantined by all threads, for monitoring; it wraps as an
/// atomic counter does.
pub struct GlobalQuarantineBytes {
    pub bytes: usize,
}

pub open spec fn wrap_add(x: usize, y: usize) -> usize {
    if x + y <= usize::MAX {
        (x + y) as usize
    } else {
        (x + y - usize::MAX - 1) as usize
    }
}

pub open spec fn wrap_sub(x: usize, y: usize) -> usize {
    if x >= y {
        (x - y) as usize
    } else {
        (x - y + usize::MAX + 1) as usize
    }
}

impl GlobalQuarantineBytes {
    pub fn new() -> (g: Self)
        ensures
            g.bytes == 0,
    {
        GlobalQuarantineBytes { bytes: 0 }
    }

    fn add(&mut self, n: usize)
        ensures
            final(self).bytes == wrap_add(old(self).bytes, n),
    {
        if self.bytes <= usize::MAX - n {
            self.bytes = self.bytes + n;
        } else {
            self.bytes = n - (usize::MAX - self.bytes) - 1;
        }
    }

    fn sub(&mut self, n: usize)
        ensures
            final(self).bytes == wrap_sub(old(self).bytes, n),
    {
        if self.bytes >= n {
            self.bytes = self.bytes - n;
        } else {
            self.bytes = usize::MAX - (n - self.bytes) + 1;
        }
    }
}

/// The bytes quarantined by all threads.
pub fn get_global_quarantine_bytes(global: &GlobalQuarantineBytes) -> (n: usize)
    ensures
        n == global.bytes,
{
    global.bytes
}

/// One thread's quarantine: a ring of (block address, size) entries.
pub struct Quarantine {
    ptrs: Vec<usize>,
    sizes: Vec<usize>,
    head: usize,
    len: usize,
    total_bytes: usize,
    bytes_cap: usize,
}

impl View for Quarantine {
    type V = Seq<(usize, usize)>;

    /// The held blocks, oldest first.
    closed spec fn view(&self) -> Seq<(usize, usize)> {
        Seq::new(
            self.len as nat,
            |i: int|
                (
                    self.ptrs@[(self.head + i) % (QUARANTINE_MAX_ENTRIES as int)],
                    self.sizes@[(self.head + i) % (QUARANTINE_MAX_ENTRIES as int)],
                ),
        )
    }
}

impl Quarantine {
    /// The byte cap this quarantine was made with.
    pub closed spec fn cap(&self) -> usize {
        self.bytes_cap
    }

    pub closed spec fn wf(&self) -> bool {
        &&& self.ptrs@.len() == QUARANTINE_MAX_ENTRIES
        &&& self.sizes@.len() == QUARANTINE_MAX_ENTRIES
        &&& self.head < QUARANTINE_MAX_ENTRIES
        &&& self.len <= QUARANTINE_MAX_ENTRIES
        &&& self.total_bytes == sum_sizes(self@)
        &&& self.total_bytes <= self.bytes_cap
        &&& self.bytes_cap == 0 ==> self.len == 0
    }

    /// An empty quarantine holding at most `bytes_cap` bytes (0: off).
    pub fn new(bytes_cap: usize) -> (q: Self)
        ensures
            q.wf(),
            q@ == Seq::<(usize, usize)>::empty(),
            q.cap() == bytes_cap,
    {
        let mut ptrs: Vec<usize> = Vec::new();
        let mut sizes: Vec<usize> = Vec::new();
        let mut i: usize = 0;
        while i < QUARANTINE_MAX_ENTRIES
            invariant
                i <= QUARANTINE_MAX_ENTRIES,
                ptrs@.len() == i,
                sizes@.len() == i,
            decreases QUARANTINE_MAX_ENTRIES - i,
        {
            ptrs.push(0);
            sizes.push(0);
            i = i + 1;
        }
        let q = Quarantine { ptrs, sizes, head: 0, len: 0, total_bytes: 0, bytes_cap };
        assert(q@ =~= Seq::<(usize, usize)>::empty());
        q
    }

    /// Number of held blocks.
    pub fn len(&self) -> (n: usize)
        requires
            self.wf(),
        ensures
            n == self@.len(),
    {
        self.len
    }

    /// The held blocks, oldest first.
    pub fn held(&self) -> (v: Vec<(usize, usize)>)
        requires
            self.wf(),
        ensures
            v@ == self@,
    {
        let mut v: Vec<(usize, usize)> = Vec::new();
        let mut i: usize = 0;
        while i < self.len
            invariant
                self.wf(),
                i <= self.len,
                v@ == self@.take(i as int),
            decreases self.len - i,
        {
            let idx = (self.head + i) % QUARANTINE_MAX_ENTRIES;
            v.push((self.ptrs[idx], self.sizes[idx]));
            i = i + 1;
            proof {
                assert(v@ =~= self@.take(i as int));
            }
        }
        assert(self@.take(self.len as int) =~= self@);
        v
    }

    /// Total bytes of the held blocks.
    pub fn total_bytes(&self) -> (n: usize)
        requires
            self.wf(),
        ensures
            n == sum_sizes(self@),
    {
        self.total_bytes
    }

    /// Takes the oldest entry out of the ring.
    fn pop_front(&mut self) -> (e: (usize, usize))
        requires
            old(self).wf(),
            old(self)@.len() > 0,
        ensures
            final(self).wf(),
            final(self).cap() == old(self).cap(),
            e == old(self)@[0],
            final(self)@ == old(self)@.drop_first(),
    {
        let ghost q = self@;
        let h = self.head;
        let p = self.ptrs[h];
        let s = self.sizes[h];
        self.ptrs.set(h, 0);
        self.sizes.set(h, 0);
        self.head = (h + 1) % QUARANTINE_MAX_ENTRIES;
        self.len = self.len - 1;
        proof {
            lemma_sum_drop_first(q);
            assert(self@ =~= q.drop_first()) by {
                assert forall|i: int| 0 <= i < self@.len() implies self@[i] == q.drop_first()[i] by {
                    assert((self.head + i) % 256 == (h + i + 1) % 256);
                    assert((h + i + 1) % 256 != h as int);
                }
            }
        }
        self.total_bytes = self.total_bytes - s;
        (p, s)
    }

    /// Adds an entry at the back of the ring.
    fn push_back(&mut self, p: usize, s: usize)
        requires
            old(self).wf(),
            old(self)@.len() < QUARANTINE_MAX_ENTRIES,
            old(self).cap() != 0,
            sum_sizes(old(self)@) + s <= old(self).cap(),
        ensures
            final(self).wf(),
            final(self).cap() == old(self).cap(),
            final(self)@ == old(self)@.push((p, s)),
    {
        let ghost q = self@;
        let idx = (self.head + self.len) % QUARANTINE_MAX_ENTRIES;
        self.ptrs.set(idx, p);
        self.sizes.set(idx, s);
        self.len = self.len + 1;
        self.total_bytes = self.total_bytes + s;
        proof {
            lemma_sum_push(q, (p, s));
            assert(self@ =~= q.push((p, s))) by {
                assert forall|i: int| 0 <= i < q.len() implies self@[i] == q[i] by {
                    assert((self.head + i) % 256 != idx as int);
                }
            }
        }
    }

}

/// Quarantines a freed block instead of releasing it: the oldest entries
/// leave, oldest first, just until the block fits within the entry count and
/// the byte cap, and the block becomes the newest entry. A block that can
/// never fit (quarantine off, or larger than the cap) is released at once.
/// Returns the blocks to deallocate, in order, and keeps the global byte count.
pub fn quarantine_push(quar: &mut Quarantine, header_ptr: usize, size: usize, global: &mut GlobalQuarantineBytes) -> (released: Vec<(usize, usize)>)
    requires
        old(quar).wf(),
    ensures
        final(quar).wf(),
        final(quar).cap() == old(quar).cap(),
        final(quar)@ == pushed_queue(old(quar)@, old(quar).cap(), header_ptr, size),
        released@ == released_blocks(old(quar)@, old(quar).cap(), header_ptr, size),
        final(global).bytes == global_after_push(old(global).bytes, old(quar)@, old(quar).cap(), size),
{
    let ghost q = quar@;
    let ghost cap = quar.bytes_cap;
    let mut released: Vec<(usize, usize)> = Vec::new();
    if quar.bytes_cap == 0 || size > quar.bytes_cap {
        released.push((header_ptr, size));
        assert(released@ =~= released_blocks(q, cap, header_ptr, size));
        return released;
    }
    proof {
        lemma_drain_count(q, cap, size);
    }
    let mut drained: usize = 0;
    while quar.len >= QUARANTINE_MAX_ENTRIES || size > quar.bytes_cap - quar.total_bytes
        invariant
            quar.wf(),
            quar.bytes_cap == cap,
            cap != 0,
            size <= cap,
            drain_count(q, cap, size) <= q.len(),
            quar@.len() <= q.len(),
            quar@ == q.skip(q.len() - quar@.len()),
            released@ == q.take(q.len() - quar@.len()),
            drained == sum_sizes(q.take(q.len() - quar@.len())),
            q.len() - quar@.len() <= drain_count(q, cap, size),
            forall|j: int| 0 <= j < drain_count(q, cap, size) ==> !room_for(#[trigger] q.skip(j), cap, size),
            room_for(q.skip(drain_count(q, cap, size) as int), cap, size),
            sum_sizes(q) <= cap,
        decreases quar@.len(),
    {
        let ghost j = q.len() - quar@.len();
        proof {
            if j == drain_count(q, cap, size) {
                assert(room_for(quar@, cap, size));
            }
            assert(quar@.len() > 0) by {
                if quar@.len() == 0 {
                    assert(sum_sizes(quar@) == 0);
                }
            }
            lemma_sum_split(q, j + 1);
            lemma_sum_split(q, q.len() as int);
            assert(q.take(q.len() as int) =~= q);
        }
        let e = quar.pop_front();
        proof {
            assert(q.take(j + 1) =~= q.take(j).push(e));
            lemma_sum_push(q.take(j), e);
            assert(quar@ =~= q.skip(j + 1));
        }
        released.push(e);
        drained = drained + e.1;
    }
    proof {
        let j = q.len() - quar@.len();
        assert(room_for(quar@, cap, size));
        if j < drain_count(q, cap, size) {
            assert(!room_for(q.skip(j), cap, size));
        }
    }
    global.sub(drained);
    quar.push_back(header_ptr, size);
    global.add(size);
    released
}

/// Releases the oldest held block, when there is one and its address is
/// not null; the quarantine is otherwise left as it is.
pub fn quarantine_drain_one(quar: &mut Quarantine, global: &mut GlobalQuarantineBytes) -> (r: Option<(usize, usize)>)
    requires
        old(quar).wf(),
    ensures
        final(quar).wf(),
        final(quar).cap() == old(quar).cap(),
        old(quar)@.len() == 0 || old(quar)@[0].0 == 0 ==> r is None && final(quar)@ == old(quar)@
            && final(global).bytes == old(global).bytes,
        old(quar)@.len() > 0 && old(quar)@[0].0 != 0 ==> r == Some(old(quar)@[0]) && final(quar)@
            == old(quar)@.drop_first() && final(global).bytes == wrap_sub(old(global).bytes, old(quar)@[0].1),
{
    if quar.len == 0 {
        return None;
    }
    if quar.ptrs[quar.head] == 0 {
        return None;
    }
    let e = quar.pop_front();
    global.sub(e.1);
    Some(e)
}

/// Law: the quarantine is bounded: at most `QUARANTINE_MAX_ENTRIES` blocks,
/// at most its byte cap in total, and nothing at all when it is off.
pub proof fn law_quarantine_bounded(q: &Quarantine)
    requires
        q.wf(),
    ensures
        q@.len() <= QUARANTINE_MAX_ENTRIES,
        sum_sizes(q@) <= q.cap(),
        q.cap() == 0 ==> q@.len() == 0,
{
}

/// Law: pushing loses no block and invents none. When the block can be held,
/// the blocks held before followed by the pushed one are exactly the blocks
/// released followed by the blocks held after; when it can never be held, it
/// alone is released and the quarantine is unchanged.
pub proof fn law_quarantine_conserves_blocks(q: Seq<(usize, usize)>, cap: usize, ptr: usize, size: usize)
    ensures
        !rejects_new(cap, size) ==> q.push((ptr, size)) == released_blocks(q, cap, ptr, size) + pushed_queue(
            q,
            cap,
            ptr,
            size,
        ),
        rejects_new(cap, size) ==> pushed_queue(q, cap, ptr, size) == q && released_blocks(q, cap, ptr, size)
            == seq![(ptr, size)],
{
    if !rejects_new(cap, size) {
        lemma_drain_count(q, cap, size);
        let k = drain_count(q, cap, size) as int;
        assert(q.push((ptr, size)) =~= q.take(k) + q.skip(k).push((ptr, size)));
    }
}

/// Law: blocks leave oldest first and just as many as the new block needs:
/// after the oldest `k` leave, the block fits in count and bytes, and with
/// fewer gone it would not. The quarantine after the push stays within its
/// entry count and byte cap.
pub proof fn law_quarantine_drains_just_enough(q: Seq<(usize, usize)>, cap: usize, ptr: usize, size: usize)
    requires
        !rejects_new(cap, size),
    ensures
        released_blocks(q, cap, ptr, size) == q.take(released_blocks(q, cap, ptr, size).len() as int),
        pushed_queue(q, cap, ptr, size) == q.skip(released_blocks(q, cap, ptr, size).len() as int).push(
            (ptr, size),
        ),
        room_for(q.skip(released_blocks(q, cap, ptr, size).len() as int), cap, size),
        forall|j: int|
            0 <= j < released_blocks(q, cap, ptr, size).len() ==> !room_for(#[trigger] q.skip(j), cap, size),
        pushed_queue(q, cap, ptr, size).len() <= QUARANTINE_MAX_ENTRIES,
        sum_sizes(pushed_queue(q, cap, ptr, size)) <= cap,
{
    lemma_drain_count(q, cap, size);
    let k = drain_count(q, cap, size) as int;
    lemma_sum_push(q.skip(k), (ptr, size));
}

/// Law: a freed block that fits is held and nothing is released: the ring has
/// room and the block stays within the byte cap of a quarantine that is on.
/// The global count then grows by the block's size.
pub proof fn law_quarantine_holds_fitting_block(
    q: Seq<(usize, usize)>,
    cap: usize,
    ptr: usize,
    size: usize,
    g: usize,
)
    requires
        cap != 0,
        room_for(q, cap, size),
    ensures
        pushed_queue(q, cap, ptr, size) == q.push((ptr, size)),
        released_blocks(q, cap, ptr, size) == Seq::<(usize, usize)>::empty(),
        global_after_push(g, q, cap, size) == wrap_add(g, size),
{
    assert(q.skip(0) =~= q);
    assert(q.take(0) =~= Seq::<(usize, usize)>::empty());
}

/// Law: with quarantine off (cap 0) a freed block is released at once and
/// nothing is held.
pub proof fn law_quarantine_off_releases_at_once(q: Seq<(usize, usize)>, ptr: usize, size: usize)
    ensures
        pushed_queue(q, 0, ptr, size) == q,
        released_blocks(q, 0, ptr, size) == seq![(ptr, size)],
{
}

/// Law: the global count tracks the quarantined bytes. If it equals the bytes
/// that the other threads hold plus this thread's quarantined bytes, it still
/// does after a push (with no counter overflow).
pub proof fn law_global_tracks_push(
    g: usize,
    others: nat,
    q: Seq<(usize, usize)>,
    cap: usize,
    ptr: usize,
    size: usize,
)
    requires
        g == others + sum_sizes(q),
        others + sum_sizes(q) + size <= usize::MAX,
    ensures
        global_after_push(g, q, cap, size) == others + sum_sizes(pushed_queue(q, cap, ptr, size)),
{
    if !rejects_new(cap, size) {
        lemma_drain_count(q, cap, size);
        let k = drain_count(q, cap, size) as int;
        lemma_sum_split(q, k);
        lemma_sum_push(q.skip(k), (ptr, size));
    }
}

/// Law: the global count tracks the quarantined bytes across the release of
/// the oldest block.
pub proof fn law_global_tracks_drain(g: usize, others: nat, q: Seq<(usize, usize)>)
    requires
        g == others + sum_sizes(q),
        q.len() > 0,
    ensures
        wrap_sub(g, q[0].1) == others + sum_sizes(q.drop_first()),
{
    lemma_sum_drop_first(q);
}

} // verus!
