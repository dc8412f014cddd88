//! Per-thread slab cache: freed blocks of small size classes are kept per
//! class in a bounded LIFO stack and handed out again before the shared heap
//! is asked.
use vstd::prelude::*;

verus! {

/// Number of size classes.
pub const NUM_SIZE_CLASSES: usize = 8;
/// Blocks cached per size class at most.
pub const MAX_CACHED_PER_CLASS: usize = 32;

/// The size of class `i`: powers of two from 16 to 2048 bytes.
pub open spec fn class_size(i: int) -> nat {
    if i == 0 {
        16
    } else if i == 1 {
        32
    } else if i == 2 {
        64
    } else if i == 3 {
        128
    } else if i == 4 {
        256
    } else if i == 5 {
        512
    } else if i == 6 {
        1024
    } else {
        2048
    }
}

/// The size class of an allocation size: the first class at least that large.
pub open spec fn class_of(size: usize) -> Option<usize> {
    if size <= 16 {
        Some(0)
    } else if size <= 32 {
        Some(1)
    } else if size <= 64 {
        Some(2)
    } else if size <= 128 {
        Some(3)
    } else if size <= 256 {
        Some(4)
    } else if size <= 512 {
        Some(5)
    } else if size <= 1024 {
        Some(6)
    } else if size <= 2048 {
        Some(7)
    } else {
        None
    }
}

/// The byte size of each class, by index.
pub fn size_class_bytes(i: usize) -> (n: usize)
    requires
        i < NUM_SIZE_CLASSES,
    ensures
        n == class_size(i as int),
{
    let mut n: usize = 16;
    let mut k: usize = 0;
    while k < i
        invariant
            k <= i < NUM_SIZE_CLASSES,
            n == class_size(k as int),
        decreases i - k,
    {
        n = n * 2;
        k = k + 1;
    }
    n
}

/// Finds the size class of an allocation size: the first class whose size is
/// at least `size`, or `None` above 2048 bytes.
pub fn size_to_class(size: usize) -> (r: Option<usize>)
    ensures
        r == class_of(size),
        r matches Some(i) ==> i < NUM_SIZE_CLASSES && size <= class_size(i as int) && (i == 0 || size
            > class_size(i - 1)),
{
    let mut i: usize = 0;
    while i < NUM_SIZE_CLASSES
        invariant
            i <= NUM_SIZE_CLASSES,
            forall|j: int| 0 <= j < i ==> size > class_size(j),
        decreases NUM_SIZE_CLASSES - i,
    {
        if size <= size_class_bytes(i) {
            proof {
                lemma_class_of(size, i as int);
            }
            return Some(i);
        }
        i = i + 1;
    }
    assert(size > class_size(7));
    None
}

proof fn lemma_class_of(size: usize, i: int)
    requires
        0 <= i < NUM_SIZE_CLASSES,
        size <= class_size(i),
        forall|j: int| 0 <= j < i ==> size > class_size(j),
    ensures
        class_of(size) == Some(i as usize),
{
    if i >= 1 {
        assert(size > class_size(0));
    }
    if i >= 2 {
        assert(size > class_size(1));
    }
    if i >= 3 {
        assert(size > class_size(2));
    }
    if i >= 4 {
        assert(size > class_size(3));
    }
    if i >= 5 {
        assert(size > class_size(4));
    }
    if i >= 6 {
        assert(size > class_size(5));
    }
    if i >= 7 {
        assert(size > class_size(6));
    }
}

/// Whether a size is served by the per-thread cache.
pub fn is_tls_cacheable(size: usize) -> (b: bool)
    ensures
        b == class_of(size) is Some,
        b == (size <= 2048),
{
    size_to_class(size).is_some()
}

/// The payload capacity a block is made with for a request of `size`: the
/// size of its class when the size has one (a slab block, which any request
/// of the class can reuse), else the size itself.
pub open spec fn slab_capacity(size: usize) -> nat {
    match class_of(size) {
        Some(i) => class_size(i as int),
        None => size as nat,
    }
}

/// The payload capacity of the block made for a request of `size`.
pub fn block_capacity(size: usize) -> (c: usize)
    ensures
        c == slab_capacity(size),
        c >= size,
{
    match size_to_class(size) {
        Some(i) => size_class_bytes(i),
        None => size,
    }
}

/// A bounded LIFO stack of cached block addresses.
pub struct CacheBucket {
    slots: Vec<usize>,
    len: usize,
}

impl View for CacheBucket {
    type V = Seq<usize>;

    /// The cached addresses, the most recently cached last.
    closed spec fn view(&self) -> Seq<usize> {
        self.slots@.take(self.len as int)
    }
}

impl CacheBucket {
    pub closed spec fn wf(&self) -> bool {
        self.slots@.len() == MAX_CACHED_PER_CLASS && self.len <= MAX_CACHED_PER_CLASS
    }

    /// An empty bucket.
    pub fn new() -> (b: Self)
        ensures
            b.wf(),
            b@ == Seq::<usize>::empty(),
    {
        let mut slots: Vec<usize> = Vec::new();
        let mut i: usize = 0;
        while i < MAX_CACHED_PER_CLASS
            invariant
                i <= MAX_CACHED_PER_CLASS,
                slots@.len() == i,
            decreases MAX_CACHED_PER_CLASS - i,
        {
            slots.push(0);
            i = i + 1;
        }
        let b = CacheBucket { slots, len: 0 };
        assert(b@ =~= Seq::<usize>::empty());
        b
    }

    /// Caches `ptr` unless the bucket is full; returns whether it was cached.
    pub fn push(&mut self, ptr: usize) -> (ok: bool)
        requires
            old(self).wf(),
        ensures
            final(self).wf(),
            ok == (old(self)@.len() < MAX_CACHED_PER_CLASS),
            ok ==> final(self)@ == old(self)@.push(ptr),
            !ok ==> final(self)@ == old(self)@,
    {
        if self.len >= MAX_CACHED_PER_CLASS {
            return false;
        }
        let ghost v = self@;
        self.slots.set(self.len, ptr);
        self.len = self.len + 1;
        assert(self@ =~= v.push(ptr));
        true
    }

    /// Takes the most recently cached address, or 0 (null) when empty.
    pub fn pop(&mut self) -> (p: usize)
        requires
            old(self).wf(),
        ensures
            final(self).wf(),
            old(self)@.len() == 0 ==> p == 0 && final(self)@ == old(self)@,
            old(self)@.len() > 0 ==> p == old(self)@.last() && final(self)@ == old(self)@.drop_last(),
    {
        if self.len == 0 {
            return 0;
        }
        let ghost v = self@;
        self.len = self.len - 1;
        assert(self@ =~= v.drop_last());
        self.slots[self.len]
    }

    pub fn is_empty(&self) -> (b: bool)
        requires
            self.wf(),
        ensures
            b == (self@.len() == 0),
    {
        self.len == 0
    }

    pub fn is_full(&self) -> (b: bool)
        requires
            self.wf(),
        ensures
            b == (self@.len() >= MAX_CACHED_PER_CLASS),
    {
        self.len >= MAX_CACHED_PER_CLASS
    }

    pub fn len(&self) -> (n: usize)
        requires
            self.wf(),
        ensures
            n == self@.len(),
    {
        self.len
    }
}

/// One thread's cache: a bucket per size class.
pub struct TlsCache {
    buckets: Vec<CacheBucket>,
}

impl View for TlsCache {
    type V = Seq<Seq<usize>>;

    closed spec fn view(&self) -> Seq<Seq<usize>> {
        self.buckets@.map_values(|b: CacheBucket| b@)
    }
}

impl TlsCache {
    pub closed spec fn wf(&self) -> bool {
        &&& self.buckets@.len() == NUM_SIZE_CLASSES
        &&& forall|i: int| 0 <= i < NUM_SIZE_CLASSES ==> (#[trigger] self.buckets@[i]).wf()
    }

    /// An empty cache.
    pub fn new() -> (c: Self)
        ensures
            c.wf(),
            c@.len() == NUM_SIZE_CLASSES,
            forall|i: int| 0 <= i < NUM_SIZE_CLASSES ==> (#[trigger] c@[i]) == Seq::<usize>::empty(),
    {
        let mut buckets: Vec<CacheBucket> = Vec::new();
        let mut i: usize = 0;
        while i < NUM_SIZE_CLASSES
            invariant
                i <= NUM_SIZE_CLASSES,
                buckets@.len() == i,
                forall|j: int| 0 <= j < i ==> (#[trigger] buckets@[j]).wf() && buckets@[j]@ == Seq::<usize>::empty(),
            decreases NUM_SIZE_CLASSES - i,
        {
            buckets.push(CacheBucket::new());
            i = i + 1;
        }
        TlsCache { buckets }
    }

    /// A well-formed cache has one bucket per size class, each bounded.
    pub proof fn lemma_classes(&self)
        requires
            self.wf(),
        ensures
            self@.len() == NUM_SIZE_CLASSES,
            forall|i: int| 0 <= i < NUM_SIZE_CLASSES ==> (#[trigger] self@[i]).len() <= MAX_CACHED_PER_CLASS,
    {
        self.lemma_view();
    }

    proof fn lemma_view(&self)
        requires
            self.wf(),
        ensures
            self@.len() == NUM_SIZE_CLASSES,
            forall|i: int| 0 <= i < NUM_SIZE_CLASSES ==> #[trigger] self@[i] == self.buckets@[i]@,
            forall|i: int| 0 <= i < NUM_SIZE_CLASSES ==> (#[trigger] self@[i]).len() <= MAX_CACHED_PER_CLASS,
    {
    }
}

/// The block an allocation of `size` takes from a cache holding `v`: the most
/// recently cached block of its class, whatever request it was freed after
/// (every block of a class is made with the class size).
pub open spec fn alloc_result(v: Seq<Seq<usize>>, size: usize) -> Option<usize> {
    match class_of(size) {
        None => None,
        Some(c) => if v[c as int].len() > 0 {
            Some(v[c as int].last())
        } else {
            None
        },
    }
}

/// The cache after an allocation of `size`: the block taken leaves its bucket.
pub open spec fn after_alloc(v: Seq<Seq<usize>>, size: usize) -> Seq<Seq<usize>> {
    match alloc_result(v, size) {
        None => v,
        Some(_) => {
            let c = class_of(size).unwrap() as int;
            v.update(c, v[c].drop_last())
        },
    }
}

/// A freed block of `size` is cached: its size has a class and that class is
/// not full.
pub open spec fn free_accepts(v: Seq<Seq<usize>>, size: usize) -> bool {
    match class_of(size) {
        None => false,
        Some(c) => v[c as int].len() < MAX_CACHED_PER_CLASS,
    }
}

/// The cache after the block `ptr` of `size` is freed into it.
pub open spec fn after_free(v: Seq<Seq<usize>>, ptr: usize, size: usize) -> Seq<Seq<usize>> {
    if free_accepts(v, size) {
        let c = class_of(size).unwrap() as int;
        v.update(c, v[c].push(ptr))
    } else {
        v
    }
}

/// Takes a cached block for an allocation of `size`: the most recently cached
/// block of its class, or 0 (null) when the size is not cached or its class
/// is empty.
pub fn tls_alloc(cache: &mut TlsCache, size: usize) -> (p: usize)
    requires
        old(cache).wf(),
    ensures
        final(cache).wf(),
        final(cache)@.len() == NUM_SIZE_CLASSES,
        alloc_result(old(cache)@, size) matches Some(b) ==> p == b,
        alloc_result(old(cache)@, size) is None ==> p == 0,
        final(cache)@ == after_alloc(old(cache)@, size),
{
    proof {
        old(cache).lemma_view();
    }
    let c = match size_to_class(size) {
        Some(c) => c,
        None => return 0,
    };
    let ghost old_view = cache@;
    let mut b = cache.buckets.remove(c);
    let p = b.pop();
    cache.buckets.insert(c, b);
    proof {
        assert(cache@ =~= after_alloc(old_view, size));
    }
    p
}

/// Caches a freed block whose size (as its header gives it) is `size`:
/// returns whether it was cached (its size has a class and that class is not full).
pub fn tls_free(cache: &mut TlsCache, ptr: usize, size: usize) -> (ok: bool)
    requires
        old(cache).wf(),
    ensures
        final(cache).wf(),
        final(cache)@.len() == NUM_SIZE_CLASSES,
        ok == free_accepts(old(cache)@, size),
        final(cache)@ == after_free(old(cache)@, ptr, size),
{
    proof {
        old(cache).lemma_view();
    }
    let c = match size_to_class(size) {
        Some(c) => c,
        None => return false,
    };
    let ghost old_view = cache@;
    let mut b = cache.buckets.remove(c);
    let ok = if b.is_full() {
        false
    } else {
        b.push(ptr)
    };
    cache.buckets.insert(c, b);
    proof {
        assert(cache@ =~= after_free(old_view, ptr, size));
    }
    ok
}

/// The blocks of one bucket as a drain hands them back: newest first, each
/// with the class size.
pub open spec fn bucket_drain(b: Seq<usize>, size: usize) -> Seq<(usize, usize)> {
    b.reverse().map_values(|p: usize| (p, size))
}

/// Pops every block of `b` onto `out` with the class size `size`.
fn drain_bucket(b: &mut CacheBucket, size: usize, out: &mut Vec<(usize, usize)>)
    requires
        old(b).wf(),
    ensures
        final(b).wf(),
        final(b)@ == Seq::<usize>::empty(),
        final(out)@ == old(out)@ + bucket_drain(old(b)@, size),
{
    let ghost start = b@;
    let ghost pre = out@;
    while !b.is_empty()
        invariant
            b.wf(),
            b@.len() <= start.len(),
            b@ == start.take(b@.len() as int),
            out@.len() == pre.len() + (start.len() - b@.len()),
            forall|j: int| 0 <= j < pre.len() ==> out@[j] == pre[j],
            forall|k: int|
                pre.len() <= k < out@.len() ==> #[trigger] out@[k] == (start[start.len() - 1 - (k - pre.len())], size),
        decreases b@.len(),
    {
        let p = b.pop();
        out.push((p, size));
        proof {
            assert(b@ =~= start.take(b@.len() as int));
        }
    }
    proof {
        let d = bucket_drain(start, size);
        assert(out@ =~= pre + d) by {
            assert forall|j: int| 0 <= j < d.len() implies d[j] == (start[start.len() - 1 - j], size) by {}
        }
        assert(b@ =~= Seq::<usize>::empty());
    }
}

/// The blocks a full drain hands back, class by class from `from` on, each
/// with the size of its class.
pub open spec fn drain_order(v: Seq<Seq<usize>>, from: int) -> Seq<(usize, usize)>
    decreases v.len() - from,
{
    if from >= v.len() || from < 0 {
        Seq::empty()
    } else {
        bucket_drain(v[from], class_size(from) as usize) + drain_order(v, from + 1)
    }
}

/// Empties the cache, returning every cached block with the size of its class
/// for deallocation, in the order of `drain_order`.
pub fn tls_drain_all(cache: &mut TlsCache) -> (out: Vec<(usize, usize)>)
    requires
        old(cache).wf(),
    ensures
        final(cache).wf(),
        final(cache)@.len() == NUM_SIZE_CLASSES,
        forall|i: int| 0 <= i < NUM_SIZE_CLASSES ==> (#[trigger] final(cache)@[i]) == Seq::<usize>::empty(),
        out@ == drain_order(old(cache)@, 0),
{
    proof {
        old(cache).lemma_view();
    }
    let ghost v0 = cache@;
    let mut out: Vec<(usize, usize)> = Vec::new();
    let mut c: usize = 0;
    assert(out@ + drain_order(v0, 0) =~= drain_order(v0, 0));
    while c < NUM_SIZE_CLASSES
        invariant
            c <= NUM_SIZE_CLASSES,
            cache.wf(),
            v0.len() == NUM_SIZE_CLASSES,
            forall|i: int| 0 <= i < c ==> (#[trigger] cache@[i]) == Seq::<usize>::empty(),
            forall|i: int| c <= i < NUM_SIZE_CLASSES ==> (#[trigger] cache@[i]) == v0[i],
            out@ + drain_order(v0, c as int) == drain_order(v0, 0),
        decreases NUM_SIZE_CLASSES - c,
    {
        proof {
            cache.lemma_view();
        }
        let class_bytes = size_class_bytes(c);
        let ghost bs = cache.buckets@;
        let ghost vc = cache@;
        assert(vc[c as int] == bs[c as int]@);
        let mut b = cache.buckets.remove(c);
        let ghost pre = out@;
        drain_bucket(&mut b, class_bytes, &mut out);
        cache.buckets.insert(c, b);
        proof {
            assert(cache.buckets@ =~= bs.update(c as int, b));
            cache.lemma_view();
            assert(out@ + drain_order(v0, c + 1) =~= pre + drain_order(v0, c as int));
            assert forall|i: int| 0 <= i < NUM_SIZE_CLASSES && i != c implies (#[trigger] cache@[i]) == vc[i] by {
                assert(cache@[i] == cache.buckets@[i]@);
            }
            assert(cache@[c as int] == b@);
        }
        c = c + 1;
    }
    proof {
        assert(drain_order(v0, NUM_SIZE_CLASSES as int) =~= Seq::<(usize, usize)>::empty());
        assert(out@ + Seq::<(usize, usize)>::empty() =~= out@);
    }
    out
}

/// Statistics of one thread's cache.
pub struct TLSStats {
    /// Blocks cached over all classes.
    pub total_cached: usize,
    /// Blocks cached per class.
    pub per_class: Vec<usize>,
}

pub open spec fn total_cached_spec(v: Seq<Seq<usize>>, n: int) -> nat
    decreases n,
{
    if n <= 0 {
        0
    } else {
        total_cached_spec(v, n - 1) + v[n - 1].len()
    }
}

/// The cache's statistics: the count of each class and their sum.
pub fn tls_stats(cache: &TlsCache) -> (s: TLSStats)
    requires
        cache.wf(),
    ensures
        s.per_class@.len() == NUM_SIZE_CLASSES,
        forall|i: int| 0 <= i < NUM_SIZE_CLASSES ==> s.per_class@[i] == (#[trigger] cache@[i]).len(),
        s.total_cached == total_cached_spec(cache@, NUM_SIZE_CLASSES as int),
{
    proof {
        cache.lemma_view();
    }
    let mut per_class: Vec<usize> = Vec::new();
    let mut total: usize = 0;
    let mut c: usize = 0;
    while c < NUM_SIZE_CLASSES
        invariant
            c <= NUM_SIZE_CLASSES,
            cache.wf(),
            cache@.len() == NUM_SIZE_CLASSES,
            forall|i: int| 0 <= i < NUM_SIZE_CLASSES ==> #[trigger] cache@[i] == cache.buckets@[i]@,
            forall|i: int| 0 <= i < NUM_SIZE_CLASSES ==> (#[trigger] cache@[i]).len() <= MAX_CACHED_PER_CLASS,
            per_class@.len() == c,
            forall|i: int| 0 <= i < c ==> per_class@[i] == (#[trigger] cache@[i]).len(),
            total == total_cached_spec(cache@, c as int),
            total <= c * MAX_CACHED_PER_CLASS,
        decreases NUM_SIZE_CLASSES - c,
    {
        let n = cache.buckets[c].len();
        per_class.push(n);
        total = total + n;
        c = c + 1;
    }
    TLSStats { total_cached: total, per_class }
}

/// Law: what the cache takes back it hands out again: a block freed into a
/// class that is not full is the block the next allocation of any size of
/// that class gets, and that allocation leaves the cache as it was before the
/// free.
pub proof fn law_tls_free_then_alloc(v: Seq<Seq<usize>>, ptr: usize, size: usize, size2: usize)
    requires
        v.len() == NUM_SIZE_CLASSES,
        free_accepts(v, size),
        class_of(size2) == class_of(size),
    ensures
        alloc_result(after_free(v, ptr, size), size2) == Some(ptr),
        after_alloc(after_free(v, ptr, size), size2) == v,
{
    let c = class_of(size).unwrap() as int;
    assert(v.update(c, v[c].push(ptr))[c].drop_last() =~= v[c]);
    assert(v.update(c, v[c]) =~= v);
}

/// Law: a slab block holds every request of its class: the block made for a
/// request, and any block of the same class handed out for a later request,
/// has the class size as its capacity, which is at least what either asked for.
pub proof fn law_slab_block_holds_request(size: usize, size2: usize)
    requires
        class_of(size) is Some,
        class_of(size2) == class_of(size),
    ensures
        slab_capacity(size) == slab_capacity(size2),
        slab_capacity(size) >= size,
        slab_capacity(size2) >= size2,
{
}

/// Law: a size and the size of its class: the class holds the size, and the
/// class below does not.
pub proof fn law_size_class_fits(size: usize)
    ensures
        class_of(size) matches Some(i) ==> size <= class_size(i as int) && (i == 0 || size > class_size(
            i - 1,
        )),
        class_of(size) is None <==> size > 2048,
{
}

} // verus!
