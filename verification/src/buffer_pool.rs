//! Generic best-fit buffer pool: recycles released buffers so that
//! allocations happen once and the runtime keeps a small set of live
//! buffers at various sizes.
//!
//! - `acquire(needed, create)` takes the most recently released buffer of
//!   the smallest pooled size that is at least `needed`; when no pooled
//!   size is large enough, `create(needed)` makes a new one.
//! - `release(buf, size)` returns a buffer to the pool keyed by its actual
//!   size, so that larger buffers can satisfy smaller future requests.
//!
//! The pool is modelled as a map from size to the stack of buffers of that
//! size (last released on top). It is stored in a `BTreeMap` from size to a
//! vector of buffers, none of them empty.

use std::collections::BTreeMap;
use std::mem::swap;
use vstd::prelude::*;
use vstd::std_specs::iter::IteratorSpec;

verus! {

// ── The model ───────────────────────────────────────────────────────────

/// No size in the pool maps to an empty stack.
pub open spec fn pool_map_wf<T>(m: Map<u64, Seq<T>>) -> bool {
    forall|k: u64| #[trigger] m.dom().contains(k) ==> m[k].len() > 0
}

/// `k` is the smallest pooled size that holds `needed` bytes.
pub open spec fn is_best_fit<T>(m: Map<u64, Seq<T>>, needed: u64, k: u64) -> bool {
    &&& m.dom().contains(k)
    &&& needed <= k
    &&& forall|k2: u64| #[trigger] m.dom().contains(k2) && needed <= k2 ==> k <= k2
}

/// Some pooled size holds `needed` bytes.
pub open spec fn has_fit<T>(m: Map<u64, Seq<T>>, needed: u64) -> bool {
    exists|k: u64| #[trigger] m.dom().contains(k) && needed <= k
}

/// The smallest pooled size that holds `needed` bytes (meaningful when
/// [`has_fit`] holds).
pub open spec fn best_fit<T>(m: Map<u64, Seq<T>>, needed: u64) -> u64 {
    choose|k: u64| is_best_fit(m, needed, k)
}

/// The pool after `buf` is returned under `size`.
pub open spec fn pool_release<T>(m: Map<u64, Seq<T>>, buf: T, size: u64) -> Map<u64, Seq<T>> {
    if m.dom().contains(size) {
        m.insert(size, m[size].push(buf))
    } else {
        m.insert(size, seq![buf])
    }
}

/// The pool after the most recently released buffer of `size` is taken.
pub open spec fn pool_take<T>(m: Map<u64, Seq<T>>, size: u64) -> Map<u64, Seq<T>> {
    if m[size].len() <= 1 {
        m.remove(size)
    } else {
        m.insert(size, m[size].drop_last())
    }
}

/// A best fit is the only one.
pub proof fn lemma_best_fit_unique<T>(m: Map<u64, Seq<T>>, needed: u64, k: u64)
    requires
        is_best_fit(m, needed, k),
    ensures
        has_fit(m, needed),
        best_fit(m, needed) == k,
{
    assert(m.dom().contains(k) && needed <= k);
    let b = best_fit(m, needed);
    assert(is_best_fit(m, needed, b));
    assert(b <= k);
    assert(k <= b);
}

/// Releasing a buffer and then acquiring its size gives that buffer back
/// and leaves the pool as it was: the released size is the best fit for
/// itself, and its most recent buffer is the one just released.
pub proof fn lemma_release_then_acquire<T>(m: Map<u64, Seq<T>>, buf: T, size: u64)
    requires
        pool_map_wf(m),
    ensures
        has_fit(pool_release(m, buf, size), size),
        best_fit(pool_release(m, buf, size), size) == size,
        pool_release(m, buf, size)[size].last() == buf,
        pool_take(pool_release(m, buf, size), size) == m,
        pool_map_wf(pool_release(m, buf, size)),
{
    let r = pool_release(m, buf, size);
    assert(is_best_fit(r, size, size));
    lemma_best_fit_unique(r, size, size);
    if m.dom().contains(size) {
        assert(m[size].push(buf).drop_last() =~= m[size]);
        assert(pool_take(r, size) =~= m);
    } else {
        assert(pool_take(r, size) =~= m);
    }
}

/// Some pooled size holding `needed` bytes is a best fit, no larger than
/// any fitting size `k` that is pooled.
pub proof fn lemma_best_fit_exists<T>(m: Map<u64, Seq<T>>, needed: u64, k: u64)
    requires
        m.dom().contains(k),
        needed <= k,
    ensures
        has_fit(m, needed),
        is_best_fit(m, needed, best_fit(m, needed)),
        best_fit(m, needed) <= k,
    decreases k,
{
    if exists|k2: u64| #[trigger] m.dom().contains(k2) && needed <= k2 && k2 < k {
        let k2 = choose|k2: u64| #[trigger] m.dom().contains(k2) && needed <= k2 && k2 < k;
        lemma_best_fit_exists(m, needed, k2);
    } else {
        assert(is_best_fit(m, needed, k));
        lemma_best_fit_unique(m, needed, k);
    }
}

/// A buffer released under `size` serves any later request for at most
/// `size` bytes: the request finds a fitting pooled size, no larger than
/// `size`.
pub proof fn lemma_release_serves<T>(m: Map<u64, Seq<T>>, buf: T, size: u64, needed: u64)
    requires
        needed <= size,
    ensures
        has_fit(pool_release(m, buf, size), needed),
        is_best_fit(pool_release(m, buf, size), needed, best_fit(pool_release(m, buf, size), needed)),
        best_fit(pool_release(m, buf, size), needed) <= size,
{
    lemma_best_fit_exists(pool_release(m, buf, size), needed, size);
}

// ── Counting buffers ────────────────────────────────────────────────────

/// Adds the number of buffers pooled under size `k` to `acc`.
pub open spec fn add_len<T>(m: Map<u64, Seq<T>>) -> spec_fn(nat, u64) -> nat {
    |acc: nat, k: u64| acc + m[k].len()
}

/// The number of buffers pooled under the sizes in `keys`.
pub open spec fn sum_over<T>(m: Map<u64, Seq<T>>, keys: Set<u64>) -> nat {
    keys.fold(0nat, add_len(m))
}

/// The number of buffers in a pool.
pub open spec fn pool_total<T>(m: Map<u64, Seq<T>>) -> nat {
    sum_over(m, m.dom())
}

/// The number of buffers pooled under the sizes `ks`, in that order.
spec fn seq_sum<T>(m: Map<u64, Seq<T>>, ks: Seq<u64>) -> nat
    decreases ks.len(),
{
    if ks.len() == 0 {
        0
    } else {
        seq_sum(m, ks.drop_last()) + m[ks.last()].len()
    }
}

proof fn lemma_add_len_commutative<T>(m: Map<u64, Seq<T>>)
    ensures
        vstd::set::fold::is_fun_commutative(add_len(m)),
{
    assert forall|a1: u64, a2: u64, b: nat| #[trigger] add_len(m)(add_len(m)(b, a2), a1) == add_len(m)(add_len(m)(b, a1), a2) by {}
}

proof fn lemma_sum_empty<T>(m: Map<u64, Seq<T>>)
    ensures
        sum_over(m, Set::<u64>::empty()) == 0,
{
    vstd::set::fold::lemma_fold_empty(0nat, add_len(m));
}

proof fn lemma_sum_insert<T>(m: Map<u64, Seq<T>>, keys: Set<u64>, k: u64)
    requires
        keys.finite(),
        !keys.contains(k),
    ensures
        sum_over(m, keys.insert(k)) == sum_over(m, keys) + m[k].len(),
{
    lemma_add_len_commutative(m);
    vstd::set::fold::lemma_fold_insert(keys, 0nat, add_len(m), k);
}

proof fn lemma_sum_remove<T>(m: Map<u64, Seq<T>>, keys: Set<u64>, k: u64)
    requires
        keys.finite(),
        keys.contains(k),
    ensures
        sum_over(m, keys) == sum_over(m, keys.remove(k)) + m[k].len(),
{
    let s = keys.remove(k);
    assert(s.insert(k) =~= keys);
    lemma_sum_insert(m, s, k);
}

/// The count depends only on the stacks under the counted sizes.
proof fn lemma_sum_agree<T>(m1: Map<u64, Seq<T>>, m2: Map<u64, Seq<T>>, keys: Set<u64>)
    requires
        keys.finite(),
        forall|k: u64| #[trigger] keys.contains(k) ==> m1[k].len() == m2[k].len(),
    ensures
        sum_over(m1, keys) == sum_over(m2, keys),
    decreases keys.len(),
{
    if keys.len() == 0 {
        assert(keys =~= Set::<u64>::empty());
        lemma_sum_empty(m1);
        lemma_sum_empty(m2);
    } else {
        let k = keys.choose();
        lemma_sum_remove(m1, keys, k);
        lemma_sum_remove(m2, keys, k);
        lemma_sum_agree(m1, m2, keys.remove(k));
    }
}

/// Summing over a duplicate-free list of sizes counts the set they form.
proof fn lemma_seq_sum<T>(m: Map<u64, Seq<T>>, ks: Seq<u64>)
    requires
        ks.no_duplicates(),
    ensures
        seq_sum(m, ks) == sum_over(m, ks.to_set()),
    decreases ks.len(),
{
    if ks.len() == 0 {
        assert(ks.to_set() =~= Set::<u64>::empty());
        lemma_sum_empty(m);
    } else {
        let init = ks.drop_last();
        assert(init.push(ks.last()) =~= ks);
        init.lemma_push_to_set_commute(ks.last());
        vstd::seq_lib::seq_to_set_is_finite(init);
        assert(!init.contains(ks.last())) by {
            if init.contains(ks.last()) {
                let j = choose|j: int| 0 <= j < init.len() && init[j] == ks.last();
                assert(ks[j] == ks[ks.len() - 1]);
            }
        }
        lemma_seq_sum(m, init);
        lemma_sum_insert(m, init.to_set(), ks.last());
    }
}

/// A prefix of the sizes counts no more than the whole list.
proof fn lemma_seq_sum_prefix<T>(m: Map<u64, Seq<T>>, ks: Seq<u64>, i: int)
    requires
        0 <= i <= ks.len(),
    ensures
        seq_sum(m, ks.take(i)) <= seq_sum(m, ks),
    decreases ks.len() - i,
{
    if i < ks.len() {
        lemma_seq_sum_prefix(m, ks, i + 1);
        assert(ks.take(i + 1).drop_last() =~= ks.take(i));
    } else {
        assert(ks.take(i) =~= ks);
    }
}

/// Releasing a buffer adds one to the count.
proof fn lemma_total_release<T>(m: Map<u64, Seq<T>>, buf: T, size: u64)
    requires
        m.dom().finite(),
    ensures
        pool_total(pool_release(m, buf, size)) == pool_total(m) + 1,
{
    let r = pool_release(m, buf, size);
    if m.dom().contains(size) {
        assert(r.dom() =~= m.dom());
        lemma_sum_remove(r, m.dom(), size);
        lemma_sum_remove(m, m.dom(), size);
        lemma_sum_agree(r, m, m.dom().remove(size));
    } else {
        assert(r.dom() =~= m.dom().insert(size));
        lemma_sum_insert(r, m.dom(), size);
        lemma_sum_agree(r, m, m.dom());
    }
}

/// Taking a buffer from a pooled size removes one from the count.
proof fn lemma_total_take<T>(m: Map<u64, Seq<T>>, k: u64)
    requires
        m.dom().finite(),
        m.dom().contains(k),
        m[k].len() > 0,
    ensures
        pool_total(pool_take(m, k)) + 1 == pool_total(m),
{
    let r = pool_take(m, k);
    lemma_sum_remove(m, m.dom(), k);
    if m[k].len() <= 1 {
        assert(r.dom() =~= m.dom().remove(k));
        lemma_sum_agree(r, m, m.dom().remove(k));
    } else {
        assert(r.dom() =~= m.dom());
        lemma_sum_remove(r, m.dom(), k);
        lemma_sum_agree(r, m, m.dom().remove(k));
    }
}

/// A pool with no empty stack holds no buffer exactly when it is empty.
proof fn lemma_total_zero<T>(m: Map<u64, Seq<T>>)
    requires
        m.dom().finite(),
        pool_map_wf(m),
    ensures
        (pool_total(m) == 0) == (m == Map::<u64, Seq<T>>::empty()),
{
    if m.dom().len() == 0 {
        assert(m.dom() =~= Set::<u64>::empty());
        assert(m =~= Map::<u64, Seq<T>>::empty());
        lemma_sum_empty(m);
    } else {
        let k = m.dom().choose();
        lemma_sum_remove(m, m.dom(), k);
        assert(m.dom().contains(k));
        assert(m != Map::<u64, Seq<T>>::empty());
    }
}

/// `k` is the smallest key of `m` that is at least `needed`.
spec fn is_first_key_from<V>(m: Map<u64, V>, needed: u64, k: u64) -> bool {
    &&& m.dom().contains(k)
    &&& needed <= k
    &&& forall|k2: u64| #[trigger] m.dom().contains(k2) && needed <= k2 ==> k <= k2
}

/// Calls `BTreeMap::range` from `needed` on and takes the first entry's
/// key. std documents that a `BTreeMap` yields its entries in ascending key
/// order and that `range(needed..)` yields those with a key of at least
/// `needed`; so the result is the smallest such key, or `None` when every
/// key is below `needed`.
#[verifier::external_body]
fn first_key_from<T>(map: &BTreeMap<u64, Vec<T>>, needed: u64) -> (r: Option<u64>)
    ensures
        match r {
            Some(k) => is_first_key_from(map@, needed, k),
            None => forall|k2: u64| #[trigger] map@.dom().contains(k2) ==> k2 < needed,
        },
{
    match map.range(needed..).next() {
        Some((k, _)) => Some(*k),
        None => None,
    }
}

// ── The pool ────────────────────────────────────────────────────────────

/// A generic best-fit buffer pool. `T` is the buffer handle type (e.g.
/// `Vec<u8>` for CPU buffers, a GPU buffer handle for GPU buffers).
///
/// Buffers are keyed by their *actual* size in bytes, not by the requested
/// size: a released 64KB buffer can satisfy a later 12KB request.
pub struct BufferPool<T> {
    free: BTreeMap<u64, Vec<T>>,
}

impl<T> View for BufferPool<T> {
    type V = Map<u64, Seq<T>>;

    /// For each pooled size, its buffers in release order.
    closed spec fn view(&self) -> Map<u64, Seq<T>> {
        Map::new(|k: u64| self.free@.contains_key(k) && self.free@[k]@.len() > 0, |k: u64| self.free@[k]@)
    }
}

impl<T> BufferPool<T> {
    #[verifier::type_invariant]
    spec fn inv(self) -> bool {
        forall|k: u64| #[trigger] self.free@.dom().contains(k) ==> self.free@[k]@.len() > 0
    }

    /// Total number of buffers in the pool.
    pub open spec fn count(&self) -> nat {
        pool_total(self@)
    }

    /// No pooled size maps to an empty stack of buffers.
    pub proof fn lemma_view_wf(&self)
        ensures
            pool_map_wf(self@),
    {
    }

    /// The pool holds no buffer exactly when no size is pooled: no size is
    /// ever left with an empty stack.
    pub proof fn lemma_empty_iff_no_buffers(&self)
        ensures
            (self@ == Map::<u64, Seq<T>>::empty()) == (self.count() == 0),
    {
        assert(self@.dom().subset_of(self.free@.dom()));
        vstd::set_lib::lemma_set_subset_finite(self.free@.dom(), self@.dom());
        lemma_total_zero(self@);
    }

    /// With the invariant, the view has exactly the stored sizes.
    proof fn lemma_view_dom(&self)
        requires
            self.inv(),
        ensures
            self@.dom() == self.free@.dom(),
            self@.dom().finite(),
    {
        assert(self@.dom() =~= self.free@.dom());
    }

    /// An empty pool.
    pub fn new() -> (r: Self)
        ensures
            r@ == Map::<u64, Seq<T>>::empty(),
            r.count() == 0,
    {
        let r = BufferPool { free: BTreeMap::new() };
        proof {
            assert(r@ =~= Map::<u64, Seq<T>>::empty());
            assert(r@.dom() =~= Set::<u64>::empty());
            lemma_sum_empty(r@);
        }
        r
    }

    /// Gets a buffer with at least `needed` bytes: the most recently
    /// released buffer of the smallest pooled size that holds `needed`
    /// bytes, or, when no pooled size is large enough, `create(needed)`.
    pub fn acquire(&mut self, needed: u64, create: impl FnOnce(u64) -> T) -> (r: T)
        requires
            create.requires((needed,)),
        ensures
            pool_map_wf(final(self)@),
            has_fit(old(self)@, needed) ==> {
                let k = best_fit(old(self)@, needed);
                &&& is_best_fit(old(self)@, needed, k)
                &&& r == old(self)@[k].last()
                &&& final(self)@ == pool_take(old(self)@, k)
                &&& final(self).count() + 1 == old(self).count()
            },
            !has_fit(old(self)@, needed) ==> {
                &&& create.ensures((needed,), r)
                &&& final(self)@ == old(self)@
                &&& final(self).count() == old(self).count()
            },
    {
        proof {
            use_type_invariant(&*self);
            self.lemma_view_dom();
        }
        let ghost m = self@;
        match first_key_from(&self.free, needed) {
            Some(k) => {
                proof {
                    assert(is_best_fit(m, needed, k));
                    lemma_best_fit_unique(m, needed, k);
                    lemma_total_take(m, k);
                }
                let mut free = BTreeMap::new();
                swap(&mut free, &mut self.free);
                let taken = free.remove(&k);
                match taken {
                    Some(mut list) => {
                        let popped = list.pop();
                        match popped {
                            Some(buf) => {
                                if list.len() > 0 {
                                    free.insert(k, list);
                                }
                                self.free = free;
                                proof {
                                    assert(self@ =~= pool_take(m, k));
                                }
                                buf
                            },
                            None => {
                                proof {
                                    assert(false);
                                }
                                self.free = free;
                                create(needed)
                            },
                        }
                    },
                    None => {
                        proof {
                            assert(false);
                        }
                        self.free = free;
                        create(needed)
                    },
                }
            },
            None => {
                create(needed)
            },
        }
    }

    /// A buffer of at least `needed` bytes to replace `previous` (a buffer
    /// and its size, if there is one): `previous` itself when it is large
    /// enough; otherwise `previous` goes back to the pool, which then serves
    /// the request as [`BufferPool::acquire`] does.
    pub fn replace(&mut self, previous: Option<(T, u64)>, needed: u64, create: impl FnOnce(u64) -> T) -> (r: T)
        requires
            create.requires((needed,)),
        ensures
            ({
                let keep = match previous {
                    Some(p) => p.1 >= needed,
                    None => false,
                };
                let m = match previous {
                    Some(p) => pool_release(old(self)@, p.0, p.1),
                    None => old(self)@,
                };
                &&& keep ==> previous == Some((r, previous.unwrap().1)) && final(self)@ == old(self)@
                &&& !keep && has_fit(m, needed) ==> r == m[best_fit(m, needed)].last() && final(self)@
                    == pool_take(m, best_fit(m, needed))
                &&& !keep && !has_fit(m, needed) ==> create.ensures((needed,), r) && final(self)@ == m
            }),
    {
        match previous {
            Some((buf, size)) => {
                if size >= needed {
                    buf
                } else {
                    self.release(buf, size);
                    self.acquire(needed, create)
                }
            },
            None => self.acquire(needed, create),
        }
    }

    /// Returns a buffer to the pool keyed by its actual `size` in bytes.
    pub fn release(&mut self, buf: T, size: u64)
        ensures
            final(self)@ == pool_release(old(self)@, buf, size),
            final(self).count() == old(self).count() + 1,
            pool_map_wf(final(self)@),
    {
        proof {
            use_type_invariant(&*self);
            self.lemma_view_dom();
        }
        let ghost m = self@;
        let mut free = BTreeMap::new();
        swap(&mut free, &mut self.free);
        let taken = free.remove(&size);
        let list = match taken {
            Some(mut list) => {
                list.push(buf);
                list
            },
            None => {
                let mut list = Vec::new();
                list.push(buf);
                list
            },
        };
        free.insert(size, list);
        self.free = free;
        proof {
            assert(self@ =~= pool_release(m, buf, size));
            lemma_total_release(m, buf, size);
        }
    }

    /// Total number of buffers currently in the pool.
    pub fn len(&self) -> (r: usize)
        requires
            self.count() <= usize::MAX,
        ensures
            r == self.count(),
    {
        proof {
            use_type_invariant(self);
            self.lemma_view_dom();
        }
        let values = self.free.values();
        let ghost ks = choose|key_seq: Seq<u64>|
            {
                &&& key_seq.to_set() == self.free@.dom()
                &&& key_seq.no_duplicates()
                &&& IteratorSpec::remaining(&values) == key_seq.map(|i: int, k: u64| &self.free@[k])
            };
        proof {
            lemma_seq_sum(self@, ks);
        }
        let mut total: usize = 0;
        for v in it: values
            invariant
                it.seq() == ks.map(|i: int, k: u64| &self.free@[k]),
                ks.no_duplicates(),
                ks.to_set() == self.free@.dom(),
                seq_sum(self@, ks) == self.count(),
                self.count() <= usize::MAX,
                self.inv(),
                total == seq_sum(self@, ks.take(it.index() as int)),
        {
            let ghost i = it.index();
            proof {
                assert(ks.take(i + 1).drop_last() =~= ks.take(i));
                assert(ks.contains(ks[i]));
                assert(self.free@.dom().contains(ks[i]));
                lemma_seq_sum_prefix(self@, ks, i + 1);
            }
            total = total + v.len();
        }
        proof {
            assert(ks.take(ks.len() as int) =~= ks);
        }
        total
    }

    /// Whether the pool holds no buffer.
    pub fn is_empty(&self) -> (r: bool)
        ensures
            r == (self@ == Map::<u64, Seq<T>>::empty()),
            r == (self.count() == 0),
    {
        proof {
            use_type_invariant(self);
            self.lemma_view_dom();
            lemma_total_zero(self@);
        }
        let r = self.free.is_empty();
        proof {
            if r {
                assert(self@ =~= Map::<u64, Seq<T>>::empty());
            } else {
                assert(self@.dom() != Set::<u64>::empty());
            }
        }
        r
    }

    /// Discards all pooled buffers, freeing their underlying resources.
    pub fn clear(&mut self)
        ensures
            final(self)@ == Map::<u64, Seq<T>>::empty(),
            final(self).count() == 0,
    {
        let mut free = BTreeMap::new();
        swap(&mut free, &mut self.free);
        free.clear();
        proof {
            assert(self@ =~= Map::<u64, Seq<T>>::empty());
            assert(self@.dom() =~= Set::<u64>::empty());
            lemma_sum_empty(self@);
        }
    }
}

/// One call on a pool, as far as its buffer count goes: a release, or a
/// request for a number of bytes.
pub enum PoolCall {
    /// `release` or `release_vec`.
    Release,
    /// `acquire` or `acquire_vec` for this many bytes.
    Acquire(u64),
}

/// What one call does to the buffer count: a release adds one; a request
/// takes one when some pooled size fits it and leaves the count otherwise.
pub open spec fn count_step<T>(before: BufferPool<T>, after: BufferPool<T>, call: PoolCall) -> bool {
    match call {
        PoolCall::Release => after.count() == before.count() + 1,
        PoolCall::Acquire(needed) => if has_fit(before@, needed) {
            after.count() + 1 == before.count()
        } else {
            after.count() == before.count()
        },
    }
}

/// The releases among the first `n` calls.
pub open spec fn releases(calls: Seq<PoolCall>, n: int) -> nat
    decreases n,
{
    if n <= 0 {
        0
    } else {
        releases(calls, n - 1) + if calls[n - 1] is Release { 1nat } else { 0nat }
    }
}

/// The requests among the first `n` calls that the pool served, each
/// judged on the pool it was made on.
pub open spec fn hits<T>(pools: Seq<BufferPool<T>>, calls: Seq<PoolCall>, n: int) -> nat
    decreases n,
{
    if n <= 0 {
        0
    } else {
        hits(pools, calls, n - 1) + match calls[n - 1] {
            PoolCall::Acquire(needed) => if has_fit(pools[n - 1]@, needed) { 1nat } else { 0nat },
            PoolCall::Release => 0nat,
        }
    }
}

/// Over any run of releases and requests (no `clear`), the pool ends with
/// the buffers it started with, plus one per release, minus one per
/// request served from the pool. `pools[i + 1]` is the pool after
/// `calls[i]`, made on `pools[i]`.
pub proof fn lemma_count_over_calls<T>(pools: Seq<BufferPool<T>>, calls: Seq<PoolCall>)
    requires
        pools.len() == calls.len() + 1,
        forall|i: int| 0 <= i < calls.len() ==> #[trigger] count_step(pools[i], pools[i + 1], calls[i]),
    ensures
        pools.last().count() + hits(pools, calls, calls.len() as int) == pools[0].count() + releases(
            calls,
            calls.len() as int,
        ),
    decreases calls.len(),
{
    if calls.len() > 0 {
        let n = calls.len() - 1;
        lemma_count_over_calls(pools.drop_last(), calls.drop_last());
        lemma_hits_prefix(pools, calls, n);
        lemma_releases_prefix(calls, n);
        assert(count_step(pools[n], pools[n + 1], calls[n]));
    }
}

proof fn lemma_hits_prefix<T>(pools: Seq<BufferPool<T>>, calls: Seq<PoolCall>, n: int)
    requires
        0 <= n < calls.len(),
        pools.len() == calls.len() + 1,
    ensures
        forall|m: int| 0 <= m <= n ==> #[trigger] hits(pools.drop_last(), calls.drop_last(), m) == hits(pools, calls, m),
    decreases n,
{
    if n > 0 {
        lemma_hits_prefix(pools, calls, n - 1);
    }
    assert forall|m: int| 0 <= m <= n implies #[trigger] hits(pools.drop_last(), calls.drop_last(), m) == hits(pools, calls, m) by {
        if m == n && n > 0 {
            assert(hits(pools.drop_last(), calls.drop_last(), n - 1) == hits(pools, calls, n - 1));
        }
    }
}

proof fn lemma_releases_prefix(calls: Seq<PoolCall>, n: int)
    requires
        0 <= n < calls.len(),
    ensures
        forall|m: int| 0 <= m <= n ==> #[trigger] releases(calls.drop_last(), m) == releases(calls, m),
    decreases n,
{
    if n > 0 {
        lemma_releases_prefix(calls, n - 1);
    }
    assert forall|m: int| 0 <= m <= n implies #[trigger] releases(calls.drop_last(), m) == releases(calls, m) by {
        if m == n && n > 0 {
            assert(releases(calls.drop_last(), n - 1) == releases(calls, n - 1));
        }
    }
}

/// Calls `Vec::capacity`: the number of elements the vector can hold
/// without reallocating. std documents that a vector's elements are followed
/// by `capacity - len` spare slots, so the capacity is at least the length;
/// how much more it is depends on what the allocator gave, and is not stated.
#[verifier::external_body]
fn vec_capacity(v: &Vec<u8>) -> (r: usize)
    ensures
        r >= v@.len(),
{
    v.capacity()
}

impl BufferPool<Vec<u8>> {
    /// Acquires an empty `Vec<u8>` that can hold at least `needed` bytes:
    /// a pooled one chosen as by [`BufferPool::acquire`], cleared, or a new
    /// one made with that capacity.
    pub fn acquire_vec(&mut self, needed: usize) -> (r: Vec<u8>)
        ensures
            r@ == Seq::<u8>::empty(),
            pool_map_wf(final(self)@),
            has_fit(old(self)@, needed as u64) ==> {
                &&& final(self)@ == pool_take(old(self)@, best_fit(old(self)@, needed as u64))
                &&& final(self).count() + 1 == old(self).count()
            },
            !has_fit(old(self)@, needed as u64) ==> final(self)@ == old(self)@ && final(self).count() == old(self).count(),
    {
        let mut v = self.acquire(needed as u64, |n: u64| Vec::with_capacity(n as usize));
        v.clear();
        v
    }

    /// Returns a `Vec<u8>` to the pool, cleared and keyed by its capacity,
    /// which is at least its length: a later request for at most that many
    /// bytes can be served by it.
    pub fn release_vec(&mut self, vec: Vec<u8>)
        ensures
            exists|b: Vec<u8>, cap: u64|
                b@ == Seq::<u8>::empty() && cap >= vec@.len() && final(self)@ == pool_release(old(self)@, b, cap),
            final(self).count() == old(self).count() + 1,
            pool_map_wf(final(self)@),
    {
        let mut vec = vec;
        let cap = vec_capacity(&vec) as u64;
        vec.clear();
        let ghost b = vec;
        self.release(vec, cap);
    }
}

} // verus!
