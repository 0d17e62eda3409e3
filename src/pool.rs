use vstd::prelude::*;
use vstd::multiset::Multiset;
use vstd::seq_lib::{lemma_multiset_commutative, to_multiset_build, to_multiset_insert, to_multiset_len};

use crate::block::L2Transaction;

verus! {

/// Limits on one batch taken from a pool.
pub trait BatchSettings {
    spec fn spec_max_size(&self) -> usize;

    fn max_size(&self) -> (r: usize)
        ensures
            r == self.spec_max_size(),
    ;
}

/// Batch limits given by value.
#[derive(Clone, Copy, PartialEq, Eq, Structural, Debug)]
pub struct PoolSettings {
    pub max_size: usize,
}

impl BatchSettings for PoolSettings {
    open spec fn spec_max_size(&self) -> usize {
        self.max_size
    }

    fn max_size(&self) -> (r: usize) {
        self.max_size
    }
}

pub open spec fn min_len(k: usize, n: nat) -> nat {
    if (k as nat) < n {
        k as nat
    } else {
        n
    }
}

/// Pending L2 transactions waiting to be batched.
pub trait TransactionPool {
    /// The transactions held, as a multiset: the pool's order is its own policy.
    spec fn contents(&self) -> Multiset<L2Transaction>;

    fn insert(&mut self, tx: L2Transaction)
        ensures
            final(self).contents() == old(self).contents().insert(tx),
    ;

    /// Removes and returns up to `settings.max_size` transactions; the pool
    /// keeps exactly the rest.
    fn next_batch(&mut self, settings: PoolSettings) -> (r: Vec<L2Transaction>)
        ensures
            r@.len() == min_len(settings.max_size, old(self).contents().len()),
            r@.to_multiset().add(final(self).contents()) == old(self).contents(),
    ;
}

/// A pool that hands transactions out in the order they were inserted.
pub struct FifoPool {
    queue: Vec<L2Transaction>,
}

impl FifoPool {
    pub closed spec fn spec_queue(&self) -> Seq<L2Transaction> {
        self.queue@
    }

    pub fn new() -> (r: FifoPool)
        ensures
            r.spec_queue() == Seq::<L2Transaction>::empty(),
    {
        FifoPool { queue: Vec::new() }
    }

    pub fn len(&self) -> (r: usize)
        ensures
            r == self.spec_queue().len(),
    {
        self.queue.len()
    }

    pub fn push(&mut self, tx: L2Transaction)
        ensures
            final(self).spec_queue() == old(self).spec_queue().push(tx),
    {
        self.queue.push(tx);
    }

    /// The oldest `settings.max_size` transactions, in insertion order.
    pub fn take_batch(&mut self, settings: PoolSettings) -> (r: Vec<L2Transaction>)
        ensures
            r@ == old(self).spec_queue().take(min_len(settings.max_size, old(self).spec_queue().len()) as int),
            final(self).spec_queue() == old(self).spec_queue().skip(
                min_len(settings.max_size, old(self).spec_queue().len()) as int,
            ),
    {
        let (batch, rest) = split_front(&self.queue, settings.max_size());
        self.queue = rest;
        batch
    }
}

/// The first `max` transactions of `q` (all of them when it holds fewer), and the rest.
fn split_front(q: &Vec<L2Transaction>, max: usize) -> (r: (Vec<L2Transaction>, Vec<L2Transaction>))
    ensures
        r.0@ == q@.take(min_len(max, q@.len()) as int),
        r.1@ == q@.skip(min_len(max, q@.len()) as int),
{
    let k: usize = if max < q.len() {
        max
    } else {
        q.len()
    };
    let mut batch: Vec<L2Transaction> = Vec::new();
    let mut i: usize = 0;
    while i < k
        invariant
            k <= q@.len(),
            i <= k,
            batch@ == q@.take(i as int),
        decreases k - i,
    {
        batch.push(q[i]);
        i = i + 1;
        assert(batch@ =~= q@.take(i as int));
    }
    let mut rest: Vec<L2Transaction> = Vec::new();
    let mut j: usize = k;
    while j < q.len()
        invariant
            k <= j <= q@.len(),
            rest@ == q@.subrange(k as int, j as int),
        decreases q@.len() - j,
    {
        rest.push(q[j]);
        j = j + 1;
        assert(rest@ =~= q@.subrange(k as int, j as int));
    }
    assert(rest@ =~= q@.skip(k as int));
    (batch, rest)
}

proof fn lemma_split_contents(q: Seq<L2Transaction>, k: int)
    requires
        0 <= k <= q.len(),
    ensures
        q.take(k).to_multiset().add(q.skip(k).to_multiset()) == q.to_multiset(),
        q.to_multiset().len() == q.len(),
{
    lemma_multiset_commutative(q.take(k), q.skip(k));
    assert(q.take(k) + q.skip(k) =~= q);
    to_multiset_len(q);
}

impl TransactionPool for FifoPool {
    closed spec fn contents(&self) -> Multiset<L2Transaction> {
        self.queue@.to_multiset()
    }

    fn insert(&mut self, tx: L2Transaction) {
        proof {
            to_multiset_build(self.queue@, tx);
        }
        self.push(tx);
    }

    fn next_batch(&mut self, settings: PoolSettings) -> (r: Vec<L2Transaction>) {
        let ghost q = self.queue@;
        let r = self.take_batch(settings);
        proof {
            lemma_split_contents(q, min_len(settings.max_size, q.len()) as int);
        }
        r
    }
}

pub open spec fn by_value_desc(s: Seq<L2Transaction>) -> bool {
    forall|i: int, j: int| #![trigger s[i], s[j]] 0 <= i < j < s.len() ==> s[i].value >= s[j].value
}

/// A pool that hands out the transactions of highest value first; among
/// equal values, the one inserted first.
pub struct PriorityPool {
    queue: Vec<L2Transaction>,
}

impl PriorityPool {
    #[verifier::type_invariant]
    spec fn ordered(&self) -> bool {
        by_value_desc(self.queue@)
    }

    pub closed spec fn spec_queue(&self) -> Seq<L2Transaction> {
        self.queue@
    }

    pub fn new() -> (r: PriorityPool)
        ensures
            r.spec_queue() == Seq::<L2Transaction>::empty(),
    {
        PriorityPool { queue: Vec::new() }
    }

    pub fn len(&self) -> (r: usize)
        ensures
            r == self.spec_queue().len(),
    {
        self.queue.len()
    }

    /// Places `tx` after every transaction of at least its value and before the rest.
    pub fn push(&mut self, tx: L2Transaction)
        ensures
            by_value_desc(final(self).spec_queue()),
            exists|p: int|
                0 <= p <= old(self).spec_queue().len() && final(self).spec_queue() == old(self).spec_queue().insert(p, tx)
                    && (forall|j: int| 0 <= j < p ==> (#[trigger] old(self).spec_queue()[j]).value >= tx.value)
                    && (forall|j: int| p <= j < old(self).spec_queue().len() ==> (#[trigger] old(self).spec_queue()[j]).value < tx.value),
    {
        proof {
            use_type_invariant(&*self);
        }
        let ghost q = self.queue@;
        let mut i: usize = 0;
        while i < self.queue.len() && self.queue[i].value >= tx.value
            invariant
                i <= q.len(),
                self.queue@ == q,
                by_value_desc(q),
                forall|j: int| 0 <= j < i ==> (#[trigger] q[j]).value >= tx.value,
            decreases q.len() - i,
        {
            i = i + 1;
        }
        let ghost n = q.insert(i as int, tx);
        assert forall|j: int| i <= j < q.len() implies (#[trigger] q[j]).value < tx.value by {
            assert(q[i as int].value < tx.value);
            if j > i {
                assert(q[i as int].value >= q[j].value);
            }
        }
        assert forall|a: int, b: int| #![trigger n[a], n[b]] 0 <= a < b < n.len() implies n[a].value >= n[b].value by {
            if b < i {
                assert(n[a] == q[a] && n[b] == q[b]);
            } else if b == i {
                assert(n[a] == q[a]);
            } else if a < i {
                assert(n[a] == q[a] && n[b] == q[b - 1]);
            } else if a == i {
                assert(n[b] == q[b - 1]);
            } else {
                assert(n[a] == q[a - 1] && n[b] == q[b - 1]);
            }
        }
        assert(i as nat == min_len(i, q.len()));
        let (mut front, back) = split_front(&self.queue, i);
        front.push(tx);
        let mut j: usize = 0;
        while j < back.len()
            invariant
                i <= q.len(),
                back@ == q.skip(i as int),
                j <= back@.len(),
                front@ == q.take(i as int).push(tx) + back@.take(j as int),
            decreases back@.len() - j,
        {
            front.push(back[j]);
            j = j + 1;
            assert(front@ =~= q.take(i as int).push(tx) + back@.take(j as int));
        }
        assert(front@ =~= n);
        *self = PriorityPool { queue: front };
        assert(self.spec_queue() == q.insert(i as int, tx));
        assert(q == old(self).spec_queue());
        assert(0 <= i <= q.len() && self.spec_queue() == q.insert(i as int, tx)
            && (forall|j: int| 0 <= j < i ==> (#[trigger] q[j]).value >= tx.value)
            && (forall|j: int| i <= j < q.len() ==> (#[trigger] q[j]).value < tx.value));
    }

    /// The `settings.max_size` transactions of highest value, highest first.
    pub fn take_batch(&mut self, settings: PoolSettings) -> (r: Vec<L2Transaction>)
        ensures
            r@ == old(self).spec_queue().take(min_len(settings.max_size, old(self).spec_queue().len()) as int),
            final(self).spec_queue() == old(self).spec_queue().skip(
                min_len(settings.max_size, old(self).spec_queue().len()) as int,
            ),
            by_value_desc(r@),
            forall|i: int, j: int| #![trigger r@[i], final(self).spec_queue()[j]]
                0 <= i < r@.len() && 0 <= j < final(self).spec_queue().len()
                ==> r@[i].value >= final(self).spec_queue()[j].value,
    {
        proof {
            use_type_invariant(&*self);
        }
        let ghost q = self.queue@;
        let (batch, rest) = split_front(&self.queue, settings.max_size());
        let ghost k = min_len(settings.max_size, q.len()) as int;
        assert forall|a: int, b: int| #![trigger batch@[a], batch@[b]] 0 <= a < b < batch@.len() implies batch@[a].value >= batch@[b].value by {
            assert(batch@[a] == q[a] && batch@[b] == q[b]);
        }
        assert forall|a: int, b: int| #![trigger rest@[a], rest@[b]] 0 <= a < b < rest@.len() implies rest@[a].value >= rest@[b].value by {
            assert(rest@[a] == q[a + k] && rest@[b] == q[b + k]);
        }
        assert forall|a: int, b: int| #![trigger batch@[a], rest@[b]] 0 <= a < batch@.len() && 0 <= b < rest@.len() implies batch@[a].value >= rest@[b].value by {
            assert(batch@[a] == q[a] && rest@[b] == q[b + k]);
        }
        *self = PriorityPool { queue: rest };
        batch
    }
}

impl TransactionPool for PriorityPool {
    closed spec fn contents(&self) -> Multiset<L2Transaction> {
        self.queue@.to_multiset()
    }

    fn insert(&mut self, tx: L2Transaction) {
        let ghost q = self.queue@;
        self.push(tx);
        proof {
            let p = choose|p: int| 0 <= p <= q.len() && self.queue@ == q.insert(p, tx)
                && (forall|j: int| 0 <= j < p ==> (#[trigger] q[j]).value >= tx.value)
                && (forall|j: int| p <= j < q.len() ==> (#[trigger] q[j]).value < tx.value);
            to_multiset_insert(q, p, tx);
        }
    }

    fn next_batch(&mut self, settings: PoolSettings) -> (r: Vec<L2Transaction>) {
        let ghost q = self.queue@;
        let r = self.take_batch(settings);
        proof {
            lemma_split_contents(q, min_len(settings.max_size, q.len()) as int);
        }
        r
    }
}

/// A pool never hands a transaction out twice: over two batches taken in a
/// row, each transaction comes out at most as often as the pool held it
/// before the first, and each batch holds at most its `max_size`.
pub proof fn lemma_batches_never_repeat<P: TransactionPool>(
    p0: P,
    k1: PoolSettings,
    r1: Seq<L2Transaction>,
    p1: P,
    k2: PoolSettings,
    r2: Seq<L2Transaction>,
    p2: P,
)
    requires
        r1.len() == min_len(k1.max_size, p0.contents().len()),
        r1.to_multiset().add(p1.contents()) == p0.contents(),
        r2.len() == min_len(k2.max_size, p1.contents().len()),
        r2.to_multiset().add(p2.contents()) == p1.contents(),
    ensures
        r1.len() <= k1.max_size,
        r2.len() <= k2.max_size,
        forall|t: L2Transaction| r1.to_multiset().count(t) + r2.to_multiset().count(t) <= p0.contents().count(t),
{
}

} // verus!
