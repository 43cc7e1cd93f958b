//! Where on disk the entry with a given hash lies.

use crate::serde::Sequence;
use std::collections::HashMap;
use vstd::prelude::*;

verus! {

broadcast use vstd::std_specs::hash::group_hash_axioms;

/// The number of a block.
pub type BlockId = u32;

/// What the indexer knows of a hash.
#[derive(Debug, Clone, Copy)]
pub enum Index {
    /// The entry is live, at this address.
    Address(EntryAddress),
    /// The entry was deleted by the write with this sequence.
    Tombstone(Sequence),
}

impl Index {
    pub open spec fn spec_sequence(self) -> Sequence {
        match self {
            Index::Address(addr) => addr.sequence,
            Index::Tombstone(seq) => seq,
        }
    }

    /// The address of a live entry.
    pub open spec fn address(self) -> Option<EntryAddress> {
        match self {
            Index::Address(addr) => Some(addr),
            Index::Tombstone(_) => None,
        }
    }

    /// Get the sequence of the write that this index stands for.
    pub fn sequence(&self) -> (sequence: Sequence)
        ensures
            sequence == self.spec_sequence(),
            *self matches Index::Address(addr) ==> sequence == addr.sequence,
            *self matches Index::Tombstone(seq) ==> sequence == seq,
    {
        match self {
            Index::Address(addr) => addr.sequence,
            Index::Tombstone(seq) => *seq,
        }
    }
}

/// The address of an entry, with its hash.
#[derive(Debug, Clone, Copy)]
pub struct HashedEntryAddress {
    pub hash: u64,
    pub address: EntryAddress,
}

/// The address of an entry on disk.
#[derive(Debug, Clone, Copy, PartialEq, Eq)]
pub struct EntryAddress {
    pub block: BlockId,
    pub offset: u32,
    pub len: u32,
    pub sequence: Sequence,
}

/// An item that belongs to a shard of the indexer by its hash.
pub trait Hashed {
    spec fn spec_hash(&self) -> u64;

    fn hash(&self) -> (hash: u64)
        ensures
            hash == self.spec_hash(),
    ;
}

impl Hashed for HashedEntryAddress {
    open spec fn spec_hash(&self) -> u64 {
        self.hash
    }

    fn hash(&self) -> (hash: u64) {
        self.hash
    }
}

impl Hashed for (u64, Sequence) {
    open spec fn spec_hash(&self) -> u64 {
        self.0
    }

    fn hash(&self) -> (hash: u64) {
        self.0
    }
}

/// The shard, out of `shards`, that `hash` belongs to.
pub open spec fn spec_shard(hash: u64, shards: nat) -> nat {
    (hash as usize as nat) % shards
}

/// Get the shard, out of `shards`, that `hash` belongs to.
pub fn shard_of(hash: u64, shards: usize) -> (shard: usize)
    requires
        shards > 0,
    ensures
        shard == spec_shard(hash, shards as nat),
        shard < shards,
        shard == hash as usize % shards,
{
    hash as usize % shards
}

/// The items of `batch` that belong to `shard`, in their order.
pub open spec fn in_shard<T: Hashed>(batch: Seq<T>, shards: nat, shard: nat) -> Seq<T> {
    batch.filter(|item: T| spec_shard(item.spec_hash(), shards) == shard)
}

/// The items of `batch` that belong to the first `upto` shards, shard after shard.
pub open spec fn by_shard<T: Hashed>(batch: Seq<T>, shards: nat, upto: nat) -> Seq<T>
    decreases upto,
{
    if upto == 0 {
        Seq::empty()
    } else {
        by_shard(batch, shards, (upto - 1) as nat) + in_shard(batch, shards, (upto - 1) as nat)
    }
}

/// [`itertools::Itertools::into_group_map_by`] on the items of a vector, keyed by their shard: the
/// shards that some item belongs to, each with its items in their order.
#[verifier::external_body]
fn group_by_shard<T: Hashed>(batch: Vec<T>, shards: usize) -> (groups: HashMap<usize, Vec<T>>)
    requires
        shards > 0,
    ensures
        forall|shard: usize|
            #![trigger groups@.contains_key(shard)]
            if in_shard(batch@, shards as nat, shard as nat).len() == 0 {
                !groups@.contains_key(shard)
            } else {
                &&& groups@.contains_key(shard)
                &&& groups@[shard]@ == in_shard(batch@, shards as nat, shard as nat)
            },
{
    itertools::Itertools::into_group_map_by(batch.into_iter(), |item| shard_of(item.hash(), shards))
}

/// What is known of every hash, after a write: the newer of what was known and `index`. On equal
/// sequences `index` is taken, which is how an entry is reinserted.
pub open spec fn supersede(m: Map<u64, Index>, hash: u64, index: Index) -> Map<u64, Index> {
    if m.contains_key(hash) && index.spec_sequence() < m[hash].spec_sequence() {
        m
    } else {
        m.insert(hash, index)
    }
}

/// The address that a write leaves behind: that of what was known, or of `index` itself if it
/// comes too late.
pub open spec fn superseded(m: Map<u64, Index>, hash: u64, index: Index) -> Option<EntryAddress> {
    if !m.contains_key(hash) {
        None
    } else if index.spec_sequence() < m[hash].spec_sequence() {
        index.address()
    } else {
        m[hash].address()
    }
}

/// One step of a batch: the map after it, and what it leaves behind.
pub type Step<T, O> = spec_fn(Map<u64, Index>, T) -> (Map<u64, Index>, Option<O>);

/// The steps of a batch, one item after the other: the map after them, and what they leave behind.
pub open spec fn run<T, O>(step: Step<T, O>, m: Map<u64, Index>, batch: Seq<T>) -> (
    Map<u64, Index>,
    Seq<O>,
)
    decreases batch.len(),
{
    if batch.len() == 0 {
        (m, Seq::empty())
    } else {
        let (before, olds) = run(step, m, batch.drop_last());
        let (after, old_item) = step(before, batch.last());
        (
            after,
            match old_item {
                Some(o) => olds.push(o),
                None => olds,
            },
        )
    }
}

/// The insertion of one live entry.
pub open spec fn insert_step() -> Step<HashedEntryAddress, HashedEntryAddress> {
    |m: Map<u64, Index>, item: HashedEntryAddress|
        (
            supersede(m, item.hash, Index::Address(item.address)),
            match superseded(m, item.hash, Index::Address(item.address)) {
                Some(address) => Some(HashedEntryAddress { hash: item.hash, address }),
                None => None,
            },
        )
}

/// The removal of one entry, unless it was written after the given sequence. Only live entries
/// are removed: a tombstone stays, so that an entry older than its deletion cannot come back.
pub open spec fn remove_step() -> Step<(u64, Sequence), EntryAddress> {
    |m: Map<u64, Index>, item: (u64, Sequence)|
        if m.contains_key(item.0) && m[item.0] is Address && item.1 >= m[item.0].spec_sequence() {
            (m.remove(item.0), m[item.0].address())
        } else {
            (m, None)
        }
}

/// A step looks at, and changes, nothing but the hash of its item.
pub open spec fn local<T: Hashed, O>(step: Step<T, O>) -> bool {
    forall|m: Map<u64, Index>, a: T, b: T|
        #![trigger step(step(m, a).0, b)]
        a.spec_hash() != b.spec_hash() ==> {
            &&& step(step(m, a).0, b).0 == step(step(m, b).0, a).0
            &&& step(step(m, a).0, b).1 == step(m, b).1
        }
}

proof fn insert_step_local()
    ensures
        local(insert_step()),
{
    let step = insert_step();
    assert forall|m: Map<u64, Index>, a: HashedEntryAddress, b: HashedEntryAddress|
        a.spec_hash() != b.spec_hash() implies {
        &&& (#[trigger] step(step(m, a).0, b)).0 == step(step(m, b).0, a).0
        &&& step(step(m, a).0, b).1 == step(m, b).1
    } by {
        assert(step(step(m, a).0, b).0 =~= step(step(m, b).0, a).0);
    }
}

proof fn remove_step_local()
    ensures
        local(remove_step()),
{
    let step = remove_step();
    assert forall|m: Map<u64, Index>, a: (u64, Sequence), b: (u64, Sequence)|
        a.spec_hash() != b.spec_hash() implies {
        &&& (#[trigger] step(step(m, a).0, b)).0 == step(step(m, b).0, a).0
        &&& step(step(m, a).0, b).1 == step(m, b).1
    } by {
        assert(step(step(m, a).0, b).0 =~= step(step(m, b).0, a).0);
    }
}

/// Two neighbouring items with different hashes can change places.
proof fn run_swap<T: Hashed, O>(step: Step<T, O>, m: Map<u64, Index>, s: Seq<T>, a: T, b: T)
    requires
        local(step),
        a.spec_hash() != b.spec_hash(),
    ensures
        run(step, m, s.push(a).push(b)).0 == run(step, m, s.push(b).push(a)).0,
        run(step, m, s.push(a).push(b)).1.to_multiset() == run(
            step,
            m,
            s.push(b).push(a),
        ).1.to_multiset(),
{
    broadcast use vstd::seq_lib::group_to_multiset_ensures;

    assert(s.push(a).push(b).drop_last() =~= s.push(a));
    assert(s.push(b).push(a).drop_last() =~= s.push(b));
    assert(s.push(a).drop_last() =~= s);
    assert(s.push(b).drop_last() =~= s);
    reveal_with_fuel(run, 3);
    let (before, olds) = run(step, m, s);
    assert(step(step(before, a).0, b).0 == step(step(before, b).0, a).0);
    assert(step(step(before, b).0, a).1 == step(before, a).1);
    assert(step(step(before, a).0, b).1 == step(before, b).1);
    let ab = run(step, m, s.push(a).push(b)).1;
    let ba = run(step, m, s.push(b).push(a)).1;
    assert(ab.to_multiset() =~= ba.to_multiset());
}

/// What comes after a batch depends on the map after it alone, and on what it leaves behind up to
/// the order.
proof fn run_congruent<T, O>(step: Step<T, O>, m: Map<u64, Index>, s: Seq<T>, t: Seq<T>, x: T)
    requires
        run(step, m, s).0 == run(step, m, t).0,
        run(step, m, s).1.to_multiset() == run(step, m, t).1.to_multiset(),
    ensures
        run(step, m, s.push(x)).0 == run(step, m, t.push(x)).0,
        run(step, m, s.push(x)).1.to_multiset() == run(step, m, t.push(x)).1.to_multiset(),
{
    broadcast use vstd::seq_lib::group_to_multiset_ensures;

    assert(s.push(x).drop_last() =~= s);
    assert(t.push(x).drop_last() =~= t);
}

/// An item can move behind items with other hashes.
proof fn run_move_back<T: Hashed, O>(
    step: Step<T, O>,
    m: Map<u64, Index>,
    s: Seq<T>,
    x: T,
    t: Seq<T>,
)
    requires
        local(step),
        forall|i: int| 0 <= i < t.len() ==> (#[trigger] t[i]).spec_hash() != x.spec_hash(),
    ensures
        run(step, m, s.push(x) + t).0 == run(step, m, (s + t).push(x)).0,
        run(step, m, s.push(x) + t).1.to_multiset() == run(
            step,
            m,
            (s + t).push(x),
        ).1.to_multiset(),
    decreases t.len(),
{
    if t.len() == 0 {
        assert(s.push(x) + t =~= (s + t).push(x));
    } else {
        let y = t.last();
        let t0 = t.drop_last();
        run_move_back(step, m, s, x, t0);
        run_congruent(step, m, s.push(x) + t0, (s + t0).push(x), y);
        run_swap(step, m, s + t0, x, y);
        assert((s.push(x) + t0).push(y) =~= s.push(x) + t);
        assert((s + t0).push(y) =~= s + t);
    }
}

/// Splitting a batch by shard distributes over its last item.
proof fn by_shard_push<T: Hashed>(batch: Seq<T>, x: T, shards: nat, upto: nat)
    requires
        upto <= shards,
        shards > 0,
    ensures
        ({
            let home = spec_shard(x.spec_hash(), shards);
            let head = by_shard(batch, shards, home + 1);
            &&& upto <= home ==> by_shard(batch.push(x), shards, upto) == by_shard(
                batch,
                shards,
                upto,
            )
            &&& upto > home ==> exists|t: Seq<T>|
                #![trigger head + t]
                {
                    &&& by_shard(batch, shards, upto) == head + t
                    &&& by_shard(batch.push(x), shards, upto) == head.push(x) + t
                    &&& forall|i: int|
                        0 <= i < t.len() ==> spec_shard((#[trigger] t[i]).spec_hash(), shards)
                            > home
                }
        }),
    decreases upto,
{
    if upto > 0 {
        let last = (upto - 1) as nat;
        let home = spec_shard(x.spec_hash(), shards);
        let head = by_shard(batch, shards, home + 1);
        by_shard_push(batch, x, shards, last);
        let pred = |item: T| spec_shard(item.spec_hash(), shards) == last;
        let group = in_shard(batch, shards, last);
        assert(in_shard(batch.push(x), shards, last) == if last == home {
            group.push(x)
        } else {
            group
        }) by {
            reveal(Seq::filter);
            assert(batch.push(x).drop_last() =~= batch);
        }
        if last == home {
            assert(by_shard(batch, shards, upto) =~= head + Seq::<T>::empty());
            assert(by_shard(batch.push(x), shards, upto) =~= head.push(x) + Seq::<T>::empty());
        } else if last > home {
            let t = choose|t: Seq<T>|
                #![trigger head + t]
                {
                    &&& by_shard(batch, shards, last) == head + t
                    &&& by_shard(batch.push(x), shards, last) == head.push(x) + t
                    &&& forall|i: int|
                        0 <= i < t.len() ==> spec_shard((#[trigger] t[i]).spec_hash(), shards)
                            > home
                };
            let t2 = t + group;
            assert forall|i: int| 0 <= i < t2.len() implies spec_shard(
                (#[trigger] t2[i]).spec_hash(),
                shards,
            ) > home by {
                if i >= t.len() {
                    broadcast use vstd::seq_lib::group_filter_ensures;

                    assert(t2[i] == group[i - t.len()]);
                    assert(pred(group[i - t.len()]));
                }
            }
            assert(by_shard(batch, shards, upto) =~= head + t2);
            assert(by_shard(batch.push(x), shards, upto) =~= head.push(x) + t2);
        }
    }
}

/// The result of a batch does not depend on the number of shards: splitting it by shard changes
/// neither the map, nor what is left behind up to the order.
pub proof fn sharding_is_invisible<T: Hashed, O>(
    step: Step<T, O>,
    m: Map<u64, Index>,
    batch: Seq<T>,
    shards: nat,
)
    requires
        local(step),
        shards > 0,
    ensures
        run(step, m, by_shard(batch, shards, shards)).0 == run(step, m, batch).0,
        run(step, m, by_shard(batch, shards, shards)).1.to_multiset() == run(
            step,
            m,
            batch,
        ).1.to_multiset(),
    decreases batch.len(),
{
    if batch.len() == 0 {
        by_shard_empty(batch, shards, shards);
    } else {
        let x = batch.last();
        let rest = batch.drop_last();
        assert(rest.push(x) =~= batch);
        sharding_is_invisible(step, m, rest, shards);
        by_shard_push(rest, x, shards, shards);
        let home = spec_shard(x.spec_hash(), shards);
        let head = by_shard(rest, shards, home + 1);
        assert(home < shards);
        let t = choose|t: Seq<T>|
            #![trigger head + t]
            {
                &&& by_shard(rest, shards, shards) == head + t
                &&& by_shard(rest.push(x), shards, shards) == head.push(x) + t
                &&& forall|i: int|
                    0 <= i < t.len() ==> spec_shard((#[trigger] t[i]).spec_hash(), shards) > home
            };
        run_move_back(step, m, head, x, t);
        run_congruent(step, m, by_shard(rest, shards, shards), rest, x);
    }
}

proof fn by_shard_empty<T: Hashed>(batch: Seq<T>, shards: nat, upto: nat)
    requires
        batch.len() == 0,
    ensures
        by_shard(batch, shards, upto) == batch,
    decreases upto,
{
    reveal(Seq::filter);
    if upto > 0 {
        by_shard_empty(batch, shards, (upto - 1) as nat);
        assert(by_shard(batch, shards, upto) =~= batch);
    } else {
        assert(by_shard(batch, shards, upto) =~= batch);
    }
}

/// [`Indexer`] records key hash to entry address on disk.
#[derive(Debug)]
pub struct Indexer {
    shards: Vec<HashMap<u64, Index>>,
}

impl View for Indexer {
    type V = Map<u64, Index>;

    closed spec fn view(&self) -> Map<u64, Index> {
        Map::new(
            |hash: u64|
                self.shards@.len() > 0 && self.shards@[self.home(hash)]@.contains_key(hash),
            |hash: u64| self.shards@[self.home(hash)]@[hash],
        )
    }
}

impl Indexer {
    /// The shard of a hash.
    spec fn home(self, hash: u64) -> int {
        spec_shard(hash, self.spec_shards()) as int
    }

    /// The number of shards.
    pub closed spec fn spec_shards(self) -> nat {
        self.shards@.len()
    }

    /// There are shards to work with, and every hash is kept in its own shard.
    pub closed spec fn wf(self) -> bool {
        &&& self.shards@.len() > 0
        &&& forall|shard: int, hash: u64|
            0 <= shard < self.shards@.len() && (
            #[trigger] self.shards@[shard]@.contains_key(hash)) ==> self.home(hash) == shard
    }

    /// The live entry with the given hash.
    pub open spec fn lookup(self, hash: u64) -> Option<EntryAddress> {
        if self@.contains_key(hash) {
            self@[hash].address()
        } else {
            None
        }
    }

    /// Create an indexer that knows of no entry.
    pub fn new(shards: usize) -> (indexer: Indexer)
        ensures
            indexer.spec_shards() == shards,
            indexer@ == Map::<u64, Index>::empty(),
            indexer.wf() <==> shards > 0,
    {
        let mut v: Vec<HashMap<u64, Index>> = Vec::new();
        for i in 0..shards
            invariant
                v@.len() == i,
                forall|j: int| 0 <= j < i ==> (#[trigger] v@[j])@ == Map::<u64, Index>::empty(),
        {
            v.push(HashMap::new());
        }
        let indexer = Indexer { shards: v };
        assert(indexer@ =~= Map::<u64, Index>::empty());
        indexer
    }

    /// Record that the entry was deleted by the write with the given sequence. Returns the address
    /// that is no longer in use.
    pub fn insert_tombstone(&mut self, hash: u64, sequence: Sequence) -> (old_address: Option<
        EntryAddress,
    >)
        requires
            old(self).wf(),
        ensures
            final(self).wf(),
            final(self).spec_shards() == old(self).spec_shards(),
            final(self)@ == supersede(old(self)@, hash, Index::Tombstone(sequence)),
            old_address == superseded(old(self)@, hash, Index::Tombstone(sequence)),
            old_address == match old(self).lookup(hash) {
                Some(address) => if sequence >= address.sequence {
                    Some(address)
                } else {
                    None
                },
                None => None,
            },
            old_address is Some ==> final(self).lookup(hash) is None,
            old_address is None ==> final(self).lookup(hash) == old(self).lookup(hash),
            forall|other: u64|
                other != hash ==> #[trigger] final(self).lookup(other) == old(self).lookup(other),
    {
        let shard: usize = self.shard(hash);
        let r = Self::insert_inner(&mut self.shards[shard], hash, Index::Tombstone(sequence));
        assert(self@ =~= supersede(old(self)@, hash, Index::Tombstone(sequence)));
        r
    }

    /// Record the addresses of a batch of entries. Returns the addresses that are no longer in
    /// use, shard after shard.
    pub fn insert_batch(&mut self, batch: Vec<HashedEntryAddress>) -> (olds: Vec<
        HashedEntryAddress,
    >)
        requires
            old(self).wf(),
        ensures
            final(self).wf(),
            final(self).spec_shards() == old(self).spec_shards(),
            ({
                let shards = old(self).spec_shards();
                let split = by_shard(batch@, shards, shards);
                (final(self)@, olds@) == run(insert_step(), old(self)@, split)
            }),
            final(self)@ == run(insert_step(), old(self)@, batch@).0,
            olds@.to_multiset() == run(insert_step(), old(self)@, batch@).1.to_multiset(),
    {
        let shards: usize = self.shards.len();
        let ghost n = shards as nat;
        let ghost items = batch@;
        let mut groups = group_by_shard(batch, shards);
        let mut olds: Vec<HashedEntryAddress> = Vec::new();
        let ghost step = insert_step();
        let mut s: usize = 0;
        while s < shards
            invariant
                self.wf(),
                shards == n,
                s <= shards,
                self.spec_shards() == n,
                old(self).spec_shards() == n,
                step == insert_step(),
                forall|shard: usize|
                    #![trigger groups@.contains_key(shard)]
                    shard >= s ==> if in_shard(items, n, shard as nat).len() == 0 {
                        !groups@.contains_key(shard)
                    } else {
                        &&& groups@.contains_key(shard)
                        &&& groups@[shard]@ == in_shard(items, n, shard as nat)
                    },
                (self@, olds@) == run(step, old(self)@, by_shard(items, n, s as nat)),
            decreases shards - s,
        {
            let ghost head = by_shard(items, n, s as nat);
            let ghost group = in_shard(items, n, s as nat);
            match groups.remove(&s) {
                Some(g) => {
                    assert(g@ == group);
                    let mut i: usize = 0;
                    assert(head + group.take(0) =~= head);
                    while i < g.len()
                        invariant
                            self.wf(),
                            self.spec_shards() == n,
                            s < shards,
                            shards == n,
                            step == insert_step(),
                            g@ == group,
                            group == in_shard(items, n, s as nat),
                            i <= g@.len(),
                            (self@, olds@) == run(step, old(self)@, head + group.take(i as int)),
                        decreases g@.len() - i,
                    {
                        let haddr = g[i];
                        proof {
                            broadcast use vstd::seq_lib::group_filter_ensures;

                            let pred = |item: HashedEntryAddress|
                                spec_shard(item.spec_hash(), n) == s as nat;
                            assert(pred(group[i as int]));
                        }
                        let ghost pre = self@;
                        let index = Index::Address(haddr.address);
                        let r = Self::insert_inner(&mut self.shards[s], haddr.hash, index);
                        assert(self@ =~= supersede(pre, haddr.hash, index));
                        if let Some(address) = r {
                            olds.push(HashedEntryAddress { hash: haddr.hash, address });
                        }
                        proof {
                            let next = head + group.take(i + 1);
                            assert(next.drop_last() =~= head + group.take(i as int));
                            assert(next.last() == haddr);
                        }
                        i = i + 1;
                    }
                    assert(head + group.take(i as int) =~= by_shard(items, n, (s + 1) as nat));
                },
                None => {
                    assert(group.len() == 0);
                    assert(head + group =~= head);
                },
            }
            assert(by_shard(items, n, (s + 1) as nat) == head + group);
            s = s + 1;
        }
        proof {
            insert_step_local();
            sharding_is_invisible(step, old(self)@, items, n);
        }
        olds
    }

    /// Get the address of a live entry.
    pub fn get(&self, hash: u64) -> (address: Option<EntryAddress>)
        requires
            self.wf(),
        ensures
            address == self.lookup(hash),
            address matches Some(a) ==> self@.contains_key(hash) && self@[hash] == Index::Address(a),
            self@.contains_key(hash) && self@[hash] is Address ==> address is Some,
    {
        let shard: usize = self.shard(hash);
        match self.shards[shard].get(&hash) {
            Some(index) => match index {
                Index::Address(addr) => Some(*addr),
                Index::Tombstone(_) => None,
            },
            None => None,
        }
    }

    /// Forget a live entry. Returns the address that is no longer in use. A tombstone stays.
    pub fn remove(&mut self, hash: u64) -> (address: Option<EntryAddress>)
        requires
            old(self).wf(),
        ensures
            final(self).wf(),
            final(self).spec_shards() == old(self).spec_shards(),
            address == old(self).lookup(hash),
            final(self)@ == if address is Some {
                old(self)@.remove(hash)
            } else {
                old(self)@
            },
            final(self).lookup(hash) is None,
            forall|other: u64|
                other != hash ==> #[trigger] final(self).lookup(other) == old(self).lookup(other),
    {
        let shard: usize = self.shard(hash);
        let live = match self.shards[shard].get(&hash) {
            Some(index) => match index {
                Index::Address(_) => true,
                Index::Tombstone(_) => false,
            },
            None => false,
        };
        if live {
            let r = self.shards[shard].remove(&hash);
            assert(self@ =~= old(self)@.remove(hash));
            match r {
                Some(index) => Self::extract_address(index),
                None => None,
            }
        } else {
            None
        }
    }

    /// Forget a batch of live entries, but for those that were written after the given sequences.
    /// Tombstones stay. Returns the addresses that are no longer in use, shard after shard.
    pub fn remove_batch(&mut self, batch: Vec<(u64, Sequence)>) -> (olds: Vec<EntryAddress>)
        requires
            old(self).wf(),
        ensures
            final(self).wf(),
            final(self).spec_shards() == old(self).spec_shards(),
            ({
                let shards = old(self).spec_shards();
                let split = by_shard(batch@, shards, shards);
                (final(self)@, olds@) == run(remove_step(), old(self)@, split)
            }),
            final(self)@ == run(remove_step(), old(self)@, batch@).0,
            olds@.to_multiset() == run(remove_step(), old(self)@, batch@).1.to_multiset(),
    {
        let shards: usize = self.shards.len();
        let ghost n = shards as nat;
        let ghost items = batch@;
        let mut groups = group_by_shard(batch, shards);
        let mut olds: Vec<EntryAddress> = Vec::new();
        let ghost step = remove_step();
        let mut s: usize = 0;
        while s < shards
            invariant
                self.wf(),
                shards == n,
                s <= shards,
                self.spec_shards() == n,
                old(self).spec_shards() == n,
                step == remove_step(),
                forall|shard: usize|
                    #![trigger groups@.contains_key(shard)]
                    shard >= s ==> if in_shard(items, n, shard as nat).len() == 0 {
                        !groups@.contains_key(shard)
                    } else {
                        &&& groups@.contains_key(shard)
                        &&& groups@[shard]@ == in_shard(items, n, shard as nat)
                    },
                (self@, olds@) == run(step, old(self)@, by_shard(items, n, s as nat)),
            decreases shards - s,
        {
            let ghost head = by_shard(items, n, s as nat);
            let ghost group = in_shard(items, n, s as nat);
            match groups.remove(&s) {
                Some(g) => {
                    assert(g@ == group);
                    let mut i: usize = 0;
                    assert(head + group.take(0) =~= head);
                    while i < g.len()
                        invariant
                            self.wf(),
                            self.spec_shards() == n,
                            s < shards,
                            shards == n,
                            step == remove_step(),
                            g@ == group,
                            group == in_shard(items, n, s as nat),
                            i <= g@.len(),
                            (self@, olds@) == run(step, old(self)@, head + group.take(i as int)),
                        decreases g@.len() - i,
                    {
                        let (hash, sequence) = g[i];
                        proof {
                            broadcast use vstd::seq_lib::group_filter_ensures;

                            let pred = |item: (u64, Sequence)|
                                spec_shard(item.spec_hash(), n) == s as nat;
                            assert(pred(group[i as int]));
                        }
                        let ghost pre = self@;
                        let evict = match self.shards[s].get(&hash) {
                            Some(index) => match index {
                                Index::Address(addr) => sequence >= addr.sequence,
                                Index::Tombstone(_) => false,
                            },
                            None => false,
                        };
                        if evict {
                            let r = self.shards[s].remove(&hash);
                            assert(self@ =~= pre.remove(hash));
                            if let Some(index) = r {
                                if let Some(address) = Self::extract_address(index) {
                                    olds.push(address);
                                }
                            }
                        }
                        proof {
                            let next = head + group.take(i + 1);
                            assert(next.drop_last() =~= head + group.take(i as int));
                            assert(next.last() == (hash, sequence));
                        }
                        i = i + 1;
                    }
                    assert(head + group.take(i as int) =~= by_shard(items, n, (s + 1) as nat));
                },
                None => {
                    assert(group.len() == 0);
                    assert(head + group =~= head);
                },
            }
            assert(by_shard(items, n, (s + 1) as nat) == head + group);
            s = s + 1;
        }
        proof {
            remove_step_local();
            sharding_is_invisible(step, old(self)@, items, n);
        }
        olds
    }

    /// Forget everything, tombstones included.
    pub fn clear(&mut self)
        requires
            old(self).wf(),
        ensures
            final(self).wf(),
            final(self).spec_shards() == old(self).spec_shards(),
            final(self)@ == Map::<u64, Index>::empty(),
    {
        let n: usize = self.shards.len();
        for i in 0..n
            invariant
                self.shards@.len() == n,
                n == old(self).shards@.len(),
                forall|j: int|
                    0 <= j < i ==> (#[trigger] self.shards@[j])@ == Map::<u64, Index>::empty(),
        {
            self.shards[i].clear();
        }
        assert(self@ =~= Map::<u64, Index>::empty());
    }

    fn shard(&self, hash: u64) -> (shard: usize)
        requires
            self.wf(),
        ensures
            shard == self.home(hash),
            shard < self.shards@.len(),
    {
        shard_of(hash, self.shards.len())
    }

    fn insert_inner(shard: &mut HashMap<u64, Index>, hash: u64, index: Index) -> (r: Option<
        EntryAddress,
    >)
        ensures
            final(shard)@ == supersede(old(shard)@, hash, index),
            r == superseded(old(shard)@, hash, index),
    {
        let known = match shard.get(&hash) {
            Some(known) => Some(known.sequence()),
            None => None,
        };
        match known {
            Some(sequence) => {
                // `>` for updates.
                // `=` for reinsertions.
                if index.sequence() >= sequence {
                    match shard.insert(hash, index) {
                        Some(superseded) => Self::extract_address(superseded),
                        None => None,
                    }
                } else {
                    Self::extract_address(index)
                }
            },
            None => {
                shard.insert(hash, index);
                None
            },
        }
    }

    fn extract_address(index: Index) -> (address: Option<EntryAddress>)
        ensures
            address == index.address(),
    {
        match index {
            Index::Address(addr) => Some(addr),
            Index::Tombstone(_) => None,
        }
    }
}

/// The shard of a hash is what is left of it after taking off as many shards as go into it, so it is
/// one of the shards.
pub proof fn shard_is_remainder(hash: u64, shards: nat)
    requires
        shards > 0,
    ensures
        spec_shard(hash, shards) < shards,
        exists|q: int|
            hash as usize == #[trigger] (q * shards as int) + spec_shard(hash, shards),
{
    let h = hash as usize as int;
    let n = shards as int;
    vstd::arithmetic::div_mod::lemma_fundamental_div_mod(h, n);
    vstd::arithmetic::div_mod::lemma_mod_bound(h, n);
    let q = h / n;
    assert(q * n == n * q) by (nonlinear_arith);
    assert(hash as usize == (q * shards as int) + spec_shard(hash, shards));
}

/// The items of a shard are those of the batch that belong to it, in their order: an item that is
/// added to the batch comes last in its own shard, and changes no other one.
pub proof fn shards_split_the_batch<T: Hashed>(batch: Seq<T>, x: T, shards: nat, shard: nat)
    requires
        shards > 0,
    ensures
        in_shard(Seq::<T>::empty(), shards, shard) == Seq::<T>::empty(),
        in_shard(batch.push(x), shards, shard) == if spec_shard(x.spec_hash(), shards) == shard {
            in_shard(batch, shards, shard).push(x)
        } else {
            in_shard(batch, shards, shard)
        },
{
    reveal(Seq::filter);
    assert(batch.push(x).drop_last() =~= batch);
}

/// A write is known afterwards exactly if nothing newer was known, and what is known of other hashes
/// stays as it is.
pub proof fn newer_write_is_kept(m: Map<u64, Index>, hash: u64, index: Index, other: u64)
    ensures
        ({
            let after = supersede(m, hash, index);
            &&& after.contains_key(hash)
            &&& !m.contains_key(hash) || m[hash].spec_sequence() <= index.spec_sequence()
                ==> after[hash] == index
            &&& m.contains_key(hash) && m[hash].spec_sequence() > index.spec_sequence()
                ==> after[hash] == m[hash]
            &&& other != hash ==> (after.contains_key(other) <==> m.contains_key(other))
            &&& other != hash && m.contains_key(other) ==> after[other] == m[other]
        }),
{
}

/// The sequence of what is known of a hash is that of its address, or of its deletion, and only the
/// former says where the entry is.
pub proof fn index_is_address_or_deletion(address: EntryAddress, sequence: Sequence)
    ensures
        Index::Address(address).spec_sequence() == address.sequence,
        Index::Address(address).address() == Some(address),
        Index::Tombstone(sequence).spec_sequence() == sequence,
        Index::Tombstone(sequence).address() is None,
{
}

/// A deletion leaves behind the address of the live entry that it deletes, and nothing if there is
/// none or if it is newer.
pub proof fn deletion_frees_live_address(m: Map<u64, Index>, hash: u64, sequence: Sequence)
    ensures
        match superseded(m, hash, Index::Tombstone(sequence)) {
            Some(address) => {
                &&& m.contains_key(hash)
                &&& m[hash] == Index::Address(address)
                &&& address.sequence <= sequence
            },
            None => m.contains_key(hash) && m[hash] is Address ==> m[hash].spec_sequence()
                > sequence,
        },
{
}

/// What is known of a hash is not changed by a batch without newer writes of it.
pub proof fn older_insertions_change_nothing(
    m: Map<u64, Index>,
    batch: Seq<HashedEntryAddress>,
    hash: u64,
)
    requires
        forall|i: int|
            0 <= i < batch.len() && (#[trigger] batch[i]).hash == hash ==> m.contains_key(hash)
                && batch[i].address.sequence < m[hash].spec_sequence(),
    ensures
        run(insert_step(), m, batch).0.contains_key(hash) <==> m.contains_key(hash),
        m.contains_key(hash) ==> run(insert_step(), m, batch).0[hash] == m[hash],
    decreases batch.len(),
{
    if batch.len() > 0 {
        let rest = batch.drop_last();
        assert forall|i: int| 0 <= i < rest.len() && (#[trigger] rest[i]).hash
            == hash implies m.contains_key(hash) && rest[i].address.sequence
            < m[hash].spec_sequence() by {
            assert(rest[i] == batch[i]);
        }
        older_insertions_change_nothing(m, rest, hash);
        assert(batch.last() == batch[batch.len() - 1]);
    }
}

/// What is known of a hash after a batch was known before, or is an item of the batch.
pub proof fn insertions_make_nothing_up(
    m: Map<u64, Index>,
    batch: Seq<HashedEntryAddress>,
    hash: u64,
)
    ensures
        ({
            let after = run(insert_step(), m, batch).0;
            after.contains_key(hash) ==> {
                ||| m.contains_key(hash) && after[hash] == m[hash]
                ||| exists|i: int|
                    {
                        &&& 0 <= i < batch.len()
                        &&& (#[trigger] batch[i]).hash == hash
                        &&& after[hash] == Index::Address(batch[i].address)
                    }
            }
        }),
    decreases batch.len(),
{
    if batch.len() > 0 {
        let rest = batch.drop_last();
        insertions_make_nothing_up(m, rest, hash);
        let before = run(insert_step(), m, rest).0;
        if before.contains_key(hash) && !(m.contains_key(hash) && before[hash] == m[hash]) {
            let i = choose|i: int|
                {
                    &&& 0 <= i < rest.len()
                    &&& (#[trigger] rest[i]).hash == hash
                    &&& before[hash] == Index::Address(rest[i].address)
                };
            assert(batch[i] == rest[i]);
        }
        assert(batch.last() == batch[batch.len() - 1]);
    }
}

/// A batch of removals forgets a live entry exactly if one of them is for its hash and is not older
/// than it, and changes nothing else.
pub proof fn removals_forget_older_entries(
    m: Map<u64, Index>,
    batch: Seq<(u64, Sequence)>,
    hash: u64,
)
    ensures
        ({
            let after = run(remove_step(), m, batch).0;
            let forgotten = m.contains_key(hash) && m[hash] is Address && exists|i: int|
                0 <= i < batch.len() && (#[trigger] batch[i]).0 == hash && batch[i].1
                    >= m[hash].spec_sequence();
            &&& after.contains_key(hash) <==> m.contains_key(hash) && !forgotten
            &&& after.contains_key(hash) ==> after[hash] == m[hash]
        }),
    decreases batch.len(),
{
    if batch.len() > 0 {
        let rest = batch.drop_last();
        removals_forget_older_entries(m, rest, hash);
        assert forall|i: int| 0 <= i < rest.len() implies #[trigger] rest[i] == batch[i] by {}
        assert(batch.last() == batch[batch.len() - 1]);
        let before = run(remove_step(), m, rest).0;
        let hit = exists|i: int|
            0 <= i < rest.len() && (#[trigger] rest[i]).0 == hash && rest[i].1
                >= m[hash].spec_sequence();
        if hit {
            let i = choose|i: int|
                0 <= i < rest.len() && (#[trigger] rest[i]).0 == hash && rest[i].1
                    >= m[hash].spec_sequence();
            assert(batch[i].0 == hash);
        }
        if exists|i: int|
            0 <= i < batch.len() && (#[trigger] batch[i]).0 == hash && batch[i].1
                >= m[hash].spec_sequence() {
            let i = choose|i: int|
                0 <= i < batch.len() && (#[trigger] batch[i]).0 == hash && batch[i].1
                    >= m[hash].spec_sequence();
            if i < rest.len() {
                assert(rest[i].0 == hash);
            }
        }
    }
}

/// What a deletion of `hash` by the write with sequence `watermark` leaves in the map.
pub open spec fn deleted_at(m: Map<u64, Index>, hash: u64, watermark: Sequence) -> bool {
    m.contains_key(hash) && m[hash] == Index::Tombstone(watermark)
}

/// Deleting a live entry hides it, unless it is newer than the deletion, and leaves a watermark.
pub proof fn deletion_leaves_watermark(m: Map<u64, Index>, hash: u64, watermark: Sequence)
    requires
        m.contains_key(hash) ==> m[hash].spec_sequence() <= watermark,
    ensures
        deleted_at(supersede(m, hash, Index::Tombstone(watermark)), hash, watermark),
{
}

/// The watermark of a deletion outlives every batch of removals.
pub proof fn watermark_survives_removal(
    m: Map<u64, Index>,
    batch: Seq<(u64, Sequence)>,
    hash: u64,
    watermark: Sequence,
)
    requires
        deleted_at(m, hash, watermark),
    ensures
        deleted_at(run(remove_step(), m, batch).0, hash, watermark),
    decreases batch.len(),
{
    if batch.len() > 0 {
        watermark_survives_removal(m, batch.drop_last(), hash, watermark);
    }
}

/// A deleted entry does not come back: insertions older than the deletion change nothing.
pub proof fn stale_insertion_is_rejected(
    m: Map<u64, Index>,
    batch: Seq<HashedEntryAddress>,
    hash: u64,
    watermark: Sequence,
)
    requires
        deleted_at(m, hash, watermark),
        forall|i: int|
            0 <= i < batch.len() && (#[trigger] batch[i]).hash == hash
                ==> batch[i].address.sequence < watermark,
    ensures
        deleted_at(run(insert_step(), m, batch).0, hash, watermark),
    decreases batch.len(),
{
    if batch.len() > 0 {
        stale_insertion_is_rejected(m, batch.drop_last(), hash, watermark);
    }
}

/// The newest write wins: after a batch of insertions, an item of it is what is known of its hash
/// if nothing known before is newer, and no other item with this hash is newer, or as new and
/// later in the batch.
pub proof fn newest_insertion_wins(m: Map<u64, Index>, batch: Seq<HashedEntryAddress>, i: int)
    requires
        0 <= i < batch.len(),
        m.contains_key(batch[i].hash) ==> m[batch[i].hash].spec_sequence()
            <= batch[i].address.sequence,
        forall|j: int|
            0 <= j < i && (#[trigger] batch[j]).hash == batch[i].hash ==> batch[j].address.sequence
                <= batch[i].address.sequence,
        forall|j: int|
            i < j < batch.len() && (#[trigger] batch[j]).hash == batch[i].hash
                ==> batch[j].address.sequence < batch[i].address.sequence,
    ensures
        run(insert_step(), m, batch).0.contains_key(batch[i].hash),
        run(insert_step(), m, batch).0[batch[i].hash] == Index::Address(batch[i].address),
    decreases batch.len(),
{
    let rest = batch.drop_last();
    if i == batch.len() - 1 {
        insertions_bounded(m, rest, batch[i].hash, batch[i].address.sequence);
    } else {
        newest_insertion_wins(m, rest, i);
    }
}

/// What is known of a hash after a batch of insertions is no newer than what was known and what
/// was inserted.
proof fn insertions_bounded(
    m: Map<u64, Index>,
    batch: Seq<HashedEntryAddress>,
    hash: u64,
    bound: Sequence,
)
    requires
        m.contains_key(hash) ==> m[hash].spec_sequence() <= bound,
        forall|j: int|
            0 <= j < batch.len() && (#[trigger] batch[j]).hash == hash ==> batch[j].address.sequence
                <= bound,
    ensures
        ({
            let after = run(insert_step(), m, batch).0;
            after.contains_key(hash) ==> after[hash].spec_sequence() <= bound
        }),
    decreases batch.len(),
{
    if batch.len() > 0 {
        insertions_bounded(m, batch.drop_last(), hash, bound);
    }
}

/// What is known of a hash never gets older by insertions, and is never forgotten by them.
pub proof fn insertions_never_step_back(
    m: Map<u64, Index>,
    batch: Seq<HashedEntryAddress>,
    hash: u64,
)
    requires
        m.contains_key(hash),
    ensures
        run(insert_step(), m, batch).0.contains_key(hash),
        run(insert_step(), m, batch).0[hash].spec_sequence() >= m[hash].spec_sequence(),
    decreases batch.len(),
{
    if batch.len() > 0 {
        insertions_never_step_back(m, batch.drop_last(), hash);
    }
}

/// No address gets lost by a write: of the address that was known and the one that was written,
/// one is known afterwards and the other one is left behind.
pub proof fn no_address_is_lost(m: Map<u64, Index>, hash: u64, address: EntryAddress)
    requires
        m.contains_key(hash),
        m[hash] is Address,
    ensures
        ({
            let index = Index::Address(address);
            let after = supersede(m, hash, index)[hash].address();
            let left = superseded(m, hash, index);
            ||| after == Some(address) && left == m[hash].address()
            ||| after == m[hash].address() && left == Some(address)
        }),
{
}

/// A live entry leaves by a removal exactly if the removal is not older than the entry.
pub proof fn removal_evicts_live_address(m: Map<u64, Index>, hash: u64, sequence: Sequence)
    requires
        m.contains_key(hash),
        m[hash] is Address,
    ensures
        ({
            let (after, left) = remove_step()(m, (hash, sequence));
            if sequence >= m[hash].spec_sequence() {
                after == m.remove(hash) && left == m[hash].address()
            } else {
                after == m && left is None
            }
        }),
{
}

/// Every write that is known came before the one with the given sequence.
pub open spec fn older_than(m: Map<u64, Index>, sequence: Sequence) -> bool {
    forall|hash: u64| #[trigger] m.contains_key(hash) ==> m[hash].spec_sequence() < sequence
}

/// Batches of older writes leave only older writes behind.
pub proof fn insertions_stay_older(
    m: Map<u64, Index>,
    batch: Seq<HashedEntryAddress>,
    sequence: Sequence,
)
    requires
        older_than(m, sequence),
        forall|i: int| 0 <= i < batch.len() ==> (#[trigger] batch[i]).address.sequence < sequence,
    ensures
        older_than(run(insert_step(), m, batch).0, sequence),
    decreases batch.len(),
{
    if batch.len() > 0 {
        let rest = batch.drop_last();
        assert forall|i: int| 0 <= i < rest.len() implies (#[trigger] rest[i]).address.sequence
            < sequence by {
            assert(rest[i] == batch[i]);
        }
        insertions_stay_older(m, rest, sequence);
        assert(batch.last() == batch[batch.len() - 1]);
    }
}

/// Removals leave only older writes behind.
pub proof fn removals_stay_older(
    m: Map<u64, Index>,
    batch: Seq<(u64, Sequence)>,
    sequence: Sequence,
)
    requires
        older_than(m, sequence),
    ensures
        older_than(run(remove_step(), m, batch).0, sequence),
    decreases batch.len(),
{
    if batch.len() > 0 {
        removals_stay_older(m, batch.drop_last(), sequence);
    }
}

/// How often the address of an entry is held: once if the entry is live there, else never.
pub open spec fn held(m: Map<u64, Index>, item: HashedEntryAddress) -> nat {
    if m.contains_key(item.hash) && m[item.hash] == Index::Address(item.address) {
        1
    } else {
        0
    }
}

/// No address is lost or made up by a batch of insertions: what was held and what was inserted is
/// what is held afterwards and what is returned as no longer in use.
pub proof fn insertions_conserve_addresses(
    m: Map<u64, Index>,
    batch: Seq<HashedEntryAddress>,
    item: HashedEntryAddress,
)
    ensures
        held(m, item) + batch.to_multiset().count(item) == held(
            run(insert_step(), m, batch).0,
            item,
        ) + run(insert_step(), m, batch).1.to_multiset().count(item),
    decreases batch.len(),
{
    broadcast use vstd::seq_lib::group_to_multiset_ensures;

    if batch.len() == 0 {
        assert(batch =~= Seq::empty());
    } else {
        let rest = batch.drop_last();
        insertions_conserve_addresses(m, rest, item);
        assert(batch =~= rest.push(batch.last()));
        let (before, olds) = run(insert_step(), m, rest);
        let last = batch.last();
        let step = insert_step();
        let (after, old_item) = step(before, last);
        assert(run(insert_step(), m, batch).0 == after);
        match old_item {
            Some(o) => {
                assert(run(insert_step(), m, batch).1 == olds.push(o));
            },
            None => {
                assert(run(insert_step(), m, batch).1 == olds);
            },
        }
    }
}

/// The addresses of the live entries that a batch of removals forgets, with their hashes.
pub open spec fn forgotten(m: Map<u64, Index>, batch: Seq<(u64, Sequence)>) -> Seq<
    HashedEntryAddress,
>
    decreases batch.len(),
{
    if batch.len() == 0 {
        Seq::empty()
    } else {
        let before = run(remove_step(), m, batch.drop_last()).0;
        let step = remove_step();
        match step(before, batch.last()).1 {
            Some(address) => forgotten(m, batch.drop_last()).push(
                HashedEntryAddress { hash: batch.last().0, address },
            ),
            None => forgotten(m, batch.drop_last()),
        }
    }
}

/// No address is lost or made up by a batch of removals: what was held is what is held afterwards
/// and what is returned as no longer in use.
pub proof fn removals_conserve_addresses(
    m: Map<u64, Index>,
    batch: Seq<(u64, Sequence)>,
    item: HashedEntryAddress,
)
    ensures
        held(m, item) == held(run(remove_step(), m, batch).0, item) + forgotten(
            m,
            batch,
        ).to_multiset().count(item),
        run(remove_step(), m, batch).1 == forgotten(m, batch).map_values(
            |old_item: HashedEntryAddress| old_item.address,
        ),
    decreases batch.len(),
{
    broadcast use vstd::seq_lib::group_to_multiset_ensures;

    let address = |old_item: HashedEntryAddress| old_item.address;
    if batch.len() > 0 {
        let rest = batch.drop_last();
        removals_conserve_addresses(m, rest, item);
        let (before, olds) = run(remove_step(), m, rest);
        let step = remove_step();
        let (after, old_item) = step(before, batch.last());
        assert(run(remove_step(), m, batch).0 == after);
        assert(run(remove_step(), m, batch).1 =~= forgotten(m, batch).map_values(address));
    } else {
        assert(run(remove_step(), m, batch).1 =~= forgotten(m, batch).map_values(address));
    }
}

} // verus!
