//! What a disk cache knows after it was opened again.

use crate::device::Partition;
use crate::error::Error;
use crate::eviction::{queue_keeps_order, queue_of, EvictionPicker};
use crate::indexer::{
    insert_step, run, supersede, BlockId, EntryAddress, HashedEntryAddress, Index, Indexer,
};
use crate::manager::{
    evictable_events, ids_with, ids_with_ascend, ids_with_members, told, BlockManager, State,
};
use crate::serde::Sequence;
use std::collections::HashMap;
use vstd::prelude::*;

verus! {

broadcast use vstd::std_specs::hash::group_hash_axioms;

/// What to do about errors while recovering.
#[derive(Debug, Clone, Copy, PartialEq, Eq, Structural)]
pub enum RecoverMode {
    /// Recover nothing.
    Never,
    /// Recover what can be recovered.
    Quiet,
    /// Recover everything, or fail.
    Strict,
}

/// An entry that was deleted, and the write that deleted it.
#[derive(Debug, Clone, Copy, PartialEq, Eq, Structural)]
pub struct Tombstone {
    pub hash: u64,
    pub sequence: Sequence,
}

/// An entry that was found in a block.
#[derive(Debug, Clone, Copy)]
pub struct EntryInfo {
    pub hash: u64,
    pub addr: EntryAddress,
}

/// The sequence of the latest entry, zero if there is none.
pub open spec fn last_sequence(recovered: Seq<EntryInfo>) -> Sequence {
    if recovered.len() == 0 {
        0
    } else {
        recovered.last().addr.sequence
    }
}

/// How many of the entries can follow those that were recovered, without one that is older than
/// the one before it.
pub open spec fn following(recovered: Seq<EntryInfo>, infos: Seq<EntryInfo>) -> nat
    decreases infos.len(),
{
    if infos.len() == 0 || infos[0].addr.sequence < last_sequence(recovered) {
        0
    } else {
        1 + following(recovered.push(infos[0]), infos.drop_first())
    }
}

/// The entries come in the order in which they were written.
pub open spec fn in_write_order(infos: Seq<EntryInfo>) -> bool {
    forall|i: int, j: int|
        0 <= i <= j < infos.len() ==> infos[i].addr.sequence <= infos[j].addr.sequence
}

proof fn following_bounded(recovered: Seq<EntryInfo>, infos: Seq<EntryInfo>)
    ensures
        following(recovered, infos) <= infos.len(),
    decreases infos.len(),
{
    if infos.len() > 0 {
        following_bounded(recovered.push(infos[0]), infos.drop_first());
    }
}

/// The recovery of one block.
pub struct BlockRecoverRunner {
    mode: RecoverMode,
    recovered: Vec<EntryInfo>,
    done: bool,
}

impl BlockRecoverRunner {
    pub closed spec fn spec_mode(self) -> RecoverMode {
        self.mode
    }

    /// The entries that were recovered so far.
    pub closed spec fn spec_recovered(self) -> Seq<EntryInfo> {
        self.recovered@
    }

    pub closed spec fn spec_done(self) -> bool {
        self.done
    }

    /// The entries come in the order in which they were written, and without recovery there are
    /// none.
    pub open spec fn wf(self) -> bool {
        &&& in_write_order(self.spec_recovered())
        &&& self.spec_mode() == RecoverMode::Never ==> self.spec_done()
            && self.spec_recovered().len() == 0
    }

    /// Start the recovery of a block.
    pub fn new(mode: RecoverMode) -> (runner: BlockRecoverRunner)
        ensures
            runner.wf(),
            runner.spec_mode() == mode,
            runner.spec_recovered() == Seq::<EntryInfo>::empty(),
            runner.spec_done() == (mode == RecoverMode::Never),
    {
        BlockRecoverRunner { mode, recovered: Vec::new(), done: mode == RecoverMode::Never }
    }

    /// Check if the block needs no further scan.
    pub fn is_done(&self) -> (done: bool)
        ensures
            done == self.spec_done(),
    {
        self.done
    }

    /// Go on with the result of the next scan of the block: some entries, the end, or an error.
    ///
    /// An entry that is older than the one before it was left behind by an earlier use of the
    /// block: it and all that follow are ignored. An error fails a strict recovery, and ends any
    /// other one.
    pub fn step(&mut self, scan: Result<Option<Vec<EntryInfo>>, Error>) -> (r: Result<(), Error>)
        requires
            old(self).wf(),
            !old(self).spec_done(),
        ensures
            final(self).wf(),
            final(self).spec_mode() == old(self).spec_mode(),
            match scan {
                Ok(Some(infos)) => {
                    let n = following(old(self).spec_recovered(), infos@);
                    &&& r is Ok
                    &&& n <= infos@.len()
                    &&& final(self).spec_recovered() == old(self).spec_recovered() + infos@.take(
                        n as int,
                    )
                    &&& final(self).spec_done() == (n < infos@.len())
                },
                Ok(None) => {
                    &&& r is Ok
                    &&& final(self).spec_recovered() == old(self).spec_recovered()
                    &&& final(self).spec_done()
                },
                Err(e) => {
                    &&& r == if old(self).spec_mode() == RecoverMode::Strict {
                        Err::<(), Error>(e)
                    } else {
                        Ok::<(), Error>(())
                    }
                    &&& final(self).spec_recovered() == old(self).spec_recovered()
                    &&& final(self).spec_done()
                },
            },
    {
        match scan {
            Ok(Some(infos)) => {
                let ghost start = self.recovered@;
                let mut i: usize = 0;
                assert(infos@.skip(0) =~= infos@);
                assert(start + infos@.take(0) =~= start);
                proof {
                    following_bounded(start, infos@);
                }
                while i < infos.len()
                    invariant
                        scan == Ok::<Option<Vec<EntryInfo>>, Error>(Some(infos)),
                        self.mode == old(self).mode,
                        self.mode != RecoverMode::Never,
                        !self.done,
                        start == old(self).recovered@,
                        i <= infos@.len(),
                        in_write_order(self.recovered@),
                        self.recovered@ == start + infos@.take(i as int),
                        following(start, infos@) == i + following(
                            self.recovered@,
                            infos@.skip(i as int),
                        ),
                    decreases infos@.len() - i,
                {
                    let info = infos[i];
                    assert(infos@.skip(i as int)[0] == info);
                    let last: Sequence = if self.recovered.len() == 0 {
                        0
                    } else {
                        self.recovered[self.recovered.len() - 1].addr.sequence
                    };
                    if info.addr.sequence < last {
                        self.done = true;
                        return Ok(());
                    }
                    let ghost before = self.recovered@;
                    self.recovered.push(info);
                    assert(infos@.skip(i as int).drop_first() =~= infos@.skip(i + 1));
                    assert(self.recovered@ =~= start + infos@.take(i + 1));
                    assert(in_write_order(self.recovered@)) by {
                        assert(before.len() > 0 ==> before.last() == before[before.len() - 1]);
                    }
                    i = i + 1;
                }
                Ok(())
            },
            Ok(None) => {
                self.done = true;
                Ok(())
            },
            Err(e) => {
                self.done = true;
                if self.mode == RecoverMode::Strict {
                    Err(e)
                } else {
                    Ok(())
                }
            },
        }
    }

    /// Get the entries that were recovered.
    pub fn finish(self) -> (recovered: Vec<EntryInfo>)
        requires
            self.wf(),
        ensures
            recovered@ == self.spec_recovered(),
            in_write_order(recovered@),
    {
        self.recovered
    }
}

/// The entries that the scans of a block give, up to its end or to an error.
pub open spec fn scanned(scans: Seq<Result<Option<Vec<EntryInfo>>, Error>>) -> Seq<EntryInfo>
    decreases scans.len(),
{
    if scans.len() == 0 {
        Seq::empty()
    } else {
        match scans[0] {
            Ok(Some(infos)) => infos@ + scanned(scans.drop_first()),
            _ => Seq::empty(),
        }
    }
}

/// The error that the scans of a block end with, unless they reach its end.
pub open spec fn scan_error(scans: Seq<Result<Option<Vec<EntryInfo>>, Error>>) -> Option<Error>
    decreases scans.len(),
{
    if scans.len() == 0 {
        None
    } else {
        match scans[0] {
            Ok(Some(_)) => scan_error(scans.drop_first()),
            Ok(None) => None,
            Err(e) => Some(e),
        }
    }
}

/// What is recovered of a block: nothing without recovery; an error of a strict recovery, unless an
/// older entry was met before it; else all entries up to an older one.
pub open spec fn block_recovery(
    mode: RecoverMode,
    scans: Seq<Result<Option<Vec<EntryInfo>>, Error>>,
) -> Result<Seq<EntryInfo>, Error> {
    let all = scanned(scans);
    let n = following(Seq::empty(), all);
    if mode == RecoverMode::Never {
        Ok(Seq::empty())
    } else if mode == RecoverMode::Strict && n == all.len() && scan_error(scans) is Some {
        Err(scan_error(scans)->0)
    } else {
        Ok(all.take(n as int))
    }
}

/// Where all of some entries follow, the next ones follow them.
proof fn following_appended(
    recovered: Seq<EntryInfo>,
    infos: Seq<EntryInfo>,
    more: Seq<EntryInfo>,
)
    ensures
        following(recovered, infos + more) == if following(recovered, infos) < infos.len() {
            following(recovered, infos)
        } else {
            infos.len() + following(recovered + infos, more)
        },
    decreases infos.len(),
{
    following_bounded(recovered, infos);
    if infos.len() == 0 {
        assert(infos + more =~= more);
        assert(recovered + infos =~= recovered);
    } else {
        let rest = infos.drop_first();
        assert((infos + more).drop_first() =~= rest + more);
        assert((infos + more)[0] == infos[0]);
        assert(recovered.push(infos[0]) + rest =~= recovered + infos);
        following_appended(recovered.push(infos[0]), rest, more);
    }
}

/// What follows is the longest run of entries in the order of their writes: it is in that order, and
/// with one more entry it would not be.
pub proof fn following_is_longest(infos: Seq<EntryInfo>)
    ensures
        following(Seq::empty(), infos) <= infos.len(),
        in_write_order(infos.take(following(Seq::empty(), infos) as int)),
        following(Seq::empty(), infos) < infos.len() ==> !in_write_order(
            infos.take(following(Seq::empty(), infos) as int + 1),
        ),
{
    following_bounded(Seq::empty(), infos);
    following_ordered(Seq::empty(), infos);
    let n = following(Seq::empty(), infos) as int;
    assert(Seq::<EntryInfo>::empty() + infos.take(n) =~= infos.take(n));
    if n < infos.len() {
        let longer = infos.take(n + 1);
        assert(Seq::<EntryInfo>::empty() + longer =~= longer);
    }
}

/// No entry that follows is older than the one before it, be that one of those or the last one that
/// was recovered, and the first one that does not follow is.
pub proof fn following_stops_at_older_entry(recovered: Seq<EntryInfo>, infos: Seq<EntryInfo>, k: int)
    requires
        0 <= k < infos.len(),
        k <= following(recovered, infos),
    ensures
        ({
            let n = following(recovered, infos);
            let older = if k > 0 {
                infos[k].addr.sequence < infos[k - 1].addr.sequence
            } else {
                recovered.len() > 0 && infos[0].addr.sequence < recovered[recovered.len()
                    - 1].addr.sequence
            };
            &&& n <= infos.len()
            &&& k < n ==> !older
            &&& k == n ==> older
        }),
    decreases infos.len(),
{
    following_bounded(recovered, infos);
    if following(recovered, infos) > 0 && k > 0 {
        let next = recovered.push(infos[0]);
        let rest = infos.drop_first();
        following_stops_at_older_entry(next, rest, k - 1);
    }
}

/// The scans of a block give their entries one after the other, up to its end or to an error. Whatever
/// comes behind that is not looked at.
pub proof fn scans_go_on_to_the_end(
    scan: Result<Option<Vec<EntryInfo>>, Error>,
    rest: Seq<Result<Option<Vec<EntryInfo>>, Error>>,
)
    ensures
        scanned(Seq::empty()) == Seq::<EntryInfo>::empty(),
        scan_error(Seq::empty()) is None,
        scan matches Ok(Some(infos)) ==> {
            &&& scanned(seq![scan] + rest) == infos@ + scanned(rest)
            &&& scan_error(seq![scan] + rest) == scan_error(rest)
        },
        scan matches Ok(None) ==> {
            &&& scanned(seq![scan] + rest) == Seq::<EntryInfo>::empty()
            &&& scan_error(seq![scan] + rest) is None
        },
        scan matches Err(e) ==> {
            &&& scanned(seq![scan] + rest) == Seq::<EntryInfo>::empty()
            &&& scan_error(seq![scan] + rest) == Some(e)
        },
{
    let all = seq![scan] + rest;
    assert(all[0] == scan);
    assert(all.drop_first() =~= rest);
}

/// The recovery of a block gives the first entries that were scanned: all of them, or all up to the
/// first one that is older than the one before it. It fails exactly if it is strict, and an error
/// comes before such an entry. Without recovery there are no entries.
pub proof fn block_recovery_stops_at_older_entry(
    mode: RecoverMode,
    scans: Seq<Result<Option<Vec<EntryInfo>>, Error>>,
)
    ensures
        ({
            let all = scanned(scans);
            let run = exists|k: int|
                0 < k < all.len() && (#[trigger] all[k]).addr.sequence < all[k - 1].addr.sequence;
            match block_recovery(mode, scans) {
                Ok(infos) => if mode == RecoverMode::Never {
                    infos.len() == 0
                } else {
                    &&& infos.len() <= all.len()
                    &&& infos == all.take(infos.len() as int)
                    &&& forall|k: int|
                        0 < k < infos.len() ==> (#[trigger] infos[k]).addr.sequence >= infos[k
                            - 1].addr.sequence
                    &&& infos.len() < all.len() ==> infos.len() > 0
                        && all[infos.len() as int].addr.sequence < all[infos.len()
                        - 1].addr.sequence
                    &&& mode == RecoverMode::Strict && scan_error(scans) is Some ==> run
                },
                Err(e) => {
                    &&& mode == RecoverMode::Strict
                    &&& scan_error(scans) == Some(e)
                    &&& !run
                },
            }
        }),
{
    let all = scanned(scans);
    let empty = Seq::<EntryInfo>::empty();
    let n = following(empty, all) as int;
    following_bounded(empty, all);
    assert forall|k: int| 0 < k < n implies (#[trigger] all[k]).addr.sequence >= all[k
        - 1].addr.sequence by {
        following_stops_at_older_entry(empty, all, k);
    }
    if n < all.len() {
        following_stops_at_older_entry(empty, all, n);
        assert(all[n].addr.sequence < all[n - 1].addr.sequence);
    }
}

proof fn following_ordered(recovered: Seq<EntryInfo>, infos: Seq<EntryInfo>)
    requires
        in_write_order(recovered),
    ensures
        following(recovered, infos) <= infos.len(),
        in_write_order(recovered + infos.take(following(recovered, infos) as int)),
        following(recovered, infos) < infos.len() ==> !in_write_order(
            recovered + infos.take(following(recovered, infos) as int + 1),
        ),
    decreases infos.len(),
{
    following_bounded(recovered, infos);
    let n = following(recovered, infos) as int;
    if n == 0 {
        assert(recovered + infos.take(0) =~= recovered);
        if infos.len() > 0 {
            let longer = recovered + infos.take(1);
            let k = recovered.len() as int;
            assert(k > 0);
            assert(longer[k - 1] == recovered.last());
            assert(longer[k] == infos[0]);
        }
    } else {
        let next = recovered.push(infos[0]);
        let rest = infos.drop_first();
        assert(in_write_order(next)) by {
            assert(recovered.len() > 0 ==> recovered.last() == recovered[recovered.len() - 1]);
        }
        following_ordered(next, rest);
        assert(next + rest.take(n - 1) =~= recovered + infos.take(n));
        if n < infos.len() {
            assert(next + rest.take(n) =~= recovered + infos.take(n + 1));
        }
    }
}

impl BlockRecoverRunner {
    /// Recover a block from its scans.
    pub fn run(mode: RecoverMode, scans: Vec<Result<Option<Vec<EntryInfo>>, Error>>) -> (r: Result<
        Vec<EntryInfo>,
        Error,
    >)
        ensures
            match r {
                Ok(infos) => block_recovery(mode, scans@) == Ok::<Seq<EntryInfo>, Error>(infos@),
                Err(e) => block_recovery(mode, scans@) == Err::<Seq<EntryInfo>, Error>(e),
            },
            r matches Ok(infos) ==> in_write_order(infos@),
    {
        let mut runner = BlockRecoverRunner::new(mode);
        let ghost all = scanned(scans@);
        let ghost input = scans@;
        proof {
            assert(input.skip(0) =~= input);
            assert(Seq::<EntryInfo>::empty() + all =~= all);
            following_bounded(Seq::empty(), all);
        }
        for scan in iter: scans
            invariant
                iter.seq() == input,
                all == scanned(input),
                runner.wf(),
                runner.spec_mode() == mode,
                runner.spec_done() ==> block_recovery(mode, input) == Ok::<Seq<EntryInfo>, Error>(
                    runner.spec_recovered(),
                ),
                !runner.spec_done() ==> {
                    let rest = input.skip(iter.index() as int);
                    let have = runner.spec_recovered();
                    &&& mode != RecoverMode::Never
                    &&& all == have + scanned(rest)
                    &&& following(Seq::empty(), all) == have.len() + following(have, scanned(rest))
                    &&& scan_error(input) == scan_error(rest)
                },
        {
            if !runner.is_done() {
                let ghost rest = input.skip(iter.index() as int);
                let ghost have = runner.spec_recovered();
                proof {
                    assert(rest[0] == scan);
                    assert(rest.drop_first() =~= input.skip(iter.index() + 1));
                    if let Ok(Some(infos)) = rest[0] {
                        let more = scanned(rest.drop_first());
                        following_bounded(have, infos@);
                        following_appended(have, infos@, more);
                        let n = following(have, infos@) as int;
                        assert(have + infos@ + more =~= all);
                        if n == infos@.len() {
                            assert(infos@.take(n) =~= infos@);
                        } else {
                            assert(all.take(have.len() + n) =~= have + infos@.take(n));
                        }
                    } else {
                        assert(all.take(have.len() as int) =~= have);
                        assert(all =~= have);
                    }
                }
                match runner.step(scan) {
                    Ok(_) => {},
                    Err(e) => return Err(e),
                }
            }
        }
        proof {
            if !runner.spec_done() {
                assert(input.skip(input.len() as int) =~= Seq::empty());
                assert(all =~= runner.spec_recovered());
                assert(all.take(all.len() as int) =~= all);
            }
        }
        Ok(runner.finish())
    }
}

/// The pairs that carry the given sequence.
pub open spec fn of_sequence(pairs: Seq<(BlockId, Sequence)>, sequence: Sequence) -> Seq<
    (BlockId, Sequence),
> {
    pairs.filter(|pair: (BlockId, Sequence)| pair.1 == sequence)
}

/// `sorted` holds the pairs of `pairs` by ascending sequence, those with the same sequence in the
/// order in which they were.
pub open spec fn stably_sorted(
    pairs: Seq<(BlockId, Sequence)>,
    sorted: Seq<(BlockId, Sequence)>,
) -> bool {
    &&& forall|i: int, j: int| 0 <= i <= j < sorted.len() ==> sorted[i].1 <= sorted[j].1
    &&& forall|sequence: Sequence| #[trigger]
        of_sequence(sorted, sequence) == of_sequence(pairs, sequence)
}

/// The blocks of the pairs.
pub open spec fn blocks_of(pairs: Seq<(BlockId, Sequence)>) -> Seq<BlockId> {
    pairs.map_values(|pair: (BlockId, Sequence)| pair.0)
}

/// The pairs without the last one.
proof fn of_sequence_drop_last(pairs: Seq<(BlockId, Sequence)>, sequence: Sequence)
    requires
        pairs.len() > 0,
    ensures
        of_sequence(pairs, sequence) == if pairs.last().1 == sequence {
            of_sequence(pairs.drop_last(), sequence).push(pairs.last())
        } else {
            of_sequence(pairs.drop_last(), sequence)
        },
{
    reveal(Seq::filter);
}

proof fn of_sequence_members(pairs: Seq<(BlockId, Sequence)>, pair: (BlockId, Sequence))
    ensures
        pairs.contains(pair) <==> of_sequence(pairs, pair.1).contains(pair),
    decreases pairs.len(),
{
    reveal(Seq::filter);
    if pairs.len() > 0 {
        let rest = pairs.drop_last();
        of_sequence_members(rest, pair);
        of_sequence_drop_last(pairs, pair.1);
        let kept = of_sequence(rest, pair.1);
        if pairs.contains(pair) {
            if pairs.last() == pair {
                let all = of_sequence(pairs, pair.1);
                assert(all[all.len() - 1] == pair);
            } else {
                let i = choose|i: int| 0 <= i < pairs.len() && pairs[i] == pair;
                assert(rest[i] == pair);
                let j = choose|j: int| 0 <= j < kept.len() && kept[j] == pair;
                assert(of_sequence(pairs, pair.1)[j] == pair);
            }
        }
        if of_sequence(pairs, pair.1).contains(pair) && pairs.last() != pair {
            let all = of_sequence(pairs, pair.1);
            let j = choose|j: int| 0 <= j < all.len() && all[j] == pair;
            assert(kept[j] == pair);
            let i = choose|i: int| 0 <= i < rest.len() && rest[i] == pair;
            assert(pairs[i] == pair);
        }
        if pairs.last() == pair {
            assert(pairs[pairs.len() - 1] == pair);
        }
    }
}

/// A stable sort keeps the pairs: none is lost, and none is made up.
pub proof fn stable_sort_keeps_pairs(
    pairs: Seq<(BlockId, Sequence)>,
    sorted: Seq<(BlockId, Sequence)>,
    pair: (BlockId, Sequence),
)
    requires
        stably_sorted(pairs, sorted),
    ensures
        sorted.contains(pair) <==> pairs.contains(pair),
{
    assert(of_sequence(sorted, pair.1) == of_sequence(pairs, pair.1));
    of_sequence_members(pairs, pair);
    of_sequence_members(sorted, pair);
}

proof fn group_has_its_sequence(q: Seq<(BlockId, Sequence)>, s: Sequence, i: int)
    requires
        0 <= i < of_sequence(q, s).len(),
    ensures
        of_sequence(q, s)[i].1 == s,
    decreases q.len(),
{
    if q.len() == 0 {
        reveal(Seq::filter);
    } else {
        of_sequence_drop_last(q, s);
        if i < of_sequence(q.drop_last(), s).len() {
            group_has_its_sequence(q.drop_last(), s, i);
        }
    }
}

proof fn group_keeps_positions(q: Seq<(BlockId, Sequence)>, i: int, j: int) -> (at: (int, int))
    requires
        0 <= i < j < q.len(),
        q[i].1 == q[j].1,
    ensures
        0 <= at.0 < at.1 < of_sequence(q, q[i].1).len(),
        of_sequence(q, q[i].1)[at.0] == q[i],
        of_sequence(q, q[i].1)[at.1] == q[j],
    decreases q.len(),
{
    let s = q[i].1;
    let rest = q.drop_last();
    let f = of_sequence(rest, s);
    of_sequence_drop_last(q, s);
    assert(rest[i] == q[i]);
    if j == q.len() - 1 {
        of_sequence_members(rest, q[i]);
        assert(rest.contains(q[i]));
        let a = choose|a: int| 0 <= a < f.len() && f[a] == q[i];
        (a, f.len() as int)
    } else {
        assert(rest[j] == q[j]);
        group_keeps_positions(rest, i, j)
    }
}

proof fn positions_in_group(
    q: Seq<(BlockId, Sequence)>,
    s: Sequence,
    i: int,
    j: int,
) -> (at: (int, int))
    requires
        0 <= i < j < of_sequence(q, s).len(),
    ensures
        0 <= at.0 < at.1 < q.len(),
        q[at.0] == of_sequence(q, s)[i],
        q[at.1] == of_sequence(q, s)[j],
    decreases q.len(),
{
    if q.len() == 0 {
        reveal(Seq::filter);
        assert(false);
        (0, 0)
    } else {
        let rest = q.drop_last();
        let f = of_sequence(rest, s);
        of_sequence_drop_last(q, s);
        if q.last().1 == s && j == f.len() {
            group_has_its_sequence(rest, s, i);
            of_sequence_members(rest, f[i]);
            assert(f.contains(f[i]));
            let a = choose|a: int| 0 <= a < rest.len() && rest[a] == f[i];
            assert(q[a] == rest[a]);
            (a, q.len() - 1)
        } else {
            let at = positions_in_group(rest, s, i, j);
            assert(q[at.0] == rest[at.0]);
            assert(q[at.1] == rest[at.1]);
            at
        }
    }
}

/// A stable sort orders the pairs by their sequences, and keeps the order of those whose sequences are
/// equal.
pub proof fn stable_sort_orders_pairs(
    pairs: Seq<(BlockId, Sequence)>,
    sorted: Seq<(BlockId, Sequence)>,
    i: int,
    j: int,
)
    requires
        stably_sorted(pairs, sorted),
        0 <= i < j < sorted.len(),
    ensures
        sorted[i].1 <= sorted[j].1,
        sorted[i].1 == sorted[j].1 ==> exists|a: int, b: int|
            0 <= a < b < pairs.len() && #[trigger] pairs[a] == sorted[i] && #[trigger] pairs[b]
                == sorted[j],
{
    if sorted[i].1 == sorted[j].1 {
        let s = sorted[i].1;
        let (c, d) = group_keeps_positions(sorted, i, j);
        assert(of_sequence(sorted, s) == of_sequence(pairs, s));
        let (a, b) = positions_in_group(pairs, s, c, d);
        assert(pairs[a] == sorted[i] && pairs[b] == sorted[j]);
    }
}

/// There is only one stable order of the pairs.
pub proof fn stable_order_is_unique(
    pairs: Seq<(BlockId, Sequence)>,
    a: Seq<(BlockId, Sequence)>,
    b: Seq<(BlockId, Sequence)>,
)
    requires
        stably_sorted(pairs, a),
        stably_sorted(pairs, b),
    ensures
        a == b,
{
    assert forall|sequence: Sequence| #[trigger]
        of_sequence(a, sequence) == of_sequence(b, sequence) by {
        assert(of_sequence(a, sequence) == of_sequence(pairs, sequence));
        assert(of_sequence(b, sequence) == of_sequence(pairs, sequence));
    }
    same_groups_same_order(a, b);
}

proof fn same_groups_same_order(a: Seq<(BlockId, Sequence)>, b: Seq<(BlockId, Sequence)>)
    requires
        forall|i: int, j: int| 0 <= i <= j < a.len() ==> a[i].1 <= a[j].1,
        forall|i: int, j: int| 0 <= i <= j < b.len() ==> b[i].1 <= b[j].1,
        forall|sequence: Sequence| #[trigger]
            of_sequence(a, sequence) == of_sequence(b, sequence),
    ensures
        a == b,
    decreases a.len() + b.len(),
{
    reveal(Seq::filter);
    if a.len() == 0 {
        if b.len() > 0 {
            of_sequence_drop_last(b, b.last().1);
            assert(of_sequence(a, b.last().1).len() == 0);
            assert(false);
        }
        assert(a =~= b);
    } else {
        let ka = a.last().1;
        of_sequence_drop_last(a, ka);
        assert(of_sequence(a, ka) == of_sequence(b, ka));
        assert(a[a.len() - 1] == a.last());
        of_sequence_members(a, a.last());
        of_sequence_members(b, a.last());
        assert(b.contains(a.last()));
        let kb = b.last().1;
        of_sequence_drop_last(b, kb);
        assert(of_sequence(a, kb) == of_sequence(b, kb));
        assert(b[b.len() - 1] == b.last());
        of_sequence_members(b, b.last());
        of_sequence_members(a, b.last());
        assert(a.contains(b.last()));
        assert(ka == kb);
        assert(of_sequence(a, ka).last() == a.last());
        assert(of_sequence(b, ka).last() == b.last());
        assert forall|sequence: Sequence| #[trigger]
            of_sequence(a.drop_last(), sequence) == of_sequence(b.drop_last(), sequence) by {
            of_sequence_drop_last(a, sequence);
            of_sequence_drop_last(b, sequence);
            assert(of_sequence(a, sequence) == of_sequence(b, sequence));
            if sequence == ka {
                assert(of_sequence(a.drop_last(), sequence) =~= of_sequence(
                    a,
                    sequence,
                ).drop_last());
                assert(of_sequence(b.drop_last(), sequence) =~= of_sequence(
                    b,
                    sequence,
                ).drop_last());
            }
        }
        same_groups_same_order(a.drop_last(), b.drop_last());
        assert(a =~= a.drop_last().push(a.last()));
        assert(b =~= b.drop_last().push(b.last()));
    }
}

/// [`slice::sort_by_key`] with the sequence as the key: sorts by ascending sequence, and keeps the
/// order of the pairs whose sequences are equal.
#[verifier::external_body]
fn sort_by_sequence(pairs: &mut Vec<(BlockId, Sequence)>)
    ensures
        stably_sorted(old(pairs)@, final(pairs)@),
{
    pairs.sort_by_key(|pair| pair.1)
}

/// Order recovered `(block, latest sequence)` pairs oldest-written first.
///
/// Pickers that depend on the order learn it from the order in which they are told of the blocks.
/// After a restart that must be the order in which the blocks were written: else a newer block may
/// be evicted before an older one. Ids do not give it, as they are used again after a block was
/// cleaned. The sequences do, as they grow over the lifetime of the cache.
pub fn order_evictable_blocks_by_sequence(evictable_blocks: Vec<(BlockId, Sequence)>) -> (blocks:
    Vec<BlockId>)
    ensures
        exists|sorted: Seq<(BlockId, Sequence)>|
            {
                &&& #[trigger] stably_sorted(evictable_blocks@, sorted)
                &&& blocks@ == blocks_of(sorted)
                &&& blocks@.len() == sorted.len()
                &&& forall|i: int| 0 <= i < sorted.len() ==> #[trigger] blocks@[i] == sorted[i].0
            },
{
    let mut sorted = evictable_blocks;
    sort_by_sequence(&mut sorted);
    let mut blocks: Vec<BlockId> = Vec::new();
    let mut i: usize = 0;
    while i < sorted.len()
        invariant
            i <= sorted@.len(),
            blocks@ == blocks_of(sorted@.take(i as int)),
        decreases sorted@.len() - i,
    {
        blocks.push(sorted[i].0);
        i = i + 1;
        assert(blocks@ =~= blocks_of(sorted@.take(i as int)));
    }
    assert(sorted@.take(i as int) =~= sorted@);
    blocks
}

/// What is known of an entry from one place: that it was written, or that it was deleted.
#[derive(Debug, Clone, Copy)]
pub struct Version {
    pub hash: u64,
    pub sequence: Sequence,
    /// Where the entry is, unless it was deleted.
    pub address: Option<EntryAddress>,
}

/// The versions of the entries of a block.
pub open spec fn written(infos: Seq<EntryInfo>) -> Seq<Version> {
    infos.map_values(
        |info: EntryInfo|
            Version {
                hash: info.hash,
                sequence: info.addr.sequence,
                address: Some(info.addr),
            },
    )
}

/// The versions of deleted entries.
pub open spec fn deleted(tombstones: Seq<Tombstone>) -> Seq<Version> {
    tombstones.map_values(
        |t: Tombstone| Version { hash: t.hash, sequence: t.sequence, address: None },
    )
}

/// The versions in all blocks, block after block.
pub open spec fn found(blocks: Seq<Vec<EntryInfo>>) -> Seq<Version>
    decreases blocks.len(),
{
    if blocks.len() == 0 {
        Seq::empty()
    } else {
        found(blocks.drop_last()) + written(blocks.last()@)
    }
}

/// All versions: those in the blocks, then the deletions.
pub open spec fn versions(blocks: Seq<Vec<EntryInfo>>, tombstones: Seq<Tombstone>) -> Seq<Version> {
    found(blocks) + deleted(tombstones)
}

/// The version of a hash with the highest sequence, the last one if there are several.
pub open spec fn newest(versions: Seq<Version>, hash: u64) -> Option<Version>
    decreases versions.len(),
{
    if versions.len() == 0 {
        None
    } else {
        let before = newest(versions.drop_last(), hash);
        let v = versions.last();
        if v.hash == hash && (before matches Some(b) ==> v.sequence >= b.sequence) {
            Some(v)
        } else {
            before
        }
    }
}

/// The highest sequence, zero if there is none.
pub open spec fn latest(versions: Seq<Version>) -> Sequence
    decreases versions.len(),
{
    if versions.len() == 0 {
        0
    } else {
        let before = latest(versions.drop_last());
        if versions.last().sequence > before {
            versions.last().sequence
        } else {
            before
        }
    }
}

/// What an indexer that knew `m` knows after the newest versions were inserted: those that say
/// where an entry is, and nothing of the deleted ones.
pub open spec fn recovered(m: Map<u64, Index>, versions: Seq<Version>) -> Map<u64, Index> {
    Map::new(
        |hash: u64| m.contains_key(hash) || live(versions, hash) is Some,
        |hash: u64|
            match live(versions, hash) {
                Some(address) => supersede(m, hash, Index::Address(address))[hash],
                None => m[hash],
            },
    )
}

/// Where the entry is according to its newest version.
pub open spec fn live(versions: Seq<Version>, hash: u64) -> Option<EntryAddress> {
    match newest(versions, hash) {
        Some(v) => v.address,
        None => None,
    }
}

/// The entries of the blocks that could be scanned.
pub open spec fn successes(scans: Seq<Result<Vec<EntryInfo>, Error>>) -> Seq<Vec<EntryInfo>>
    decreases scans.len(),
{
    if scans.len() == 0 {
        Seq::empty()
    } else {
        match scans.last() {
            Ok(infos) => successes(scans.drop_last()).push(infos),
            Err(_) => successes(scans.drop_last()),
        }
    }
}

/// The errors of the blocks that could not be scanned.
pub open spec fn failures(scans: Seq<Result<Vec<EntryInfo>, Error>>) -> Seq<Error>
    decreases scans.len(),
{
    if scans.len() == 0 {
        Seq::empty()
    } else {
        match scans.last() {
            Ok(_) => failures(scans.drop_last()),
            Err(e) => failures(scans.drop_last()).push(e),
        }
    }
}

/// The blocks without any entry.
pub open spec fn clean_blocks(blocks: Seq<Vec<EntryInfo>>) -> Seq<BlockId> {
    ids_with(0, blocks.len(), |id: BlockId| blocks[id as int]@.len() == 0)
}

/// The blocks with entries, each with the sequence of its latest write.
pub open spec fn evictable_blocks(blocks: Seq<Vec<EntryInfo>>) -> Seq<(BlockId, Sequence)>
    decreases blocks.len(),
{
    if blocks.len() == 0 {
        Seq::empty()
    } else {
        let before = evictable_blocks(blocks.drop_last());
        if blocks.last()@.len() == 0 {
            before
        } else {
            before.push(((blocks.len() - 1) as BlockId, latest(written(blocks.last()@))))
        }
    }
}

/// The newest version of every hash that was seen.
struct Newest {
    versions: HashMap<u64, Version>,
    hashes: Vec<u64>,
    latest: Sequence,
    seen: Ghost<Seq<Version>>,
}

impl Newest {
    spec fn wf(self) -> bool {
        &&& self.latest == latest(self.seen@)
        &&& self.hashes@.no_duplicates()
        &&& forall|hash: u64| #[trigger]
            self.versions@.contains_key(hash) <==> newest(self.seen@, hash) is Some
        &&& forall|hash: u64| #[trigger]
            self.versions@.contains_key(hash) ==> newest(self.seen@, hash) == Some(
                self.versions@[hash],
            )
        &&& forall|i: int|
            0 <= i < self.hashes@.len() ==> self.versions@.contains_key(#[trigger] self.hashes@[i])
        &&& forall|hash: u64|
            self.versions@.contains_key(hash) ==> #[trigger] self.hashes@.contains(hash)
    }

    fn new() -> (r: Newest)
        ensures
            r.wf(),
            r.seen@ == Seq::<Version>::empty(),
    {
        Newest {
            versions: HashMap::new(),
            hashes: Vec::new(),
            latest: 0,
            seen: Ghost(Seq::empty()),
        }
    }

    fn insert_or_update(&mut self, version: Version)
        requires
            old(self).wf(),
        ensures
            final(self).wf(),
            final(self).seen@ == old(self).seen@.push(version),
    {
        let ghost before = self.seen@;
        let ghost hashes = self.hashes@;
        let ghost known = self.versions@;
        let hash = version.hash;
        let (fresh, replace) = match self.versions.get(&hash) {
            Some(v) => (false, version.sequence >= v.sequence),
            None => (true, true),
        };
        if fresh {
            self.hashes.push(hash);
        }
        if replace {
            self.versions.insert(hash, version);
        }
        if version.sequence > self.latest {
            self.latest = version.sequence;
        }
        self.seen = Ghost(before.push(version));
        proof {
            assert(self.seen@.drop_last() =~= before);
            assert(self.seen@.last() == version);
            assert forall|h: u64| #[trigger]
                self.versions@.contains_key(h) implies self.hashes@.contains(h) by {
                if h == hash && fresh {
                    assert(self.hashes@[hashes.len() as int] == h);
                } else {
                    assert(known.contains_key(h));
                    assert(hashes.contains(h));
                    let i = choose|i: int| 0 <= i < hashes.len() && hashes[i] == h;
                    assert(self.hashes@[i] == h);
                }
            }
            assert(self.hashes@.no_duplicates()) by {
                if fresh {
                    assert(!known.contains_key(hash));
                    assert forall|i: int| 0 <= i < hashes.len() implies hashes[i] != hash by {
                        assert(known.contains_key(hashes[i]));
                    }
                }
            }
        }
    }

    /// Where the entries are whose newest version is not a deletion.
    fn live(&self) -> (batch: Vec<HashedEntryAddress>)
        requires
            self.wf(),
        ensures
            distinct(batch@),
            forall|i: int|
                0 <= i < batch@.len() ==> live(self.seen@, (#[trigger] batch@[i]).hash) == Some(
                    batch@[i].address,
                ),
            forall|hash: u64|
                (#[trigger] live(self.seen@, hash) matches Some(address) ==> batch@.contains(
                    HashedEntryAddress { hash, address },
                )),
    {
        let mut batch: Vec<HashedEntryAddress> = Vec::new();
        let mut i: usize = 0;
        while i < self.hashes.len()
            invariant
                self.wf(),
                i <= self.hashes@.len(),
                distinct(batch@),
                forall|j: int|
                    0 <= j < batch@.len() ==> self.hashes@.take(i as int).contains(
                        (#[trigger] batch@[j]).hash,
                    ) && live(self.seen@, batch@[j].hash) == Some(batch@[j].address),
                forall|j: int|
                    0 <= j < i ==> (live(self.seen@, #[trigger] self.hashes@[j]) matches Some(a)
                        ==> batch@.contains(
                        HashedEntryAddress { hash: self.hashes@[j], address: a },
                    )),
            decreases self.hashes@.len() - i,
        {
            let hash = self.hashes[i];
            let ghost before = batch@;
            let ghost seen = self.hashes@.take(i as int);
            assert(self.versions@.contains_key(hash));
            proof {
                let now = self.hashes@.take(i + 1);
                assert forall|h: u64| seen.contains(h) implies now.contains(h) by {
                    let k = choose|k: int| 0 <= k < seen.len() && seen[k] == h;
                    assert(now[k] == h);
                }
                assert(now[i as int] == hash);
                assert(!seen.contains(hash));
            }
            if let Some(version) = self.versions.get(&hash) {
                if let Some(address) = version.address {
                    batch.push(HashedEntryAddress { hash, address });
                    proof {
                        let item = HashedEntryAddress { hash, address };
                        assert(batch@[before.len() as int] == item);
                        assert forall|x: HashedEntryAddress| before.contains(
                            x,
                        ) implies batch@.contains(x) by {
                            let k = choose|k: int| 0 <= k < before.len() && before[k] == x;
                            assert(batch@[k] == x);
                        }
                    }
                }
            }
            i = i + 1;
        }
        proof {
            assert forall|hash: u64|
                (#[trigger] live(self.seen@, hash) matches Some(address)) implies batch@.contains(
                HashedEntryAddress { hash, address: live(self.seen@, hash)->0 },
            ) by {
                assert(self.versions@.contains_key(hash));
                assert(self.hashes@.contains(hash));
                let j = choose|j: int| 0 <= j < self.hashes@.len() && self.hashes@[j] == hash;
            }
        }
        batch
    }
}

/// No hash occurs twice.
spec fn distinct(batch: Seq<HashedEntryAddress>) -> bool {
    forall|i: int, j: int| 0 <= i < j < batch.len() ==> batch[i].hash != batch[j].hash
}

/// Insertions of distinct hashes do not get in each other's way.
proof fn insert_distinct(m: Map<u64, Index>, batch: Seq<HashedEntryAddress>, hash: u64)
    requires
        distinct(batch),
    ensures
        ({
            let after = run(insert_step(), m, batch).0;
            &&& forall|i: int|
                0 <= i < batch.len() && (#[trigger] batch[i]).hash == hash ==> after.contains_key(
                    hash,
                ) && after[hash] == supersede(m, hash, Index::Address(batch[i].address))[hash]
            &&& (forall|i: int| 0 <= i < batch.len() ==> (#[trigger] batch[i]).hash != hash) ==> {
                &&& after.contains_key(hash) <==> m.contains_key(hash)
                &&& m.contains_key(hash) ==> after[hash] == m[hash]
            }
        }),
    decreases batch.len(),
{
    if batch.len() > 0 {
        let rest = batch.drop_last();
        insert_distinct(m, rest, hash);
        assert forall|i: int| 0 <= i < rest.len() implies batch[i] == #[trigger] rest[i] by {}
        assert(batch[batch.len() - 1] == batch.last());
        if batch.last().hash == hash {
            assert forall|i: int| 0 <= i < rest.len() implies (#[trigger] rest[i]).hash != hash by {
                assert(batch[i].hash != batch[batch.len() - 1].hash);
            }
        } else {
            assert forall|i: int|
                0 <= i < batch.len() && (#[trigger] batch[i]).hash == hash implies i < rest.len()
                && rest[i] == batch[i] by {}
        }
    }
}

/// The blocks were all scanned, so the one at every position is known.
pub proof fn successes_in_place(scans: Seq<Result<Vec<EntryInfo>, Error>>)
    requires
        failures(scans).len() == 0,
    ensures
        successes(scans).len() == scans.len(),
        forall|i: int|
            0 <= i < scans.len() ==> #[trigger] scans[i] == Ok::<Vec<EntryInfo>, Error>(
                successes(scans)[i],
            ),
    decreases scans.len(),
{
    if scans.len() > 0 {
        successes_in_place(scans.drop_last());
        assert forall|i: int| 0 <= i < scans.len() implies #[trigger] scans[i] == Ok::<
            Vec<EntryInfo>,
            Error,
        >(successes(scans)[i]) by {
            if i < scans.len() - 1 {
                assert(scans.drop_last()[i] == scans[i]);
            }
        }
    }
}

proof fn evictable_blocks_members(blocks: Seq<Vec<EntryInfo>>)
    requires
        blocks.len() <= u32::MAX,
    ensures
        forall|i: int|
            0 <= i < evictable_blocks(blocks).len() ==> (#[trigger] evictable_blocks(blocks)[i]).0
                < blocks.len() && blocks[evictable_blocks(blocks)[i].0 as int]@.len() > 0,
        forall|id: BlockId|
            id < blocks.len() && (#[trigger] blocks[id as int])@.len() > 0 ==> blocks_of(
                evictable_blocks(blocks),
            ).contains(id),
    decreases blocks.len(),
{
    if blocks.len() > 0 {
        let rest = blocks.drop_last();
        evictable_blocks_members(rest);
        let all = evictable_blocks(blocks);
        let before = evictable_blocks(rest);
        assert forall|i: int| 0 <= i < all.len() implies (#[trigger] all[i]).0 < blocks.len()
            && blocks[all[i].0 as int]@.len() > 0 by {
            if i < before.len() {
                assert(all[i] == before[i]);
                assert(rest[before[i].0 as int] == blocks[before[i].0 as int]);
            }
        }
        assert forall|id: BlockId|
            id < blocks.len() && (#[trigger] blocks[id as int])@.len() > 0 implies blocks_of(
            all,
        ).contains(id) by {
            if id < rest.len() {
                assert(rest[id as int] == blocks[id as int]);
                let j = choose|j: int|
                    0 <= j < blocks_of(before).len() && blocks_of(before)[j] == id;
                assert(all[j] == before[j]);
                assert(blocks_of(all)[j] == id);
            } else {
                assert(blocks_of(all)[all.len() - 1] == id);
            }
        }
    }
}

/// Rebuilds what a disk cache knows from what its blocks hold.
#[derive(Debug)]
pub struct RecoverRunner;

impl RecoverRunner {
    /// Split the scans into the entries and the errors.
    fn partition(scans: Vec<Result<Vec<EntryInfo>, Error>>) -> (r: (
        Vec<Vec<EntryInfo>>,
        Vec<Error>,
    ))
        ensures
            r.0@ == successes(scans@),
            r.1@ == failures(scans@),
    {
        let mut oks: Vec<Vec<EntryInfo>> = Vec::new();
        let mut errs: Vec<Error> = Vec::new();
        let ghost all = scans@;
        for scan in iter: scans
            invariant
                iter.seq() == all,
                oks@ == successes(all.take(iter.index() as int)),
                errs@ == failures(all.take(iter.index() as int)),
        {
            proof {
                let now = all.take(iter.index() + 1);
                assert(now.drop_last() =~= all.take(iter.index() as int));
                assert(now.last() == scan);
            }
            match scan {
                Ok(infos) => oks.push(infos),
                Err(e) => errs.push(e),
            }
        }
        assert(all.take(all.len() as int) =~= all);
        (oks, errs)
    }
    /// Collect the newest version of every entry, the clean blocks, and the others with the
    /// sequence of their latest write.
    fn collect(blocks: &Vec<Vec<EntryInfo>>, tombstones: &Vec<Tombstone>) -> (r: (
        Newest,
        Vec<BlockId>,
        Vec<(BlockId, Sequence)>,
    ))
        requires
            blocks@.len() <= u32::MAX,
        ensures
            r.0.wf(),
            r.0.seen@ == versions(blocks@, tombstones@),
            r.1@ == clean_blocks(blocks@),
            r.2@ == evictable_blocks(blocks@),
    {
        let mut newest = Newest::new();
        let mut clean: Vec<BlockId> = Vec::new();
        let mut evictable: Vec<(BlockId, Sequence)> = Vec::new();
        let ghost keep = |id: BlockId| blocks@[id as int]@.len() == 0;
        let mut b: usize = 0;
        while b < blocks.len()
            invariant
                b <= blocks@.len() <= u32::MAX,
                keep == (|id: BlockId| blocks@[id as int]@.len() == 0),
                newest.wf(),
                newest.seen@ == found(blocks@.take(b as int)),
                clean@ == ids_with(0, b as nat, keep),
                evictable@ == evictable_blocks(blocks@.take(b as int)),
            decreases blocks@.len() - b,
        {
            let block: BlockId = b as BlockId;
            let infos = &blocks[b];
            let ghost now = blocks@.take(b + 1);
            assert(now.drop_last() =~= blocks@.take(b as int));
            assert(now.last() == *infos);
            if infos.len() == 0 {
                clean.push(block);
                assert(written(infos@) =~= Seq::empty());
                assert(found(now) =~= newest.seen@);
            } else {
                let ghost before = newest.seen@;
                let mut max_sequence: Sequence = 0;
                let mut i: usize = 0;
                assert(before + written(infos@.take(0)) =~= before);
                while i < infos.len()
                    invariant
                        newest.wf(),
                        i <= infos@.len(),
                        newest.seen@ == before + written(infos@.take(i as int)),
                        max_sequence == latest(written(infos@.take(i as int))),
                    decreases infos@.len() - i,
                {
                    let info = infos[i];
                    let version = Version {
                        hash: info.hash,
                        sequence: info.addr.sequence,
                        address: Some(info.addr),
                    };
                    if info.addr.sequence > max_sequence {
                        max_sequence = info.addr.sequence;
                    }
                    newest.insert_or_update(version);
                    proof {
                        let head = written(infos@.take(i + 1));
                        assert(head.drop_last() =~= written(infos@.take(i as int)));
                        assert(head.last() == version);
                        assert(newest.seen@ =~= before + head);
                    }
                    i = i + 1;
                }
                assert(infos@.take(i as int) =~= infos@);
                evictable.push((block, max_sequence));
            }
            b = b + 1;
        }
        assert(blocks@.take(b as int) =~= blocks@);
        let ghost before = newest.seen@;
        let mut t: usize = 0;
        assert(before + deleted(tombstones@.take(0)) =~= before);
        while t < tombstones.len()
            invariant
                newest.wf(),
                t <= tombstones@.len(),
                newest.seen@ == before + deleted(tombstones@.take(t as int)),
            decreases tombstones@.len() - t,
        {
            let tombstone = tombstones[t];
            newest.insert_or_update(
                Version { hash: tombstone.hash, sequence: tombstone.sequence, address: None },
            );
            t = t + 1;
            assert(newest.seen@ =~= before + deleted(tombstones@.take(t as int)));
        }
        assert(tombstones@.take(t as int) =~= tombstones@);
        (newest, clean, evictable)
    }

    /// Recover from the scans of the blocks in use, in the order of their ids, and from the log of
    /// deletions. Returns the sequence of the next write.
    ///
    /// If a block could not be scanned nothing is recovered. Else the newest version of every
    /// entry is the one that counts, and the blocks that hold data are evictable in the order in
    /// which they were last written.
    pub fn run<P: Partition, E: EvictionPicker<P>, W, R>(
        scans: Vec<Result<Vec<EntryInfo>, Error>>,
        tombstones: &Vec<Tombstone>,
        indexer: &mut Indexer,
        block_manager: &mut BlockManager<P, E, W, R>,
    ) -> (r: Result<Sequence, Error>)
        requires
            old(indexer).wf(),
            old(block_manager).wf(),
            scans@.len() <= old(block_manager)@.active,
            failures(scans@).len() == 0 ==> latest(versions(successes(scans@), tombstones@))
                < u64::MAX,
        ensures
            final(indexer).wf(),
            final(indexer).spec_shards() == old(indexer).spec_shards(),
            final(block_manager).wf(),
            final(block_manager).same_config(*old(block_manager)),
            match r {
                Err(e) => {
                    &&& failures(scans@).len() > 0
                    &&& e matches Error::Recover { reasons } && reasons@ == failures(scans@)
                    &&& *final(indexer) == *old(indexer)
                    &&& *final(block_manager) == *old(block_manager)
                },
                Ok(next) => {
                    let blocks = successes(scans@);
                    &&& failures(scans@).len() == 0
                    &&& next == latest(versions(blocks, tombstones@)) + 1
                    &&& final(indexer)@ == recovered(
                        old(indexer)@,
                        versions(blocks, tombstones@),
                    )
                    &&& restarted(*old(block_manager), *final(block_manager), blocks)
                },
            },
            r is Ok <==> forall|b: int| 0 <= b < scans@.len() ==> #[trigger] scans@[b] is Ok,
            r matches Ok(next) ==> {
                &&& forall|b: int, i: int|
                    0 <= b < scans@.len() && 0 <= i < (scans@[b]->Ok_0)@.len() ==> (
                    #[trigger] (scans@[b]->Ok_0)@[i]).addr.sequence < next
                &&& forall|t: int|
                    0 <= t < tombstones@.len() ==> (#[trigger] tombstones@[t]).sequence < next
            },
            r is Ok && old(indexer)@ == Map::<u64, Index>::empty() ==> {
                &&& forall|hash: u64|
                    (#[trigger] final(indexer).lookup(hash)) matches Some(addr) ==> exists|
                        b: int,
                        i: int,
                    |
                        {
                            &&& 0 <= b < scans@.len()
                            &&& 0 <= i < (scans@[b]->Ok_0)@.len()
                            &&& #[trigger] (scans@[b]->Ok_0)@[i] == (EntryInfo { hash, addr })
                        }
                &&& forall|b: int, i: int|
                    {
                        &&& 0 <= b < scans@.len()
                        &&& 0 <= i < (scans@[b]->Ok_0)@.len()
                        &&& forall|c: int, j: int|
                            {
                                &&& 0 <= c < scans@.len()
                                &&& 0 <= j < (scans@[c]->Ok_0)@.len()
                                &&& c != b || j != i
                                &&& (#[trigger] (scans@[c]->Ok_0)@[j]).hash == (
                                scans@[b]->Ok_0)@[i].hash
                            } ==> (scans@[c]->Ok_0)@[j].addr.sequence < (
                            scans@[b]->Ok_0)@[i].addr.sequence
                        &&& forall|t: int|
                            0 <= t < tombstones@.len() && (#[trigger] tombstones@[t]).hash == (
                            scans@[b]->Ok_0)@[i].hash ==> tombstones@[t].sequence < (
                            scans@[b]->Ok_0)@[i].addr.sequence
                    } ==> final(indexer).lookup(
                        (#[trigger] (scans@[b]->Ok_0)@[i]).hash,
                    ) == Some((scans@[b]->Ok_0)@[i].addr)
            },
    {
        let ghost all = scans@;
        let (blocks, errs) = Self::partition(scans);
        proof {
            no_failure_is_passed_over(all);
        }
        if errs.len() > 0 {
            return Err(Error::Recover { reasons: errs });
        }
        proof {
            successes_in_place(all);
        }
        let (newest, clean, evictable) = Self::collect(&blocks, tombstones);
        let ghost seen = newest.seen@;
        let batch = newest.live();
        let ghost items = batch@;
        indexer.insert_batch(batch);
        proof {
            let want = recovered(old(indexer)@, seen);
            assert forall|hash: u64|
                (#[trigger] want.contains_key(hash) <==> indexer@.contains_key(hash)) && (
                want.contains_key(hash) ==> want[hash] == indexer@[hash]) by {
                insert_distinct(old(indexer)@, items, hash);
                match live(seen, hash) {
                    Some(address) => {
                        let item = HashedEntryAddress { hash, address };
                        assert(items.contains(item));
                        let i = choose|i: int| 0 <= i < items.len() && items[i] == item;
                    },
                    None => {
                        assert forall|i: int| 0 <= i < items.len() implies (
                        #[trigger] items[i]).hash != hash by {}
                    },
                }
            }
            assert(indexer@ =~= want);
            next_write_is_latest(all, tombstones@);
            if old(indexer)@ == Map::<u64, Index>::empty() {
                assert forall|hash: u64|
                    (#[trigger] indexer.lookup(hash)) matches Some(addr) implies exists|
                    b: int,
                    i: int,
                |
                    {
                        &&& 0 <= b < all.len()
                        &&& 0 <= i < (all[b]->Ok_0)@.len()
                        &&& #[trigger] (all[b]->Ok_0)@[i] == (EntryInfo {
                            hash,
                            addr: indexer.lookup(hash)->0,
                        })
                    } by {
                    recovered_entry_was_scanned(all, tombstones@, hash);
                }
                assert forall|b: int, i: int|
                    {
                        &&& 0 <= b < all.len()
                        &&& 0 <= i < (all[b]->Ok_0)@.len()
                        &&& forall|c: int, j: int|
                            {
                                &&& 0 <= c < all.len()
                                &&& 0 <= j < (all[c]->Ok_0)@.len()
                                &&& c != b || j != i
                                &&& (#[trigger] (all[c]->Ok_0)@[j]).hash == (
                                all[b]->Ok_0)@[i].hash
                            } ==> (all[c]->Ok_0)@[j].addr.sequence < (
                            all[b]->Ok_0)@[i].addr.sequence
                        &&& forall|t: int|
                            0 <= t < tombstones@.len() && (#[trigger] tombstones@[t]).hash == (
                            all[b]->Ok_0)@[i].hash ==> tombstones@[t].sequence < (
                            all[b]->Ok_0)@[i].addr.sequence
                    } implies indexer.lookup((#[trigger] (all[b]->Ok_0)@[i]).hash) == Some(
                    (all[b]->Ok_0)@[i].addr,
                ) by {
                    unsurpassed_entry_is_recovered(all, tombstones@, b, i);
                }
            }
        }
        let next: Sequence = newest.latest + 1;
        let order = order_evictable_blocks_by_sequence(evictable);
        proof {
            recovered_blocks(blocks@, order@);
            assert forall|i: int| 0 <= i < clean@.len() implies (#[trigger] clean@[i])
                < old(block_manager)@.active by {
                assert(clean@.contains(clean@[i]));
            }
            assert forall|i: int| 0 <= i < order@.len() implies (#[trigger] order@[i])
                < old(block_manager)@.active by {
                assert(order@.contains(order@[i]));
            }
        }
        block_manager.init_in_order(&clean, &order);
        Ok(next)
    }
}

/// The states of the blocks after a restart: those without entries are clean, and the others are
/// evictable, which the pickers were told oldest-written first. If the manager was fresh and all
/// blocks in use were scanned, no block is lost.
pub open spec fn restarted<P: Partition, E: EvictionPicker<P>, W, R>(
    before: BlockManager<P, E, W, R>,
    after: BlockManager<P, E, W, R>,
    blocks: Seq<Vec<EntryInfo>>,
) -> bool {
    &&& exists|sorted: Seq<(BlockId, Sequence)>|
        {
            &&& #[trigger] stably_sorted(evictable_blocks(blocks), sorted)
            &&& after@ == State {
                clean: clean_blocks(blocks),
                evictable: before@.evictable.union(blocks_of(sorted).to_set()),
                eviction_pickers: after@.eviction_pickers,
                ..before@
            }
            &&& told(
                before@.eviction_pickers,
                after@.eviction_pickers,
                evictable_events(
                    before.spec_blocks(),
                    before@.evictable,
                    clean_blocks(blocks).len(),
                    blocks_of(sorted),
                ),
            )
        }
    &&& {
        &&& blocks.len() == before@.active
        &&& before@ == State::<E, W, R>::fresh(before@.active, before@.eviction_pickers)
    } ==> after@.partitioned(before.spec_blocks().len())
}

/// The clean and the evictable blocks are all blocks, and no block is both.
proof fn recovered_blocks(blocks: Seq<Vec<EntryInfo>>, order: Seq<BlockId>)
    requires
        blocks.len() <= u32::MAX,
        exists|sorted: Seq<(BlockId, Sequence)>|
            #[trigger] stably_sorted(evictable_blocks(blocks), sorted) && order == blocks_of(
                sorted,
            ),
    ensures
        clean_blocks(blocks).no_duplicates(),
        forall|id: BlockId|
            #![trigger clean_blocks(blocks).contains(id)]
            #![trigger order.contains(id)]
            {
                &&& id < blocks.len() <==> (clean_blocks(blocks).contains(id) || order.contains(id))
                &&& !(clean_blocks(blocks).contains(id) && order.contains(id))
            },
{
    let clean = clean_blocks(blocks);
    let pairs = evictable_blocks(blocks);
    let sorted = choose|sorted: Seq<(BlockId, Sequence)>|
        #[trigger] stably_sorted(pairs, sorted) && order == blocks_of(sorted);
    ids_with_members(0, blocks.len(), |id: BlockId| blocks[id as int]@.len() == 0);
    evictable_blocks_members(blocks);
    assert forall|id: BlockId| #[trigger] order.contains(id) <==> blocks_of(pairs).contains(id) by {
        if order.contains(id) {
            let j = choose|j: int| 0 <= j < order.len() && order[j] == id;
            stable_sort_keeps_pairs(pairs, sorted, sorted[j]);
            assert(sorted.contains(sorted[j]));
            let i = choose|i: int| 0 <= i < pairs.len() && pairs[i] == sorted[j];
            assert(blocks_of(pairs)[i] == id);
        }
        if blocks_of(pairs).contains(id) {
            let i = choose|i: int| 0 <= i < blocks_of(pairs).len() && blocks_of(pairs)[i] == id;
            stable_sort_keeps_pairs(pairs, sorted, pairs[i]);
            assert(pairs.contains(pairs[i]));
            let j = choose|j: int| 0 <= j < sorted.len() && sorted[j] == pairs[i];
            assert(order[j] == id);
        }
    }
    assert forall|id: BlockId| #[trigger] blocks_of(pairs).contains(id) implies id < blocks.len()
        && blocks[id as int]@.len() > 0 by {
        let i = choose|i: int| 0 <= i < blocks_of(pairs).len() && blocks_of(pairs)[i] == id;
        assert(pairs[i].0 == id);
    }
    assert forall|id: BlockId|
        #![trigger clean.contains(id)]
        #![trigger order.contains(id)]
        {
            &&& id < blocks.len() <==> (clean.contains(id) || order.contains(id))
            &&& !(clean.contains(id) && order.contains(id))
        } by {
        if id < blocks.len() {
            assert(blocks[id as int]@.len() > 0 || blocks[id as int]@.len() == 0);
            assert(clean.contains(id) <==> blocks[id as int]@.len() == 0);
        }
        assert(order.contains(id) <==> blocks_of(pairs).contains(id));
    }
}

/// The newest version of a hash is one of those that were found, no other one has a higher
/// sequence, and a later one has a lower one. There is none only if the hash was not found.
pub proof fn newest_is_newest(versions: Seq<Version>, hash: u64)
    ensures
        match newest(versions, hash) {
            Some(v) => exists|i: int|
                {
                    &&& 0 <= i < versions.len()
                    &&& #[trigger] versions[i] == v
                    &&& v.hash == hash
                    &&& forall|j: int|
                        0 <= j < versions.len() && (#[trigger] versions[j]).hash == hash
                            ==> versions[j].sequence <= v.sequence && (j > i
                            ==> versions[j].sequence < v.sequence)
                },
            None => forall|j: int|
                0 <= j < versions.len() ==> (#[trigger] versions[j]).hash != hash,
        },
    decreases versions.len(),
{
    if versions.len() > 0 {
        let rest = versions.drop_last();
        let last = versions.len() - 1;
        newest_is_newest(rest, hash);
        assert forall|j: int| 0 <= j < last implies versions[j] == #[trigger] rest[j] by {}
        match newest(rest, hash) {
            Some(b) => {
                let i = choose|i: int|
                    {
                        &&& 0 <= i < rest.len()
                        &&& #[trigger] rest[i] == b
                        &&& b.hash == hash
                        &&& forall|j: int|
                            0 <= j < rest.len() && (#[trigger] rest[j]).hash == hash
                                ==> rest[j].sequence <= b.sequence && (j > i ==> rest[j].sequence
                                < b.sequence)
                    };
                let v = newest(versions, hash)->0;
                let at = if v == versions.last() && versions.last().hash == hash
                    && versions.last().sequence >= b.sequence {
                    last
                } else {
                    i
                };
                assert(versions[at] == v);
                assert forall|j: int|
                    0 <= j < versions.len() && (#[trigger] versions[j]).hash
                        == hash implies versions[j].sequence <= v.sequence && (j > at
                    ==> versions[j].sequence < v.sequence) by {
                    if j < last {
                        assert(rest[j] == versions[j]);
                    }
                }
            },
            None => {
                assert forall|j: int| 0 <= j < last implies (#[trigger] versions[j]).hash
                    != hash by {
                    assert(rest[j] == versions[j]);
                }
                assert(versions[last] == versions.last());
            },
        }
    }
}

/// Every block that could not be scanned gives its reason, in the order of the blocks, and every other
/// one its entries.
pub proof fn scans_are_split(
    a: Seq<Result<Vec<EntryInfo>, Error>>,
    scan: Result<Vec<EntryInfo>, Error>,
)
    ensures
        failures(Seq::empty()) == Seq::<Error>::empty(),
        successes(Seq::empty()) == Seq::<Vec<EntryInfo>>::empty(),
        scan matches Err(e) ==> {
            &&& failures(a.push(scan)) == failures(a).push(e)
            &&& successes(a.push(scan)) == successes(a)
        },
        scan matches Ok(infos) ==> {
            &&& failures(a.push(scan)) == failures(a)
            &&& successes(a.push(scan)) == successes(a).push(infos)
        },
        failures(a).len() + successes(a).len() == a.len(),
    decreases a.len(),
{
    assert(a.push(scan).drop_last() =~= a);
    if a.len() > 0 {
        scans_are_split(a.drop_last(), a.last());
        assert(a.drop_last().push(a.last()) =~= a);
    }
}

/// There is no failure exactly if every block could be scanned.
pub proof fn no_failure_is_passed_over(scans: Seq<Result<Vec<EntryInfo>, Error>>)
    ensures
        failures(scans).len() == 0 <==> forall|b: int|
            0 <= b < scans.len() ==> #[trigger] scans[b] is Ok,
    decreases scans.len(),
{
    if scans.len() > 0 {
        let rest = scans.drop_last();
        no_failure_is_passed_over(rest);
        assert forall|b: int| 0 <= b < rest.len() implies #[trigger] rest[b] == scans[b] by {}
        assert(scans.last() == scans[scans.len() - 1]);
        if failures(scans).len() == 0 {
            assert forall|b: int| 0 <= b < scans.len() implies #[trigger] scans[b] is Ok by {
                if b < rest.len() {
                    assert(rest[b] is Ok);
                }
            }
        }
        if forall|b: int| 0 <= b < scans.len() ==> #[trigger] scans[b] is Ok {
            assert forall|b: int| 0 <= b < rest.len() implies #[trigger] rest[b] is Ok by {
                assert(scans[b] is Ok);
            }
        }
    }
}

/// No other write and no deletion of the entry at position `i` of block `b` came after it. Of several
/// writes with the same sequence the last one counts: that in the last block, and there the last one.
pub open spec fn unsurpassed(
    scans: Seq<Result<Vec<EntryInfo>, Error>>,
    tombstones: Seq<Tombstone>,
    b: int,
    i: int,
) -> bool {
    let info = (scans[b]->Ok_0)@[i];
    &&& forall|c: int, j: int|
        {
            &&& 0 <= c < scans.len()
            &&& 0 <= j < (scans[c]->Ok_0)@.len()
            &&& (#[trigger] (scans[c]->Ok_0)@[j]).hash == info.hash
        } ==> {
            &&& (scans[c]->Ok_0)@[j].addr.sequence <= info.addr.sequence
            &&& c > b || (c == b && j > i) ==> (scans[c]->Ok_0)@[j].addr.sequence
                < info.addr.sequence
        }
    &&& forall|t: int|
        0 <= t < tombstones.len() && (#[trigger] tombstones[t]).hash == info.hash
            ==> tombstones[t].sequence < info.addr.sequence
}

/// Where the entry at position `i` of block `b` is among all that were found.
spec fn place(blocks: Seq<Vec<EntryInfo>>, b: int, i: int) -> int {
    found(blocks.take(b)).len() + i
}

proof fn places_before(blocks: Seq<Vec<EntryInfo>>, b: int, c: int)
    requires
        0 <= b < c <= blocks.len(),
    ensures
        place(blocks, b, blocks[b]@.len() as int) <= place(blocks, c, 0),
        place(blocks, c, 0) <= found(blocks).len(),
    decreases blocks.len() - c, c - b,
{
    assert(blocks.take(b + 1).drop_last() =~= blocks.take(b));
    assert(blocks.take(c).drop_last() =~= blocks.take(c - 1));
    if b + 1 < c {
        places_before_step(blocks, b, c);
    }
    if c < blocks.len() {
        places_before(blocks, b, c + 1);
        assert(blocks.take(c + 1).drop_last() =~= blocks.take(c));
    } else {
        assert(blocks.take(c) =~= blocks);
    }
}

proof fn places_before_step(blocks: Seq<Vec<EntryInfo>>, b: int, c: int)
    requires
        0 <= b < c <= blocks.len(),
    ensures
        place(blocks, b, blocks[b]@.len() as int) <= place(blocks, c, 0),
    decreases c - b,
{
    assert(blocks.take(c).drop_last() =~= blocks.take(c - 1));
    if b + 1 < c {
        places_before_step(blocks, b, c - 1);
    }
}

/// Every entry that was scanned is found, at its place and as it was scanned.
proof fn scanned_is_found(blocks: Seq<Vec<EntryInfo>>, b: int, i: int)
    requires
        0 <= b < blocks.len(),
        0 <= i < blocks[b]@.len(),
    ensures
        0 <= place(blocks, b, i) < found(blocks).len(),
        ({
            let v = found(blocks)[place(blocks, b, i)];
            let info = blocks[b]@[i];
            v.hash == info.hash && v.sequence == info.addr.sequence && v.address == Some(info.addr)
        }),
    decreases blocks.len(),
{
    let rest = blocks.drop_last();
    if b < rest.len() {
        scanned_is_found(rest, b, i);
        assert(rest.take(b) =~= blocks.take(b));
        assert(rest[b] == blocks[b]);
    } else {
        assert(blocks.take(b) =~= rest);
        assert(written(blocks.last()@)[i].address == Some(blocks[b]@[i].addr));
    }
}

/// Everything that is found was scanned, at that place.
proof fn found_is_scanned(blocks: Seq<Vec<EntryInfo>>, k: int) -> (at: (int, int))
    requires
        0 <= k < found(blocks).len(),
    ensures
        0 <= at.0 < blocks.len(),
        0 <= at.1 < blocks[at.0]@.len(),
        place(blocks, at.0, at.1) == k,
    decreases blocks.len(),
{
    let rest = blocks.drop_last();
    let n = found(rest).len();
    if k < n {
        let at = found_is_scanned(rest, k);
        assert(rest.take(at.0) =~= blocks.take(at.0));
        assert(rest[at.0] == blocks[at.0]);
        at
    } else {
        assert(blocks.take(blocks.len() - 1) =~= rest);
        (blocks.len() - 1, k - n)
    }
}

/// An entry that is known after a restart is where one of the scans found it, and no scan and no
/// deletion knows of anything later.
pub proof fn recovered_entry_was_scanned(
    scans: Seq<Result<Vec<EntryInfo>, Error>>,
    tombstones: Seq<Tombstone>,
    hash: u64,
)
    requires
        forall|b: int| 0 <= b < scans.len() ==> #[trigger] scans[b] is Ok,
        recovered(Map::empty(), versions(successes(scans), tombstones)).contains_key(hash),
    ensures
        ({
            let known = recovered(Map::empty(), versions(successes(scans), tombstones))[hash];
            known matches Index::Address(addr) && {
                &&& exists|b: int, i: int|
                    {
                        &&& 0 <= b < scans.len()
                        &&& 0 <= i < (scans[b]->Ok_0)@.len()
                        &&& #[trigger] (scans[b]->Ok_0)@[i] == (EntryInfo { hash, addr })
                        &&& unsurpassed(scans, tombstones, b, i)
                    }
                &&& forall|c: int, j: int|
                    {
                        &&& 0 <= c < scans.len()
                        &&& 0 <= j < (scans[c]->Ok_0)@.len()
                        &&& (#[trigger] (scans[c]->Ok_0)@[j]).hash == hash
                    } ==> (scans[c]->Ok_0)@[j].addr.sequence <= addr.sequence
                &&& forall|t: int|
                    0 <= t < tombstones.len() && (#[trigger] tombstones[t]).hash == hash
                        ==> tombstones[t].sequence < addr.sequence
            }
        }),
{
    no_failure_is_passed_over(scans);
    successes_in_place(scans);
    let blocks = successes(scans);
    let all = versions(blocks, tombstones);
    let n = found(blocks).len();
    newest_is_newest(all, hash);
    let v = newest(all, hash)->0;
    let k = choose|k: int|
        {
            &&& 0 <= k < all.len()
            &&& #[trigger] all[k] == v
            &&& v.hash == hash
            &&& forall|j: int|
                0 <= j < all.len() && (#[trigger] all[j]).hash == hash ==> all[j].sequence
                    <= v.sequence && (j > k ==> all[j].sequence < v.sequence)
        };
    if k >= n {
        assert(all[k] == deleted(tombstones)[k - n]);
        assert(false);
    }
    assert(found(blocks)[k] == v);
    let (b, i) = found_is_scanned(blocks, k);
    scanned_is_found(blocks, b, i);
    let info = blocks[b]@[i];
    assert(scans[b] == Ok::<Vec<EntryInfo>, Error>(blocks[b]));
    assert((scans[b]->Ok_0)@[i] == info);
    assert forall|c: int, j: int|
        {
            &&& 0 <= c < scans.len()
            &&& 0 <= j < (scans[c]->Ok_0)@.len()
            &&& (#[trigger] (scans[c]->Ok_0)@[j]).hash == info.hash
        } implies {
        &&& (scans[c]->Ok_0)@[j].addr.sequence <= info.addr.sequence
        &&& c > b || (c == b && j > i) ==> (scans[c]->Ok_0)@[j].addr.sequence < info.addr.sequence
    } by {
        assert(scans[c] == Ok::<Vec<EntryInfo>, Error>(blocks[c]));
        scanned_is_found(blocks, c, j);
        let at = place(blocks, c, j);
        assert(all[at] == found(blocks)[at]);
        if c > b {
            places_before(blocks, b, c);
        }
    }
    assert forall|t: int|
        0 <= t < tombstones.len() && (#[trigger] tombstones[t]).hash
            == info.hash implies tombstones[t].sequence < info.addr.sequence by {
        assert(all[n + t] == deleted(tombstones)[t]);
    }
    assert(unsurpassed(scans, tombstones, b, i));
}

/// An entry that was scanned is known after a restart where it was scanned, unless a scan or a
/// deletion knows of anything later.
pub proof fn unsurpassed_entry_is_recovered(
    scans: Seq<Result<Vec<EntryInfo>, Error>>,
    tombstones: Seq<Tombstone>,
    b: int,
    i: int,
)
    requires
        forall|b: int| 0 <= b < scans.len() ==> #[trigger] scans[b] is Ok,
        0 <= b < scans.len(),
        0 <= i < (scans[b]->Ok_0)@.len(),
        forall|c: int, j: int|
            {
                &&& 0 <= c < scans.len()
                &&& 0 <= j < (scans[c]->Ok_0)@.len()
                &&& (#[trigger] (scans[c]->Ok_0)@[j]).hash == (scans[b]->Ok_0)@[i].hash
            } ==> {
                &&& (scans[c]->Ok_0)@[j].addr.sequence <= (scans[b]->Ok_0)@[i].addr.sequence
                &&& c > b || (c == b && j > i) ==> (scans[c]->Ok_0)@[j].addr.sequence < (
                scans[b]->Ok_0)@[i].addr.sequence
            },
        forall|t: int|
            0 <= t < tombstones.len() && (#[trigger] tombstones[t]).hash == (
            scans[b]->Ok_0)@[i].hash ==> tombstones[t].sequence < (
            scans[b]->Ok_0)@[i].addr.sequence,
    ensures
        ({
            let after = recovered(Map::empty(), versions(successes(scans), tombstones));
            let info = (scans[b]->Ok_0)@[i];
            after.contains_key(info.hash) && after[info.hash] == Index::Address(info.addr)
        }),
{
    no_failure_is_passed_over(scans);
    successes_in_place(scans);
    let blocks = successes(scans);
    assert(scans[b] == Ok::<Vec<EntryInfo>, Error>(blocks[b]));
    let info = blocks[b]@[i];
    scanned_is_found(blocks, b, i);
    let k = place(blocks, b, i);
    assert forall|j: int|
        0 <= j < found(blocks).len() && (#[trigger] found(blocks)[j]).hash == found(
            blocks,
        )[k].hash implies found(blocks)[j].sequence <= found(blocks)[k].sequence && (j > k
        ==> found(blocks)[j].sequence < found(blocks)[k].sequence) by {
        let (c, l) = found_is_scanned(blocks, j);
        scanned_is_found(blocks, c, l);
        assert(scans[c] == Ok::<Vec<EntryInfo>, Error>(blocks[c]));
        assert((scans[c]->Ok_0)@[l].hash == info.hash);
        if c < b {
            places_before(blocks, c, b);
        }
    }
    latest_write_comes_back(blocks, tombstones, k);
}

/// A deleted entry is not known after a restart, unless a scan knows of a later write of it.
pub proof fn deleted_entry_is_not_recovered(
    scans: Seq<Result<Vec<EntryInfo>, Error>>,
    tombstones: Seq<Tombstone>,
    t: int,
)
    requires
        forall|b: int| 0 <= b < scans.len() ==> #[trigger] scans[b] is Ok,
        0 <= t < tombstones.len(),
        forall|b: int, i: int|
            {
                &&& 0 <= b < scans.len()
                &&& 0 <= i < (scans[b]->Ok_0)@.len()
                &&& (#[trigger] (scans[b]->Ok_0)@[i]).hash == tombstones[t].hash
            } ==> (scans[b]->Ok_0)@[i].addr.sequence <= tombstones[t].sequence,
    ensures
        !recovered(Map::empty(), versions(successes(scans), tombstones)).contains_key(
            tombstones[t].hash,
        ),
{
    let hash = tombstones[t].hash;
    if recovered(Map::empty(), versions(successes(scans), tombstones)).contains_key(hash) {
        recovered_entry_was_scanned(scans, tombstones, hash);
        let (b, i) = choose|b: int, i: int|
            {
                &&& 0 <= b < scans.len()
                &&& 0 <= i < (scans[b]->Ok_0)@.len()
                &&& (#[trigger] (scans[b]->Ok_0)@[i]).hash == hash
                &&& unsurpassed(scans, tombstones, b, i)
            };
        assert(tombstones[t].sequence < (scans[b]->Ok_0)@[i].addr.sequence);
    }
}

/// What an indexer knew before a restart of its own is not lost, unless a scan knows of a write that is
/// not older.
pub proof fn known_entries_are_kept(m: Map<u64, Index>, versions: Seq<Version>, hash: u64)
    requires
        m.contains_key(hash),
    ensures
        recovered(m, versions).contains_key(hash),
        match live(versions, hash) {
            Some(addr) => if addr.sequence >= m[hash].spec_sequence() {
                recovered(m, versions)[hash] == Index::Address(addr)
            } else {
                recovered(m, versions)[hash] == m[hash]
            },
            None => recovered(m, versions)[hash] == m[hash],
        },
{
}

/// The next write comes after everything that the scans and the deletions know of, and right after the
/// latest of it.
pub proof fn next_write_is_latest(
    scans: Seq<Result<Vec<EntryInfo>, Error>>,
    tombstones: Seq<Tombstone>,
)
    requires
        forall|b: int| 0 <= b < scans.len() ==> #[trigger] scans[b] is Ok,
    ensures
        ({
            let last = latest(versions(successes(scans), tombstones));
            &&& forall|b: int, i: int|
                0 <= b < scans.len() && 0 <= i < (scans[b]->Ok_0)@.len() ==> (
                #[trigger] (scans[b]->Ok_0)@[i]).addr.sequence <= last
            &&& forall|t: int|
                0 <= t < tombstones.len() ==> (#[trigger] tombstones[t]).sequence <= last
            &&& {
                ||| last == 0
                ||| exists|b: int, i: int|
                    0 <= b < scans.len() && 0 <= i < (scans[b]->Ok_0)@.len() && (
                    #[trigger] (scans[b]->Ok_0)@[i]).addr.sequence == last
                ||| exists|t: int|
                    0 <= t < tombstones.len() && (#[trigger] tombstones[t]).sequence == last
            }
        }),
{
    no_failure_is_passed_over(scans);
    successes_in_place(scans);
    let blocks = successes(scans);
    let all = versions(blocks, tombstones);
    let n = found(blocks).len();
    let last = latest(all);
    latest_is_latest(all);
    assert forall|b: int, i: int|
        0 <= b < scans.len() && 0 <= i < (scans[b]->Ok_0)@.len() implies (
    #[trigger] (scans[b]->Ok_0)@[i]).addr.sequence <= last by {
        assert(scans[b] == Ok::<Vec<EntryInfo>, Error>(blocks[b]));
        scanned_is_found(blocks, b, i);
        assert(all[place(blocks, b, i)] == found(blocks)[place(blocks, b, i)]);
    }
    assert forall|t: int| 0 <= t < tombstones.len() implies (#[trigger] tombstones[t]).sequence
        <= last by {
        assert(all[n + t] == deleted(tombstones)[t]);
    }
    if all.len() > 0 {
        let k = choose|k: int| 0 <= k < all.len() && (#[trigger] all[k]).sequence == last;
        if k < n {
            let (b, i) = found_is_scanned(blocks, k);
            scanned_is_found(blocks, b, i);
            assert(scans[b] == Ok::<Vec<EntryInfo>, Error>(blocks[b]));
            assert((scans[b]->Ok_0)@[i].addr.sequence == last);
        } else {
            assert(all[k] == deleted(tombstones)[k - n]);
            assert(tombstones[k - n].sequence == last);
        }
    }
}

/// No version that was found is later than the latest one: the next write comes after all of them.
pub proof fn latest_is_latest(versions: Seq<Version>)
    ensures
        forall|i: int| 0 <= i < versions.len() ==> (#[trigger] versions[i]).sequence <= latest(
            versions,
        ),
        versions.len() > 0 ==> exists|i: int|
            0 <= i < versions.len() && (#[trigger] versions[i]).sequence == latest(versions),
    decreases versions.len(),
{
    if versions.len() > 0 {
        let rest = versions.drop_last();
        let last = versions.len() - 1;
        latest_is_latest(rest);
        assert forall|i: int| 0 <= i < versions.len() implies (#[trigger] versions[i]).sequence
            <= latest(versions) by {
            if i < last {
                assert(rest[i] == versions[i]);
            }
        }
        if versions.last().sequence > latest(rest) || rest.len() == 0 {
            assert(versions[last].sequence == latest(versions));
        } else {
            let i = choose|i: int|
                0 <= i < rest.len() && (#[trigger] rest[i]).sequence == latest(rest);
            assert(versions[i].sequence == latest(versions));
        }
    }
}

/// An entry that was deleted after all its writes does not come back with a restart.
pub proof fn deleted_entry_stays_deleted(
    blocks: Seq<Vec<EntryInfo>>,
    tombstones: Seq<Tombstone>,
    t: int,
)
    requires
        0 <= t < tombstones.len(),
        forall|i: int|
            0 <= i < found(blocks).len() && (#[trigger] found(blocks)[i]).hash == tombstones[t].hash
                ==> found(blocks)[i].sequence <= tombstones[t].sequence,
    ensures
        live(versions(blocks, tombstones), tombstones[t].hash) is None,
{
    let all = versions(blocks, tombstones);
    let n = found(blocks).len();
    let hash = tombstones[t].hash;
    newest_is_newest(all, hash);
    assert(all[n + t].hash == hash);
    let v = newest(all, hash)->0;
    let i = choose|i: int|
        {
            &&& 0 <= i < all.len()
            &&& #[trigger] all[i] == v
            &&& v.hash == hash
            &&& forall|j: int|
                0 <= j < all.len() && (#[trigger] all[j]).hash == hash ==> all[j].sequence
                    <= v.sequence && (j > i ==> all[j].sequence < v.sequence)
        };
    if i < n {
        assert(found(blocks)[i] == all[i]);
        assert(all[n + t].sequence < v.sequence);
        assert(false);
    }
    assert(all[i] == deleted(tombstones)[i - n]);
}

/// An entry that was written after all its deletions comes back where it was last written.
pub proof fn latest_write_comes_back(
    blocks: Seq<Vec<EntryInfo>>,
    tombstones: Seq<Tombstone>,
    i: int,
)
    requires
        0 <= i < found(blocks).len(),
        forall|j: int|
            0 <= j < found(blocks).len() && (#[trigger] found(blocks)[j]).hash == found(
                blocks,
            )[i].hash ==> found(blocks)[j].sequence <= found(blocks)[i].sequence && (j > i
                ==> found(blocks)[j].sequence < found(blocks)[i].sequence),
        forall|t: int|
            0 <= t < tombstones.len() && (#[trigger] tombstones[t]).hash == found(blocks)[i].hash
                ==> tombstones[t].sequence < found(blocks)[i].sequence,
    ensures
        newest(versions(blocks, tombstones), found(blocks)[i].hash) == Some(found(blocks)[i]),
{
    let all = versions(blocks, tombstones);
    let n = found(blocks).len();
    let w = found(blocks)[i];
    newest_is_newest(all, w.hash);
    assert(all[i] == w);
    let v = newest(all, w.hash)->0;
    let k = choose|k: int|
        {
            &&& 0 <= k < all.len()
            &&& #[trigger] all[k] == v
            &&& v.hash == w.hash
            &&& forall|j: int|
                0 <= j < all.len() && (#[trigger] all[j]).hash == w.hash ==> all[j].sequence
                    <= v.sequence && (j > k ==> all[j].sequence < v.sequence)
        };
    if k < n {
        assert(found(blocks)[k] == all[k]);
    } else {
        assert(all[k] == deleted(tombstones)[k - n]);
        assert(tombstones[k - n].hash == w.hash);
    }
}

/// Blocks are evictable oldest-written first: a block comes no later than one whose latest write
/// is newer.
pub proof fn oldest_written_first(
    blocks: Seq<Vec<EntryInfo>>,
    sorted: Seq<(BlockId, Sequence)>,
    i: int,
    j: int,
)
    requires
        blocks.len() <= u32::MAX,
        stably_sorted(evictable_blocks(blocks), sorted),
        0 <= i <= j < sorted.len(),
    ensures
        sorted[i].0 < blocks.len(),
        sorted[j].0 < blocks.len(),
        latest(written(blocks[sorted[i].0 as int]@)) <= latest(
            written(blocks[sorted[j].0 as int]@),
        ),
{
    let pairs = evictable_blocks(blocks);
    stable_sort_keeps_pairs(pairs, sorted, sorted[i]);
    stable_sort_keeps_pairs(pairs, sorted, sorted[j]);
    assert(sorted.contains(sorted[i]));
    assert(sorted.contains(sorted[j]));
    evictable_block_recency(blocks, sorted[i]);
    evictable_block_recency(blocks, sorted[j]);
}

proof fn evictable_block_recency(blocks: Seq<Vec<EntryInfo>>, pair: (BlockId, Sequence))
    requires
        blocks.len() <= u32::MAX,
        evictable_blocks(blocks).contains(pair),
    ensures
        pair.0 < blocks.len(),
        pair.1 == latest(written(blocks[pair.0 as int]@)),
    decreases blocks.len(),
{
    if blocks.len() > 0 {
        let rest = blocks.drop_last();
        let all = evictable_blocks(blocks);
        let before = evictable_blocks(rest);
        let i = choose|i: int| 0 <= i < all.len() && all[i] == pair;
        if i < before.len() {
            assert(before[i] == pair);
            evictable_block_recency(rest, pair);
            assert(rest[pair.0 as int] == blocks[pair.0 as int]);
        }
    }
}

/// The latest write of a block is one of its entries, and none of them is later.
pub proof fn latest_of_block(infos: Seq<EntryInfo>)
    ensures
        forall|i: int|
            0 <= i < infos.len() ==> (#[trigger] infos[i]).addr.sequence <= latest(written(infos)),
        infos.len() > 0 ==> exists|i: int|
            0 <= i < infos.len() && (#[trigger] infos[i]).addr.sequence == latest(written(infos)),
{
    let all = written(infos);
    latest_is_latest(all);
    assert forall|i: int| 0 <= i < infos.len() implies (#[trigger] infos[i]).addr.sequence
        <= latest(all) by {
        assert(all[i].sequence == infos[i].addr.sequence);
    }
    if infos.len() > 0 {
        assert(all.len() > 0);
        let i = choose|i: int| 0 <= i < all.len() && (#[trigger] all[i]).sequence == latest(all);
        assert(infos[i].addr.sequence == latest(all));
    }
}

proof fn evictable_ids_ascend(blocks: Seq<Vec<EntryInfo>>)
    requires
        blocks.len() <= u32::MAX,
    ensures
        forall|i: int, j: int|
            0 <= i < j < evictable_blocks(blocks).len() ==> (#[trigger] evictable_blocks(
                blocks,
            )[i]).0 < (#[trigger] evictable_blocks(blocks)[j]).0,
    decreases blocks.len(),
{
    if blocks.len() > 0 {
        let rest = blocks.drop_last();
        evictable_ids_ascend(rest);
        evictable_blocks_members(rest);
        let all = evictable_blocks(blocks);
        let before = evictable_blocks(rest);
        assert forall|i: int, j: int| 0 <= i < j < all.len() implies (#[trigger] all[i]).0 < (
        #[trigger] all[j]).0 by {
            assert(all[i] == before[i]);
            if j < before.len() {
                assert(all[j] == before[j]);
            }
        }
    }
}

/// After a restart a block without entries is clean, and one with entries is evictable. Nothing else
/// is changed of the states of the blocks, and the clean ones are written by ascending id.
pub proof fn restart_tells_blocks_apart<P: Partition, E: EvictionPicker<P>, W, R>(
    before: BlockManager<P, E, W, R>,
    after: BlockManager<P, E, W, R>,
    blocks: Seq<Vec<EntryInfo>>,
)
    requires
        blocks.len() <= u32::MAX,
        restarted(before, after, blocks),
    ensures
        forall|id: BlockId| #[trigger]
            after@.clean.contains(id) <==> id < blocks.len() && blocks[id as int]@.len() == 0,
        forall|i: int, j: int|
            0 <= i < j < after@.clean.len() ==> after@.clean[i] < after@.clean[j],
        forall|id: BlockId| #[trigger]
            after@.evictable.contains(id) <==> before@.evictable.contains(id) || (id < blocks.len()
                && blocks[id as int]@.len() > 0),
        after@.writing == before@.writing,
        after@.reclaiming == before@.reclaiming,
        after@.active == before@.active,
        after@.clean_waiters == before@.clean_waiters,
        after@.reclaim_waiters == before@.reclaim_waiters,
        after@.retire_waiters == before@.retire_waiters,
{
    let sorted = choose|sorted: Seq<(BlockId, Sequence)>|
        {
            &&& #[trigger] stably_sorted(evictable_blocks(blocks), sorted)
            &&& after@ == State {
                clean: clean_blocks(blocks),
                evictable: before@.evictable.union(blocks_of(sorted).to_set()),
                eviction_pickers: after@.eviction_pickers,
                ..before@
            }
        };
    let empty = |id: BlockId| blocks[id as int]@.len() == 0;
    ids_with_members(0, blocks.len(), empty);
    ids_with_ascend(0, blocks.len(), empty);
    recovered_blocks(blocks, blocks_of(sorted));
    assert forall|id: BlockId| #[trigger] after@.clean.contains(id) <==> id < blocks.len()
        && blocks[id as int]@.len() == 0 by {
        assert(clean_blocks(blocks).contains(id) <==> 0 <= id < blocks.len() && empty(id));
    }
    assert forall|id: BlockId| #[trigger] after@.evictable.contains(id)
        <==> before@.evictable.contains(id) || (id < blocks.len() && blocks[id as int]@.len()
        > 0) by {
        assert(clean_blocks(blocks).contains(id) <==> 0 <= id < blocks.len() && empty(id));
        assert(blocks_of(sorted).to_set().contains(id) <==> blocks_of(sorted).contains(id));
    }
}

/// After a restart the blocks with entries are queued, behind what was queued before, and no others.
pub proof fn restart_queues_blocks_with_entries<P: Partition, E: EvictionPicker<P>, W, R>(
    before: BlockManager<P, E, W, R>,
    after: BlockManager<P, E, W, R>,
    blocks: Seq<Vec<EntryInfo>>,
    k: int,
)
    requires
        blocks.len() <= u32::MAX,
        restarted(before, after, blocks),
        0 <= k < after@.eviction_pickers.len(),
    ensures
        ({
            let was = queue_of(before@.eviction_pickers[k].history());
            let queue = queue_of(after@.eviction_pickers[k].history());
            &&& was.len() <= queue.len()
            &&& queue.take(was.len() as int) == was
            &&& forall|id: BlockId| #[trigger]
                queue.skip(was.len() as int).contains(id) <==> id < blocks.len()
                    && blocks[id as int]@.len() > 0
        }),
{
    restart_rebuilds_queue(before, after, blocks, k);
    let was = queue_of(before@.eviction_pickers[k].history());
    let queue = queue_of(after@.eviction_pickers[k].history());
    let sorted = choose|sorted: Seq<(BlockId, Sequence)>|
        {
            &&& #[trigger] stably_sorted(evictable_blocks(blocks), sorted)
            &&& queue == was + blocks_of(sorted)
        };
    let order = blocks_of(sorted);
    let empty = |id: BlockId| blocks[id as int]@.len() == 0;
    ids_with_members(0, blocks.len(), empty);
    recovered_blocks(blocks, order);
    assert(queue.take(was.len() as int) =~= was);
    assert(queue.skip(was.len() as int) =~= order);
    assert forall|id: BlockId| #[trigger] order.contains(id) <==> id < blocks.len()
        && blocks[id as int]@.len() > 0 by {
        assert(clean_blocks(blocks).contains(id) <==> 0 <= id < blocks.len() && empty(id));
    }
}

/// After a restart the blocks with entries are queued by the time of their latest write: of two of them
/// the later one holds an entry, the one returned, that is later than all of the other one. Where their
/// latest writes are the same, the lower id comes first.
pub proof fn restart_queues_oldest_first<P: Partition, E: EvictionPicker<P>, W, R>(
    before: BlockManager<P, E, W, R>,
    after: BlockManager<P, E, W, R>,
    blocks: Seq<Vec<EntryInfo>>,
    k: int,
    i: int,
    j: int,
) -> (last: int)
    requires
        blocks.len() <= u32::MAX,
        restarted(before, after, blocks),
        0 <= k < after@.eviction_pickers.len(),
        queue_of(before@.eviction_pickers[k].history()).len() <= i < j,
        j < queue_of(after@.eviction_pickers[k].history()).len(),
    ensures
        ({
            let queue = queue_of(after@.eviction_pickers[k].history());
            let x = blocks[queue[i] as int]@;
            let y = blocks[queue[j] as int]@;
            &&& 0 <= last < y.len()
            &&& forall|a: int|
                0 <= a < x.len() ==> (#[trigger] x[a]).addr.sequence <= y[last].addr.sequence
            &&& (forall|a: int|
                0 <= a < x.len() ==> (#[trigger] x[a]).addr.sequence < y[last].addr.sequence)
                || queue[i] < queue[j]
        }),
{
    restart_rebuilds_queue(before, after, blocks, k);
    let was = queue_of(before@.eviction_pickers[k].history());
    let queue = queue_of(after@.eviction_pickers[k].history());
    let pairs = evictable_blocks(blocks);
    let sorted = choose|sorted: Seq<(BlockId, Sequence)>|
        {
            &&& #[trigger] stably_sorted(pairs, sorted)
            &&& queue == was + blocks_of(sorted)
        };
    let (a, b) = (i - was.len(), j - was.len());
    assert(queue[i] == sorted[a].0);
    assert(queue[j] == sorted[b].0);
    let x = blocks[queue[i] as int]@;
    let y = blocks[queue[j] as int]@;
    stable_sort_orders_pairs(pairs, sorted, a, b);
    stable_sort_keeps_pairs(pairs, sorted, sorted[a]);
    stable_sort_keeps_pairs(pairs, sorted, sorted[b]);
    assert(sorted.contains(sorted[a]) && sorted.contains(sorted[b]));
    evictable_block_recency(blocks, sorted[a]);
    evictable_block_recency(blocks, sorted[b]);
    evictable_blocks_members(blocks);
    let d = choose|d: int| 0 <= d < pairs.len() && pairs[d] == sorted[b];
    assert(y.len() > 0);
    latest_of_block(x);
    latest_of_block(y);
    if sorted[a].1 == sorted[b].1 {
        evictable_ids_ascend(blocks);
        let (c, d) = choose|c: int, d: int|
            0 <= c < d < pairs.len() && #[trigger] pairs[c] == sorted[a] && #[trigger] pairs[d]
                == sorted[b];
        assert(pairs[c].0 < pairs[d].0);
    }
    choose|last: int|
        0 <= last < y.len() && (#[trigger] y[last]).addr.sequence == latest(written(y))
}

/// A version that says where an entry is has the sequence of that place.
pub proof fn versions_agree(blocks: Seq<Vec<EntryInfo>>, tombstones: Seq<Tombstone>)
    ensures
        forall|i: int|
            0 <= i < versions(blocks, tombstones).len() ==> ((#[trigger] versions(
                blocks,
                tombstones,
            )[i]).address matches Some(a) ==> a.sequence == versions(
                blocks,
                tombstones,
            )[i].sequence),
    decreases blocks.len(),
{
    if blocks.len() > 0 {
        let rest = blocks.drop_last();
        versions_agree(rest, tombstones);
        let all = versions(blocks, tombstones);
        let before = versions(rest, tombstones);
        let n = found(rest).len();
        assert forall|i: int| 0 <= i < all.len() implies ((
        #[trigger] all[i]).address matches Some(a) ==> a.sequence == all[i].sequence) by {
            if i < n {
                assert(all[i] == before[i]);
            }
        }
    }
}

/// After a restart the queue of a picker holds the recovered blocks oldest-written first, behind
/// what was in it.
pub proof fn restart_rebuilds_queue<P: Partition, E: EvictionPicker<P>, W, R>(
    before: BlockManager<P, E, W, R>,
    after: BlockManager<P, E, W, R>,
    blocks: Seq<Vec<EntryInfo>>,
    i: int,
)
    requires
        restarted(before, after, blocks),
        0 <= i < after@.eviction_pickers.len(),
    ensures
        exists|sorted: Seq<(BlockId, Sequence)>|
            {
                &&& #[trigger] stably_sorted(evictable_blocks(blocks), sorted)
                &&& queue_of(after@.eviction_pickers[i].history()) == queue_of(
                    before@.eviction_pickers[i].history(),
                ) + blocks_of(sorted)
            },
{
    let sorted = choose|sorted: Seq<(BlockId, Sequence)>|
        {
            &&& #[trigger] stably_sorted(evictable_blocks(blocks), sorted)
            &&& told(
                before@.eviction_pickers,
                after@.eviction_pickers,
                evictable_events(
                    before.spec_blocks(),
                    before@.evictable,
                    clean_blocks(blocks).len(),
                    blocks_of(sorted),
                ),
            )
        };
    let events = evictable_events(
        before.spec_blocks(),
        before@.evictable,
        clean_blocks(blocks).len(),
        blocks_of(sorted),
    );
    queue_keeps_order(before@.eviction_pickers[i].history(), events, blocks_of(sorted));
    assert(stably_sorted(evictable_blocks(blocks), sorted));
}

} // verus!
