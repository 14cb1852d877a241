//! The collector's decisions: the open block, sealing at the block limit,
//! what a new subscriber is told, and the index of persisted blocks.  The
//! event loops around them perform the channel and disk work.
use vstd::prelude::*;

use crate::shema::Builder;
use crate::RequestEntry;
use crate::SyncHeader;

verus! {

/// A block sealed by the backend: its first sequence number and its rows,
/// ready for a worker to encode and persist.
pub struct SealedBlock {
    pub start: u64,
    pub block: Builder,
}

/// The single-owner state of the backend loop: the open block, where it
/// starts, and when it seals.
pub struct CollectorBackend {
    current: Builder,
    current_start: u64,
    block_limit: usize,
}

impl CollectorBackend {
    /// The open tail never overflows its sequence numbers and stays sound.
    pub closed spec fn wf(&self) -> bool {
        &&& self.current@.wf()
        &&& self.current_start + self.current@.len() <= u64::MAX
    }

    pub closed spec fn spec_current_start(&self) -> u64 {
        self.current_start
    }

    pub closed spec fn spec_len(&self) -> nat {
        self.current@.len()
    }

    pub closed spec fn spec_block_limit(&self) -> usize {
        self.block_limit
    }

    /// A fresh backend, resuming at `start` (zero for a new log).
    pub fn new(block_limit: usize, start: u64) -> (r: CollectorBackend)
        ensures
            r.wf(),
            r.spec_current_start() == start,
            r.spec_len() == 0,
            r.spec_block_limit() == block_limit,
    {
        CollectorBackend { current: Builder::new(), current_start: start, block_limit }
    }

    /// Resumes with a decoded block as the open tail, as a restart installs
    /// the last persisted block back as `current`.
    pub fn resume(block_limit: usize, start: u64, block: Builder) -> (r: CollectorBackend)
        requires
            block@.wf(),
            start + block@.len() <= u64::MAX,
        ensures
            r.wf(),
            r.spec_current_start() == start,
            r.spec_len() == block@.len(),
            r.spec_block_limit() == block_limit,
    {
        CollectorBackend { current: block, current_start: start, block_limit }
    }

    /// Whether the open block can take this record.
    pub closed spec fn can_push(&self, e: crate::Record) -> bool {
        self.current.can_add_spec(e) && self.current_start + self.current@.len() < u64::MAX
    }

    /// Tests exactly `can_push`, so the event loop can guard its ingest.
    pub fn can_ingest(&self, e: &RequestEntry) -> (r: bool)
        requires
            self.wf(),
        ensures
            r == self.can_push(e@),
    {
        self.current.can_add(e) && self.current_start < u64::MAX - self.current.len() as u64
    }

    /// Appends one record; when the block limit is reached, the open block
    /// seals: it is handed out for encoding and a fresh block continues at
    /// the next sequence number, so consecutive sealed blocks stay
    /// contiguous.
    pub fn push(&mut self, e: &RequestEntry) -> (r: Option<SealedBlock>)
        requires
            old(self).wf(),
            old(self).can_push(e@),
        ensures
            final(self).wf(),
            final(self).spec_block_limit() == old(self).spec_block_limit(),
            match r {
                Some(sealed) => {
                    &&& old(self).spec_len() + 1 >= old(self).spec_block_limit()
                    &&& sealed.start == old(self).spec_current_start()
                    &&& sealed.block@.len() == old(self).spec_len() + 1
                    &&& sealed.block@.wf()
                    &&& final(self).spec_current_start() == sealed.start + sealed.block@.len()
                    &&& final(self).spec_len() == 0
                },
                None => {
                    &&& old(self).spec_len() + 1 < old(self).spec_block_limit()
                    &&& final(self).spec_current_start() == old(self).spec_current_start()
                    &&& final(self).spec_len() == old(self).spec_len() + 1
                },
            },
    {
        self.current.add_checked(e);
        if self.current.len() >= self.block_limit {
            let mut sealed = Builder::new();
            core_swap(&mut self.current, &mut sealed);
            let start = self.current_start;
            self.current_start = self.current_start + sealed.len() as u64;
            Some(SealedBlock { start, block: sealed })
        } else {
            None
        }
    }

    /// Seals the open block regardless of the limit, as a flush does;
    /// nothing seals when it is empty.
    pub fn seal_now(&mut self) -> (r: Option<SealedBlock>)
        requires
            old(self).wf(),
        ensures
            final(self).wf(),
            final(self).spec_block_limit() == old(self).spec_block_limit(),
            match r {
                Some(sealed) => {
                    &&& old(self).spec_len() > 0
                    &&& sealed.start == old(self).spec_current_start()
                    &&& sealed.block@.len() == old(self).spec_len()
                    &&& sealed.block@.wf()
                    &&& final(self).spec_current_start() == sealed.start + sealed.block@.len()
                    &&& final(self).spec_len() == 0
                },
                None => old(self).spec_len() == 0 && *final(self) == *old(self),
            },
    {
        if self.current.len() == 0 {
            return None;
        }
        let mut sealed = Builder::new();
        core_swap(&mut self.current, &mut sealed);
        let start = self.current_start;
        self.current_start = self.current_start + sealed.len() as u64;
        Some(SealedBlock { start, block: sealed })
    }

    /// What a new subscriber is told: the server's head, the block size,
    /// and the lowest backlog position its requested backlog reaches.
    pub fn sync_header(&self, backlog: u64) -> (r: SyncHeader)
        requires
            self.wf(),
        ensures
            r.start == self.spec_current_start() + self.spec_len(),
            r.first_backlog == crate::client::sub_sat(self.spec_current_start(), backlog),
            r.block_size == self.spec_block_limit(),
            r.first_block == 0,
    {
        let first_backlog = if self.current_start >= backlog {
            self.current_start - backlog
        } else {
            0
        };
        SyncHeader {
            start: self.current_start + self.current.len() as u64,
            block_size: self.block_limit as u64,
            first_block: 0,
            first_backlog,
        }
    }

    /// The range of closed blocks a new subscriber's backlog covers: from
    /// its lowest backlog position up to the open block.
    pub fn backlog_range(&self, backlog: u64) -> (r: (u64, u64))
        requires
            self.wf(),
        ensures
            r.0 == crate::client::sub_sat(self.spec_current_start(), backlog),
            r.1 == self.spec_current_start(),
    {
        let first_backlog = if self.current_start >= backlog {
            self.current_start - backlog
        } else {
            0
        };
        (first_backlog, self.current_start)
    }

    /// The open block, for the snapshot a new subscriber receives.
    pub fn current(&self) -> (r: &Builder)
        ensures
            r@ == self.spec_model(),
    {
        &self.current
    }

    /// The open block's contents.
    pub closed spec fn spec_model(&self) -> crate::shema::BlockModel {
        self.current@
    }
}

/// Relies on `core::mem::swap`: the two values change places.
#[verifier::external_body]
fn core_swap(a: &mut Builder, b: &mut Builder)
    ensures
        *final(a) == *old(b),
        *final(b) == *old(a),
{
    core::mem::swap(a, b)
}

/// The persistent-block index: each persisted block's start, with its bytes
/// when they are cached in memory.  The manager loop owns it; disk reads
/// and writes happen around it.
pub struct PastIndex {
    blocks: Vec<(u64, Option<Vec<u8>>)>,
}

impl PastIndex {
    /// Starts are strictly increasing.
    pub closed spec fn wf(&self) -> bool {
        forall|i: int, j: int|
            0 <= i < j < self.blocks@.len() ==> (#[trigger] self.blocks@[i]).0 < (
            #[trigger] self.blocks@[j]).0
    }

    pub closed spec fn spec_starts(&self) -> Seq<u64> {
        Seq::new(self.blocks@.len(), |i: int| self.blocks@[i].0)
    }

    /// The index's contents: each start with its cached bytes, if any.
    pub closed spec fn spec_blocks(&self) -> Seq<(u64, Option<Seq<u8>>)> {
        Seq::new(
            self.blocks@.len(),
            |i: int|
                (
                    self.blocks@[i].0,
                    match self.blocks@[i].1 {
                        Some(d) => Some(d@),
                        None => None,
                    },
                ),
        )
    }

    pub fn new() -> (r: PastIndex)
        ensures
            r.wf(),
            r.spec_starts().len() == 0,
    {
        PastIndex { blocks: Vec::new() }
    }

    pub fn len(&self) -> (n: usize)
        ensures
            n == self.spec_starts().len(),
    {
        self.blocks.len()
    }

    /// The slot holding `start`, if one does.
    fn find(&self, start: u64) -> (r: Option<usize>)
        requires
            self.wf(),
        ensures
            match r {
                Some(i) => i < self.blocks@.len() && self.blocks@[i as int].0 == start,
                None => forall|j: int|
                    0 <= j < self.blocks@.len() ==> (#[trigger] self.blocks@[j]).0 != start,
            },
    {
        let mut i: usize = 0;
        while i < self.blocks.len()
            invariant
                i <= self.blocks@.len(),
                forall|j: int| 0 <= j < i ==> (#[trigger] self.blocks@[j]).0 != start,
            decreases self.blocks@.len() - i,
        {
            if self.blocks[i].0 == start {
                return Some(i);
            }
            i = i + 1;
        }
        None
    }

    /// Registers or caches one block under its start: a scan registers
    /// files with no bytes, a seal arrives with them.  An existing entry
    /// under that start is replaced; all others stay.
    pub fn put(&mut self, start: u64, data: Option<Vec<u8>>)
        requires
            old(self).wf(),
        ensures
            final(self).wf(),
            exists|i: int|
                0 <= i < final(self).spec_blocks().len() && #[trigger] final(self).spec_blocks()[i] == (
                    start,
                    match data {
                        Some(d) => Some(d@),
                        None => None::<Seq<u8>>,
                    },
                ),
            forall|j: int|
                0 <= j < old(self).spec_blocks().len() && (#[trigger] old(self).spec_blocks()[j]).0
                    != start ==> final(self).spec_blocks().contains(old(self).spec_blocks()[j]),
            forall|j: int|
                0 <= j < final(self).spec_blocks().len() ==> (#[trigger] final(self).spec_blocks()[j]).0 == start || old(self).spec_blocks().contains(
                    final(self).spec_blocks()[j],
                ),
    {
        match self.find(start) {
            Some(i) => {
                self.blocks[i] = (start, data);
                proof {
                    assert forall|a: int, b: int|
                        0 <= a < b < self.blocks@.len() implies (#[trigger] self.blocks@[a]).0 < (
                    #[trigger] self.blocks@[b]).0 by {
                        assert(old(self).blocks@[a].0 < old(self).blocks@[b].0);
                    }
                    assert(final(self).spec_blocks()[i as int].0 == start);
                    assert forall|j: int|
                        0 <= j < old(self).spec_blocks().len() && (#[trigger] old(self).spec_blocks()[j]).0 != start implies final(self).spec_blocks().contains(
                        old(self).spec_blocks()[j],
                    ) by {
                        assert(j != i);
                        assert(final(self).spec_blocks()[j] == old(self).spec_blocks()[j]);
                    }
                    assert forall|j: int|
                        0 <= j < final(self).spec_blocks().len() implies (#[trigger] final(self).spec_blocks()[j]).0 == start || old(self).spec_blocks().contains(
                        final(self).spec_blocks()[j],
                    ) by {
                        if j != i {
                            assert(final(self).spec_blocks()[j] == old(self).spec_blocks()[j]);
                        }
                    }
                }
            },
            None => {
                let mut i: usize = 0;
                while i < self.blocks.len() && self.blocks[i].0 < start
                    invariant
                        self.wf(),
                        self.blocks@ == old(self).blocks@,
                        i <= self.blocks@.len(),
                        forall|j: int| 0 <= j < i ==> (#[trigger] self.blocks@[j]).0 < start,
                        forall|j: int|
                            0 <= j < self.blocks@.len() ==> (#[trigger] self.blocks@[j]).0
                                != start,
                    decreases self.blocks@.len() - i,
                {
                    i = i + 1;
                }
                let ghost prev = self.blocks@;
                let ghost prev_view = self.spec_blocks();
                self.blocks.insert(i, (start, data));
                proof {
                    assert(final(self).spec_blocks()[i as int].0 == start);
                    assert forall|j: int|
                        0 <= j < prev_view.len() && (#[trigger] prev_view[j]).0 != start implies
                        final(self).spec_blocks().contains(prev_view[j]) by {
                        if j < i {
                            assert(final(self).spec_blocks()[j] == prev_view[j]);
                        } else {
                            assert(final(self).spec_blocks()[j + 1] == prev_view[j]);
                        }
                    }
                    assert forall|j: int|
                        0 <= j < final(self).spec_blocks().len() implies (#[trigger] final(self).spec_blocks()[j]).0 == start || prev_view.contains(
                        final(self).spec_blocks()[j],
                    ) by {
                        if j < i {
                            assert(final(self).spec_blocks()[j] == prev_view[j]);
                        } else if j > i {
                            assert(final(self).spec_blocks()[j] == prev_view[j - 1]);
                        }
                    }
                    assert forall|a: int, b: int|
                        0 <= a < b < self.blocks@.len() implies (#[trigger] self.blocks@[a]).0 < (
                    #[trigger] self.blocks@[b]).0 by {
                        if b < i {
                            assert(prev[a] == self.blocks@[a]);
                            assert(prev[b] == self.blocks@[b]);
                        } else if a > i {
                            assert(prev[a - 1] == self.blocks@[a]);
                            assert(prev[b - 1] == self.blocks@[b]);
                        } else if a < i && b == i {
                            assert(prev[a] == self.blocks@[a]);
                        } else if a < i && b > i {
                            assert(prev[a] == self.blocks@[a]);
                            assert(prev[b - 1] == self.blocks@[b]);
                            if b - 1 >= i {
                                assert(prev[b - 1].0 >= start || prev[b - 1].0 != start);
                                if prev[b - 1].0 < start {
                                    assert(b - 1 < i);
                                }
                            }
                        } else if a == i {
                            assert(prev[b - 1] == self.blocks@[b]);
                            if prev[b - 1].0 < start {
                                assert(b - 1 < i);
                            }
                        }
                    }
                }
            },
        }
    }

    /// The cached bytes under `start`, if the block is known and cached.
    pub fn cached(&self, start: u64) -> (r: Option<&Vec<u8>>)
        requires
            self.wf(),
        ensures
            match r {
                Some(d) => self.spec_blocks().contains((start, Some(d@))),
                None => forall|i: int|
                    0 <= i < self.spec_blocks().len() ==> (#[trigger] self.spec_blocks()[i]).0
                        != start || self.spec_blocks()[i].1 is None,
            },
    {
        match self.find(start) {
            Some(i) => match &self.blocks[i].1 {
                Some(d) => {
                    proof {
                        assert(self.spec_blocks()[i as int] == (start, Some(d@)));
                    }
                    Some(d)
                },
                None => {
                    proof {
                        assert forall|j: int|
                            0 <= j < self.spec_blocks().len() implies (
                        #[trigger] self.spec_blocks()[j]).0 != start || self.spec_blocks()[j].1
                            is None by {
                            if self.blocks@[j].0 == start {
                                if j != i {
                                    assert(self.blocks@[i as int].0 == self.blocks@[j].0);
                                    if j < i {
                                        assert(self.blocks@[j].0 < self.blocks@[i as int].0);
                                    } else {
                                        assert(self.blocks@[i as int].0 < self.blocks@[j].0);
                                    }
                                }
                            }
                        }
                    }
                    None
                },
            },
            None => None,
        }
    }

    /// The starts a Get must serve, in descending order: every block below
    /// `end` down to and including the first one at or below `start` — the
    /// block covering `start` is served too.  With no block below `end`,
    /// nothing is served and the reply channel simply carries nothing.
    pub fn get_plan(&self, start: u64, end: u64) -> (r: Vec<u64>)
        requires
            self.wf(),
        ensures
            (forall|j: int|
                0 <= j < self.spec_starts().len() ==> #[trigger] self.spec_starts()[j] >= end)
                ==> r@.len() == 0,
            forall|k: int, l: int| 0 <= k < l < r@.len() ==> #[trigger] r@[k] > #[trigger] r@[l],
            forall|k: int| 0 <= k < r@.len() ==> self.spec_starts().contains(#[trigger] r@[k]),
            forall|k: int| 0 <= k < r@.len() - 1 ==> #[trigger] r@[k] >= start,
            forall|j: int|
                0 <= j < self.spec_starts().len() && start <= #[trigger] self.spec_starts()[j]
                    < end ==> r@.contains(self.spec_starts()[j]),
            (exists|j: int|
                0 <= j < self.spec_starts().len() && #[trigger] self.spec_starts()[j] < start
                    && self.spec_starts()[j] < end) ==> exists|x: u64|
                r@.contains(x) && x < start && forall|j: int|
                    (0 <= j < self.spec_starts().len() && #[trigger] self.spec_starts()[j] < start
                        && self.spec_starts()[j] < end) ==> self.spec_starts()[j] <= x,
    {
        let mut out: Vec<u64> = Vec::new();
        let mut i = self.blocks.len();
        // walk down to the first start below `end`
        while i > 0 && self.blocks[i - 1].0 >= end
            invariant
                self.wf(),
                i <= self.blocks@.len(),
                forall|j: int|
                    i <= j < self.blocks@.len() ==> (#[trigger] self.blocks@[j]).0 >= end,
            decreases i,
        {
            i = i - 1;
        }
        proof {
            assert forall|j: int| 0 <= j < i implies (#[trigger] self.blocks@[j]).0 < end by {
                if j < i - 1 {
                    assert(self.blocks@[j].0 < self.blocks@[i - 1].0);
                }
            }
        }
        while i > 0
            invariant
                self.wf(),
                i <= self.blocks@.len(),
                forall|k: int, l: int|
                    0 <= k < l < out@.len() ==> #[trigger] out@[k] > #[trigger] out@[l],
                forall|k: int|
                    0 <= k < out@.len() ==> self.spec_starts().contains(#[trigger] out@[k]),
                forall|k: int| 0 <= k < out@.len() ==> #[trigger] out@[k] >= start,
                forall|k: int| 0 <= k < out@.len() ==> #[trigger] out@[k] < end,
                forall|j: int| 0 <= j < i ==> (#[trigger] self.blocks@[j]).0 < end,
                forall|j: int|
                    i <= j < self.blocks@.len() && (#[trigger] self.blocks@[j]).0 < end
                        ==> out@.contains(self.blocks@[j].0),
                forall|j: int|
                    i <= j < self.blocks@.len() ==> (#[trigger] self.blocks@[j]).0 >= start || (
                    self.blocks@[j]).0 >= end,
                out@.len() > 0 ==> i < self.blocks@.len() && out@[out@.len() - 1]
                    == self.blocks@[i as int].0,
            decreases i,
        {
            i = i - 1;
            let pos = self.blocks[i].0;
            proof {
                assert(self.spec_starts()[i as int] == pos);
                assert(self.spec_starts().contains(pos));
                if out@.len() > 0 {
                    assert(self.blocks@[i as int].0 < self.blocks@[i + 1].0);
                }
            }
            let ghost prev_out = out@;
            out.push(pos);
            proof {
                assert(out@.contains(pos)) by {
                    assert(out@[out@.len() - 1] == pos);
                }
                assert forall|k: int| 0 <= k < prev_out.len() implies out@.contains(
                    #[trigger] prev_out[k],
                ) by {
                    assert(out@[k] == prev_out[k]);
                }
            }
            if pos < start {
                proof {
                    lemma_plan_nonempty(self.spec_starts(), out@, end);
                    assert forall|j: int|
                        0 <= j < self.spec_starts().len() && start <= #[trigger] self.spec_starts()[j] < end implies out@.contains(self.spec_starts()[j]) by {
                        if j < i {
                            assert(self.blocks@[j].0 < self.blocks@[i as int].0);
                        }
                    }
                    assert forall|j: int|
                        (0 <= j < self.spec_starts().len() && #[trigger] self.spec_starts()[j]
                            < start && self.spec_starts()[j] < end) implies self.spec_starts()[j]
                        <= pos by {
                        if j > i {
                            assert(self.blocks@[j].0 >= start || self.blocks@[j].0 >= end);
                        }
                        if j < i {
                            assert(self.blocks@[j].0 < self.blocks@[i as int].0);
                        }
                    }
                }
                return out;
            }
        }
        proof {
            lemma_plan_nonempty(self.spec_starts(), out@, end);
            if exists|j: int|
                0 <= j < self.spec_starts().len() && #[trigger] self.spec_starts()[j] < start
                    && self.spec_starts()[j] < end {
                let j0 = choose|j: int|
                    0 <= j < self.spec_starts().len() && #[trigger] self.spec_starts()[j] < start
                        && self.spec_starts()[j] < end;
                // the largest such start: later ones are ruled out by sortedness
                let jm = choose|j: int|
                    0 <= j < self.spec_starts().len() && #[trigger] self.spec_starts()[j] < start
                        && self.spec_starts()[j] < end && forall|l: int|
                        j < l < self.spec_starts().len() ==> !((#[trigger] self.spec_starts()[l])
                            < start && self.spec_starts()[l] < end);
                assert(exists|j: int|
                    0 <= j < self.spec_starts().len() && #[trigger] self.spec_starts()[j] < start
                        && self.spec_starts()[j] < end && forall|l: int|
                        j < l < self.spec_starts().len() ==> !((#[trigger] self.spec_starts()[l])
                            < start && self.spec_starts()[l] < end)) by {
                    lemma_last_below(self.spec_starts(), start, end, j0);
                }
                assert(out@.contains(self.spec_starts()[jm]));
                assert forall|j: int|
                    (0 <= j < self.spec_starts().len() && #[trigger] self.spec_starts()[j] < start
                        && self.spec_starts()[j] < end) implies self.spec_starts()[j]
                    <= self.spec_starts()[jm] by {
                    if j > jm {
                        assert(!(self.spec_starts()[j] < start && self.spec_starts()[j] < end));
                    } else if j < jm {
                        assert(self.blocks@[j].0 < self.blocks@[jm].0);
                    }
                }
            }
        }
        out
    }

    /// Removes and returns the newest block — the one with the largest
    /// start — as a resuming collector takes its last persisted block back
    /// as the open tail.
    pub fn take_last(&mut self) -> (r: Option<(u64, Option<Vec<u8>>)>)
        requires
            old(self).wf(),
        ensures
            final(self).wf(),
            r is None ==> old(self).spec_starts().len() == 0 && *final(self) == *old(self),
            r matches Some(last) ==> {
                &&& old(self).spec_starts().len() > 0
                &&& last.0 == old(self).spec_starts().last()
                &&& (match last.1 {
                    Some(d) => old(self).spec_blocks().last() == (last.0, Some(d@)),
                    None => old(self).spec_blocks().last() == (last.0, None::<Seq<u8>>),
                })
                &&& final(self).spec_blocks() == old(self).spec_blocks().drop_last()
                &&& forall|j: int|
                    0 <= j < old(self).spec_starts().len() ==> #[trigger] old(self).spec_starts()[j] <= last.0
            },
    {
        if self.blocks.len() == 0 {
            return None;
        }
        let ghost prev_view = self.spec_blocks();
        let last = self.blocks.remove(self.blocks.len() - 1);
        proof {
            assert forall|a: int, b: int|
                0 <= a < b < self.blocks@.len() implies (#[trigger] self.blocks@[a]).0 < (
            #[trigger] self.blocks@[b]).0 by {
                assert(old(self).blocks@[a].0 < old(self).blocks@[b].0);
            }
            assert(final(self).spec_blocks() =~= prev_view.drop_last());
            assert forall|j: int|
                0 <= j < old(self).spec_starts().len() implies #[trigger] old(self).spec_starts()[j] <= prev_view.last().0 by {
                if j < prev_view.len() - 1 {
                    assert(old(self).blocks@[j].0 < old(self).blocks@[prev_view.len() - 1].0);
                }
            }
        }
        Some(last)
    }
}

/// Past a witness below the bounds, some index is the last one below them.
proof fn lemma_last_below(starts: Seq<u64>, start: u64, end: u64, j0: int)
    requires
        0 <= j0 < starts.len(),
        starts[j0] < start,
        starts[j0] < end,
    ensures
        exists|j: int|
            0 <= j < starts.len() && #[trigger] starts[j] < start && starts[j] < end && forall|
                l: int,
            | j < l < starts.len() ==> !((#[trigger] starts[l]) < start && starts[l] < end),
    decreases starts.len() - j0,
{
    if forall|l: int| j0 < l < starts.len() ==> !((#[trigger] starts[l]) < start && starts[l]
        < end) {
        assert(starts[j0] < start && starts[j0] < end && forall|l: int|
            j0 < l < starts.len() ==> !((#[trigger] starts[l]) < start && starts[l] < end));
    } else {
        let j1 = choose|l: int|
            j0 < l < starts.len() && (#[trigger] starts[l]) < start && starts[l] < end;
        lemma_last_below(starts, start, end, j1);
    }
}

/// A plan whose entries are all drawn from the index and below `end`
/// refutes an index whose starts all reach `end`.
proof fn lemma_plan_nonempty(starts: Seq<u64>, plan: Seq<u64>, end: u64)
    requires
        forall|k: int| 0 <= k < plan.len() ==> starts.contains(#[trigger] plan[k]),
        forall|k: int| 0 <= k < plan.len() ==> #[trigger] plan[k] < end,
    ensures
        (forall|j: int| 0 <= j < starts.len() ==> #[trigger] starts[j] >= end) ==> plan.len()
            == 0,
{
    if plan.len() > 0 {
        let x = plan[0];
        assert(starts.contains(x));
        let j = choose|j: int| 0 <= j < starts.len() && starts[j] == x;
        assert(starts[j] < end);
    }
}

} // verus!
