//! The client-side mirror of the log: a sparse set of sealed blocks, an
//! open tail, range access, on-demand back-fill, and the two window views.
use vstd::prelude::*;

use crate::filter::Filter;
use crate::filter::FilterCtx;
use crate::shema::Builder;
use crate::RequestEntry;

verus! {

/// What a client asks the server.
#[derive(Debug, Clone, Copy, PartialEq, Eq, Structural)]
pub enum ClientMessage {
    Subscribe,
    SubScribeWithBacklog { backlog: u64 },
    FetchRange { start: u64, end: u64 },
}

/// What the server says outside the data stream.
pub enum ServerMessage {
    NotAttached,
    Detached,
    Error { msg: String },
}

/// The range of sequence numbers one ingested packet covered.
#[derive(Debug, Clone, Copy, PartialEq, Eq, Structural)]
pub struct PacketRange {
    pub start: u64,
    pub end: u64,
}

/// Sealed blocks sorted by start, strictly increasing and disjoint.
pub open spec fn entries_wf(es: Seq<(u64, Builder)>) -> bool {
    forall|i: int, j: int|
        0 <= i < j < es.len() ==> (#[trigger] es[i]).0 + es[i].1@.len() <= (#[trigger] es[j]).0
            && (es[i]).0 < (es[j]).0
}

/// The delivered block fits between, after, or in place of the held ones.
pub open spec fn fits_at(es: Seq<(u64, Builder)>, start: u64, blen: nat) -> bool {
    &&& blen > 0
    &&& forall|i: int|
        0 <= i < es.len() ==> ((#[trigger] es[i]).0 + es[i].1@.len() <= start) || (start + blen
            <= es[i].0) || (es[i].0 == start && es[i].1@.len() <= blen)
}

/// Replacing a same-start block by one reaching at least as far, but not
/// into the next block, keeps the order.
proof fn lemma_replace_wf(
    old_es: Seq<(u64, Builder)>,
    new_es: Seq<(u64, Builder)>,
    i: int,
    start: u64,
    blen: nat,
)
    requires
        entries_wf(old_es),
        0 <= i < old_es.len(),
        old_es[i].0 == start,
        new_es.len() == old_es.len(),
        new_es[i].0 == start,
        new_es[i].1@.len() == blen,
        forall|j: int| 0 <= j < old_es.len() && j != i ==> #[trigger] new_es[j] == old_es[j],
        i + 1 == old_es.len() || start + blen <= old_es[i + 1].0,
    ensures
        entries_wf(new_es),
{
    assert forall|a: int, b: int|
        0 <= a < b < new_es.len() implies (#[trigger] new_es[a]).0 + new_es[a].1@.len() <= (
    #[trigger] new_es[b]).0 && (new_es[a]).0 < (new_es[b]).0 by {
        assert(old_es[a].0 + old_es[a].1@.len() <= old_es[b].0);
        assert(old_es[a].0 < old_es[b].0);
        if a == i && b == i + 1 {
            assert(new_es[b] == old_es[b]);
        } else if a == i {
            assert(old_es[i + 1].0 + old_es[i + 1].1@.len() <= old_es[b].0);
        }
    }
}

/// Inserting a block after everything below its start and before the rest
/// keeps the order.
proof fn lemma_insert_wf(
    old_es: Seq<(u64, Builder)>,
    new_es: Seq<(u64, Builder)>,
    i: int,
    start: u64,
    blen: nat,
)
    requires
        entries_wf(old_es),
        0 <= i <= old_es.len(),
        new_es.len() == old_es.len() + 1,
        new_es[i].0 == start,
        new_es[i].1@.len() == blen,
        forall|j: int| 0 <= j < i ==> new_es[j] == #[trigger] old_es[j],
        forall|j: int| i <= j < old_es.len() ==> new_es[j + 1] == #[trigger] old_es[j],
        forall|j: int| 0 <= j < i ==> (#[trigger] old_es[j]).0 < start,
        i == old_es.len() || (start + blen <= old_es[i].0 && start < old_es[i].0),
        i == 0 || old_es[i - 1].0 + old_es[i - 1].1@.len() <= start,
    ensures
        entries_wf(new_es),
{
    assert forall|a: int, b: int|
        0 <= a < b < new_es.len() implies (#[trigger] new_es[a]).0 + new_es[a].1@.len() <= (
    #[trigger] new_es[b]).0 && (new_es[a]).0 < (new_es[b]).0 by {
        if a < i && b < i {
            assert(new_es[a] == old_es[a]);
            assert(new_es[b] == old_es[b]);
        } else if a < i && b == i {
            assert(new_es[a] == old_es[a]);
            if a < i - 1 {
                assert(old_es[a].0 + old_es[a].1@.len() <= old_es[i - 1].0);
            }
        } else if a < i && b > i {
            assert(new_es[a] == old_es[a]);
            assert(new_es[b] == old_es[b - 1]);
            assert(old_es[a].0 + old_es[a].1@.len() <= old_es[b - 1].0);
            assert(old_es[a].0 < old_es[b - 1].0);
        } else if a == i {
            assert(new_es[b] == old_es[b - 1]);
            if b - 1 > i {
                assert(old_es[i as int].0 + old_es[i as int].1@.len() <= old_es[b - 1].0);
                assert(old_es[i as int].0 < old_es[b - 1].0);
            }
        } else {
            assert(new_es[a] == old_es[a - 1]);
            assert(new_es[b] == old_es[b - 1]);
            assert(old_es[a - 1].0 + old_es[a - 1].1@.len() <= old_es[b - 1].0);
            assert(old_es[a - 1].0 < old_es[b - 1].0);
        }
    }
}

/// A same-start block that reaches farther than the delivered one, or a
/// next block the delivered one would reach into, refutes the fit.
proof fn lemma_nofit_same(es: Seq<(u64, Builder)>, i: int, start: u64, blen: nat)
    requires
        entries_wf(es),
        0 <= i < es.len(),
        es[i].0 == start,
        es[i].1@.len() > blen || (i + 1 < es.len() && es[i + 1].0 < start + blen),
    ensures
        !fits_at(es, start, blen),
{
    if fits_at(es, start, blen) {
        if es[i].1@.len() > blen {
            assert((es[i].0 + es[i].1@.len() <= start) || (start + blen <= es[i].0) || (es[i].0
                == start && es[i].1@.len() <= blen));
        } else {
            assert(es[i].0 < es[i + 1].0);
            assert((es[i + 1].0 + es[i + 1].1@.len() <= start) || (start + blen <= es[i + 1].0)
                || (es[i + 1].0 == start && es[i + 1].1@.len() <= blen));
        }
    }
}

/// A neighbor the delivered block would overlap refutes the fit.
proof fn lemma_nofit_insert(es: Seq<(u64, Builder)>, i: int, start: u64, blen: nat)
    requires
        entries_wf(es),
        0 <= i <= es.len(),
        forall|j: int| 0 <= j < i ==> (#[trigger] es[j]).0 < start,
        i == es.len() || es[i].0 > start,
        !((i == es.len() || start + blen <= es[i].0) && (i == 0 || es[i - 1].0 + es[i
            - 1].1@.len() <= start)),
    ensures
        !fits_at(es, start, blen),
{
    if fits_at(es, start, blen) {
        if !(i == es.len() || start + blen <= es[i].0) {
            assert((es[i].0 + es[i].1@.len() <= start) || (start + blen <= es[i].0) || (es[i].0
                == start && es[i].1@.len() <= blen));
        } else {
            assert(es[i - 1].0 < start);
            assert((es[i - 1].0 + es[i - 1].1@.len() <= start) || (start + blen <= es[i - 1].0)
                || (es[i - 1].0 == start && es[i - 1].1@.len() <= blen));
        }
    }
}

/// The sparse mirror: sealed blocks keyed by their starts, the open tail,
/// and the lowest position already requested from the server.
pub struct Client {
    entries: Vec<(u64, Builder)>,
    current: Builder,
    current_start: u64,
    requested_start: u64,
}

impl Client {
    /// Sealed blocks are sorted by start, disjoint, and structurally sound;
    /// the tail never overflows its sequence numbers.
    pub closed spec fn wf(&self) -> bool {
        &&& entries_wf(self.entries@)
        &&& forall|i: int|
            0 <= i < self.entries@.len() ==> (#[trigger] self.entries@[i]).1@.columns_even() && (
            self.entries@[i]).0 + self.entries@[i].1@.len() <= u64::MAX
        &&& self.current@.columns_even()
        &&& self.current@.wf()
        &&& self.current_start + self.current@.len() <= u64::MAX
    }

    /// Where the open tail starts.
    pub closed spec fn spec_current_start(&self) -> u64 {
        self.current_start
    }

    /// The lowest sequence number already asked for.
    pub closed spec fn spec_requested_start(&self) -> u64 {
        self.requested_start
    }

    /// How many rows the open tail holds.
    pub closed spec fn spec_current_len(&self) -> nat {
        self.current@.len()
    }

    pub fn new() -> (r: Client)
        ensures
            r.wf(),
            r.spec_current_start() == 0,
            r.spec_requested_start() == 0,
            r.spec_current_len() == 0,
            r.spec_entries() == Seq::<(u64, crate::shema::BlockModel)>::empty(),
            r.spec_end() == 0,
    {
        let c = Client {
            entries: Vec::new(),
            current: Builder::new(),
            current_start: 0,
            requested_start: 0,
        };
        proof {
            assert(c.spec_entries() =~= Seq::<(u64, crate::shema::BlockModel)>::empty());
        }
        c
    }

    /// Ingests a Sync packet: the server's head becomes the tail start and
    /// the advertised backlog the requested floor.  On a reconnect the gap
    /// between what is local and what the server holds is requested.
    pub fn on_sync(&mut self, start: u64, first_backlog: u64, reconnecting: bool) -> (r: Option<
        ClientMessage,
    >)
        requires
            old(self).wf(),
        ensures
            final(self).wf(),
            final(self).spec_current_start() == start,
            final(self).spec_requested_start() == first_backlog,
            final(self).spec_current_len() == 0,
            final(self).spec_entries() == old(self).spec_entries(),
            reconnecting ==> r == Some(
                ClientMessage::FetchRange {
                    start: final(self).spec_end() as u64,
                    end: first_backlog,
                },
            ),
            !reconnecting ==> r is None,
    {
        self.current = Builder::new();
        self.current_start = start;
        self.requested_start = first_backlog;
        proof {
            assert(self.spec_entries() =~= old(self).spec_entries());
        }
        if reconnecting {
            let end = self.end();
            Some(ClientMessage::FetchRange { start: end, end: first_backlog })
        } else {
            None
        }
    }

    /// The slot of the sealed block with the largest start at most `n`.
    fn find_block(&self, n: u64) -> (r: Option<usize>)
        requires
            self.wf(),
        ensures
            match r {
                Some(i) => i < self.entries@.len() && self.entries@[i as int].0 <= n && forall|
                    j: int,
                |
                    i < j < self.entries@.len() ==> (#[trigger] self.entries@[j]).0 > n,
                None => forall|j: int|
                    0 <= j < self.entries@.len() ==> (#[trigger] self.entries@[j]).0 > n,
            },
    {
        let mut found: Option<usize> = None;
        let mut i: usize = 0;
        while i < self.entries.len()
            invariant
                i <= self.entries@.len(),
                match found {
                    Some(k) => k < i && self.entries@[k as int].0 <= n && forall|j: int|
                        k < j < i ==> (#[trigger] self.entries@[j]).0 > n,
                    None => forall|j: int| 0 <= j < i ==> (#[trigger] self.entries@[j]).0 > n,
                },
            decreases self.entries@.len() - i,
        {
            if self.entries[i].0 <= n {
                found = Some(i);
            }
            i = i + 1;
        }
        found
    }

    /// The sealed blocks, as starts and contents.
    pub closed spec fn spec_entries(&self) -> Seq<(u64, crate::shema::BlockModel)> {
        Seq::new(self.entries@.len(), |i: int| (self.entries@[i].0, self.entries@[i].1@))
    }

    /// The mirror holds a sealed block with this start and these contents.
    pub closed spec fn spec_has_block(&self, start: u64, b: crate::shema::BlockModel) -> bool {
        exists|i: int|
            0 <= i < self.entries@.len() && (#[trigger] self.entries@[i]).0 == start
                && self.entries@[i].1@ == b
    }

    /// A delivered block fits the mirror: every held block lies fully
    /// before it, fully after it, or shares its start without reaching
    /// farther.
    pub closed spec fn spec_fits(&self, start: u64, blen: nat) -> bool {
        fits_at(self.entries@, start, blen)
    }

    /// Ingests one sealed block: when it fits, it is installed under its
    /// start (replacing a same-start block it reaches at least as far as);
    /// blocks under other starts always stay; and the requested floor drops
    /// to the block's start when it reaches lower.
    #[verifier::rlimit(100)]
    #[verifier::spinoff_prover]
    pub fn on_batch(&mut self, start: u64, block: Builder) -> (r: PacketRange)
        requires
            old(self).wf(),
            block@.columns_even(),
            start + block@.len() <= u64::MAX,
        ensures
            final(self).wf(),
            final(self).spec_requested_start() == (if start < old(self).spec_requested_start() {
                start
            } else {
                old(self).spec_requested_start()
            }),
            r.start == start && r.end == start + block@.len(),
            final(self).spec_current_start() == old(self).spec_current_start(),
            old(self).spec_fits(start, block@.len()) ==> final(self).spec_has_block(
                start,
                block@,
            ),
            forall|i: int|
                0 <= i < old(self).spec_entries().len() && (#[trigger] old(self).spec_entries()[i]).0 != start ==> final(self).spec_has_block(
                    old(self).spec_entries()[i].0,
                    old(self).spec_entries()[i].1,
                ),
    {
        let blen = block.len() as u64;
        if start < self.requested_start {
            self.requested_start = start;
        }
        let ghost pre = self.spec_entries();
        proof {
            assert(pre == old(self).spec_entries());
        }
        self.install_block(start, block);
        proof {
            assert forall|i: int|
                0 <= i < old(self).spec_entries().len() && (#[trigger] old(self).spec_entries()[i]).0 != start implies self.spec_has_block(
                old(self).spec_entries()[i].0,
                old(self).spec_entries()[i].1,
            ) by {
                assert(pre[i] == old(self).spec_entries()[i]);
            }
        }
        PacketRange { start, end: start.wrapping_add(blen) }
    }

    /// Installs one sealed block at its slot when it fits; see `on_batch`.
    #[verifier::rlimit(100)]
    #[verifier::spinoff_prover]
    fn install_block(&mut self, start: u64, block: Builder)
        requires
            old(self).wf(),
            block@.columns_even(),
            start + block@.len() <= u64::MAX,
        ensures
            final(self).wf(),
            final(self).spec_requested_start() == old(self).spec_requested_start(),
            final(self).spec_current_start() == old(self).spec_current_start(),
            final(self).spec_current_len() == old(self).spec_current_len(),
            final(self).spec_end() >= old(self).spec_current_start() + old(
                self,
            ).spec_current_len(),
            old(self).spec_fits(start, block@.len()) ==> final(self).spec_has_block(
                start,
                block@,
            ),
            forall|i: int|
                0 <= i < old(self).spec_entries().len() && (#[trigger] old(self).spec_entries()[i]).0 != start ==> final(self).spec_has_block(
                    old(self).spec_entries()[i].0,
                    old(self).spec_entries()[i].1,
                ),
    {
        let ghost bv = block@;
        let blen = block.len() as u64;
        // find the insertion slot: blocks stay sorted by start
        let mut i: usize = 0;
        while i < self.entries.len() && self.entries[i].0 < start
            invariant
                self.wf(),
                i <= self.entries@.len(),
                forall|j: int| 0 <= j < i ==> (#[trigger] self.entries@[j]).0 < start,
            decreases self.entries@.len() - i,
        {
            i = i + 1;
        }
        if i < self.entries.len() && self.entries[i].0 == start {
            // same start: the freshly delivered block replaces the old one
            // only when it reaches at least as far
            let fits_len = self.entries[i].1.len() <= block.len();
            let fits_next = i + 1 == self.entries.len() || start + blen <= self.entries[i + 1].0;
            if fits_len && fits_next {
                let ghost old_entries = self.entries@;
                self.entries[i] = (start, block);
                proof {
                    lemma_replace_wf(old_entries, self.entries@, i as int, start, bv.len());
                    assert(self.spec_has_block(start, bv)) by {
                        assert(self.entries@[i as int].0 == start && self.entries@[i as int].1@
                            == bv);
                    }
                    assert forall|j: int|
                        0 <= j < old_entries.len() && (#[trigger] old_entries[j]).0 != start
                        implies self.spec_has_block(old_entries[j].0, old_entries[j].1@) by {
                        assert(self.entries@[j] == old_entries[j]);
                    }
                }
            } else {
                proof {
                    lemma_nofit_same(self.entries@, i as int, start, bv.len());
                    assert forall|j: int|
                        0 <= j < self.entries@.len() && (#[trigger] self.entries@[j]).0 != start
                        implies self.spec_has_block(self.entries@[j].0, self.entries@[j].1@) by {
                        assert(self.entries@[j].0 == self.entries@[j].0);
                    }
                }
            }
        } else {
            let ok_next = i == self.entries.len() || start + blen <= self.entries[i].0;
            let ok_prev = i == 0 || self.entries[i - 1].0 + self.entries[i - 1].1.len() as u64
                <= start;
            if !(ok_next && ok_prev) {
                proof {
                    let blen_n = bv.len();
                    assert(!self.spec_fits(start, blen_n)) by {
                        if self.spec_fits(start, blen_n) {
                            if !ok_next {
                                assert(self.entries@[i as int].0 > start);
                                assert((self.entries@[i as int].0 + self.entries@[i as int].1@.len()
                                    <= start) || (start + blen_n <= self.entries@[i as int].0) || (
                                self.entries@[i as int].0 == start
                                    && self.entries@[i as int].1@.len() <= blen_n));
                            } else {
                                assert(self.entries@[i - 1].0 < start);
                                assert((self.entries@[i - 1].0 + self.entries@[i - 1].1@.len()
                                    <= start) || (start + blen_n <= self.entries@[i - 1].0) || (
                                self.entries@[i - 1].0 == start && self.entries@[i - 1].1@.len()
                                    <= blen_n));
                            }
                        }
                    }
                    assert forall|j: int|
                        0 <= j < self.entries@.len() && (#[trigger] self.entries@[j]).0 != start
                        implies self.spec_has_block(self.entries@[j].0, self.entries@[j].1@) by {
                        assert(self.entries@[j].0 == self.entries@[j].0);
                    }
                }
            } else {
                {
                    let ghost old_entries = self.entries@;
                    self.entries.insert(i, (start, block));
                    proof {
                        assert(self.spec_has_block(start, bv)) by {
                            assert(self.entries@[i as int].0 == start && self.entries@[i as int].1@
                                == bv);
                        }
                        assert forall|j: int|
                            0 <= j < old_entries.len() && (#[trigger] old_entries[j]).0 != start
                            implies self.spec_has_block(old_entries[j].0, old_entries[j].1@) by {
                            if j < i {
                                assert(self.entries@[j] == old_entries[j]);
                            } else {
                                assert(self.entries@[j + 1] == old_entries[j]);
                            }
                        }
                        assert forall|a: int, b: int|
                            0 <= a < b < self.entries@.len() implies (
                        #[trigger] self.entries@[a]).0 + self.entries@[a].1@.len() <= (
                        #[trigger] self.entries@[b]).0 && (self.entries@[a]).0 < (
                        self.entries@[b]).0 by {
                            if a < i && b > i {
                                assert(old_entries[a] == self.entries@[a]);
                                assert(old_entries[b - 1] == self.entries@[b]);
                                if a < i - 1 {
                                    assert(old_entries[a].0 + old_entries[a].1@.len()
                                        <= old_entries[i - 1int].0);
                                }
                            } else if b < i {
                                assert(old_entries[a] == self.entries@[a]);
                                assert(old_entries[b] == self.entries@[b]);
                            } else if a > i {
                                assert(old_entries[a - 1] == self.entries@[a]);
                                assert(old_entries[b - 1] == self.entries@[b]);
                            } else if a == i && b > i {
                                assert(old_entries[b - 1] == self.entries@[b]);
                                if b > i + 1 {
                                    assert(old_entries[i as int].0 + old_entries[i as int].1@.len()
                                        <= old_entries[b - 1].0);
                                }
                            } else if b == i && a < i {
                                assert(old_entries[a] == self.entries@[a]);
                                if a < i - 1 {
                                    assert(old_entries[a].0 + old_entries[a].1@.len()
                                        <= old_entries[i - 1int].0);
                                }
                            }
                        }
                    }
                }
            }
        }
    }

    /// The open tail has room for this record.
    pub closed spec fn can_ingest(&self, e: crate::Record) -> bool {
        self.current.can_add_spec(e) && self.current_start + self.current@.len() < u64::MAX
    }

    /// Tests exactly whether the open tail can take one more row of this
    /// shape.
    pub fn can_append(&self, e: &RequestEntry) -> (r: bool)
        requires
            self.wf(),
        ensures
            r == self.can_ingest(e@),
    {
        self.current.can_add(e) && self.current_start < u64::MAX - self.current.len() as u64
    }

    /// Ingests one live row into the open tail, returning the sequence
    /// range it took.
    pub fn on_row(&mut self, e: &RequestEntry) -> (r: PacketRange)
        requires
            old(self).wf(),
            old(self).can_ingest(e@),
        ensures
            final(self).wf(),
            final(self).spec_current_len() == old(self).spec_current_len() + 1,
            r.start == old(self).spec_current_start() + old(self).spec_current_len(),
            r.end == r.start + 1,
            final(self).spec_current_start() == old(self).spec_current_start(),
            final(self).spec_requested_start() == old(self).spec_requested_start(),
            final(self).spec_entries() == old(self).spec_entries(),
    {
        let pos = self.current_start + self.current.len() as u64;
        self.current.add_checked(e);
        proof {
            assert(self.spec_entries() =~= old(self).spec_entries());
        }
        PacketRange { start: pos, end: pos + 1 }
    }

    /// The reaction to a server-side message: a detached or a never-attached
    /// session re-subscribes with a thousand rows of backlog, and an error is
    /// only reported, never answered.
    pub fn on_server_msg(&self, msg: &ServerMessage) -> (r: Option<ClientMessage>)
        ensures
            r == (match msg {
                ServerMessage::NotAttached => Some(
                    ClientMessage::SubScribeWithBacklog { backlog: 1000u64 },
                ),
                ServerMessage::Detached => Some(
                    ClientMessage::SubScribeWithBacklog { backlog: 1000u64 },
                ),
                ServerMessage::Error { .. } => None::<ClientMessage>,
            }),
    {
        match msg {
            ServerMessage::NotAttached => Some(ClientMessage::SubScribeWithBacklog {
                backlog: 1000,
            }),
            ServerMessage::Detached => Some(ClientMessage::SubScribeWithBacklog { backlog: 1000 }),
            ServerMessage::Error { .. } => None,
        }
    }

    /// The sealed block whose range is the latest to begin at or before
    /// `n`, if one does.
    pub closed spec fn spec_find(entries: Seq<(u64, Builder)>, n: u64) -> Option<int>
        decreases entries.len(),
    {
        if entries.len() == 0 {
            None
        } else if entries.last().0 <= n {
            Some(entries.len() - 1)
        } else {
            Self::spec_find(entries.drop_last(), n)
        }
    }

    /// What `spec_find` names: the last block starting at or before `n`.
    proof fn lemma_spec_find(entries: Seq<(u64, Builder)>, n: u64)
        ensures
            match Self::spec_find(entries, n) {
                Some(i) => 0 <= i < entries.len() && entries[i].0 <= n && forall|j: int|
                    i < j < entries.len() ==> (#[trigger] entries[j]).0 > n,
                None => forall|j: int|
                    0 <= j < entries.len() ==> (#[trigger] entries[j]).0 > n,
            },
        decreases entries.len(),
    {
        if entries.len() > 0 && entries.last().0 > n {
            Self::lemma_spec_find(entries.drop_last(), n);
            match Self::spec_find(entries.drop_last(), n) {
                Some(i) => {
                    assert forall|j: int|
                        i < j < entries.len() implies (#[trigger] entries[j]).0 > n by {
                        if j < entries.len() - 1 {
                            assert(entries.drop_last()[j] == entries[j]);
                        }
                    }
                },
                None => {
                    assert forall|j: int|
                        0 <= j < entries.len() implies (#[trigger] entries[j]).0 > n by {
                        if j < entries.len() - 1 {
                            assert(entries.drop_last()[j] == entries[j]);
                        }
                    }
                },
            }
        }
    }

    /// The record the mirror holds at `n`: the open tail when it resolves
    /// there, else the sealed block around `n`.
    pub closed spec fn spec_get(&self, n: u64) -> Option<crate::Record> {
        let cur = if n >= self.current_start && n - self.current_start < self.current@.len() {
            crate::shema::model_get(self.current@, n - self.current_start)
        } else {
            None
        };
        if cur is Some {
            cur
        } else {
            match Self::spec_find(self.entries@, n) {
                Some(i) => {
                    let (s, b) = self.entries@[i];
                    if n - s < b@.len() {
                        crate::shema::model_get(b@, n - s)
                    } else {
                        None
                    }
                },
                None => None,
            }
        }
    }

    /// The record at sequence number `n`: the open tail when it covers `n`,
    /// else the sealed block around `n`.
    pub fn get(&self, n: u64) -> (r: Option<RequestEntry>)
        requires
            self.wf(),
        ensures
            match r {
                Some(e) => Some(e@) == self.spec_get(n),
                None => self.spec_get(n) is None,
            },
    {
        proof {
            Self::lemma_spec_find(self.entries@, n);
        }
        if n >= self.current_start && n - self.current_start < self.current.len() as u64 {
            let got = self.current.get((n - self.current_start) as usize);
            if got.is_some() {
                return got;
            }
        }
        match self.find_block(n) {
            Some(i) => {
                proof {
                    match Self::spec_find(self.entries@, n) {
                        Some(k) => {
                            if k < i {
                                assert(self.entries@[i as int].0 > n);
                            }
                            if k > i {
                                assert(self.entries@[k].0 > n);
                            }
                        },
                        None => {
                            assert(self.entries@[i as int].0 > n);
                        },
                    }
                }
                let (start, block) = &self.entries[i];
                if n - *start < block.len() as u64 {
                    block.get((n - *start) as usize)
                } else {
                    None
                }
            },
            None => None,
        }
    }

    /// One past the highest sequence number the mirror can hold: the larger
    /// of the open tail's end and the newest sealed block's end.
    pub closed spec fn spec_end(&self) -> int {
        let tail_end = self.current_start + self.current@.len();
        let n = self.entries@.len() as int;
        if n > 0 && self.entries@[n - 1].0 + self.entries@[n - 1].1@.len() > tail_end {
            self.entries@[n - 1].0 + self.entries@[n - 1].1@.len()
        } else {
            tail_end
        }
    }

    /// One past the highest sequence number the mirror holds.
    pub fn end(&self) -> (r: u64)
        requires
            self.wf(),
        ensures
            r == self.spec_end(),
            r >= self.spec_current_start() + self.spec_current_len(),
    {
        let tail_end = self.current_start + self.current.len() as u64;
        let n = self.entries.len();
        if n > 0 {
            let (s, b) = &self.entries[n - 1];
            let be = *s + b.len() as u64;
            if be > tail_end {
                return be;
            }
        }
        tail_end
    }

    /// Where a walk of `[a, b)` must stop: the window end, clamped to what
    /// the mirror can hold and never before `a`.
    pub open spec fn spec_window_end(&self, a: u64, b: u64) -> int {
        let e = self.spec_end();
        let hi = if b <= e {
            b as int
        } else {
            e
        };
        if hi < a {
            a as int
        } else {
            hi
        }
    }

    /// The records in `[a, b)`, in ascending order: exactly the mirror's
    /// records there, stopping at the window end or at the first gap.  An
    /// empty or reversed range yields nothing.
    pub fn get_range(&self, a: u64, b: u64) -> (r: Vec<(u64, RequestEntry)>)
        requires
            self.wf(),
        ensures
            a >= b ==> r@.len() == 0,
            r@.len() <= sub_sat(b, a),
            forall|k: int|
                0 <= k < r@.len() ==> (#[trigger] r@[k]).0 == a + k && Some(r@[k].1@)
                    == self.spec_get((a + k) as u64),
            a < b ==> a + r@.len() == self.spec_window_end(a, b) || self.spec_get(
                (a + r@.len()) as u64,
            ) is None,
    {
        let mut out: Vec<(u64, RequestEntry)> = Vec::new();
        if a >= b {
            return out;
        }
        let stop = self.end();
        let mut hi = if b < stop {
            b
        } else {
            stop
        };
        if hi < a {
            hi = a;
        }
        let mut n = a;
        while n < hi
            invariant
                self.wf(),
                a < b,
                hi <= b,
                hi == self.spec_window_end(a, b),
                a <= n <= hi,
                out@.len() == n - a,
                forall|k: int|
                    0 <= k < out@.len() ==> (#[trigger] out@[k]).0 == a + k && Some(out@[k].1@)
                        == self.spec_get((a + k) as u64),
            decreases hi - n,
        {
            match self.get(n) {
                Some(e) => {
                    out.push((n, e));
                },
                None => {
                    return out;
                },
            }
            n = n + 1;
        }
        out
    }

    /// Asks the server for everything between `start` and the requested
    /// floor, widening the request downward; the floor follows.
    pub fn request_more(&mut self, start: u64) -> (r: Option<ClientMessage>)
        requires
            old(self).wf(),
        ensures
            final(self).wf(),
            start < old(self).spec_requested_start() ==> {
                let lowered = if start < sub_sat(old(self).spec_requested_start(), 1000) {
                    start
                } else {
                    sub_sat(old(self).spec_requested_start(), 1000)
                };
                &&& r == Some(
                    ClientMessage::FetchRange {
                        start: lowered,
                        end: old(self).spec_requested_start(),
                    },
                )
                &&& final(self).spec_requested_start() == lowered
            },
            start >= old(self).spec_requested_start() ==> r is None && *final(self)
                == *old(self),
    {
        if start < self.requested_start {
            let floor = sub_sat_exec(self.requested_start, 1000);
            let lowered = if start < floor {
                start
            } else {
                floor
            };
            let msg = ClientMessage::FetchRange { start: lowered, end: self.requested_start };
            self.requested_start = lowered;
            Some(msg)
        } else {
            None
        }
    }

    /// Requests a back-fill when reading near or below the requested floor,
    /// reaching a thousand rows further down to avoid thrashing.
    pub fn maybe_need_more(&mut self, start: u64) -> (r: Option<ClientMessage>)
        requires
            old(self).wf(),
        ensures
            final(self).wf(),
            ({
                let s = sub_sat(start, 1000);
                &&& (s < old(self).spec_requested_start() ==> {
                    let lowered = if s < sub_sat(old(self).spec_requested_start(), 1000) {
                        s
                    } else {
                        sub_sat(old(self).spec_requested_start(), 1000)
                    };
                    &&& r == Some(
                        ClientMessage::FetchRange {
                            start: lowered,
                            end: old(self).spec_requested_start(),
                        },
                    )
                    &&& final(self).spec_requested_start() == lowered
                })
                &&& (s >= old(self).spec_requested_start() ==> r is None && *final(self) == *old(self))
            }),
    {
        let s = sub_sat_exec(start, 1000);
        self.request_more(s)
    }
}

/// Saturating subtraction, as every downward request is clamped at zero.
pub open spec fn sub_sat(a: u64, b: u64) -> u64 {
    if a >= b {
        (a - b) as u64
    } else {
        0
    }
}

fn sub_sat_exec(a: u64, b: u64) -> (r: u64)
    ensures
        r == sub_sat(a, b),
{
    if a >= b {
        a - b
    } else {
        0
    }
}


/// An absolute sliding window over the mirror.
pub struct ScrollView {
    current: Vec<RequestEntry>,
    current_start: u64,
    start: u64,
    len: usize,
}

impl ScrollView {
    /// Where the window starts.
    pub closed spec fn spec_start(&self) -> u64 {
        self.start
    }

    pub closed spec fn spec_len(&self) -> usize {
        self.len
    }

    pub fn new(len: usize) -> (r: ScrollView)
        ensures
            r.spec_start() == 0,
            r.spec_len() == len,
    {
        ScrollView { current: Vec::new(), current_start: 0, start: 0, len }
    }

    pub fn pos(&self) -> (r: u64)
        ensures
            r == self.spec_start(),
    {
        self.start
    }

    pub fn scroll_to(&mut self, pos: u64)
        ensures
            final(self).spec_start() == pos,
            final(self).spec_len() == old(self).spec_len(),
    {
        self.start = pos;
    }

    /// Jumps to the end of the log, keeping one window visible.
    pub fn scroll_to_end(&mut self, client: &Client)
        requires
            client.wf(),
        ensures
            final(self).spec_len() == old(self).spec_len(),
            final(self).spec_start() == sub_sat(
                client.spec_end() as u64,
                old(self).spec_len() as u64,
            ),
    {
        let e = client.end();
        self.start = sub_sat_exec(e, self.len as u64);
    }

    /// Moves the window.  Forward motion clamps at the end of the log;
    /// backward motion clamps at zero and may ask the server for more
    /// backlog.  Returns whether the boundary in that direction was reached,
    /// and the request to send, if any.
    pub fn scroll_by(&mut self, client: &mut Client, by: i64) -> (r: (
        bool,
        Option<ClientMessage>,
    ))
        requires
            old(client).wf(),
            by > i64::MIN,
            old(self).spec_start() + by <= u64::MAX,
        ensures
            final(client).wf(),
            final(self).spec_len() == old(self).spec_len(),
            by > 0 ==> *final(client) == *old(client) && ({
                let maxs = sub_sat(old(client).spec_end() as u64, old(self).spec_len() as u64);
                &&& final(self).spec_start() == (if old(self).spec_start() + by >= maxs {
                    maxs as int
                } else {
                    old(self).spec_start() + by
                })
                &&& r.0 == (old(self).spec_start() + by >= maxs)
            }),
            by < 0 ==> final(self).spec_start() == sub_sat(
                old(self).spec_start(),
                (-by) as u64,
            ) && r.0 == (final(self).spec_start() == 0),
            by < 0 && old(self).spec_start() == 0 ==> final(self).spec_start() == 0 && r.0,
            by < 0 ==> ({
                let s = sub_sat(sub_sat(old(self).spec_start(), (-by) as u64), 1000);
                &&& (s < old(client).spec_requested_start() ==> {
                    let lowered = if s < sub_sat(old(client).spec_requested_start(), 1000) {
                        s
                    } else {
                        sub_sat(old(client).spec_requested_start(), 1000)
                    };
                    &&& r.1 == Some(
                        ClientMessage::FetchRange {
                            start: lowered,
                            end: old(client).spec_requested_start(),
                        },
                    )
                    &&& final(client).spec_requested_start() == lowered
                })
                &&& (s >= old(client).spec_requested_start() ==> r.1 is None && *final(client)
                    == *old(client))
            }),
            by == 0 ==> final(self).spec_start() == old(self).spec_start(),
    {
        if by > 0 {
            let max = sub_sat_exec(client.end(), self.len as u64);
            let new_start = self.start + by as u64;
            if new_start >= max {
                self.start = max;
                (true, None)
            } else {
                self.start = new_start;
                (false, None)
            }
        } else {
            self.start = sub_sat_exec(self.start, (-by) as u64);
            let msg = client.maybe_need_more(self.start);
            (self.start == 0, msg)
        }
    }

    /// The visible rows: exactly the mirror's records at the window
    /// positions, in order, up to the window end or the first gap.  The
    /// rendered window is kept as the cache the next render starts from.
    pub fn render(&mut self, client: &Client) -> (r: Vec<RequestEntry>)
        requires
            client.wf(),
            old(self).spec_start() + old(self).spec_len() <= u64::MAX,
        ensures
            r@.len() <= old(self).spec_len(),
            final(self).spec_start() == old(self).spec_start(),
            final(self).spec_len() == old(self).spec_len(),
            forall|i: int|
                0 <= i < r@.len() ==> Some((#[trigger] r@[i])@) == client.spec_get(
                    (old(self).spec_start() + i) as u64,
                ),
            old(self).spec_len() == 0 || old(self).spec_start() + r@.len()
                == client.spec_window_end(
                old(self).spec_start(),
                (old(self).spec_start() + old(self).spec_len()) as u64,
            ) || client.spec_get((old(self).spec_start() + r@.len()) as u64) is None,
    {
        let got = client.get_range(self.start, self.start + self.len as u64);
        let mut out: Vec<RequestEntry> = Vec::new();
        let mut i: usize = 0;
        while i < got.len()
            invariant
                i <= got@.len(),
                got@.len() <= old(self).spec_len(),
                out@.len() == i,
                self.start == old(self).spec_start(),
                forall|k: int| 0 <= k < i ==> (#[trigger] out@[k])@ == got@[k].1@,
                forall|k: int|
                    0 <= k < got@.len() ==> (#[trigger] got@[k]).0 == self.start + k && Some(
                        got@[k].1@,
                    ) == client.spec_get((self.start + k) as u64),
            decreases got@.len() - i,
        {
            let (_, e) = &got[i];
            out.push(e.duplicate());
            i = i + 1;
        }
        self.current = got_records(got);
        self.current_start = self.start;
        out
    }
}

/// The records of a range result, positions dropped.
fn got_records(got: Vec<(u64, RequestEntry)>) -> (r: Vec<RequestEntry>)
    ensures
        r@.len() == got@.len(),
{
    let mut out: Vec<RequestEntry> = Vec::new();
    let mut i: usize = 0;
    while i < got.len()
        invariant
            i <= got@.len(),
            out@.len() == i,
        decreases got@.len() - i,
    {
        let (_, e) = &got[i];
        out.push(e.clone());
        i = i + 1;
    }
    out
}

/// A predicate-filtered window over the mirror.
pub struct FilterView {
    filter: Option<Filter>,
    positions: Vec<u64>,
    start: u64,
    len: usize,
}

/// Whether a record passes the view's filter; no filter passes everything.
pub open spec fn spec_view_matches(f: Option<Filter>, now: u64, e: crate::Record) -> bool {
    match f {
        Some(f) => crate::filter::spec_filter_matches(f, now, e),
        None => true,
    }
}

/// The mirror holds a record at `n` that passes the filter.
pub open spec fn spec_match_at(c: &Client, f: Option<Filter>, now: u64, n: u64) -> bool {
    c.spec_get(n) matches Some(e) && spec_view_matches(f, now, e)
}

/// The first at most `k` matching positions in `[a, b)`, walking the
/// mirror up to its window end or the first gap.  The witness `w` names
/// where the walk stopped: everything in `[a, w)` was held and its matches
/// are exactly the result.
/// The number of matches a forward scroll may take: the step clamped to
/// what a count can hold.
pub open spec fn spec_quota(by: i64) -> int {
    if by as int <= usize::MAX as int {
        by as int
    } else {
        usize::MAX as int
    }
}

/// One forward walk over matches past `last`: `fnd` are the matches found in
/// the gap-free region `[last+1, w)` in ascending order, every match of that
/// region is in `fnd`, the walk stopped at the quota, the window end, a gap
/// or the end of the sequence numbers, and the new window is the tail of the
/// old window extended by `fnd`, `d` elements dropped at the front.
pub open spec fn spec_forward_walk(
    c: &Client,
    f: Option<Filter>,
    now: u64,
    last: u64,
    old_ps: Seq<u64>,
    new_ps: Seq<u64>,
    quota: int,
    hit_end: bool,
    fnd: Seq<u64>,
    d: int,
    w: int,
) -> bool {
    &&& 0 <= d <= fnd.len()
    &&& (forall|k: int|
        0 <= k < fnd.len() ==> spec_match_at(c, f, now, #[trigger] fnd[k]) && last < fnd[k])
    &&& (forall|i: int, j: int| 0 <= i < j < fnd.len() ==> #[trigger] fnd[i] < #[trigger] fnd[j])
    &&& new_ps == (old_ps + fnd).subrange(d, old_ps.len() as int + fnd.len() as int)
    &&& hit_end == (fnd.len() < quota)
    &&& last + 1 <= w
    &&& (forall|m: u64| last + 1 <= m < w ==> #[trigger] c.spec_get(m) is Some)
    &&& (forall|m: u64|
        last + 1 <= m < w && #[trigger] spec_match_at(c, f, now, m) ==> fnd.contains(m))
    &&& (fnd.len() == quota || c.spec_get(w as u64) is None || w > u64::MAX
        || c.spec_window_end((last + 1) as u64, u64::MAX) == w)
}

/// Some forward walk as above took the old window to the new one.
pub open spec fn spec_scrolled_forward(
    c: &Client,
    f: Option<Filter>,
    now: u64,
    last: u64,
    old_ps: Seq<u64>,
    new_ps: Seq<u64>,
    quota: int,
    hit_end: bool,
) -> bool {
    exists|fnd: Seq<u64>, d: int, w: int|
        spec_forward_walk(c, f, now, last, old_ps, new_ps, quota, hit_end, fnd, d, w)
}

/// `pre` are the newest `need` (or all, when fewer exist) matches below
/// `low`, drawn in order from a full walk of the gap-free region `[0, w2)`.
pub open spec fn spec_backfilled(
    c: &Client,
    f: Option<Filter>,
    now: u64,
    low: u64,
    need: int,
    pre: Seq<u64>,
) -> bool {
    exists|found2: Seq<u64>, w2: int|
        #![trigger found2.subrange(0, w2)]
        {
            &&& (forall|k: int|
                0 <= k < found2.len() ==> spec_match_at(c, f, now, #[trigger] found2[k])
                    && found2[k] < low)
            &&& (forall|i: int, j: int|
                0 <= i < j < found2.len() ==> #[trigger] found2[i] < #[trigger] found2[j])
            &&& 0 <= w2
            &&& (forall|m: u64| 0 <= m < w2 ==> #[trigger] c.spec_get(m) is Some)
            &&& (forall|m: u64|
                m < w2 && #[trigger] spec_match_at(c, f, now, m) && m < low ==> found2.contains(
                    m,
                ))
            &&& (c.spec_window_end(0, low) == w2 || c.spec_get(w2 as u64) is None || w2
                > u64::MAX || found2.len() >= usize::MAX)
            &&& pre == found2.subrange(
                found2.len() - (if need <= found2.len() {
                    need
                } else {
                    found2.len() as int
                }),
                found2.len() as int,
            )
        }
}

/// A jump to the end: a forward walk over every remaining match, then, when
/// the window is still short of `len`, a back-fill with the newest matches
/// below it.
pub open spec fn spec_jumped_to_end(
    c: &Client,
    f: Option<Filter>,
    now: u64,
    last: u64,
    old_ps: Seq<u64>,
    new_ps: Seq<u64>,
    len: int,
    start0: u64,
) -> bool {
    exists|mid: Seq<u64>, hit: bool, pre: Seq<u64>|
        #![trigger spec_scrolled_forward(c, f, now, last, old_ps, mid, usize::MAX as int, hit), pre.len()]
        {
            &&& spec_scrolled_forward(c, f, now, last, old_ps, mid, usize::MAX as int, hit)
            &&& (mid.len() >= len ==> new_ps == mid && pre == Seq::<u64>::empty())
            &&& (mid.len() < len ==> spec_backfilled(
                c,
                f,
                now,
                (if mid.len() > 0 {
                    mid[0]
                } else {
                    start0
                }),
                len - mid.len(),
                pre,
            ) && new_ps == pre + mid)
        }
}

fn collect_matches(client: &Client, ctx: &FilterCtx, f: &Option<Filter>, a: u64, b: u64, k: usize) -> (r: Vec<u64>)
    requires
        client.wf(),
    ensures
        r@.len() <= k,
        forall|i: int| 0 <= i < r@.len() ==> a <= #[trigger] r@[i] && r@[i] < b,
        forall|i: int, j: int| 0 <= i < j < r@.len() ==> #[trigger] r@[i] < #[trigger] r@[j],
        forall|i: int|
            0 <= i < r@.len() ==> spec_match_at(client, *f, ctx.now, #[trigger] r@[i]),
        exists|w: int|
            #![trigger client.spec_get(w as u64)]
            a <= w && (forall|m: u64| a <= m < w ==> #[trigger] client.spec_get(m) is Some) && (
            forall|m: u64|
                a <= m < w && #[trigger] spec_match_at(client, *f, ctx.now, m) ==> r@.contains(
                    m,
                )) && (r@.len() == k || client.spec_window_end(a, b) == w || client.spec_get(
                w as u64,
            ) is None || w > u64::MAX),
{
    let got = client.get_range(a, b);
    proof {
        if got@.len() > 0 {
            assert(got@[got@.len() - 1].0 == a + got@.len() - 1);
        }
    }
    let mut out: Vec<u64> = Vec::new();
    let mut i: usize = 0;
    while i < got.len() && out.len() < k
        invariant
            client.wf(),
            i <= got@.len(),
            out@.len() <= k,
            a + got@.len() <= u64::MAX + 1,
            got@.len() <= sub_sat(b, a),
            a < b || got@.len() == 0,
            a + got@.len() == client.spec_window_end(a, b) || client.spec_get(
                (a + got@.len()) as u64,
            ) is None || a >= b,
            forall|t: int|
                0 <= t < got@.len() ==> (#[trigger] got@[t]).0 == a + t && Some(got@[t].1@)
                    == client.spec_get((a + t) as u64),
            forall|t: int| 0 <= t < out@.len() ==> a <= #[trigger] out@[t] && out@[t] < b,
            forall|t: int, u: int| 0 <= t < u < out@.len() ==> #[trigger] out@[t] < #[trigger] out@[u],
            forall|t: int| 0 <= t < out@.len() ==> #[trigger] out@[t] < a + i,
            forall|t: int|
                0 <= t < out@.len() ==> spec_match_at(client, *f, ctx.now, #[trigger] out@[t]),
            forall|m: u64|
                a <= m < a + i && #[trigger] spec_match_at(client, *f, ctx.now, m)
                    ==> out@.contains(m),
        decreases got@.len() - i,
    {
        let (n, e) = &got[i];
        let keep = match f {
            Some(f) => f.matches(ctx, e),
            None => true,
        };
        let ghost prev = out@;
        if keep {
            out.push(*n);
        }
        proof {
            assert(got@[i as int].0 == a + i);
            if keep {
                assert(out@[out@.len() - 1] == a + i);
                assert forall|t: int| 0 <= t < prev.len() implies out@.contains(
                    #[trigger] prev[t],
                ) by {
                    assert(out@[t] == prev[t]);
                }
            }
            assert forall|m: u64|
                a <= m < a + i + 1 && spec_match_at(client, *f, ctx.now, m) implies out@.contains(
                m,
            ) by {
                if m < a + i {
                    assert(prev.contains(m));
                    let t = choose|t: int| 0 <= t < prev.len() && prev[t] == m;
                    assert(out@[t] == m);
                }
            }
        }
        i = i + 1;
    }
    proof {
        if i < got@.len() {
            // stopped on the quota
            assert(out@.len() == k);
            assert(a + i <= u64::MAX);
        }
        let w: int = a + i;
        assert(a <= w && (forall|m: u64| a <= m < w ==> #[trigger] client.spec_get(m) is Some) && (
        forall|m: u64|
            a <= m < w && #[trigger] spec_match_at(client, *f, ctx.now, m) ==> out@.contains(m))
            && (out@.len() == k || client.spec_window_end(a, b) == w || client.spec_get(w as u64)
            is None || w > u64::MAX)) by {
            assert forall|m: u64| a <= m < w implies #[trigger] client.spec_get(m) is Some by {
                assert(Some(got@[m - a].1@) == client.spec_get(m));
            }
            if i == got@.len() {
                if a < b {
                    assert(a + got@.len() == client.spec_window_end(a, b) || client.spec_get(
                        (a + got@.len()) as u64,
                    ) is None || a + got@.len() > u64::MAX);
                } else {
                    assert(got@.len() == 0);
                    assert(client.spec_window_end(a, b) == a as int);
                }
            }
        }
    }
    out
}

impl FilterView {
    pub closed spec fn spec_start(&self) -> u64 {
        self.start
    }

    pub closed spec fn spec_len(&self) -> usize {
        self.len
    }

    pub closed spec fn spec_filter(&self) -> Option<Filter> {
        self.filter
    }

    /// The matching positions currently visible.
    pub closed spec fn spec_positions(&self) -> Seq<u64> {
        self.positions@
    }

    /// The last visible position, or the window start when nothing is
    /// visible: where a forward walk over matches begins.
    pub closed spec fn spec_last_visible(&self) -> u64 {
        if self.positions@.len() > 0 {
            self.positions@.last()
        } else {
            self.start
        }
    }

    pub fn new(len: usize) -> (r: FilterView)
        ensures
            r.spec_start() == 0,
            r.spec_len() == len,
            r.spec_filter() is None,
    {
        FilterView { filter: None, positions: Vec::new(), start: 0, len }
    }

    pub fn pos(&self) -> (r: u64)
        ensures
            r == self.spec_start(),
    {
        self.start
    }

    pub fn scroll_to(&mut self, pos: u64)
        ensures
            final(self).spec_start() == pos,
            final(self).spec_filter() == old(self).spec_filter(),
            final(self).spec_len() == old(self).spec_len(),
    {
        self.start = pos;
    }

    /// Installs a filter, or none to show everything.
    pub fn set_filter(&mut self, f: Option<Filter>)
        ensures
            final(self).spec_filter() == f,
            final(self).spec_start() == old(self).spec_start(),
            final(self).spec_len() == old(self).spec_len(),
    {
        self.filter = f;
    }

    /// Parses and installs a filter text; an empty text clears the filter,
    /// and a text that does not parse leaves it unchanged.
    pub fn set_filter_text(&mut self, s: &str) -> (r: Result<
        (),
        crate::filter::FilterParseError,
    >)
        ensures
            final(self).spec_start() == old(self).spec_start(),
            final(self).spec_len() == old(self).spec_len(),
            r is Err ==> final(self).spec_filter() == old(self).spec_filter(),
            s@.len() == 0 ==> r is Ok && final(self).spec_filter() is None,
            s@.len() > 0 && r is Ok ==> final(self).spec_filter() is Some,
    {
        if s.unicode_len() == 0 {
            self.filter = None;
            return Ok(());
        }
        match Filter::parse(s) {
            Ok(f) => {
                self.filter = Some(f);
                Ok(())
            },
            Err(e) => Err(e),
        }
    }

    /// The visible rows: exactly the first `len` records from `start` on,
    /// among those the mirror holds up to its end or the first gap, that
    /// pass the filter.  A filter nothing passes renders an empty list.
    pub fn render(&mut self, client: &Client, ctx: &FilterCtx) -> (r: Vec<(u64, RequestEntry)>)
        requires
            client.wf(),
        ensures
            r@.len() <= old(self).spec_len(),
            final(self).spec_filter() == old(self).spec_filter(),
            final(self).spec_start() == old(self).spec_start(),
            final(self).spec_len() == old(self).spec_len(),
            forall|k: int|
                0 <= k < r@.len() ==> old(self).spec_start() <= (#[trigger] r@[k]).0 && Some(
                    r@[k].1@,
                ) == client.spec_get(r@[k].0) && spec_view_matches(
                    old(self).spec_filter(),
                    ctx.now,
                    r@[k].1@,
                ),
            forall|k: int, l: int| 0 <= k < l < r@.len() ==> (#[trigger] r@[k]).0 < (#[trigger] r@[l]).0,
            final(self).spec_positions() == Seq::new(r@.len(), |k: int| r@[k].0),
            exists|w: int|
                #![trigger client.spec_get(w as u64)]
                old(self).spec_start() <= w && (forall|m: u64|
                    old(self).spec_start() <= m < w ==> #[trigger] client.spec_get(m) is Some)
                    && (forall|m: u64|
                    old(self).spec_start() <= m < w && #[trigger] spec_match_at(
                        client,
                        old(self).spec_filter(),
                        ctx.now,
                        m,
                    ) ==> Seq::new(r@.len(), |k: int| r@[k].0).contains(m)) && (r@.len() == old(
                    self,
                ).spec_len() || client.spec_window_end(old(self).spec_start(), u64::MAX) == w
                    || client.spec_get(w as u64) is None || w > u64::MAX),
    {
        let poss = collect_matches(client, ctx, &self.filter, self.start, u64::MAX, self.len);
        let mut out: Vec<(u64, RequestEntry)> = Vec::new();
        let mut i: usize = 0;
        while i < poss.len()
            invariant
                client.wf(),
                i <= poss@.len(),
                out@.len() == i,
                self.filter == old(self).filter,
                self.start == old(self).start,
                self.len == old(self).len,
                forall|k: int|
                    0 <= k < poss@.len() ==> spec_match_at(
                        client,
                        self.filter,
                        ctx.now,
                        #[trigger] poss@[k],
                    ),
                forall|k: int| 0 <= k < out@.len() ==> (#[trigger] out@[k]).0 == poss@[k] && Some(
                    out@[k].1@,
                ) == client.spec_get(poss@[k]),
            decreases poss@.len() - i,
        {
            let n = poss[i];
            match client.get(n) {
                Some(e) => {
                    out.push((n, e));
                },
                None => {
                    proof {
                        assert(false);
                    }
                },
            }
            i = i + 1;
        }
        self.positions = poss;
        proof {
            assert(final(self).spec_positions() =~= Seq::new(out@.len(), |k: int| out@[k].0));
        }
        out
    }

    /// Walks forward matches past the last visible position, appending up to
    /// `quota` of them and trimming the front to keep at most `len` visible.
    /// Returns whether fewer than `quota` were found: the end was reached.
    #[verifier::rlimit(100)]
    #[verifier::spinoff_prover]
    fn scroll_forward(&mut self, client: &Client, ctx: &FilterCtx, quota: usize) -> (r: bool)
        requires
            client.wf(),
            quota >= 1,
        ensures
            final(self).spec_filter() == old(self).spec_filter(),
            final(self).spec_len() == old(self).spec_len(),
            final(self).spec_start() == old(self).spec_start(),
            spec_scrolled_forward(
                client,
                old(self).spec_filter(),
                ctx.now,
                old(self).spec_last_visible(),
                old(self).spec_positions(),
                final(self).spec_positions(),
                quota as int,
                r,
            ),
            (forall|m: u64|
                !(#[trigger] spec_match_at(client, old(self).spec_filter(), ctx.now, m)))
                ==> final(self).spec_positions() == old(self).spec_positions() && r,
    {
        let ghost f = old(self).spec_filter();
        let last = if self.positions.len() > 0 {
            self.positions[self.positions.len() - 1]
        } else {
            self.start
        };
        proof {
            assert(last == old(self).spec_last_visible());
        }
        if last == u64::MAX {
            proof {
                let old_ps = old(self).spec_positions();
                assert((old_ps + Seq::<u64>::empty()).subrange(0, old_ps.len() as int)
                    =~= old_ps);
                assert(spec_forward_walk(
                    client,
                    old(self).spec_filter(),
                    ctx.now,
                    old(self).spec_last_visible(),
                    old(self).spec_positions(),
                    self.positions@,
                    quota as int,
                    true,
                    Seq::<u64>::empty(),
                    0,
                    (u64::MAX as int) + 1,
                ));
                assert(spec_scrolled_forward(
                    client,
                    old(self).spec_filter(),
                    ctx.now,
                    old(self).spec_last_visible(),
                    old(self).spec_positions(),
                    self.positions@,
                    quota as int,
                    true,
                ));
            }
            return true;
        }
        let found = collect_matches(client, ctx, &self.filter, last + 1, u64::MAX, quota);
        let ghost old_positions = self.positions@;
        let ghost mut d: int = 0;
        let mut j: usize = 0;
        while j < found.len()
            invariant
                client.wf(),
                j <= found@.len(),
                self.filter == old(self).filter,
                self.len == old(self).len,
                self.start == old(self).start,
                forall|k: int|
                    0 <= k < found@.len() ==> spec_match_at(
                        client,
                        self.filter,
                        ctx.now,
                        #[trigger] found@[k],
                    ),
                0 <= d <= old_positions.len() + j,
                d <= j,
                self.positions@ =~= (old_positions + found@.subrange(0, j as int)).subrange(
                    d,
                    old_positions.len() + j,
                ),
            decreases found@.len() - j,
        {
            let ghost all_j = old_positions + found@.subrange(0, j as int);
            if self.positions.len() >= self.len && self.positions.len() > 0 {
                self.positions.remove(0);
                proof {
                    d = d + 1;
                    assert(self.positions@ =~= all_j.subrange(d, old_positions.len() + j));
                }
            }
            self.positions.push(found[j]);
            proof {
                assert(found@.subrange(0, j + 1) =~= found@.subrange(0, j as int).push(
                    found@[j as int],
                ));
                assert((old_positions + found@.subrange(0, j + 1)) =~= all_j.push(
                    found@[j as int],
                ));
                assert(self.positions@ =~= (old_positions + found@.subrange(0, j + 1)).subrange(
                    d,
                    old_positions.len() + j + 1,
                ));
            }
            j = j + 1;
        }
        let hit_end = found.len() < quota;
        proof {
            let a = last + 1;
            let w0 = choose|w: int|
                #![trigger client.spec_get(w as u64)]
                a <= w && (forall|m: u64| a <= m < w ==> #[trigger] client.spec_get(m) is Some)
                    && (forall|m: u64|
                    a <= m < w && #[trigger] spec_match_at(client, f, ctx.now, m)
                        ==> found@.contains(m)) && (found@.len() == quota
                    || client.spec_window_end(a as u64, u64::MAX) == w || client.spec_get(w as u64)
                    is None || w > u64::MAX);
            assert(found@.subrange(0, found@.len() as int) =~= found@);
            assert(self.positions@ == (old_positions + found@).subrange(
                d,
                old_positions.len() as int + found@.len() as int,
            ));
            assert(old_positions == old(self).spec_positions());
            assert(spec_forward_walk(
                client,
                old(self).spec_filter(),
                ctx.now,
                old(self).spec_last_visible(),
                old(self).spec_positions(),
                self.positions@,
                quota as int,
                hit_end,
                found@,
                d,
                w0,
            ));
            assert(spec_scrolled_forward(
                client,
                old(self).spec_filter(),
                ctx.now,
                old(self).spec_last_visible(),
                old(self).spec_positions(),
                self.positions@,
                quota as int,
                hit_end,
            ));
            if forall|m: u64| !(#[trigger] spec_match_at(client, f, ctx.now, m)) {
                if found@.len() > 0 {
                    assert(spec_match_at(client, f, ctx.now, found@[0]));
                    assert(false);
                }
                assert(found@.subrange(0, 0) =~= Seq::<u64>::empty());
                assert(self.positions@ =~= old_positions);
            }
        }
        hit_end
    }

    /// Moves the window by matches.  Forward motion walks matches past the
    /// last visible one and reports reaching the end; backward motion walks
    /// matches in the hundred thousand rows below `start`, clamping at zero.
    pub fn scroll_by(&mut self, client: &mut Client, ctx: &FilterCtx, by: i64) -> (r: (
        bool,
        Option<ClientMessage>,
    ))
        requires
            old(client).wf(),
            by > i64::MIN,
        ensures
            final(client).wf(),
            final(self).spec_filter() == old(self).spec_filter(),
            final(self).spec_len() == old(self).spec_len(),
            by > 0 ==> *final(client) == *old(client),
            by > 0 ==> spec_scrolled_forward(
                old(client),
                old(self).spec_filter(),
                ctx.now,
                old(self).spec_last_visible(),
                old(self).spec_positions(),
                final(self).spec_positions(),
                spec_quota(by),
                r.0,
            ),
            by > 0 ==> final(self).spec_start() == (if final(self).spec_positions().len() > 0 {
                final(self).spec_positions()[0]
            } else {
                old(self).spec_start()
            }),
            by > 0 ==> ((forall|m: u64|
                !(#[trigger] spec_match_at(
                    old(client),
                    old(self).spec_filter(),
                    ctx.now,
                    m,
                ))) ==> final(self).spec_positions() == old(self).spec_positions() && r.0),
            by < 0 ==> r.0 == (final(self).spec_start() == 0) && ((forall|m: u64|
                !(#[trigger] spec_match_at(
                    old(client),
                    old(self).spec_filter(),
                    ctx.now,
                    m,
                ))) ==> final(self).spec_start() == 0 && r.0),
    {
        if by > 0 {
            let quota: usize = if (by as u64) <= (usize::MAX as u64) {
                by as usize
            } else {
                usize::MAX
            };
            let hit_end = self.scroll_forward(client, ctx, quota);
            proof {
                assert(quota as int == spec_quota(by));
            }
            if self.positions.len() > 0 {
                self.start = self.positions[0];
            }
            (hit_end, None)
        } else {
            let base = sub_sat_exec(self.start, 100_000);
            let found = collect_matches(client, ctx, &self.filter, base, self.start, usize::MAX);
            let need = (-by) as usize;
            if found.len() >= need && need > 0 {
                self.start = found[found.len() - need];
            } else {
                self.start = 0;
            }
            let msg = client.maybe_need_more(self.start);
            (self.start == 0, msg)
        }
    }

    /// Jumps to the last window of matches: walks every remaining match past
    /// the last visible position, and when the window is still short of
    /// `len`, back-fills it with the newest matches below; `start` moves to
    /// the first visible position.
    #[verifier::rlimit(100)]
    #[verifier::spinoff_prover]
    pub fn scroll_to_end(&mut self, client: &mut Client, ctx: &FilterCtx)
        requires
            old(client).wf(),
        ensures
            final(client).wf(),
            *final(client) == *old(client),
            final(self).spec_filter() == old(self).spec_filter(),
            final(self).spec_len() == old(self).spec_len(),
            spec_jumped_to_end(
                old(client),
                old(self).spec_filter(),
                ctx.now,
                old(self).spec_last_visible(),
                old(self).spec_positions(),
                final(self).spec_positions(),
                old(self).spec_len() as int,
                old(self).spec_start(),
            ),
            final(self).spec_start() == (if final(self).spec_positions().len() > 0 {
                final(self).spec_positions()[0]
            } else {
                old(self).spec_start()
            }),
            (forall|m: u64|
                !(#[trigger] spec_match_at(old(client), old(self).spec_filter(), ctx.now, m)))
                ==> final(self).spec_positions() == old(self).spec_positions(),
    {
        let ghost f = old(self).spec_filter();
        let hit = self.scroll_forward(client, ctx, usize::MAX);
        let ghost mid = self.positions@;
        if self.positions.len() < self.len {
            let low = if self.positions.len() > 0 {
                self.positions[0]
            } else {
                self.start
            };
            let need = self.len - self.positions.len();
            let found2 = collect_matches(client, ctx, &self.filter, 0, low, usize::MAX);
            let t = if need <= found2.len() {
                need
            } else {
                found2.len()
            };
            let mut out: Vec<u64> = Vec::new();
            let mut i: usize = found2.len() - t;
            while i < found2.len()
                invariant
                    found2@.len() - t <= i <= found2@.len(),
                    t <= found2@.len(),
                    out@ =~= found2@.subrange((found2@.len() - t) as int, i as int),
                decreases found2@.len() - i,
            {
                let ghost before = out@;
                out.push(found2[i]);
                proof {
                    assert(out@ =~= found2@.subrange((found2@.len() - t) as int, i + 1));
                }
                i = i + 1;
            }
            let ghost pre = out@;
            let mut j: usize = 0;
            while j < self.positions.len()
                invariant
                    j <= self.positions@.len(),
                    self.positions@ == mid,
                    out@ =~= pre + mid.subrange(0, j as int),
                decreases self.positions@.len() - j,
            {
                out.push(self.positions[j]);
                proof {
                    assert(mid.subrange(0, j + 1) =~= mid.subrange(0, j as int).push(
                        mid[j as int],
                    ));
                    assert(out@ =~= pre + mid.subrange(0, j + 1));
                }
                j = j + 1;
            }
            self.positions = out;
            proof {
                let w2 = choose|w: int|
                    #![trigger client.spec_get(w as u64)]
                    0 <= w && (forall|m: u64|
                        0 <= m < w ==> #[trigger] client.spec_get(m) is Some) && (forall|m: u64|
                        0 <= m < w && #[trigger] spec_match_at(client, f, ctx.now, m)
                            ==> found2@.contains(m)) && (found2@.len() == usize::MAX
                        || client.spec_window_end(0, low) == w || client.spec_get(w as u64)
                        is None || w > u64::MAX);
                assert(pre == found2@.subrange(
                    found2@.len() - (if need as int <= found2@.len() {
                        need as int
                    } else {
                        found2@.len() as int
                    }),
                    found2@.len() as int,
                ));
                // materialize the witness pair so the existential can be drawn
                let probe = found2@.subrange(0, w2);
                assert(spec_backfilled(client, f, ctx.now, low, need as int, pre));
                assert(mid.subrange(0, mid.len() as int) =~= mid);
                assert(self.positions@ == pre + mid);
                assert(low == (if mid.len() > 0 {
                    mid[0]
                } else {
                    old(self).spec_start()
                }));
                assert(spec_jumped_to_end(
                    client,
                    old(self).spec_filter(),
                    ctx.now,
                    old(self).spec_last_visible(),
                    old(self).spec_positions(),
                    self.positions@,
                    old(self).spec_len() as int,
                    old(self).spec_start(),
                ));
                if forall|m: u64| !(#[trigger] spec_match_at(client, f, ctx.now, m)) {
                    if found2@.len() > 0 {
                        assert(spec_match_at(client, f, ctx.now, found2@[0]));
                        assert(false);
                    }
                    assert(pre =~= Seq::<u64>::empty());
                    assert(self.positions@ =~= mid);
                }
            }
        } else {
            proof {
                assert(Seq::<u64>::empty().len() == 0);
                assert(spec_jumped_to_end(
                    client,
                    old(self).spec_filter(),
                    ctx.now,
                    old(self).spec_last_visible(),
                    old(self).spec_positions(),
                    self.positions@,
                    old(self).spec_len() as int,
                    old(self).spec_start(),
                ));
            }
        }
        if self.positions.len() > 0 {
            self.start = self.positions[0];
        }
    }
}

} // verus!