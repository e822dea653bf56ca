//! The per-client streaming engine: a state machine from events (a growth
//! notification, the outcome of a transfer) to the next thing to do.
use vstd::prelude::*;

use crate::index::{resolve_index_with, resolved, resolved_with, spec_parse, Error, Index};

verus! {

/// The most bytes handed to one transfer before the session yields to others.
pub const CHUNK_SIZE: u64 = 1048576;

/// What a streaming session does next, given its cursor and the file length.
#[derive(Debug, Clone, Copy, PartialEq, Eq, Structural)]
pub enum Step {
    /// Caught up: nothing to send until the file grows.
    AwaitGrowth,
    /// Send `count` bytes starting at `offset`.
    Transfer { offset: u64, count: u64 },
}

pub open spec fn plan(cursor: u64, file_len: u64) -> Step {
    if file_len <= cursor {
        Step::AwaitGrowth
    } else if file_len - cursor < CHUNK_SIZE {
        Step::Transfer { offset: cursor, count: (file_len - cursor) as u64 }
    } else {
        Step::Transfer { offset: cursor, count: CHUNK_SIZE }
    }
}

/// The next step for a session whose next unsent byte is `cursor`.
pub fn plan_transfer(cursor: u64, file_len: u64) -> (r: Step)
    ensures
        r == plan(cursor, file_len),
        r matches Step::Transfer { offset, count } ==> offset == cursor && 0 < count <= CHUNK_SIZE
            && cursor + count <= file_len,
{
    if file_len <= cursor {
        Step::AwaitGrowth
    } else if file_len - cursor < CHUNK_SIZE {
        Step::Transfer { offset: cursor, count: file_len - cursor }
    } else {
        Step::Transfer { offset: cursor, count: CHUNK_SIZE }
    }
}

} // verus!

verus! {

/// How a session ended.
#[derive(Debug, Clone, Copy, PartialEq, Eq, Structural)]
pub enum Ending {
    /// The feed ended: the watched file is gone.
    Finished,
    /// The client hung up.
    Departed,
    /// The header was malformed or named a position that does not exist.
    Rejected(Error),
    /// A transfer failed for another reason.
    Failed,
}

/// Where a session stands.
#[derive(Debug, Clone, Copy, PartialEq, Eq, Structural)]
pub enum Phase {
    /// The index names a position past the file's content. `fresh` is true
    /// while the last attempt to resolve it saw the current content.
    Pending { idx: Index, fresh: bool },
    /// Sending; `cursor` is the next unsent byte.
    Streaming { cursor: u64 },
    Closed { ending: Ending },
}

/// What the session asks its driver to do next.
#[derive(Debug, Clone, Copy, PartialEq, Eq, Structural)]
pub enum Action {
    /// Read the file's content again and hand it to `retry_resolve`.
    Resolve,
    /// Suspend until a growth notification arrives.
    AwaitGrowth,
    /// Send `count` bytes of the file from `offset`, once the socket is writable.
    Transfer { offset: u64, count: u64 },
    /// The session is over.
    Stop,
}

/// What came of a transfer.
#[derive(Debug, Clone, Copy, PartialEq, Eq, Structural)]
pub enum TransferOutcome {
    /// This many bytes went out.
    Sent(u64),
    /// The socket was not writable; nothing went out.
    WouldBlock,
    /// The peer closed or reset the connection.
    PeerClosed,
    /// Any other failure.
    Failed,
}

/// What the growth notification source reported.
#[derive(Debug, Clone, Copy, PartialEq, Eq, Structural)]
pub enum Notice {
    /// The file length may have changed.
    Changed,
    /// The producer is gone: the file was deleted or moved.
    ProducerGone,
}

/// A client's session, owned by the task that serves it.
#[derive(Debug, Clone, Copy, PartialEq, Eq, Structural)]
pub struct ClientSession {
    pub phase: Phase,
    /// Whether the file's lines carry sequence-number prefixes.
    pub prefixed: bool,
}

/// The phase that the resolution `r` of `idx` leads to.
pub open spec fn settle(idx: Index, r: Result<Option<u64>, Error>) -> Phase {
    match r {
        Ok(Some(p)) => Phase::Streaming { cursor: p },
        Ok(None) => Phase::Pending { idx, fresh: true },
        Err(e) => Phase::Closed { ending: Ending::Rejected(e) },
    }
}

pub open spec fn action_for(phase: Phase, file_len: u64) -> Action {
    match phase {
        Phase::Pending { fresh, .. } => if fresh {
            Action::AwaitGrowth
        } else {
            Action::Resolve
        },
        Phase::Streaming { cursor } => match plan(cursor, file_len) {
            Step::AwaitGrowth => Action::AwaitGrowth,
            Step::Transfer { offset, count } => Action::Transfer { offset, count },
        },
        Phase::Closed { .. } => Action::Stop,
    }
}

pub open spec fn after_notice(phase: Phase, n: Notice) -> Phase {
    match phase {
        Phase::Closed { .. } => phase,
        _ => match n {
            Notice::ProducerGone => Phase::Closed { ending: Ending::Finished },
            Notice::Changed => match phase {
                Phase::Pending { idx, .. } => Phase::Pending { idx, fresh: false },
                _ => phase,
            },
        },
    }
}

/// A transfer outcome that the session can take: what was sent fits in what
/// was asked for.
pub open spec fn fits(phase: Phase, file_len: u64, t: TransferOutcome) -> bool {
    t matches TransferOutcome::Sent(n) ==> (phase matches Phase::Streaming { cursor } && plan(
        cursor,
        file_len,
    ) matches Step::Transfer { count, .. } && n <= count)
}

pub open spec fn after_transfer(phase: Phase, t: TransferOutcome) -> Phase {
    match phase {
        Phase::Streaming { cursor } => match t {
            TransferOutcome::Sent(n) => Phase::Streaming { cursor: (cursor + n) as u64 },
            TransferOutcome::WouldBlock => phase,
            TransferOutcome::PeerClosed => Phase::Closed { ending: Ending::Departed },
            TransferOutcome::Failed => Phase::Closed { ending: Ending::Failed },
        },
        _ => phase,
    }
}

fn settle_resolution(idx: Index, r: Result<Option<u64>, Error>) -> (p: Phase)
    ensures
        p == settle(idx, r),
{
    match r {
        Ok(Some(p)) => Phase::Streaming { cursor: p },
        Ok(None) => Phase::Pending { idx, fresh: true },
        Err(e) => Phase::Closed { ending: Ending::Rejected(e) },
    }
}

impl ClientSession {
    /// Starts a session from the client's header and the file's current content.
    pub fn open(header: &[u8], content: &[u8], prefixed: bool) -> (s: ClientSession)
        ensures
            s.prefixed == prefixed,
            spec_parse(header@) matches Err(e) ==> s.phase == (Phase::Closed {
                ending: Ending::Rejected(e),
            }),
            spec_parse(header@) matches Ok(idx) ==> exists|r: Result<Option<u64>, Error>|
                resolved_with(content@, idx, prefixed, r) && s.phase == settle(idx, r),
    {
        match Index::parse(header) {
            Err(e) => ClientSession { phase: Phase::Closed { ending: Ending::Rejected(e) }, prefixed },
            Ok(idx) => {
                let r = resolve_index_with(content, idx, prefixed);
                ClientSession { phase: settle_resolution(idx, r), prefixed }
            },
        }
    }

    /// What to do next while the file is `file_len` bytes long.
    pub fn next_action(&self, file_len: u64) -> (a: Action)
        ensures
            a == action_for(self.phase, file_len),
            a matches Action::Transfer { offset, count } ==> 0 < count <= CHUNK_SIZE
                && offset + count <= file_len,
    {
        match self.phase {
            Phase::Pending { fresh, .. } => if fresh {
                Action::AwaitGrowth
            } else {
                Action::Resolve
            },
            Phase::Streaming { cursor } => match plan_transfer(cursor, file_len) {
                Step::AwaitGrowth => Action::AwaitGrowth,
                Step::Transfer { offset, count } => Action::Transfer { offset, count },
            },
            Phase::Closed { .. } => Action::Stop,
        }
    }

    /// Tries again to resolve a pending index against the file's content.
    pub fn retry_resolve(&mut self, content: &[u8])
        ensures
            final(self).prefixed == old(self).prefixed,
            old(self).phase matches Phase::Pending { idx, .. } ==> exists|
                r: Result<Option<u64>, Error>,
            | resolved_with(content@, idx, old(self).prefixed, r) && final(self).phase == settle(
                idx,
                r,
            ),
            !(old(self).phase is Pending) ==> *final(self) == *old(self),
    {
        if let Phase::Pending { idx, .. } = self.phase {
            let r = resolve_index_with(content, idx, self.prefixed);
            self.phase = settle_resolution(idx, r);
        }
    }

    /// Takes a report of the growth notification source.
    pub fn on_notice(&mut self, n: Notice)
        ensures
            final(self).phase == after_notice(old(self).phase, n),
            final(self).prefixed == old(self).prefixed,
    {
        match self.phase {
            Phase::Closed { .. } => {},
            Phase::Pending { idx, .. } => {
                self.phase = match n {
                    Notice::ProducerGone => Phase::Closed { ending: Ending::Finished },
                    Notice::Changed => Phase::Pending { idx, fresh: false },
                };
            },
            Phase::Streaming { .. } => {
                if let Notice::ProducerGone = n {
                    self.phase = Phase::Closed { ending: Ending::Finished };
                }
            },
        }
    }

    /// Takes the outcome of the transfer that `next_action(file_len)` asked for.
    pub fn on_transfer(&mut self, file_len: u64, t: TransferOutcome)
        requires
            fits(old(self).phase, file_len, t),
        ensures
            final(self).phase == after_transfer(old(self).phase, t),
            final(self).prefixed == old(self).prefixed,
    {
        if let Phase::Streaming { cursor } = self.phase {
            self.phase = match t {
                TransferOutcome::Sent(n) => Phase::Streaming { cursor: cursor + n },
                TransferOutcome::WouldBlock => Phase::Streaming { cursor },
                TransferOutcome::PeerClosed => Phase::Closed { ending: Ending::Departed },
                TransferOutcome::Failed => Phase::Closed { ending: Ending::Failed },
            };
        }
    }
}

} // verus!

verus! {

/// `sents[i]` bytes went out at the `i`-th transfer, which the session
/// planned while the file was `lens[i]` bytes long, starting from `cursor`.
pub open spec fn stream_run(cursor: u64, lens: Seq<u64>, sents: Seq<u64>) -> bool
    decreases sents.len(),
{
    &&& lens.len() == sents.len()
    &&& sents.len() > 0 ==> match plan(cursor, lens[0]) {
        Step::Transfer { count, .. } => sents[0] <= count && stream_run(
            (cursor + sents[0]) as u64,
            lens.drop_first(),
            sents.drop_first(),
        ),
        Step::AwaitGrowth => false,
    }
}

/// The cursor after the transfers `sents`.
pub open spec fn end_cursor(cursor: u64, sents: Seq<u64>) -> int
    decreases sents.len(),
{
    if sents.len() == 0 {
        cursor as int
    } else {
        end_cursor((cursor + sents[0]) as u64, sents.drop_first())
    }
}

/// The bytes of `content` that the transfers `sents` put on the wire, in order.
pub open spec fn delivered(content: Seq<u8>, cursor: u64, sents: Seq<u64>) -> Seq<u8>
    decreases sents.len(),
{
    if sents.len() == 0 {
        Seq::empty()
    } else {
        content.subrange(cursor as int, cursor + sents[0]) + delivered(
            content,
            (cursor + sents[0]) as u64,
            sents.drop_first(),
        )
    }
}

pub open spec fn all_within(lens: Seq<u64>, n: int) -> bool {
    forall|i: int| 0 <= i < lens.len() ==> lens[i] <= n
}

proof fn lemma_run_contiguous(content: Seq<u8>, cursor: u64, lens: Seq<u64>, sents: Seq<u64>)
    requires
        stream_run(cursor, lens, sents),
        all_within(lens, content.len() as int),
        cursor <= content.len(),
    ensures
        cursor <= end_cursor(cursor, sents) <= content.len(),
        delivered(content, cursor, sents) == content.subrange(
            cursor as int,
            end_cursor(cursor, sents),
        ),
    decreases sents.len(),
{
    if sents.len() == 0 {
        assert(content.subrange(cursor as int, cursor as int) =~= Seq::<u8>::empty());
    } else {
        let next = (cursor + sents[0]) as u64;
        assert(lens[0] <= content.len());
        assert(all_within(lens.drop_first(), content.len() as int)) by {
            assert forall|i: int| 0 <= i < lens.drop_first().len() implies lens.drop_first()[i]
                <= content.len() by {
                assert(lens.drop_first()[i] == lens[i + 1]);
            }
        }
        lemma_run_contiguous(content, next, lens.drop_first(), sents.drop_first());
        let e = end_cursor(next, sents.drop_first());
        assert(content.subrange(cursor as int, next as int) + content.subrange(next as int, e)
            =~= content.subrange(cursor as int, e));
    }
}

/// Within one session the transfers are contiguous: whatever the file's
/// length was at each one, together they send exactly the bytes from where
/// the session started to where its cursor stands, each once and in order.
pub proof fn law_transfers_contiguous(
    content: Seq<u8>,
    start: u64,
    lens: Seq<u64>,
    sents: Seq<u64>,
)
    requires
        stream_run(start, lens, sents),
        all_within(lens, content.len() as int),
        sents.len() > 0,
    ensures
        start <= end_cursor(start, sents) <= content.len(),
        delivered(content, start, sents) == content.subrange(
            start as int,
            end_cursor(start, sents),
        ),
{
    assert(start < lens[0]);
    lemma_run_contiguous(content, start, lens, sents);
}

/// A run that stops caught up, on a file of `len` bytes, ends at `len`.
proof fn lemma_run_to_end(content: Seq<u8>, start: u64, lens: Seq<u64>, sents: Seq<u64>)
    requires
        stream_run(start, lens, sents),
        all_within(lens, content.len() as int),
        start <= content.len() <= u64::MAX,
        plan(end_cursor(start, sents) as u64, content.len() as u64) is AwaitGrowth,
    ensures
        end_cursor(start, sents) == content.len(),
        delivered(content, start, sents) == content.subrange(start as int, content.len() as int),
{
    lemma_run_contiguous(content, start, lens, sents);
}

/// A client that connects with `start` to a file that does not grow, and
/// streams until it is caught up, receives exactly the file's content.
pub proof fn law_round_trip(
    content: Seq<u8>,
    r: Result<Option<u64>, Error>,
    lens: Seq<u64>,
    sents: Seq<u64>,
)
    requires
        content.len() <= u64::MAX,
        resolved(content, Index::Start, r),
        stream_run(0, lens, sents),
        all_within(lens, content.len() as int),
        plan(end_cursor(0, sents) as u64, content.len() as u64) is AwaitGrowth,
    ensures
        r == Ok::<Option<u64>, Error>(Some(0)),
        delivered(content, 0, sents) == content,
{
    lemma_run_to_end(content, 0, lens, sents);
    assert(content.subrange(0, content.len() as int) =~= content);
}

/// A caught-up session that is woken by growth sends the new bytes next,
/// from where it stood, in a chunk of at most `CHUNK_SIZE` bytes.
pub proof fn law_growth_propagation(cursor: u64, len: u64, new_len: u64)
    requires
        action_for(Phase::Streaming { cursor }, len) is AwaitGrowth,
        new_len > cursor,
    ensures
        after_notice(Phase::Streaming { cursor }, Notice::Changed) == (Phase::Streaming {
            cursor,
        }),
        action_for(Phase::Streaming { cursor }, new_len) == (Action::Transfer {
            offset: cursor,
            count: if new_len - cursor < CHUNK_SIZE {
                (new_len - cursor) as u64
            } else {
                CHUNK_SIZE
            },
        }),
{
}

/// Two clients that connect with `start` and with `end` to a file of
/// `old` content get disjoint initial content (all of it, and nothing), and
/// after the file grows to `new`, each one streamed until caught up has
/// received all of the growth.
pub proof fn law_isolation(
    old: Seq<u8>,
    new: Seq<u8>,
    ra: Result<Option<u64>, Error>,
    rb: Result<Option<u64>, Error>,
    lens_a: Seq<u64>,
    sents_a: Seq<u64>,
    lens_a2: Seq<u64>,
    sents_a2: Seq<u64>,
    lens_b: Seq<u64>,
    sents_b: Seq<u64>,
)
    requires
        new.len() <= u64::MAX,
        old.len() <= new.len(),
        new.subrange(0, old.len() as int) == old,
        resolved(old, Index::Start, ra),
        resolved(old, Index::End, rb),
        stream_run(0, lens_a, sents_a),
        all_within(lens_a, old.len() as int),
        plan(end_cursor(0, sents_a) as u64, old.len() as u64) is AwaitGrowth,
        stream_run(end_cursor(0, sents_a) as u64, lens_a2, sents_a2),
        all_within(lens_a2, new.len() as int),
        plan(end_cursor(end_cursor(0, sents_a) as u64, sents_a2) as u64, new.len() as u64) is AwaitGrowth,
        stream_run(old.len() as u64, lens_b, sents_b),
        all_within(lens_b, new.len() as int),
        plan(end_cursor(old.len() as u64, sents_b) as u64, new.len() as u64) is AwaitGrowth,
    ensures
        ra == Ok::<Option<u64>, Error>(Some(0)),
        rb == Ok::<Option<u64>, Error>(Some(old.len() as u64)),
        delivered(old, 0, sents_a) == old,
        action_for(Phase::Streaming { cursor: old.len() as u64 }, old.len() as u64) is AwaitGrowth,
        delivered(new, end_cursor(0, sents_a) as u64, sents_a2) == new.subrange(
            old.len() as int,
            new.len() as int,
        ),
        delivered(new, old.len() as u64, sents_b) == new.subrange(
            old.len() as int,
            new.len() as int,
        ),
{
    lemma_run_to_end(old, 0, lens_a, sents_a);
    assert(old.subrange(0, old.len() as int) =~= old);
    lemma_run_to_end(new, end_cursor(0, sents_a) as u64, lens_a2, sents_a2);
    lemma_run_to_end(new, old.len() as u64, lens_b, sents_b);
}

/// When the producer is gone every session that was still open ends
/// cleanly and asks for nothing more, whatever the file length.
pub proof fn law_shutdown_ends_session(phase: Phase, file_len: u64)
    requires
        !(phase is Closed),
    ensures
        after_notice(phase, Notice::ProducerGone) == (Phase::Closed { ending: Ending::Finished }),
        action_for(after_notice(phase, Notice::ProducerGone), file_len) == Action::Stop,
{
}

/// No transfer that a session asks for exceeds `CHUNK_SIZE` bytes.
pub proof fn law_chunk_bound(phase: Phase, file_len: u64)
    ensures
        action_for(phase, file_len) matches Action::Transfer { count, .. } ==> count
            <= CHUNK_SIZE,
{
}

} // verus!
