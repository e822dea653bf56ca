use tailfeed::index::Error;
use tailfeed::session::{
    plan_transfer, Action, ClientSession, Ending, Notice, Phase, Step, TransferOutcome,
    CHUNK_SIZE,
};
use tailfeed::watch::{watch_action, FsEvent, WatchAction};

/// Drives a session over `content` until it asks for something other than a
/// transfer, sending at most `per_call` bytes per transfer.
fn drain(s: &mut ClientSession, content: &[u8], per_call: u64, out: &mut Vec<u8>) -> Action {
    let len = content.len() as u64;
    loop {
        match s.next_action(len) {
            Action::Transfer { offset, count } => {
                assert!(count <= CHUNK_SIZE);
                let n = count.min(per_call);
                out.extend_from_slice(&content[offset as usize..(offset + n) as usize]);
                s.on_transfer(len, TransferOutcome::Sent(n));
            }
            other => return other,
        }
    }
}

#[test]
fn round_trip_from_start() {
    let content: Vec<u8> = (0..5000u32).map(|i| (i % 251) as u8).collect();
    let mut s = ClientSession::open(b"start\n", &content, false);
    let mut out = Vec::new();
    assert_eq!(drain(&mut s, &content, 777, &mut out), Action::AwaitGrowth);
    assert_eq!(out, content);
    assert_eq!(s.phase, Phase::Streaming { cursor: 5000 });
}

#[test]
fn transfers_are_contiguous() {
    let mut s = ClientSession::open(b"byte 3", b"0123456789", false);
    assert_eq!(s.next_action(10), Action::Transfer { offset: 3, count: 7 });
    s.on_transfer(10, TransferOutcome::Sent(2));
    assert_eq!(s.next_action(10), Action::Transfer { offset: 5, count: 5 });
    s.on_transfer(10, TransferOutcome::WouldBlock);
    assert_eq!(s.next_action(10), Action::Transfer { offset: 5, count: 5 });
    s.on_transfer(10, TransferOutcome::Sent(5));
    assert_eq!(s.next_action(10), Action::AwaitGrowth);
}

#[test]
fn negative_offset_session() {
    let content = vec![b'z'; 100];
    let s = ClientSession::open(b"byte -10", &content, false);
    assert_eq!(s.next_action(100), Action::Transfer { offset: 90, count: 10 });
    let r = ClientSession::open(b"byte -200", &content, false);
    assert_eq!(r.phase, Phase::Closed { ending: Ending::Rejected(Error::RangeError) });
    assert_eq!(r.next_action(100), Action::Stop);
}

#[test]
fn growth_reaches_idle_client() {
    let mut s = ClientSession::open(b"end", b"abc", false);
    assert_eq!(s.next_action(3), Action::AwaitGrowth);
    s.on_notice(Notice::Changed);
    assert_eq!(s.phase, Phase::Streaming { cursor: 3 });
    assert_eq!(s.next_action(8), Action::Transfer { offset: 3, count: 5 });
}

#[test]
fn two_clients_start_and_end() {
    let old = b"first\n".to_vec();
    let mut a = ClientSession::open(b"start", &old, false);
    let mut b = ClientSession::open(b"end", &old, false);
    let (mut out_a, mut out_b) = (Vec::new(), Vec::new());
    drain(&mut a, &old, 4, &mut out_a);
    drain(&mut b, &old, 4, &mut out_b);
    assert_eq!(out_a, old);
    assert!(out_b.is_empty());
    let mut new = old.clone();
    new.extend_from_slice(b"second\n");
    a.on_notice(Notice::Changed);
    b.on_notice(Notice::Changed);
    let (mut grow_a, mut grow_b) = (Vec::new(), Vec::new());
    drain(&mut a, &new, 3, &mut grow_a);
    drain(&mut b, &new, 100, &mut grow_b);
    assert_eq!(grow_a, b"second\n".to_vec());
    assert_eq!(grow_b, b"second\n".to_vec());
}

#[test]
fn deletion_ends_sessions() {
    let mut a = ClientSession::open(b"start", b"abc", false);
    let mut b = ClientSession::open(b"line 9", b"abc", false);
    a.on_notice(Notice::ProducerGone);
    b.on_notice(Notice::ProducerGone);
    assert_eq!(a.phase, Phase::Closed { ending: Ending::Finished });
    assert_eq!(b.phase, Phase::Closed { ending: Ending::Finished });
    assert_eq!(a.next_action(3), Action::Stop);
    assert_eq!(b.next_action(3), Action::Stop);
    assert_eq!(watch_action(FsEvent::DeletedSelf), WatchAction::Shutdown);
    assert_eq!(watch_action(FsEvent::MovedSelf), WatchAction::Shutdown);
    assert_eq!(watch_action(FsEvent::Modified), WatchAction::Publish);
    assert_eq!(watch_action(FsEvent::Other), WatchAction::Ignore);
}

#[test]
fn chunk_bound() {
    let big = 3 * CHUNK_SIZE + 5;
    assert_eq!(CHUNK_SIZE, 1024 * 1024);
    assert_eq!(plan_transfer(0, big), Step::Transfer { offset: 0, count: CHUNK_SIZE });
    assert_eq!(plan_transfer(3 * CHUNK_SIZE, big), Step::Transfer { offset: 3 * CHUNK_SIZE, count: 5 });
    assert_eq!(plan_transfer(big, big), Step::AwaitGrowth);
    assert_eq!(plan_transfer(big + 1, big), Step::AwaitGrowth);
}

#[test]
fn pending_line_resolves_after_growth() {
    let mut s = ClientSession::open(b"line 2", b"one\n", false);
    assert!(matches!(s.phase, Phase::Pending { fresh: true, .. }));
    assert_eq!(s.next_action(4), Action::AwaitGrowth);
    s.on_notice(Notice::Changed);
    assert_eq!(s.next_action(6), Action::Resolve);
    s.retry_resolve(b"one\ntw");
    assert_eq!(s.next_action(6), Action::AwaitGrowth);
    s.on_notice(Notice::Changed);
    s.retry_resolve(b"one\ntwo\nthree");
    assert_eq!(s.phase, Phase::Streaming { cursor: 8 });
    assert_eq!(s.next_action(13), Action::Transfer { offset: 8, count: 5 });
}

#[test]
fn transport_outcomes() {
    let mut a = ClientSession::open(b"", b"abc", false);
    a.on_transfer(3, TransferOutcome::PeerClosed);
    assert_eq!(a.phase, Phase::Closed { ending: Ending::Departed });
    let mut b = ClientSession::open(b"", b"abc", false);
    b.on_transfer(3, TransferOutcome::Failed);
    assert_eq!(b.phase, Phase::Closed { ending: Ending::Failed });
    assert_eq!(b.next_action(3), Action::Stop);
}

#[test]
fn malformed_header_is_rejected() {
    let s = ClientSession::open(b"rewind 4", b"abc", false);
    assert_eq!(s.phase, Phase::Closed { ending: Ending::Rejected(Error::UnknownIndex) });
    let t = ClientSession::open(b"seqnum 1", b"abc", false);
    assert_eq!(t.phase, Phase::Closed { ending: Ending::Rejected(Error::PrefixedNotEnabled) });
}

#[test]
fn seqnum_session_when_prefixed() {
    let content = b"7 seven\n8 eight\n9 nine\n".to_vec();
    let s = ClientSession::open(b"seqnum 8", &content, true);
    assert_eq!(s.phase, Phase::Streaming { cursor: 8 });
    let t = ClientSession::open(b"seqnum 3", &content, true);
    assert_eq!(t.phase, Phase::Closed { ending: Ending::Rejected(Error::RangeError) });
    let u = ClientSession::open(b"seqnum 12", &content, true);
    assert!(matches!(u.phase, Phase::Pending { fresh: true, .. }));
}
