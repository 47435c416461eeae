use aggregation::communicator::{
    advance, after_accept, before_accept, classify, is_signal, AcceptAction, AcceptOutcome, Inbox, MessageKind,
    ServerEvent, ServerPhase, POLL_INTERVAL_MS,
};

#[test]
fn the_first_six_bytes_tell_a_signal() {
    assert!(is_signal(b"signal"));
    assert!(is_signal(b"signal and more"));
    assert!(!is_signal(b"signa"));
    assert!(!is_signal(b"Signal"));
    assert!(!is_signal(b"commit"));
    assert!(!is_signal(b""));
}

#[test]
fn messages_are_told_apart_by_their_first_bytes() {
    assert_eq!(classify(b"signal"), MessageKind::Signal);
    assert_eq!(classify(b"signals"), MessageKind::Signal);
    assert_eq!(classify(b"committee"), MessageKind::Committee);
    assert_eq!(classify(b"committee\x01\x00rest"), MessageKind::Committee);
    // whatever is neither is a client's
    assert_eq!(classify(b"committe"), MessageKind::Client);
    assert_eq!(classify(b"commit"), MessageKind::Client);
    assert_eq!(classify(b""), MessageKind::Client);
    assert_eq!(classify(&[0u8; 100]), MessageKind::Client);
}

fn committee_message(tag: u8) -> Vec<u8> {
    let mut message = b"committee".to_vec();
    message.push(tag);
    message
}

#[test]
fn messages_go_to_their_queues() {
    let mut inbox = Inbox::new();
    assert!(inbox.receive(b"client one".to_vec()).is_none());
    assert!(inbox.receive(committee_message(1)).is_none());
    assert!(inbox.receive(b"signal".to_vec()).is_none());
    assert!(inbox.receive(b"client two".to_vec()).is_none());
    assert_eq!(inbox.client_messages(), &vec![b"client one".to_vec(), b"client two".to_vec()]);
    assert_eq!(inbox.committee_messages(), &vec![committee_message(1)]);
}

#[test]
// the committee is completed once, with the message that fills the queue,
// and not again by the messages that come after
fn the_committee_is_completed_exactly_once() {
    let m = 9;
    let mut inbox = Inbox::new();
    inbox.set_expected_committee_size(m);
    let mut completions = Vec::new();
    let order = [3u8, 0, 8, 1, 7, 2, 6, 4, 5];
    for (arrived, &index) in order.iter().enumerate() {
        // clients and signals between the committee's messages change nothing
        assert!(inbox.receive(b"a client".to_vec()).is_none());
        assert!(inbox.receive(b"signal".to_vec()).is_none());
        if let Some(batch) = inbox.receive(committee_message(index)) {
            assert_eq!(arrived, m - 1);
            completions.push(batch);
        }
    }
    assert_eq!(completions.len(), 1);
    let expected: Vec<Vec<u8>> = order.iter().map(|&i| committee_message(i)).collect();
    assert_eq!(completions[0], expected);
    assert!(inbox.committee_messages().is_empty());
    // spurious messages after the committee was complete
    for index in 0..(3 * m as u8) {
        assert!(inbox.receive(committee_message(index)).is_none());
    }
    assert_eq!(inbox.committee_messages().len(), 3 * m);
    assert_eq!(inbox.client_messages().len(), m);
}

#[test]
fn an_inbox_that_waits_for_nothing_completes_nothing() {
    let mut inbox = Inbox::new();
    for index in 0..5 {
        assert!(inbox.receive(committee_message(index)).is_none());
    }
    // a fresh size arms the inbox again; the queue is as long as the size
    // with the next message only when it was shorter before
    inbox.set_expected_committee_size(6);
    assert_eq!(inbox.receive(committee_message(5)).map(|batch| batch.len()), Some(6));
    inbox.set_expected_committee_size(1);
    assert_eq!(inbox.receive(committee_message(6)), Some(vec![committee_message(6)]));
    assert!(inbox.receive(committee_message(7)).is_none());
}

#[test]
fn the_accept_loop_stops_on_shutdown_and_sleeps_when_nothing_waits() {
    assert_eq!(POLL_INTERVAL_MS, 50);
    assert_eq!(before_accept(true), Some(AcceptAction::Stop));
    assert_eq!(before_accept(false), None);
    assert_eq!(after_accept(AcceptOutcome::Connected), AcceptAction::Spawn);
    assert_eq!(after_accept(AcceptOutcome::WouldBlock), AcceptAction::Sleep(50));
    assert_eq!(after_accept(AcceptOutcome::Failed), AcceptAction::Report);
}

#[test]
fn a_run_goes_through_its_phases() {
    let mut phase = ServerPhase::Init;
    let events = [
        (ServerEvent::Message(MessageKind::Client), ServerPhase::Init),
        (ServerEvent::Listening, ServerPhase::Ready),
        (ServerEvent::Message(MessageKind::Client), ServerPhase::Collecting),
        (ServerEvent::Message(MessageKind::Client), ServerPhase::Collecting),
        (ServerEvent::Message(MessageKind::Signal), ServerPhase::Distributing),
        (ServerEvent::Message(MessageKind::Client), ServerPhase::Distributing),
        (ServerEvent::Message(MessageKind::Committee), ServerPhase::Distributing),
        (ServerEvent::Quorum, ServerPhase::Aggregating),
        (ServerEvent::Quorum, ServerPhase::Aggregating),
        (ServerEvent::Aggregated, ServerPhase::Terminal),
        (ServerEvent::Listening, ServerPhase::Terminal),
    ];
    for (event, expected) in events {
        phase = advance(phase, event);
        assert_eq!(phase, expected);
    }
}

#[test]
fn a_shutdown_ends_the_run_from_any_phase() {
    for phase in [
        ServerPhase::Init,
        ServerPhase::Ready,
        ServerPhase::Collecting,
        ServerPhase::Distributing,
        ServerPhase::Aggregating,
        ServerPhase::Terminal,
    ] {
        assert_eq!(advance(phase, ServerEvent::Shutdown), ServerPhase::Terminal);
        assert_eq!(advance(advance(phase, ServerEvent::Shutdown), ServerEvent::Shutdown), ServerPhase::Terminal);
    }
}
