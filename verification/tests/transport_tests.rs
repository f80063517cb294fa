use network_programming::transport::{
    accept_step, receive_step, AcceptAction, ReceiveAction,
    contains_disconnect, find_bytes, transfer_step, ProtocolType, TransferAction, TransferEvent, CHUNK_SIZE,
};

#[test]
fn transfer_decisions() {
    assert_eq!(transfer_step(TransferEvent::Opened), TransferAction::ReadChunk);
    assert_eq!(transfer_step(TransferEvent::OpenFailed), TransferAction::Finish(-1));
    assert_eq!(transfer_step(TransferEvent::Read(0)), TransferAction::Finish(0));
    assert_eq!(transfer_step(TransferEvent::Read(17)), TransferAction::SendChunk(17));
    assert_eq!(transfer_step(TransferEvent::Read(CHUNK_SIZE)), TransferAction::SendChunk(1024));
    assert_eq!(transfer_step(TransferEvent::ReadFailed), TransferAction::Finish(-1));
    assert_eq!(transfer_step(TransferEvent::Sent), TransferAction::ReadChunk);
    assert_eq!(transfer_step(TransferEvent::SendFailed), TransferAction::Finish(-1));
}

#[test]
fn a_transfer_of_two_chunks() {
    let mut events = vec![TransferEvent::Opened, TransferEvent::Read(1024), TransferEvent::Sent,
        TransferEvent::Read(10), TransferEvent::Sent, TransferEvent::Read(0)].into_iter();
    let mut sent = 0;
    let status = loop {
        match transfer_step(events.next().unwrap()) {
            TransferAction::ReadChunk => {}
            TransferAction::SendChunk(n) => sent += n,
            TransferAction::Finish(s) => break s,
        }
    };
    assert_eq!(status, 0);
    assert_eq!(sent, 1034);
}

#[test]
fn disconnect_detection() {
    assert!(contains_disconnect(b"!Disconnect"));
    assert!(contains_disconnect(b"Message 4 from client\n!Disconnect"));
    assert!(contains_disconnect(b"xx!Disconnectyy"));
    assert!(!contains_disconnect(b"!disconnect"));
    assert!(!contains_disconnect(b"!Disconnec"));
    assert!(!contains_disconnect(b""));
}

#[test]
fn byte_search() {
    assert_eq!(find_bytes(b"abcabc", 0, b"ca"), Some(2));
    assert_eq!(find_bytes(b"abcabc", 3, b"abc"), Some(3));
    assert_eq!(find_bytes(b"abcabc", 4, b"abc"), None);
    assert_eq!(find_bytes(b"ab", 0, b"abc"), None);
}

#[test]
fn protocol_types() {
    assert_eq!(ProtocolType::TCP, ProtocolType::TCP);
    assert_ne!(ProtocolType::TCP, ProtocolType::UDP);
}

#[test]
fn receive_decisions() {
    assert_eq!(receive_step(None), ReceiveAction::Stop);
    assert_eq!(receive_step(Some(b"")), ReceiveAction::Stop);
    assert_eq!(receive_step(Some(b"Message 1 from client\n")), ReceiveAction::Continue);
    assert_eq!(receive_step(Some(b"!Disconnect")), ReceiveAction::Close);
    assert_eq!(receive_step(Some(b"bye !Disconnect now")), ReceiveAction::Close);
    assert_eq!(receive_step(Some(b"!disconnect")), ReceiveAction::Continue);
}

#[test]
fn accept_decisions() {
    assert_eq!(accept_step(-1), AcceptAction::Shutdown);
    assert_eq!(accept_step(0), AcceptAction::Serve(0));
    assert_eq!(accept_step(7), AcceptAction::Serve(7));
}
