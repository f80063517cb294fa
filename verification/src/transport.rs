//! The raw TCP/UDP client and server: which transport a run uses, when a
//! connection is to be closed, and the steps of sending a file in chunks.

use vstd::prelude::*;

use vstd::utf8::{encode_utf8, is_ascii_chars, is_ascii_chars_encode_utf8};

use crate::text::{find_from, lemma_find_from, occurs_at};

verus! {

/// The transport that a client or server runs on.
#[derive(PartialEq, Eq, Structural, Clone, Copy, Debug)]
pub enum ProtocolType {
    TCP,
    UDP,
}

/// The message with which a client asks the server to close the connection:
/// `!Disconnect`, as bytes.
pub open spec fn disconnect_message() -> Seq<u8> {
    seq![33u8, 68u8, 105u8, 115u8, 99u8, 111u8, 110u8, 110u8, 101u8, 99u8, 116u8]
}

/// Law: the disconnect message is the text `!Disconnect` in UTF-8, eleven
/// bytes, the exclamation mark included.
pub proof fn lemma_disconnect_message_text()
    ensures
        disconnect_message() == encode_utf8("!Disconnect"@),
        encode_utf8("!Disconnect"@).len() == 11,
        encode_utf8("!Disconnect"@)[0] == 33u8,
{
    reveal_strlit("!Disconnect");
    let t = "!Disconnect"@;
    assert(is_ascii_chars(t));
    is_ascii_chars_encode_utf8(t);
    let e = encode_utf8(t);
    assert(t[0] as u8 == e[0]);
    assert(t[1] as u8 == e[1]);
    assert(t[2] as u8 == e[2]);
    assert(t[3] as u8 == e[3]);
    assert(t[4] as u8 == e[4]);
    assert(t[5] as u8 == e[5]);
    assert(t[6] as u8 == e[6]);
    assert(t[7] as u8 == e[7]);
    assert(t[8] as u8 == e[8]);
    assert(t[9] as u8 == e[9]);
    assert(t[10] as u8 == e[10]);
    assert(disconnect_message() =~= e);
}

/// Finds the first occurrence of `pat` in `buf` at or after `from`.
pub fn find_bytes(buf: &[u8], from: usize, pat: &[u8]) -> (r: Option<usize>)
    requires
        pat@.len() > 0,
    ensures
        match r {
            Some(i) => find_from(buf@, from as int, pat@) == Some(i as int),
            None => find_from(buf@, from as int, pat@) is None,
        },
{
    let n = buf.len();
    let m = pat.len();
    let mut i = from;
    while i < n && n - i >= m
        invariant
            n == buf@.len(),
            m == pat@.len(),
            from <= i,
            find_from(buf@, from as int, pat@) == find_from(buf@, i as int, pat@),
        decreases n - i,
    {
        let mut k: usize = 0;
        let mut same = true;
        while k < m
            invariant
                n == buf@.len(),
                m == pat@.len(),
                i + m <= n,
                k <= m,
                same == (forall|q: int| 0 <= q < k ==> buf@[i + q] == pat@[q]),
            decreases m - k,
        {
            if buf[i + k] != pat[k] {
                same = false;
            }
            k = k + 1;
        }
        if same {
            assert(buf@.subrange(i as int, i + m) =~= pat@);
            return Some(i);
        }
        assert(!occurs_at(buf@, i as int, pat@)) by {
            if buf@.subrange(i as int, i + m) == pat@ {
                let q = choose|q: int| 0 <= q < m && buf@[i + q] != pat@[q];
                assert(buf@.subrange(i as int, i + m)[q] == buf@[i + q]);
            }
        }
        i = i + 1;
    }
    None
}

/// Whether data read from a client holds the disconnect message, on which
/// the server closes the connection.
pub fn contains_disconnect(data: &[u8]) -> (r: bool)
    ensures
        r == exists|i: int| occurs_at(data@, i, disconnect_message()),
        r == exists|i: int| occurs_at(data@, i, encode_utf8("!Disconnect"@)),
{
    proof { lemma_disconnect_message_text(); }
    let pat: [u8; 11] = [33u8, 68u8, 105u8, 115u8, 99u8, 111u8, 110u8, 110u8, 101u8, 99u8, 116u8];
    let pat_slice = pat.as_slice();
    assert(pat_slice@ =~= disconnect_message());
    proof { lemma_find_from(data@, 0, disconnect_message()); }
    match find_bytes(data, 0, pat_slice) {
        Some(_) => true,
        None => {
            assert forall|i: int| !occurs_at(data@, i, disconnect_message()) by {
                if i >= 0 {
                    assert(!occurs_at(data@, i, disconnect_message()));
                }
            }
            false
        },
    }
}

/// How many bytes of a file a client reads and sends at a time.
pub const CHUNK_SIZE: usize = 1024;

/// What happened last while a client sends a file.
#[derive(PartialEq, Eq, Structural, Clone, Copy, Debug)]
pub enum TransferEvent {
    /// The file was opened.
    Opened,
    /// The file could not be opened.
    OpenFailed,
    /// A read gave this many bytes; none means the end of the file.
    Read(usize),
    /// A read failed.
    ReadFailed,
    /// The last chunk was sent.
    Sent,
    /// Sending the last chunk failed.
    SendFailed,
}

/// What the client does next while it sends a file.
#[derive(PartialEq, Eq, Structural, Clone, Copy, Debug)]
pub enum TransferAction {
    /// Read the next chunk of the file.
    ReadChunk,
    /// Send the first this many bytes of the chunk just read.
    SendChunk(usize),
    /// Stop, with this status: 0 once the whole file was sent, -1 on a failure.
    Finish(i32),
}

/// The status with which a transfer ends: 0 for success, -1 for failure.
pub open spec fn transfer_status(ok: bool) -> i32 {
    if ok { 0i32 } else { -1i32 }
}

/// The next action of a file transfer after `event`.
pub open spec fn next_action(event: TransferEvent) -> TransferAction {
    match event {
        TransferEvent::Opened => TransferAction::ReadChunk,
        TransferEvent::Read(n) => if n == 0 {
            TransferAction::Finish(transfer_status(true))
        } else {
            TransferAction::SendChunk(n)
        },
        TransferEvent::Sent => TransferAction::ReadChunk,
        _ => TransferAction::Finish(transfer_status(false)),
    }
}

/// Law: a transfer ends with 0 only on reading the end of the file, and with
/// -1 exactly when opening, reading or sending fails; after a successful open
/// or send it goes on reading.
pub proof fn lemma_transfer_outcomes(event: TransferEvent)
    ensures
        next_action(event) == TransferAction::Finish(0i32) <==> event == TransferEvent::Read(0),
        next_action(event) == TransferAction::Finish(-1i32) <==> (event == TransferEvent::OpenFailed
            || event == TransferEvent::ReadFailed || event == TransferEvent::SendFailed),
        next_action(event) matches TransferAction::Finish(status) ==> status == 0 || status == -1,
        (event == TransferEvent::Opened || event == TransferEvent::Sent) ==> next_action(event)
            == TransferAction::ReadChunk,
{
}

/// Decides what a client sending a file does after `event`: it reads chunk
/// after chunk and sends each, stops with 0 at the end of the file, and with
/// -1 as soon as opening, reading or sending fails.
pub fn transfer_step(event: TransferEvent) -> (r: TransferAction)
    ensures
        r == next_action(event),
{
    match event {
        TransferEvent::Opened => TransferAction::ReadChunk,
        TransferEvent::Read(n) => if n == 0 {
            TransferAction::Finish(0)
        } else {
            TransferAction::SendChunk(n)
        },
        TransferEvent::Sent => TransferAction::ReadChunk,
        TransferEvent::OpenFailed => TransferAction::Finish(-1),
        TransferEvent::ReadFailed => TransferAction::Finish(-1),
        TransferEvent::SendFailed => TransferAction::Finish(-1),
    }
}

/// What a server does after receiving from a connected client.
#[derive(PartialEq, Eq, Structural, Clone, Copy, Debug)]
pub enum ReceiveAction {
    /// Receive the next chunk.
    Continue,
    /// The client asked to disconnect: close the connection and stop.
    Close,
    /// The client is gone or receiving failed: stop.
    Stop,
}

/// The next action after a receive that gave `received`: `None` for a failed
/// receive, else the bytes received.
pub open spec fn next_receive_action(received: Option<Seq<u8>>) -> ReceiveAction {
    match received {
        None => ReceiveAction::Stop,
        Some(data) => if data.len() == 0 {
            ReceiveAction::Stop
        } else if exists|i: int| occurs_at(data, i, disconnect_message()) {
            ReceiveAction::Close
        } else {
            ReceiveAction::Continue
        },
    }
}

/// Decides what a server handling a client does after a receive: it stops
/// when the receive failed or gave nothing (the client is gone), closes the
/// connection when the data holds the disconnect message, and otherwise
/// receives on.
pub fn receive_step(received: Option<&[u8]>) -> (r: ReceiveAction)
    ensures
        r == next_receive_action(match received {
            Some(data) => Some(data@),
            None => None,
        }),
        r == ReceiveAction::Close <==> (received matches Some(data) && data@.len() > 0 && exists|i: int|
            occurs_at(data@, i, encode_utf8("!Disconnect"@))),
        r == ReceiveAction::Continue <==> (received matches Some(data) && data@.len() > 0 && !exists|
            i: int,
        | occurs_at(data@, i, encode_utf8("!Disconnect"@))),
        r == ReceiveAction::Stop <==> (received matches Some(data) ==> data@.len() == 0),
{
    proof { lemma_disconnect_message_text(); }
    match received {
        None => ReceiveAction::Stop,
        Some(data) => if data.len() == 0 {
            ReceiveAction::Stop
        } else if contains_disconnect(data) {
            ReceiveAction::Close
        } else {
            ReceiveAction::Continue
        },
    }
}

/// Law: a server closes a connection only on the disconnect message, and
/// receives on after every other nonempty chunk.
pub proof fn lemma_receive_outcomes(received: Option<Seq<u8>>)
    ensures
        next_receive_action(received) == ReceiveAction::Close <==> (received matches Some(data)
            && data.len() > 0 && exists|i: int| occurs_at(data, i, disconnect_message())),
        next_receive_action(received) == ReceiveAction::Continue <==> (received matches Some(data)
            && data.len() > 0 && !exists|i: int| occurs_at(data, i, disconnect_message())),
        next_receive_action(received) == ReceiveAction::Close <==> (received matches Some(data)
            && data.len() > 0 && exists|i: int| occurs_at(data, i, encode_utf8("!Disconnect"@))),
{
    lemma_disconnect_message_text();
}

/// What a server does with the result of accepting a connection.
#[derive(PartialEq, Eq, Structural, Clone, Copy, Debug)]
pub enum AcceptAction {
    /// Hand the connection with this descriptor to a worker.
    Serve(i32),
    /// Accepting failed: close the listening socket and stop.
    Shutdown,
}

/// What a server does with `fd`, the descriptor that accepting gave, or -1
/// where accepting failed.
pub open spec fn next_accept_action(fd: i32) -> AcceptAction {
    if fd == -1 {
        AcceptAction::Shutdown
    } else {
        AcceptAction::Serve(fd)
    }
}

/// Decides what a listening server does after accepting: serve the new
/// connection, or, where accepting failed, shut down.
pub fn accept_step(fd: i32) -> (r: AcceptAction)
    ensures
        r == next_accept_action(fd),
{
    if fd == -1 {
        AcceptAction::Shutdown
    } else {
        AcceptAction::Serve(fd)
    }
}

} // verus!
