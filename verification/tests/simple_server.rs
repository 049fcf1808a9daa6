use simple_tcp::message_processing::default_endmark;
use simple_tcp::server::{ClientRead, ServerAcceptError};
use simple_tcp::simple_server::{InnerSimpleServer, ReadEvent, ReadStep};

fn server_with_clients(n: usize) -> InnerSimpleServer<(), u32> {
    let mut server: InnerSimpleServer<(), u32> = InnerSimpleServer::new((), false);
    for i in 0..n {
        server.admit_client(Some(i as u32), false);
    }
    server
}

#[test]
fn new_server_is_empty() {
    let server: InnerSimpleServer<u8, u8> = InnerSimpleServer::new(7, true);
    assert_eq!(server.clients_len(), 0);
    assert_eq!(server.next_client_id(), 0);
    assert_eq!(*server.data(), 7);
    assert_eq!(server.message_endmark().string(), "EOF");
}

#[test]
fn admitted_clients_get_sequential_ids() {
    let mut server: InnerSimpleServer<(), &str> = InnerSimpleServer::new((), false);
    assert_eq!(server.admit_client(Some("a"), false), Some(0));
    assert_eq!(server.admit_client(Some("b"), true), Some(1));
    assert_eq!(server.clients_len(), 2);
    let c = server.get_client(1).unwrap();
    assert_eq!(c.id(), 1);
    assert_eq!(*c.data(), "b");
    assert!(c.is_blocking_read());
    assert!(!c.should_remove());
}

#[test]
fn refused_client_changes_nothing() {
    let mut server: InnerSimpleServer<(), u8> = InnerSimpleServer::new((), false);
    assert_eq!(server.admit_client(None, false), None);
    assert_eq!(server.clients_len(), 0);
    assert_eq!(server.next_client_id(), 0);
}

#[test]
fn removed_ids_are_not_reused() {
    let mut server = server_with_clients(2);
    server.remove_client(1);
    assert!(!server.contains_client(1));
    assert!(server.contains_client(0));
    assert_eq!(server.next_client_id(), 2);
    assert_eq!(server.admit_client(Some(9), false), Some(2));
    assert!(!server.contains_client(1));
    assert_eq!(server.clients_len(), 2);
}

#[test]
fn mark_to_remove_only_once() {
    let mut server = server_with_clients(1);
    let mut read = ClientRead::new();
    assert_eq!(server.apply_read_event(0, &mut read, ReadEvent::ConnectionReset), ReadStep::Dropped);
    assert!(server.get_client(0).unwrap().should_remove());
    assert!(!server.is_readable(0));
    assert!(server.contains_client(0));
}

#[test]
fn messages_split_across_reads_are_joined() {
    let mut server = server_with_clients(1);
    let first: Vec<char> = "helloEO".chars().collect();
    assert_eq!(server.read_client_input(0, &first), Some(vec![]));
    let second: Vec<char> = "Fworld".chars().collect();
    assert_eq!(server.read_client_input(0, &second), Some(vec!["hello".to_string()]));
    let third: Vec<char> = "EOFaEOFb".chars().collect();
    assert_eq!(
        server.read_client_input(0, &third),
        Some(vec!["world".to_string(), "a".to_string()])
    );
}

#[test]
fn escaped_marker_split_across_reads() {
    let mut server = server_with_clients(1);
    let first: Vec<char> = "x\\E".chars().collect();
    assert_eq!(server.read_client_input(0, &first), Some(vec![]));
    let second: Vec<char> = "OFyEOF".chars().collect();
    assert_eq!(server.read_client_input(0, &second), Some(vec!["xEOFy".to_string()]));
}

#[test]
fn read_event_received_bytes() {
    let mut server = server_with_clients(1);
    let mut read = ClientRead::new();
    let step = server.apply_read_event(0, &mut read, ReadEvent::Received(b"hiEOFyo".to_vec()));
    assert_eq!(step, ReadStep::Continue);
    assert_eq!(read.bytes_read(), 7);
    assert_eq!(read.messages(), &vec!["hi".to_string()]);
    let step = server.apply_read_event(0, &mut read, ReadEvent::Received(b"EOF".to_vec()));
    assert_eq!(step, ReadStep::Continue);
    assert_eq!(read.bytes_read(), 10);
    assert_eq!(read.into_messages(), vec!["hi".to_string(), "yo".to_string()]);
}

#[test]
fn read_event_no_bytes_drops() {
    let mut server = server_with_clients(1);
    let mut read = ClientRead::new();
    assert_eq!(server.apply_read_event(0, &mut read, ReadEvent::Received(vec![])), ReadStep::Dropped);
    assert!(!server.is_readable(0));
    assert!(server.get_client(0).unwrap().should_remove());
    assert_eq!(*server.get_client(0).unwrap().data(), 0);
}

#[test]
fn read_event_errors_finish() {
    let mut server = server_with_clients(1);
    let mut read = ClientRead::new();
    assert_eq!(server.apply_read_event(0, &mut read, ReadEvent::WouldBlock), ReadStep::Finished);
    assert_eq!(server.apply_read_event(0, &mut read, ReadEvent::Failed), ReadStep::Finished);
    assert_eq!(read.bytes_read(), 0);
}

#[test]
fn read_event_undecodable_bytes() {
    let mut server = server_with_clients(1);
    let mut read = ClientRead::new();
    // 0xC3 reads as one character two bytes long: one byte read ends inside it.
    assert_eq!(
        server.apply_read_event(0, &mut read, ReadEvent::Received(vec![0xC3])),
        ReadStep::Unprocessable
    );
    assert!(server.get_client(0).unwrap().should_remove());
    assert_eq!(read.bytes_read(), 1);
    // Two bytes: the first character alone is two bytes long.
    let mut other = server_with_clients(1);
    let mut read = ClientRead::new();
    assert_eq!(
        other.apply_read_event(0, &mut read, ReadEvent::Received(vec![0xC3, 0x41])),
        ReadStep::Continue
    );
    assert!(!other.get_client(0).unwrap().should_remove());
    assert_eq!(read.bytes_read(), 2);
}

#[test]
fn readable_clients_skip_blocking_and_marked() {
    let mut server: InnerSimpleServer<(), u8> = InnerSimpleServer::new((), false);
    server.admit_client(Some(0), false);
    server.admit_client(Some(1), true);
    server.admit_client(Some(2), false);
    server.admit_client(Some(3), false);
    let mut read = ClientRead::new();
    server.apply_read_event(2, &mut read, ReadEvent::ConnectionReset);
    assert_eq!(server.readable_clients(false), vec![0, 1, 3]);
    assert_eq!(server.readable_clients(true), vec![0, 3]);
    assert_eq!(server.client_ids(), vec![0, 1, 2, 3]);
}

#[test]
fn client_ids_after_removal() {
    let mut server = server_with_clients(3);
    server.remove_client(1);
    assert_eq!(server.client_ids(), vec![0, 2]);
    assert_eq!(server.clients_len(), 2);
}

#[test]
fn reserved_id_is_admitted_or_released() {
    let mut server: InnerSimpleServer<(), &str> = InnerSimpleServer::new((), false);
    let a = server.reserve_client_id();
    let b = server.reserve_client_id();
    assert_eq!((a, b), (0, 1));
    assert_eq!(server.next_client_id(), 2);
    assert!(!server.contains_client(a));
    assert_eq!(server.admit_reserved_client(b, Some("b"), false), Some(1));
    assert_eq!(server.admit_reserved_client(a, None, false), None);
    assert!(!server.contains_client(a));
    assert_eq!(*server.get_client(1).unwrap().data(), "b");
    // Neither id is reserved any more.
    assert_eq!(server.admit_reserved_client(a, Some("a"), false), None);
    assert_eq!(server.admit_reserved_client(b, Some("c"), false), None);
    assert_eq!(*server.get_client(1).unwrap().data(), "b");
    assert_eq!(server.clients_len(), 1);
    assert_eq!(server.admit_client(Some("d"), false), Some(2));
}

#[test]
fn client_data_can_be_replaced() {
    let mut server = server_with_clients(2);
    assert_eq!(server.replace_client_data(1, 40), Some(1));
    assert_eq!(*server.get_client(1).unwrap().data(), 40);
    assert_eq!(*server.get_client(0).unwrap().data(), 0);
    assert_eq!(server.replace_client_data(5, 7), None);
}

#[test]
fn blocking_listener_skips_reads() {
    let mut server: InnerSimpleServer<(), u8> = InnerSimpleServer::new((), true);
    server.admit_client(Some(0), false);
    assert!(server.readable_clients(true).is_empty());
    assert_eq!(server.readable_clients(false), vec![0]);
}

#[test]
fn set_nonblocking_outcomes() {
    let mut server: InnerSimpleServer<(), u8> = InnerSimpleServer::new((), true);
    assert_eq!(server.set_nonblocking(true, false, false), Err(()));
    assert!(server.readable_clients(true).is_empty());
    assert_eq!(server.set_nonblocking(true, true, false), Ok(()));
    server.admit_client(Some(0), false);
    assert_eq!(server.readable_clients(true), vec![0]);
    assert_eq!(server.set_nonblocking(false, false, true), Ok(()));
    assert!(server.readable_clients(true).is_empty());
}

#[test]
fn nonblocking_accept_refused_while_blocking() {
    let mut server: InnerSimpleServer<(), u8> = InnerSimpleServer::new((), true);
    assert!(matches!(server.check_nonblocking_accept(), Err(ServerAcceptError::IsBlocking)));
    assert_eq!(server.set_nonblocking(true, false, true), Ok(()));
    assert!(server.check_nonblocking_accept().is_ok());
}

#[test]
fn outgoing_message_only_for_registered_clients() {
    let server = server_with_clients(1);
    assert_eq!(server.outgoing_message(0, "hi"), Some("hiEOF".to_string()));
    assert_eq!(server.outgoing_message(0, "aEOF"), Some("a\\EOFEOF".to_string()));
    assert_eq!(server.outgoing_message(3, "hi"), None);
}

#[test]
fn set_endmark_keeps_default() {
    let mut server = server_with_clients(0);
    server.set_endmark(default_endmark());
    assert_eq!(server.message_endmark().escape(), "\\EOF");
}

#[test]
fn mark_client_to_remove_reports_first_mark() {
    let mut server = server_with_clients(2);
    assert_eq!(server.mark_client_to_remove(1), Some(true));
    assert_eq!(server.mark_client_to_remove(1), Some(false));
    assert_eq!(server.mark_client_to_remove(5), None);
    assert!(server.get_client(1).unwrap().should_remove());
    assert!(!server.get_client(0).unwrap().should_remove());
    assert_eq!(server.readable_clients(false), vec![0]);
}

#[test]
fn server_data_can_be_changed() {
    let mut server: InnerSimpleServer<Vec<u8>, ()> = InnerSimpleServer::new(vec![1], false);
    server.data_mut().push(2);
    assert_eq!(server.data(), &vec![1, 2]);
}

#[test]
fn stream_read_one_character_at_a_time() {
    let e = default_endmark();
    let originals = ["ab", "c\\EOFd", "EOF", ""];
    let mut stream = String::new();
    for m in originals.iter() {
        stream.push_str(&e.prepare_message(m));
    }
    let mut server = server_with_clients(1);
    let mut delivered: Vec<String> = Vec::new();
    for c in stream.chars() {
        let piece = vec![c];
        delivered.extend(server.read_client_input(0, &piece).unwrap());
    }
    let expected: Vec<String> = originals.iter().map(|m| m.to_string()).collect();
    assert_eq!(delivered, expected);
}

#[test]
fn stream_read_in_uneven_pieces() {
    let e = default_endmark();
    let originals = ["first EOF", "second", "third\\"];
    let mut stream = String::new();
    for m in originals.iter().take(2) {
        stream.push_str(&e.prepare_message(m));
    }
    let chars: Vec<char> = stream.chars().collect();
    let mut server = server_with_clients(1);
    let mut delivered: Vec<String> = Vec::new();
    for piece in chars.chunks(5) {
        delivered.extend(server.read_client_input(0, &piece.to_vec()).unwrap());
    }
    assert_eq!(delivered, vec!["first EOF".to_string(), "second".to_string()]);
}
