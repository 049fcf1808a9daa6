use simple_tcp::server::{ClientRead, ServerAcceptError};

#[test]
fn new_client_read_is_empty() {
    let r = ClientRead::new();
    assert_eq!(r.bytes_read(), 0);
    assert!(r.messages().is_empty());
    assert!(r.into_messages().is_empty());
}

#[test]
fn server_accept_error_variant() {
    let e = ServerAcceptError::IsBlocking;
    assert!(matches!(e, ServerAcceptError::IsBlocking));
}

#[test]
fn default_read_is_empty() {
    let r = ClientRead::default();
    assert_eq!(r.bytes_read(), 0);
    assert!(r.messages().is_empty());
}
