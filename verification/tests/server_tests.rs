use miniredis::cmd::{CommandError, Get, Request, SetCommand};
use miniredis::frame::ParseError;
use miniredis::connection::Connection;
use miniredis::database::Database;
use miniredis::frame::Frame;
use miniredis::server::{handle_event, Action, Event};

/// Runs every complete frame in the connection's buffer through the
/// handler, collecting the responses in order.
fn serve_pending(conn: &mut Connection, db: &mut Database) -> Vec<Frame> {
    let mut responses = Vec::new();
    loop {
        match conn.try_read_frame() {
            Ok(Some(frame)) => match handle_event(db, Event::Received(frame)) {
                Action::Respond(resp) => responses.push(resp),
                Action::Stop => break,
            },
            Ok(None) => break,
            Err(_) => break,
        }
    }
    responses
}

#[test]
fn set_then_get_on_one_connection() {
    let mut client = Connection::new();
    let mut server = Connection::new();
    let mut db = Database::new();

    let set = SetCommand::new("name", b"simon".to_vec());
    let bytes = client.write_frame(&set.into_frame());
    server.feed(&bytes);
    let get = Get::new("name".to_string());
    let bytes = client.write_frame(&get.into_frame());
    server.feed(&bytes);

    let responses = serve_pending(&mut server, &mut db);
    assert_eq!(
        responses,
        vec![
            Frame::Simple("OK".to_string()),
            Frame::Bulk(b"simon".to_vec()),
        ]
    );
}

#[test]
fn get_of_a_missing_key_is_null() {
    let mut server = Connection::new();
    let mut db = Database::new();
    let mut client = Connection::new();
    let bytes = client.write_frame(&Get::new("missing-key".to_string()).into_frame());
    server.feed(&bytes);
    let responses = serve_pending(&mut server, &mut db);
    assert_eq!(responses, vec![Frame::Null]);
}

#[test]
fn pipelined_gets_are_answered_in_request_order() {
    const LOOPS: usize = 100;
    let mut client = Connection::new();
    let mut server = Connection::new();
    let mut db = Database::new();
    db.set("key-0".to_string(), b"value-0".to_vec());

    // all requests go out back-to-back before any response is read
    for i in 0..LOOPS {
        let key = format!("key-{}", i % 2);
        let bytes = client.write_frame(&Get::new(key).into_frame());
        server.feed(&bytes);
    }
    let responses = serve_pending(&mut server, &mut db);
    assert_eq!(responses.len(), LOOPS);
    for (i, resp) in responses.iter().enumerate() {
        if i % 2 == 0 {
            assert_eq!(*resp, Frame::Bulk(b"value-0".to_vec()));
        } else {
            assert_eq!(*resp, Frame::Null);
        }
    }
}

#[test]
fn unknown_verb_fails_the_parse_step() {
    let mut frame = Frame::new_array_frame();
    frame.push_bulk(b"flush".to_vec());
    frame.push_bulk(b"name".to_vec());
    assert_eq!(
        Request::from_frame(frame).unwrap_err(),
        CommandError::UnknownCommand
    );

    // and the handler stops rather than silently continuing
    let mut frame = Frame::new_array_frame();
    frame.push_bulk(b"flush".to_vec());
    let mut db = Database::new();
    assert!(matches!(
        handle_event(&mut db, Event::Received(frame)),
        Action::Stop
    ));
}

#[test]
fn verbs_match_case_insensitively() {
    let mut frame = Frame::new_array_frame();
    frame.push_bulk(b"GeT".to_vec());
    frame.push_bulk(b"name".to_vec());
    assert!(matches!(
        Request::from_frame(frame),
        Ok(Request::Get(_))
    ));

    let mut frame = Frame::new_array_frame();
    frame.push_bulk(b"SET".to_vec());
    frame.push_bulk(b"name".to_vec());
    frame.push_bulk(b"v".to_vec());
    assert!(matches!(
        Request::from_frame(frame),
        Ok(Request::SetCommand(_))
    ));
}

#[test]
fn missing_arguments_are_reported() {
    let mut frame = Frame::new_array_frame();
    frame.push_bulk(b"get".to_vec());
    assert_eq!(
        Request::from_frame(frame).unwrap_err(),
        CommandError::BadArgument(ParseError::Exhausted)
    );

    let mut frame = Frame::new_array_frame();
    frame.push_bulk(b"set".to_vec());
    frame.push_bulk(b"key".to_vec());
    assert_eq!(
        Request::from_frame(frame).unwrap_err(),
        CommandError::BadArgument(ParseError::Exhausted)
    );

    // a SET value must be a bulk frame
    let mut frame = Frame::new_array_frame();
    frame.push_bulk(b"set".to_vec());
    frame.push_bulk(b"key".to_vec());
    frame.push_int(3);
    assert_eq!(
        Request::from_frame(frame).unwrap_err(),
        CommandError::BadArgument(ParseError::WrongKind)
    );
}

#[test]
fn command_frames_use_the_canonical_wire_shape() {
    let mut conn = Connection::new();
    let bytes = conn.write_frame(&SetCommand::new("Hello", b"world".to_vec()).into_frame());
    assert_eq!(bytes, b"*3\r\n$3\r\nset\r\n$5\r\nHello\r\n$5\r\nworld\r\n".to_vec());
    let bytes = conn.write_frame(&Get::new("name".to_string()).into_frame());
    assert_eq!(bytes, b"*2\r\n$3\r\nget\r\n$4\r\nname\r\n".to_vec());
}

#[test]
fn store_overwrites_and_returns_previous_values() {
    let mut db = Database::new();
    assert_eq!(db.get(&"k".to_string()), None);
    assert_eq!(db.set("k".to_string(), b"a".to_vec()), None);
    assert_eq!(db.get(&"k".to_string()), Some(b"a".to_vec()));
    assert_eq!(db.set("k".to_string(), b"b".to_vec()), Some(b"a".to_vec()));
    assert_eq!(db.get(&"k".to_string()), Some(b"b".to_vec()));
    assert_eq!(db.set("other".to_string(), b"c".to_vec()), None);
    assert_eq!(db.get(&"k".to_string()), Some(b"b".to_vec()));
    assert_eq!(db.get(&"other".to_string()), Some(b"c".to_vec()));
}

#[test]
fn handler_stops_on_shutdown_and_read_failures() {
    let mut db = Database::new();
    assert!(matches!(
        handle_event(&mut db, Event::ShutdownRequested),
        Action::Stop
    ));
    assert!(matches!(
        handle_event(
            &mut db,
            Event::ReadFailed(miniredis::connection::Error::PeerClosed)
        ),
        Action::Stop
    ));
    // a frame that is no command array stops the connection too
    assert!(matches!(
        handle_event(&mut db, Event::Received(Frame::Integer(1))),
        Action::Stop
    ));
}

#[test]
fn peer_close_verdict_depends_on_pending_bytes() {
    let conn = Connection::new();
    assert!(matches!(
        conn.end_of_stream(),
        miniredis::connection::Error::PeerClosed
    ));
    let mut conn = Connection::new();
    conn.feed(b"$5\r\nHel");
    assert!(matches!(
        conn.end_of_stream(),
        miniredis::connection::Error::IO(_)
    ));
}

#[test]
fn corrupt_stream_is_a_hard_connection_error() {
    let mut conn = Connection::new();
    conn.feed(b"?what\r\n");
    assert!(matches!(
        conn.try_read_frame(),
        Err(miniredis::connection::Error::Other(_))
    ));
}

#[test]
fn partial_feeds_complete_a_frame_eventually() {
    let mut server = Connection::new();
    let mut db = Database::new();
    db.set("name".to_string(), b"simon".to_vec());
    let mut client = Connection::new();
    let bytes = client.write_frame(&Get::new("name".to_string()).into_frame());
    for b in &bytes[..bytes.len() - 1] {
        server.feed(std::slice::from_ref(b));
        assert!(matches!(server.try_read_frame(), Ok(None)));
    }
    server.feed(std::slice::from_ref(&bytes[bytes.len() - 1]));
    let responses = serve_pending(&mut server, &mut db);
    assert_eq!(responses, vec![Frame::Bulk(b"simon".to_vec())]);
}
