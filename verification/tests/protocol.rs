use moo::guest::{classify, Request};
use moo::proto::{
    parse_synctree, read_request, read_response, send_request, synctree_frame, write_response,
    FrameError, Received, POWEROFF, QUIESCE,
};

#[test]
fn a_request_has_its_length_before_it() {
    let mut w = Vec::new();
    send_request(&mut w, b"true");
    assert_eq!(w, [0, 0, 0, 4, b't', b'r', b'u', b'e']);
}

#[test]
fn a_response_has_its_code_and_length_before_it() {
    let mut w = Vec::new();
    write_response(&mut w, 7, b"out");
    assert_eq!(w, [7, 0, 0, 0, 3, b'o', b'u', b't']);
}

#[test]
fn requests_are_read_back_in_parts() {
    let mut w = Vec::new();
    send_request(&mut w, b"ls -l");
    for k in 0..w.len() {
        match read_request(&w[..k]) {
            Received::Need(n) => assert!(n > 0 && k as u64 + n <= w.len() as u64),
            Received::Complete(_) => panic!("complete after {} bytes", k),
        }
    }
    w.extend_from_slice(b"next");
    match read_request(&w) {
        Received::Complete(cmd) => assert_eq!(cmd, b"ls -l"),
        Received::Need(_) => panic!("incomplete"),
    }
    assert!(matches!(read_request(&[]), Received::Need(4)));
}

#[test]
fn responses_are_read_back_in_parts() {
    let mut w = Vec::new();
    write_response(&mut w, 255, b"machine is shutting down");
    for k in 0..w.len() {
        assert!(matches!(read_response(&w[..k]), Received::Need(_)));
    }
    match read_response(&w) {
        Received::Complete((code, out)) => {
            assert_eq!(code, 255);
            assert_eq!(out, b"machine is shutting down");
        }
        Received::Need(_) => panic!("incomplete"),
    }
    assert!(matches!(read_response(&[1, 0, 0]), Received::Need(2)));
}

#[test]
fn long_frames_need_all_four_length_bytes() {
    let cmd = vec![9u8; 0x0102_03];
    let mut w = Vec::new();
    send_request(&mut w, &cmd);
    assert_eq!(&w[..4], [0, 1, 2, 3]);
    assert!(matches!(read_request(&w), Received::Complete(c) if c == cmd));
}

#[test]
fn a_tree_frame_is_taken_apart() {
    let frame = synctree_frame("/srv/app", &[1, 0, 2]);
    assert_eq!(&frame[..13], b"__synctree__\0");
    let (target, payload) = parse_synctree(&frame).ok().unwrap();
    assert_eq!(target, "/srv/app");
    assert_eq!(payload, [1, 0, 2]);
    assert!(parse_synctree(b"__synctree__\0/srv/app").err() == Some(FrameError::NoTarget));
    assert!(parse_synctree(b"__synctree__\0\xff\0x").err() == Some(FrameError::BadTarget));
    assert_eq!(FrameError::NoTarget.message(), "malformed sync frame");
    assert_eq!(FrameError::BadTarget.message(), "malformed sync target");
}

#[test]
fn the_agent_tells_requests_apart() {
    assert!(matches!(classify(QUIESCE.as_bytes()), Request::Quiesce));
    assert!(matches!(classify(POWEROFF.as_bytes()), Request::PowerOff));
    assert!(matches!(classify(b"__quiesce__ "), Request::Shell(s) if s == "__quiesce__ "));
    assert!(matches!(classify(b"echo \xff"), Request::Shell(s) if s == "echo \u{fffd}"));
    assert!(matches!(classify(b"__synctree__\0x"), Request::Malformed(FrameError::NoTarget)));
    match classify(&synctree_frame("/t", b"gz")) {
        Request::SyncTree { target, gz_tar } => {
            assert_eq!(target, "/t");
            assert_eq!(gz_tar, b"gz");
        }
        _ => panic!("not a tree"),
    }
}
