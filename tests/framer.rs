use mux::framer::{transport, LowLevelTransport};
use mux::message::{encode, Dentry, Message, MuxError};

/// Writes out every pending frame, one frame per entry.
fn drain_frames<T>(t: &mut LowLevelTransport<T>) -> Vec<Vec<u8>> {
    let mut frames = Vec::new();
    while t.load_frame() {
        let bytes = t.unsent().to_vec();
        t.consume(bytes.len());
        frames.push(bytes);
    }
    frames
}

fn frame_tag(frame: &[u8]) -> u32 {
    ((frame[5] as u32) << 16) | ((frame[6] as u32) << 8) | (frame[7] as u32)
}

fn big_dispatch(tag: u32, body_len: usize) -> Message {
    // contexts (2) + dst (2 + 4) + dtab (2 + 2 + 2 + 2 + 2) + req
    let fixed = 2 + 2 + 4 + 2 + 2 + 2 + 2 + 2;
    Message::Tdispatch {
        tag,
        contexts: vec![],
        dst: "/svc".to_string(),
        dtab: vec![Dentry { prefix: "/a".to_string(), dst: "/b".to_string() }],
        req: (0..body_len - fixed).map(|i| (i % 251) as u8).collect(),
    }
}

#[test]
fn dispatch_of_3000_bytes_in_three_frames() {
    let m = big_dispatch(7, 3000);
    assert_eq!(encode(m.clone()).unwrap().len(), 3004);
    let mut w = LowLevelTransport::with_frame_size((), 1024);
    w.write(m.clone()).unwrap();
    let frames = drain_frames(&mut w);
    assert_eq!(frames.len(), 3);
    assert_eq!(frame_tag(&frames[0]), 0x80_0007);
    assert_eq!(frame_tag(&frames[1]), 0x80_0007);
    assert_eq!(frame_tag(&frames[2]), 7);
    assert_eq!(frames[0].len(), 8 + 1024);
    assert_eq!(frames[1].len(), 8 + 1024);
    assert_eq!(frames[2].len(), 8 + 3000 - 2048);
    assert_eq!(&frames[0][0..5], &[0, 0, 4, 4, 2]);
    let mut r = LowLevelTransport::with_frame_size((), 1024);
    r.feed(&frames[0]);
    assert!(r.read().is_none());
    r.feed(&frames[1]);
    assert!(r.read().is_none());
    r.feed(&frames[2]);
    assert_eq!(r.read(), Some((7, Ok(m))));
    assert!(r.read().is_none());
}

#[test]
fn frame_counts_follow_the_frame_size() {
    for (len, size, want) in [(2048usize, 1024usize, 2usize), (2049, 1024, 3), (30, 1024, 1), (31, 10, 4)] {
        let mut w = LowLevelTransport::with_frame_size((), size);
        w.write(big_dispatch(9, len)).unwrap();
        assert_eq!(drain_frames(&mut w).len(), want);
    }
    let mut w = LowLevelTransport::with_frame_size((), 1);
    w.write(Message::Tping { tag: 3 }).unwrap();
    let frames = drain_frames(&mut w);
    assert_eq!(frames, vec![vec![0, 0, 0, 4, 65, 0, 0, 3]]);
}

#[test]
fn whole_messages_without_negotiation() {
    let mut w = transport(());
    let m = big_dispatch(12, 5000);
    w.write(m.clone()).unwrap();
    let frames = drain_frames(&mut w);
    assert_eq!(frames.len(), 1);
    let mut r = transport(());
    r.feed(&frames[0]);
    assert_eq!(r.read(), Some((12, Ok(m))));
}

#[test]
fn pending_messages_take_turns() {
    let mut w = LowLevelTransport::with_frame_size((), 100);
    let a = big_dispatch(2, 350);
    let b = big_dispatch(3, 150);
    w.write(a.clone()).unwrap();
    w.write(b.clone()).unwrap();
    let frames = drain_frames(&mut w);
    let tags: Vec<u32> = frames.iter().map(|f| frame_tag(f)).collect();
    assert_eq!(tags, vec![0x80_0002, 0x80_0003, 0x80_0002, 3, 0x80_0002, 2]);
    let mut r = LowLevelTransport::with_frame_size((), 100);
    for f in &frames {
        r.feed(f);
    }
    assert_eq!(r.read(), Some((3, Ok(b))));
    assert_eq!(r.read(), Some((2, Ok(a))));
    assert_eq!(r.read(), None);
}

#[test]
fn interleaved_tags_reassemble_in_any_order() {
    let a = big_dispatch(20, 260);
    let b = big_dispatch(21, 330);
    let mut wa = LowLevelTransport::with_frame_size((), 64);
    wa.write(a.clone()).unwrap();
    let fa = drain_frames(&mut wa);
    let mut wb = LowLevelTransport::with_frame_size((), 64);
    wb.write(b.clone()).unwrap();
    let fb = drain_frames(&mut wb);
    assert_eq!(fa.len(), 5);
    assert_eq!(fb.len(), 6);
    // b's frames first but its last one late; a's complete first.
    let order = [false, false, true, true, false, true, false, true, true, false, false];
    let (mut i, mut j) = (0, 0);
    let mut r = LowLevelTransport::with_frame_size((), 64);
    for pick_a in order {
        if pick_a {
            r.feed(&fa[i]);
            i += 1;
        } else {
            r.feed(&fb[j]);
            j += 1;
        }
    }
    assert_eq!((i, j), (5, 6));
    assert_eq!(r.read(), Some((20, Ok(a))));
    assert_eq!(r.read(), Some((21, Ok(b))));
    assert_eq!(r.read(), None);
}

#[test]
fn bytes_may_arrive_in_pieces() {
    let mut w = LowLevelTransport::with_frame_size((), 16);
    let m = Message::RreqOk { tag: 5, reply: (0..40).collect() };
    w.write(m.clone()).unwrap();
    let stream: Vec<u8> = drain_frames(&mut w).concat();
    let mut r = LowLevelTransport::with_frame_size((), 16);
    let mut got = None;
    for byte in stream {
        r.feed(&[byte]);
        if let Some(x) = r.read() {
            got = Some(x);
        }
    }
    assert_eq!(got, Some((5, Ok(m))));
}

#[test]
fn partial_writes_finish_the_frame_first() {
    let mut w = LowLevelTransport::with_frame_size((), 8);
    w.write(Message::Treq { tag: 2, req: vec![1; 12] }).unwrap();
    assert!(w.load_frame());
    assert!(!w.is_writable());
    let first = w.unsent().to_vec();
    w.consume(3);
    assert_eq!(w.write(Message::Tping { tag: 4 }), Err(MuxError::PendingWrite));
    assert_eq!(w.write(Message::Tping { tag: 1 << 24 }), Err(MuxError::PendingWrite));
    assert_eq!(w.unsent(), &first[3..]);
    assert!(w.load_frame());
    assert_eq!(w.unsent(), &first[3..]);
    w.consume(first.len() - 3);
    assert!(w.is_writable());
    assert!(w.has_pending());
    assert!(w.load_frame());
    assert_eq!(frame_tag(w.unsent()), 2);
    let n = w.unsent().len();
    w.consume(n);
    assert!(!w.has_pending());
    assert!(!w.load_frame());
    assert_eq!(w.write(Message::Tping { tag: 4 }), Ok(()));
    assert!(w.has_pending());
}

#[test]
fn write_refuses_bad_tags() {
    let mut w = transport(());
    assert_eq!(w.write(Message::Tping { tag: 0x80_0001 }), Err(MuxError::InvalidTag));
    assert_eq!(w.write(Message::Tping { tag: 1 << 24 }), Err(MuxError::InvalidTag));
    assert!(!w.has_pending());
    let m = Message::RdispatchNack { tag: 2, contexts: vec![(vec![0; 70000], vec![])] };
    assert_eq!(w.write(m), Err(MuxError::Oversized));
    assert!(!w.has_pending());
}

#[test]
fn mismatched_fragment_types_violate_the_protocol() {
    // A Treq fragment on tag 6, then a terminal Rreq frame on the same tag.
    let mut r = transport(());
    r.feed(&[0, 0, 0, 6, 1, 0x80, 0, 6, 0, 1]);
    r.feed(&[0, 0, 0, 5, 255, 0, 0, 6, 0]);
    assert_eq!(r.read(), Some((6, Err(MuxError::ProtocolViolation))));
    // The tag is usable again afterwards.
    r.feed(&[0, 0, 0, 5, 255, 0, 0, 6, 2]);
    assert_eq!(r.read(), Some((6, Ok(Message::RreqNack { tag: 6 }))));
}

#[test]
fn malformed_body_is_reported_for_its_tag_only() {
    let mut r = transport(());
    r.feed(&[0, 0, 0, 5, 1, 0, 0, 9, 7]);
    r.feed(&[0, 0, 0, 4, 65, 0, 0, 10]);
    assert_eq!(r.read(), Some((9, Err(MuxError::Malformed))));
    assert_eq!(r.read(), Some((10, Ok(Message::Tping { tag: 10 }))));
}

#[test]
fn corrupt_size_drops_the_buffer() {
    let mut r = transport(());
    r.feed(&[0, 0, 0, 3, 1, 2, 3]);
    assert_eq!(r.read(), Some((0, Err(MuxError::ProtocolViolation))));
    assert_eq!(r.read(), None);
}

#[test]
fn frame_size_is_kept() {
    let t = LowLevelTransport::with_frame_size(5u8, 1024);
    assert_eq!(t.get_frame_size(), 1024);
    assert_eq!(*t.get_ref(), 5u8);
    assert_eq!(transport(()).get_frame_size(), 0xffff_fffb);
}

#[test]
fn take_output_matches_frame_by_frame_writing() {
    let a = big_dispatch(2, 350);
    let b = big_dispatch(3, 150);
    let mut w1 = LowLevelTransport::with_frame_size((), 100);
    w1.write(a.clone()).unwrap();
    w1.write(b.clone()).unwrap();
    let by_frame: Vec<u8> = drain_frames(&mut w1).concat();
    let mut w2 = LowLevelTransport::with_frame_size((), 100);
    w2.write(a.clone()).unwrap();
    w2.write(b.clone()).unwrap();
    assert!(w2.load_frame());
    w2.consume(5);
    let all = w2.take_output();
    assert_eq!(all, by_frame[5..].to_vec());
    assert!(!w2.has_pending());
    assert!(w2.is_writable());
    assert!(w2.take_output().is_empty());
    let mut r = LowLevelTransport::with_frame_size((), 100);
    r.feed(&by_frame);
    assert_eq!(r.read(), Some((3, Ok(b))));
    assert_eq!(r.read(), Some((2, Ok(a))));
    assert_eq!(r.read(), None);
}

#[test]
fn read_all_reports_every_completed_message() {
    let a = big_dispatch(20, 260);
    let b = big_dispatch(21, 330);
    let mut w = LowLevelTransport::with_frame_size((), 64);
    w.write(a.clone()).unwrap();
    w.write(b.clone()).unwrap();
    let mut bytes = w.take_output();
    // A partial frame at the end stays buffered.
    bytes.extend_from_slice(&[0, 0, 0, 4, 65]);
    let mut r = LowLevelTransport::with_frame_size((), 64);
    r.feed(&bytes);
    let got = r.read_all();
    assert_eq!(got, vec![(20, Ok(a)), (21, Ok(b))]);
    assert!(r.read_all().is_empty());
    r.feed(&[0, 0, 9]);
    assert_eq!(r.read_all(), vec![(9, Ok(Message::Tping { tag: 9 }))]);
}
