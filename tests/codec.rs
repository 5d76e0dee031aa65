use mux::decode::{decode, decode_rdispatch, decode_rreq, decode_tdiscarded, decode_tlease, decode_treq};
use mux::header::{decode_frame_size, encode_frame_size, frame_size_header, frame_size_of};
use mux::init::{decode as init_decode, encode as init_encode};
use mux::message::{encode, pre_encoded_tping, Dentry, Message, MuxError};
use mux::tags::{extract_tag, extract_type, is_fragment, set_msb};

fn split(frame: &[u8]) -> (i8, u32, Vec<u8>) {
    let typ = frame[0] as i8;
    let tag = ((frame[1] as u32) << 16) | ((frame[2] as u32) << 8) | (frame[3] as u32);
    (typ, tag, frame[4..].to_vec())
}

fn round_trip(m: Message) {
    let bytes = encode(m.clone()).unwrap();
    let (typ, tag, body) = split(&bytes);
    assert_eq!(decode(typ, tag, body), Ok(m));
}

#[test]
fn it_works() {}

#[test]
fn test_init() {
    let version: u16 = 0x1020;
    let headers = vec![
        (vec![1], vec![2, 3]),
        (vec![4, 5, 6], vec![7, 8, 9, 10]),
        (vec![11, 12, 13], vec![14, 15]),
    ];
    let buf = init_encode(version, headers.clone());
    let (got_version, got_headers) = init_decode(buf).unwrap();
    assert_eq!(version, got_version);
    assert_eq!(headers, got_headers);
}

#[test]
fn tping_on_ping_tag_encodes_to_four_bytes() {
    assert_eq!(encode(Message::Tping { tag: 1 }).unwrap(), vec![65, 0, 0, 1]);
    assert_eq!(encode(Message::PreEncodedTping).unwrap(), vec![65, 0, 0, 1]);
    assert_eq!(pre_encoded_tping(), vec![65, 0, 0, 1]);
    assert_eq!(decode(65, 1, vec![]), Ok(Message::Tping { tag: 1 }));
}

#[test]
fn tdiscarded_layout_and_both_codes() {
    let m = Message::Tdiscarded { which: 5, why: "cancel".to_string() };
    let bytes = encode(m.clone()).unwrap();
    let mut want = vec![(-62i8) as u8, 0, 0, 0, 0, 0, 5];
    want.extend_from_slice(b"cancel");
    assert_eq!(bytes, want);
    let body = bytes[4..].to_vec();
    assert_eq!(decode(66, 0, body.clone()), Ok(m.clone()));
    assert_eq!(decode(-62, 0, body.clone()), Ok(m.clone()));
    assert_eq!(decode_tdiscarded(body), Ok(m));
}

#[test]
fn tlease_layout() {
    let m = Message::Tlease { unit: 1, how_long: 1000 };
    let bytes = encode(m.clone()).unwrap();
    assert_eq!(bytes, vec![67, 0, 0, 0, 1, 0, 0, 0, 0, 0, 0, 3, 232]);
    assert_eq!(decode_tlease(bytes[4..].to_vec()), Ok(m));
    assert_eq!(decode_tlease(vec![1, 0, 0, 0]), Err(MuxError::Malformed));
}

#[test]
fn tinit_carries_frame_size() {
    let m = Message::Tinit {
        tag: 3,
        version: 1,
        headers: vec![(b"mux-framer".to_vec(), encode_frame_size(1024))],
    };
    let bytes = encode(m.clone()).unwrap();
    let (typ, tag, body) = split(&bytes);
    assert_eq!((typ, tag), (68, 3));
    let got = decode(typ, tag, body).unwrap();
    assert_eq!(got, m);
    match got {
        Message::Tinit { headers, .. } => {
            assert_eq!(frame_size_of(&headers), Some(1024));
            assert_eq!(decode_frame_size(headers[0].1.clone()), Ok(1024));
        }
        _ => panic!("not a Tinit"),
    }
}

#[test]
fn frame_size_header_values() {
    assert_eq!(encode_frame_size(1024), vec![0, 0, 4, 0]);
    assert_eq!(decode_frame_size(vec![0, 1, 0, 0]), Ok(65536));
    assert_eq!(decode_frame_size(vec![0, 1, 0]), Err(MuxError::Malformed));
    let (k, v) = frame_size_header(7);
    assert_eq!(k, b"mux-framer".to_vec());
    assert_eq!(v, vec![0, 0, 0, 7]);
    let headers = vec![(b"other".to_vec(), vec![9]), (k, v)];
    assert_eq!(frame_size_of(&headers), Some(7));
    assert_eq!(frame_size_of(&vec![(b"mux-framer".to_vec(), vec![1, 2])]), None);
    assert_eq!(frame_size_of(&vec![]), None);
}

#[test]
fn every_kind_round_trips() {
    let ctx = vec![(b"k".to_vec(), b"v".to_vec()), (vec![], vec![0, 0])];
    let dtab = vec![
        Dentry { prefix: "/s".to_string(), dst: "/b/x".to_string() },
        Dentry { prefix: "/ü".to_string(), dst: String::new() },
    ];
    let all = vec![
        Message::Tinit { tag: 2, version: 7, headers: ctx.clone() },
        Message::Rinit { tag: 2, version: 7, headers: vec![] },
        Message::Treq { tag: 9, req: vec![1, 2, 3] },
        Message::RreqOk { tag: 9, reply: vec![0] },
        Message::RreqError { tag: 9, error: "bad".to_string() },
        Message::RreqNack { tag: 9 },
        Message::Tdispatch {
            tag: 10,
            contexts: ctx.clone(),
            dst: "/svc/a".to_string(),
            dtab: dtab.clone(),
            req: vec![5; 10],
        },
        Message::RdispatchOk { tag: 10, contexts: ctx.clone(), reply: vec![6, 7] },
        Message::RdispatchError { tag: 10, contexts: vec![], error: "boom".to_string() },
        Message::RdispatchNack { tag: 10, contexts: ctx.clone() },
        Message::Tdrain { tag: 4 },
        Message::Rdrain { tag: 4 },
        Message::Tping { tag: 8_388_607 },
        Message::Rping { tag: 4 },
        Message::Rerr { tag: 4, error: "no".to_string() },
        Message::Tdiscarded { which: 77, why: String::new() },
        Message::Rdiscarded { tag: 4 },
        Message::Tlease { unit: 0, how_long: u64::MAX },
    ];
    for m in all {
        round_trip(m);
    }
}

#[test]
fn lists_keep_order_duplicates_and_zero_bytes() {
    let ctx = vec![
        (vec![0], vec![0, 0, 0]),
        (b"a".to_vec(), b"1".to_vec()),
        (b"a".to_vec(), b"2".to_vec()),
        (vec![], vec![]),
    ];
    let dtab = vec![
        Dentry { prefix: "/a".to_string(), dst: "/x".to_string() },
        Dentry { prefix: "/a".to_string(), dst: "/y".to_string() },
    ];
    round_trip(Message::Tdispatch {
        tag: 5,
        contexts: ctx.clone(),
        dst: String::new(),
        dtab: dtab.clone(),
        req: vec![],
    });
    round_trip(Message::Tdispatch { tag: 5, contexts: vec![], dst: "/".to_string(), dtab: vec![], req: vec![0] });
    round_trip(Message::Rinit { tag: 5, version: 0, headers: ctx });
}

#[test]
fn tdispatch_body_layout() {
    let m = Message::Tdispatch {
        tag: 2,
        contexts: vec![(vec![1], vec![2, 3])],
        dst: "/d".to_string(),
        dtab: vec![Dentry { prefix: "/p".to_string(), dst: "/q".to_string() }],
        req: vec![9],
    };
    let bytes = encode(m).unwrap();
    assert_eq!(
        bytes,
        vec![2, 0, 0, 2, 0, 1, 0, 1, 1, 0, 2, 2, 3, 0, 2, b'/', b'd', 0, 1, 0, 2, b'/', b'p', 0, 2, b'/', b'q', 9]
    );
}

#[test]
fn legacy_codes_are_emitted_and_both_read() {
    let m = Message::Rerr { tag: 3, error: "e".to_string() };
    let bytes = encode(m.clone()).unwrap();
    assert_eq!(bytes[0], 127);
    assert_eq!(decode(-128, 3, b"e".to_vec()), Ok(m.clone()));
    assert_eq!(decode(127, 3, b"e".to_vec()), Ok(m));
}

#[test]
fn tags_out_of_range_are_refused() {
    assert_eq!(encode(Message::Tping { tag: 1 << 24 }), Err(MuxError::InvalidTag));
    assert_eq!(encode(Message::Rping { tag: u32::MAX }), Err(MuxError::InvalidTag));
    assert_eq!(
        encode(Message::Tdiscarded { which: 1 << 24, why: String::new() }),
        Err(MuxError::InvalidTag)
    );
    // The fragment flag alone is allowed at this layer.
    assert_eq!(encode(Message::Tdrain { tag: (1 << 23) | 5 }).unwrap(), vec![64, 0x80, 0, 5]);
    assert_eq!(encode(Message::Tdrain { tag: (1 << 23) - 1 }).unwrap(), vec![64, 0x7f, 0xff, 0xff]);
}

#[test]
fn oversized_fields_are_refused() {
    let m = Message::RdispatchOk { tag: 2, contexts: vec![(vec![0; 65536], vec![])], reply: vec![] };
    assert_eq!(encode(m), Err(MuxError::Oversized));
    let m = Message::Tdispatch {
        tag: 2,
        contexts: vec![],
        dst: "x".repeat(65536),
        dtab: vec![],
        req: vec![],
    };
    assert_eq!(encode(m), Err(MuxError::Oversized));
    let m = Message::Tdispatch {
        tag: 2,
        contexts: vec![],
        dst: "x".repeat(65535),
        dtab: vec![],
        req: vec![],
    };
    round_trip(m);
    let m = Message::Tping { tag: 1 << 25 };
    assert_eq!(encode(m), Err(MuxError::InvalidTag));
}

#[test]
fn treq_with_keys_is_rejected() {
    assert_eq!(decode_treq(4, vec![1, 9, 9]), Err(MuxError::Malformed));
    assert_eq!(decode(1, 4, vec![2]), Err(MuxError::Malformed));
    assert_eq!(decode_treq(4, vec![]), Err(MuxError::Malformed));
    assert_eq!(decode_treq(4, vec![0, 9]), Ok(Message::Treq { tag: 4, req: vec![9] }));
}

#[test]
fn bad_status_bytes_are_rejected() {
    assert_eq!(decode_rreq(4, vec![3]), Err(MuxError::Malformed));
    assert_eq!(decode(-1, 4, vec![255, 1]), Err(MuxError::Malformed));
    assert_eq!(decode_rdispatch(4, vec![3, 0, 0]), Err(MuxError::Malformed));
    assert_eq!(decode(-2, 4, vec![7, 0, 0, 1]), Err(MuxError::Malformed));
    assert_eq!(decode_rreq(4, vec![2]), Ok(Message::RreqNack { tag: 4 }));
    assert_eq!(decode_rdispatch(4, vec![2, 0, 0]), Ok(Message::RdispatchNack { tag: 4, contexts: vec![] }));
}

#[test]
fn short_and_unknown_bodies_are_malformed() {
    assert_eq!(decode(68, 2, vec![0]), Err(MuxError::Malformed));
    assert_eq!(decode(68, 2, vec![0, 1, 0, 0, 0, 5, 1]), Err(MuxError::Malformed));
    assert_eq!(decode(2, 2, vec![0, 1, 0]), Err(MuxError::Malformed));
    assert_eq!(decode(-2, 2, vec![]), Err(MuxError::Malformed));
    assert_eq!(decode(-1, 2, vec![]), Err(MuxError::Malformed));
    assert_eq!(decode(66, 0, vec![0, 1]), Err(MuxError::Malformed));
    assert_eq!(decode(3, 2, vec![]), Err(MuxError::Malformed));
    assert_eq!(decode(0, 2, vec![]), Err(MuxError::Malformed));
}

#[test]
fn text_must_be_utf8() {
    assert_eq!(decode_rreq(4, vec![1, 0xff, 0xfe]), Err(MuxError::Malformed));
    assert_eq!(decode(-128, 4, vec![0xc3]), Err(MuxError::Malformed));
    assert_eq!(decode_rreq(4, vec![1, 0xc3, 0xbc]), Ok(Message::RreqError { tag: 4, error: "ü".to_string() }));
    let mut body = vec![0, 0, 0, 2, 0xff, 0xff, 0, 0];
    assert_eq!(decode(2, 4, body.clone()), Err(MuxError::Malformed));
    body[4] = b'/';
    body[5] = b'a';
    assert_eq!(
        decode(2, 4, body),
        Ok(Message::Tdispatch { tag: 4, contexts: vec![], dst: "/a".to_string(), dtab: vec![], req: vec![] })
    );
}

#[test]
fn tag_bit_helpers() {
    assert_eq!(extract_type(0xC200_0005), -62);
    assert_eq!(extract_type(0x4100_0001), 65);
    assert_eq!(extract_tag(0xC280_0005), 0x80_0005);
    assert!(is_fragment(0x80_0003));
    assert!(!is_fragment(0x7f_ffff));
    assert_eq!(set_msb(3), 0x80_0003);
    assert_eq!(set_msb(0x80_0003), 0x80_0003);
}

#[test]
fn bytes_after_the_fixed_fields_are_not_read() {
    assert_eq!(decode(65, 1, vec![0]), Ok(Message::Tping { tag: 1 }));
    assert_eq!(decode(64, 2, vec![1, 2]), Ok(Message::Tdrain { tag: 2 }));
    assert_eq!(decode(-64, 2, vec![1]), Ok(Message::Rdrain { tag: 2 }));
    assert_eq!(decode(-65, 2, vec![1]), Ok(Message::Rping { tag: 2 }));
    assert_eq!(decode(-66, 2, vec![1]), Ok(Message::Rdiscarded { tag: 2 }));
    assert_eq!(decode_rreq(2, vec![2, 5]), Ok(Message::RreqNack { tag: 2 }));
    assert_eq!(
        decode_rdispatch(2, vec![2, 0, 0, 9]),
        Ok(Message::RdispatchNack { tag: 2, contexts: vec![] })
    );
    assert_eq!(
        decode_tlease(vec![1, 0, 0, 0, 0, 0, 0, 3, 232, 0]),
        Ok(Message::Tlease { unit: 1, how_long: 1000 })
    );
    assert_eq!(decode_frame_size(vec![0, 0, 4, 0, 7]), Ok(1024));
}
