//! The feed between a window and the daemon.

use quill::kernel::feed::{
    decode_dims, decode_tab_list, encode_dims, encode_into, encode_tab_list, encode_tab_op, FeedDecoder,
    FeedError, FeedFrame, FeedTabOp, FrameKind, DIMS_PAYLOAD_LEN, FEED_HEADER_LEN, MAX_FEED_PAYLOAD,
};

fn frame(kind: FrameKind, ws: u64, tab: u64, payload: &[u8]) -> FeedFrame {
    FeedFrame {
        kind,
        ws_id: ws,
        tab_id: tab,
        payload: payload.to_vec(),
    }
}

#[test]
fn encode_layout_is_little_endian_fixed_header() {
    let f = frame(FrameKind::PtyOutput, 0x0102_0304_0506_0708, 0x1112, b"hi");
    let bytes = f.encode();
    assert_eq!(bytes.len(), FEED_HEADER_LEN + 2);
    assert_eq!(bytes[0], 1);
    assert_eq!(&bytes[1..9], &[0x08, 0x07, 0x06, 0x05, 0x04, 0x03, 0x02, 0x01]);
    assert_eq!(&bytes[9..17], &[0x12, 0x11, 0, 0, 0, 0, 0, 0]);
    assert_eq!(&bytes[17..21], &[2, 0, 0, 0]);
    assert_eq!(&bytes[21..], b"hi");
}

#[test]
fn roundtrip_all_kinds() {
    let cases = [
        frame(FrameKind::PtyOutput, 1, 2, b"\x1b[31mred\x1b[0m"),
        frame(FrameKind::Input, 7, 9, b"RUNDONE\n"),
        frame(FrameKind::FocusChange, 42, 43, b""),
        frame(FrameKind::Dims, 1, 7, &encode_dims(212, 56)),
        frame(FrameKind::WorkspaceAdd, 5, 0, b"meta"),
        frame(FrameKind::WorkspaceRemove, 5, 0, b""),
        frame(
            FrameKind::TabList,
            1,
            7,
            &encode_tab_list(1, &[(7, "sh"), (9, "vim")]),
        ),
        frame(FrameKind::TabOp, 1, 0, b"\x01"),
    ];
    for f in cases {
        let mut dec = FeedDecoder::new();
        dec.push(&f.encode());
        let got = dec.next_frame().unwrap().unwrap();
        assert_eq!(got, f);
        assert!(dec.next_frame().unwrap().is_none());
    }
}

#[test]
fn encode_into_reuses_buffer() {
    let mut buf = Vec::new();
    encode_into(&mut buf, FrameKind::PtyOutput, 1, 1, b"aaa");
    let first = buf.clone();
    buf.clear();
    encode_into(&mut buf, FrameKind::PtyOutput, 1, 1, b"aaa");
    assert_eq!(buf, first);
}

#[test]
fn partial_header_then_payload() {
    let f = frame(FrameKind::PtyOutput, 3, 4, b"hello world");
    let bytes = f.encode();
    let mut dec = FeedDecoder::new();
    dec.push(&bytes[..5]);
    assert!(dec.next_frame().unwrap().is_none());
    dec.push(&bytes[5..FEED_HEADER_LEN]);
    assert!(dec.next_frame().unwrap().is_none());
    let mid = FEED_HEADER_LEN + 3;
    dec.push(&bytes[FEED_HEADER_LEN..mid]);
    assert!(dec.next_frame().unwrap().is_none());
    dec.push(&bytes[mid..]);
    let got = dec.next_frame().unwrap().unwrap();
    assert_eq!(got, f);
}

#[test]
fn coalesced_two_frames() {
    let a = frame(FrameKind::PtyOutput, 1, 1, b"AAA");
    let b = frame(FrameKind::Input, 2, 2, b"BBBB");
    let mut blob = a.encode();
    blob.extend_from_slice(&b.encode());
    let mut dec = FeedDecoder::new();
    dec.push(&blob);
    assert_eq!(dec.next_frame().unwrap().unwrap(), a);
    assert_eq!(dec.next_frame().unwrap().unwrap(), b);
    assert!(dec.next_frame().unwrap().is_none());
}

#[test]
fn byte_by_byte_feed_reconstructs_all() {
    let frames = [
        frame(FrameKind::FocusChange, 9, 10, b""),
        frame(FrameKind::PtyOutput, 9, 10, b"line one\r\nline two\r\n"),
        frame(FrameKind::Input, 9, 10, b"x"),
    ];
    let mut blob = Vec::new();
    for f in &frames {
        blob.extend_from_slice(&f.encode());
    }
    let mut dec = FeedDecoder::new();
    let mut out = Vec::new();
    for &byte in &blob {
        dec.push(&[byte]);
        while let Some(f) = dec.next_frame().unwrap() {
            out.push(f);
        }
    }
    assert_eq!(out, frames);
}

#[test]
fn decoder_compacts_and_stays_bounded() {
    let f = frame(FrameKind::PtyOutput, 1, 1, &[b'z'; 1000]);
    let enc = f.encode();
    let mut dec = FeedDecoder::new();
    for _ in 0..1000 {
        dec.push(&enc);
        let got = dec.next_frame().unwrap().unwrap();
        assert_eq!(got.payload.len(), 1000);
        assert!(dec.next_frame().unwrap().is_none());
    }
    assert!(dec.buffered() <= enc.len());
}

#[test]
fn tab_list_payload_roundtrip_and_reject_bad() {
    let tabs = [(7u64, "bash"), (9u64, "中文标题")];
    let enc = encode_tab_list(1, &tabs);
    let (active, got) = decode_tab_list(&enc).unwrap();
    assert_eq!(active, 1);
    assert_eq!(got.len(), 2);
    assert_eq!(got[0], (7, "bash".to_string()));
    assert_eq!(got[1], (9, "中文标题".to_string()));
    let empty = encode_tab_list(0, &[]);
    let (a, g) = decode_tab_list(&empty).unwrap();
    assert_eq!(a, 0);
    assert!(g.is_empty());
    let mut bad = Vec::new();
    bad.extend_from_slice(&0u32.to_le_bytes());
    bad.extend_from_slice(&1u32.to_le_bytes());
    assert_eq!(decode_tab_list(&bad), None);
    let mut bad2 = Vec::new();
    bad2.extend_from_slice(&0u32.to_le_bytes());
    bad2.extend_from_slice(&1u32.to_le_bytes());
    bad2.extend_from_slice(&7u64.to_le_bytes());
    bad2.extend_from_slice(&99u32.to_le_bytes());
    assert_eq!(decode_tab_list(&bad2), None);
    assert_eq!(decode_tab_list(&[]), None);
    assert_eq!(decode_tab_list(&[1, 2, 3]), None);
}

#[test]
fn dims_payload_roundtrip_and_reject_bad_len() {
    for (c, r) in [(80u16, 24u16), (1, 1), (u16::MAX, u16::MAX), (212, 56)] {
        let p = encode_dims(c, r);
        assert_eq!(p.len(), DIMS_PAYLOAD_LEN);
        assert_eq!(decode_dims(&p), Some((c, r)));
    }
    assert_eq!(decode_dims(&[]), None);
    assert_eq!(decode_dims(&[1, 2, 3]), None);
    assert_eq!(decode_dims(&[1, 2, 3, 4, 5]), None);
}

#[test]
fn invalid_kind_errors() {
    let mut bytes = frame(FrameKind::PtyOutput, 1, 1, b"x").encode();
    bytes[0] = 0xFF;
    let mut dec = FeedDecoder::new();
    dec.push(&bytes);
    assert_eq!(dec.next_frame(), Err(FeedError::InvalidKind(0xFF)));
}

#[test]
fn oversized_len_errors_before_waiting() {
    let mut buf = Vec::new();
    buf.push(FrameKind::PtyOutput.to_u8());
    buf.extend_from_slice(&1u64.to_le_bytes());
    buf.extend_from_slice(&1u64.to_le_bytes());
    buf.extend_from_slice(&(MAX_FEED_PAYLOAD as u32 + 1).to_le_bytes());
    let mut dec = FeedDecoder::new();
    dec.push(&buf);
    assert_eq!(
        dec.next_frame(),
        Err(FeedError::PayloadTooLarge(MAX_FEED_PAYLOAD + 1))
    );
}

#[test]
fn a_title_that_is_no_text_is_read_with_replacements() {
    let mut payload = Vec::new();
    payload.extend_from_slice(&0u32.to_le_bytes());
    payload.extend_from_slice(&1u32.to_le_bytes());
    payload.extend_from_slice(&7u64.to_le_bytes());
    payload.extend_from_slice(&3u32.to_le_bytes());
    payload.extend_from_slice(&[b'a', 0xff, b'b']);
    assert_eq!(
        decode_tab_list(&payload),
        Some((0, vec![(7, "a\u{fffd}b".to_string())]))
    );
}

#[test]
fn draining_gives_all_whole_frames() {
    let a = frame(FrameKind::PtyOutput, 1, 1, b"AAA");
    let b = frame(FrameKind::Input, 2, 2, b"BBBB");
    let mut blob = a.encode();
    blob.extend_from_slice(&b.encode());
    let mut dec = FeedDecoder::new();
    let cut = blob.len() - 2;
    assert_eq!(dec.drain(&blob[..cut]), (vec![a], None));
    assert_eq!(dec.drain(&blob[cut..]), (vec![b], None));
}

#[test]
fn draining_stops_at_a_bad_frame() {
    let a = frame(FrameKind::PtyOutput, 1, 1, b"AAA");
    let mut blob = a.encode();
    let mut bad = frame(FrameKind::PtyOutput, 1, 1, b"x").encode();
    bad[0] = 9;
    blob.extend_from_slice(&bad);
    let mut dec = FeedDecoder::new();
    assert_eq!(dec.drain(&blob), (vec![a], Some(FeedError::InvalidKind(9))));
    assert_eq!(dec.drain(b"more"), (vec![], Some(FeedError::InvalidKind(9))));
}

#[test]
fn kinds_and_their_bytes() {
    for b in 1..=8u8 {
        assert_eq!(FrameKind::from_u8(b).unwrap().to_u8(), b);
    }
    assert_eq!(FrameKind::from_u8(0), None);
    assert_eq!(FrameKind::from_u8(9), None);
}

#[test]
fn tab_operations_as_payloads() {
    assert_eq!(encode_tab_op(FeedTabOp::New), vec![1]);
    assert_eq!(
        encode_tab_op(FeedTabOp::Close { tab_id: 0x0102 }),
        vec![2, 2, 1, 0, 0, 0, 0, 0, 0]
    );
    assert_eq!(
        encode_tab_op(FeedTabOp::Reorder { origin: 1, target: 2 }),
        vec![3, 1, 0, 0, 0, 2, 0, 0, 0]
    );
}

#[test]
fn errors_in_words() {
    assert_eq!(FeedError::InvalidKind(255).to_string(), "未知喂料帧 kind 字节: 255");
    assert_eq!(
        FeedError::PayloadTooLarge(16777217).to_string(),
        "喂料帧 payload 长度 16777217 超上限 16777216"
    );
}

#[test]
fn asking_for_frames_between_pieces_changes_nothing() {
    let frames = [
        frame(FrameKind::PtyOutput, 1, 2, b"abc"),
        frame(FrameKind::FocusChange, 1, 3, b""),
        frame(FrameKind::Input, 4, 5, b"defgh"),
    ];
    let mut blob = Vec::new();
    for f in &frames {
        blob.extend_from_slice(&f.encode());
    }
    for piece in [1, 7, FEED_HEADER_LEN, 40, blob.len()] {
        let mut dec = FeedDecoder::new();
        let mut out = Vec::new();
        for part in blob.chunks(piece) {
            dec.push(part);
            if let Some(f) = dec.next_frame().unwrap() {
                out.push(f);
            }
        }
        while let Some(f) = dec.next_frame().unwrap() {
            out.push(f);
        }
        assert_eq!(out, frames);
    }
}

#[test]
fn a_tab_list_is_read_whole_or_not_at_all() {
    let enc = encode_tab_list(1, &[(7, "sh"), (u64::MAX, ""), (9, "中")]);
    let tabs = vec![(7, "sh".to_string()), (u64::MAX, String::new()), (9, "中".to_string())];
    assert_eq!(decode_tab_list(&enc), Some((1, tabs.clone())));
    for n in 0..enc.len() {
        assert_eq!(decode_tab_list(&enc[..n]), None);
    }
    let mut longer = enc;
    longer.push(0);
    assert_eq!(decode_tab_list(&longer), Some((1, tabs)));
}
