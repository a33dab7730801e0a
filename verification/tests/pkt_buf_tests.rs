use stablessh::pkt_buf::{decode_cursor, to_ack_pkt, to_pkt, AckBuf, DataBuf};

#[test]
fn test_buf() {
    let mut buf = DataBuf::new();

    buf.push(vec![0x00, 0x00, 0x00, 0x01, 0x00, 0x01]);
    assert_eq!(buf.next(), None);
    buf.push(vec![0x00]);
    assert_eq!(buf.next(), Some((1, vec![0x00])));
    assert_eq!(buf.next(), None);
    assert_eq!(buf.buf.len(), 0);

    buf.push(vec![0x00, 0x00, 0x00, 0x02, 0x00, 0x00]);
    assert_eq!(buf.next(), Some((2, vec![])));
    assert_eq!(buf.next(), None);
    assert_eq!(buf.buf.len(), 0);

    buf.push(vec![0x00, 0x00, 0x00, 0x03, 0x00, 0x01, 0x00, 0x00]);
    assert_eq!(buf.next(), Some((3, vec![0x00])));
    assert_eq!(buf.next(), None);
    assert_eq!(buf.buf.len(), 1);
}

#[test]
fn test_framing_split() {
    // A frame split between the header and its payload byte.
    let mut buf = DataBuf::new();
    buf.push(vec![0x00, 0x00, 0x00, 0x01, 0x00, 0x01]);
    assert_eq!(buf.next(), None);
    buf.push(vec![0x00]);
    assert_eq!(buf.next(), Some((1, vec![0x00])));
}

#[test]
fn test_header_split() {
    // A split in the middle of the six header bytes.
    let mut buf = DataBuf::new();
    buf.push(vec![0x00, 0x00]);
    assert_eq!(buf.next(), None);
    buf.push(vec![0x00, 0x07, 0x00]);
    assert_eq!(buf.next(), None);
    buf.push(vec![0x02, 0xaa, 0xbb]);
    assert_eq!(buf.next(), Some((7, vec![0xaa, 0xbb])));
    assert_eq!(buf.buf.len(), 0);
}

#[test]
fn test_empty_payload() {
    let mut buf = DataBuf::new();
    buf.push(vec![0x00, 0x00, 0x00, 0x02, 0x00, 0x00]);
    assert_eq!(buf.next(), Some((2, vec![])));
}

#[test]
fn test_trailing_bytes() {
    let mut buf = DataBuf::new();
    buf.push(vec![0x00, 0x00, 0x00, 0x03, 0x00, 0x01, 0x00, 0x00]);
    assert_eq!(buf.next(), Some((3, vec![0x00])));
    // One trailing byte stays buffered for the next frame.
    assert_eq!(buf.buf, vec![0x00]);
}

#[test]
fn test_encode_data() {
    let pkt = to_pkt(0xdead_beef, vec![0x10, 0x20, 0x30]);
    assert_eq!(pkt, vec![0xde, 0xad, 0xbe, 0xef, 0x00, 0x03, 0x10, 0x20, 0x30]);
    let empty = to_pkt(2, vec![]);
    assert_eq!(empty, vec![0x00, 0x00, 0x00, 0x02, 0x00, 0x00]);
}

#[test]
fn test_encode_ack() {
    assert_eq!(to_ack_pkt(0xdead_beef), vec![0xde, 0xad, 0xbe, 0xef]);
    assert_eq!(to_ack_pkt(1), vec![0x00, 0x00, 0x00, 0x01]);
}

#[test]
fn test_round_trip() {
    // decode(encode_data(id, p)) yields exactly (id, p), however the
    // encoded bytes are split across decoder inputs.
    let id: u32 = 0x01020304;
    let payload: Vec<u8> = (0u8..50).collect();
    let encoded = to_pkt(id, payload.clone());
    for split in 0..encoded.len() {
        let mut buf = DataBuf::new();
        buf.push(encoded[..split].to_vec());
        buf.push(encoded[split..].to_vec());
        assert_eq!(buf.next(), Some((id, payload.clone())));
        assert_eq!(buf.next(), None);
        assert_eq!(buf.buf.len(), 0);
    }
}

#[test]
fn test_ack_decoder() {
    let mut buf = AckBuf::new();
    buf.push(vec![0x00, 0x00]);
    assert_eq!(buf.next(), None);
    buf.push(vec![0x00, 0x05, 0x00, 0x00, 0x00]);
    assert_eq!(buf.next(), Some(5));
    // The partial second acknowledgement stays buffered.
    assert_eq!(buf.next(), None);
    assert_eq!(buf.buf, vec![0x00, 0x00, 0x00]);
    buf.push(vec![0x06]);
    assert_eq!(buf.next(), Some(6));
    assert_eq!(buf.buf.len(), 0);
}

#[test]
fn test_ack_many_in_one_read() {
    // A single read may contain many acknowledgements.
    let mut buf = AckBuf::new();
    let mut bytes = to_ack_pkt(1);
    bytes.extend(to_ack_pkt(2));
    bytes.extend(to_ack_pkt(3));
    buf.push(bytes);
    assert_eq!(buf.next(), Some(1));
    assert_eq!(buf.next(), Some(2));
    assert_eq!(buf.next(), Some(3));
    assert_eq!(buf.next(), None);
}

#[test]
fn test_decode_cursor() {
    assert_eq!(decode_cursor(&[0x00, 0x00, 0x00, 0x01]), 1);
    assert_eq!(decode_cursor(&[0xde, 0xad, 0xbe, 0xef]), 0xdead_beef);
    // Encoding a cursor and reading it back is the identity.
    assert_eq!(decode_cursor(&to_ack_pkt(0x01020304)), 0x01020304);
}
