use mingit::pkt::{pkt_encode, pkt_flush};
use mingit::{GitError, PacketLine, PacketLineBuilder, PacketLineIterator};

#[test]
fn want_request_layout() {
    let hex = b"0123456789abcdef0123456789abcdef01234567".to_vec();
    let mut plb = PacketLineBuilder::new();
    plb.want(hex.clone());
    let line = plb.build();
    let mut expected = b"0032want 0123456789abcdef0123456789abcdef01234567\n".to_vec();
    expected.extend(b"0000");
    expected.extend(b"0009done\n");
    assert_eq!(line.data, expected);
}

#[test]
fn pkt_roundtrip_with_flush_preserved() {
    let payloads: Vec<&[u8]> = vec![b"first\n", b"second"];
    let mut stream = Vec::new();
    for p in &payloads {
        stream.extend(pkt_encode(p));
    }
    stream.extend(pkt_flush());
    stream.extend(pkt_encode(b"after\n"));

    let mut it = PacketLineIterator::new(stream);
    assert_eq!(it.next().unwrap().data, b"first\n".to_vec());
    assert_eq!(it.next().unwrap().data, b"second".to_vec());
    let flush = it.next().unwrap();
    assert!(flush.is_empty());
    assert_eq!(it.next().unwrap().data, b"after\n".to_vec());
    assert!(it.next().is_none());
}

#[test]
fn pkt_parse_single_lines() {
    let pl = PacketLine::try_from(b"0009done\n").unwrap();
    assert_eq!(pl.data, b"done\n".to_vec());
    assert_eq!(pl.len(), 5);

    let flush = PacketLine::try_from(b"0000rest").unwrap();
    assert!(flush.is_empty());
}

#[test]
fn pkt_parse_rejects_broken_frames() {
    assert_eq!(PacketLine::try_from(b"00"), Err(GitError::ProtocolError));
    assert_eq!(PacketLine::try_from(b"zzzzxx"), Err(GitError::ProtocolError));
    // stated length larger than the stream
    assert_eq!(PacketLine::try_from(b"00ffshort"), Err(GitError::ProtocolError));
    // stated length below the header's own four bytes
    assert_eq!(PacketLine::try_from(b"0002xx"), Err(GitError::ProtocolError));
}

#[test]
fn iterator_stops_when_fewer_than_four_bytes_remain() {
    let mut stream = pkt_encode(b"abc");
    stream.extend(b"xy");
    let mut it = PacketLineIterator::new(stream);
    assert_eq!(it.next().unwrap().data, b"abc".to_vec());
    assert!(it.next().is_none());
}

#[test]
fn empty_payload_is_not_flush() {
    // "0004" is a data packet with an empty payload, distinct on the wire
    // from "0000", though both read back as empty lines
    let enc = pkt_encode(b"");
    assert_eq!(enc, b"0004".to_vec());
    let pl = PacketLine::try_from(&enc[..]).unwrap();
    assert!(pl.is_empty());
}
