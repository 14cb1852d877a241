use clog::compress::pco_read_header;
use clog::compress::pco_write_header;
use clog::varint::encode_u64_varint;
use clog::varint::decode_u64_varint;
use clog::shema::Builder;
use clog::types::StringMap;
use clog::DecodeError;
use clog::Headers;
use clog::ipv4_mapped;
use clog::Options;
use clog::Protocol;
use clog::RequestEntry;

fn entry(status: u16, method: &str, uri: &str, time: u64, ip: u128) -> RequestEntry {
    RequestEntry {
        status,
        method: method.to_string(),
        uri: uri.to_string(),
        ua: None,
        referer: None,
        ip,
        port: 443,
        time,
        body: None,
        headers: Headers(String::new()),
        host: "example.net".to_string(),
        proto: Protocol::Https,
    }
}

#[test]
fn varint_round_trip() {
    let values: Vec<u64> = vec![0, 1, 127, 128, 300, 65535, 1 << 32, u64::MAX];
    for v in values {
        let mut buf = Vec::new();
        encode_u64_varint(v, &mut buf);
        let (n, end) = decode_u64_varint(&buf, 0).unwrap();
        assert_eq!(n, v);
        assert_eq!(end, buf.len());
    }
}

#[test]
fn varint_rejects_bad_input() {
    // truncated: the continuation bit promises another byte
    assert!(matches!(decode_u64_varint(&[0x80], 0), Err(DecodeError::Truncated)));
    // non-canonical: a zero continuation tail never comes from the encoder
    assert!(matches!(decode_u64_varint(&[0x80, 0x00], 0), Err(DecodeError::Malformed)));
    assert!(matches!(decode_u64_varint(&[], 0), Err(DecodeError::Truncated)));
}

#[test]
fn varint_matches_postcard() {
    for v in [0u64, 1, 127, 128, 300, 16384, u64::MAX] {
        let mut buf = Vec::new();
        encode_u64_varint(v, &mut buf);
        let reference: Vec<u8> = postcard::to_allocvec(&v).unwrap();
        assert_eq!(buf, reference);
    }
}

#[test]
fn test_stringmap() {
    let mut writer: Vec<u8> = vec![];
    pco_write_header(&mut writer).unwrap();
    let header_len = writer.len();

    let mut map = StringMap::new();
    let entry: Vec<(String, String)> = vec![
        ("Foo".to_string(), "bar".to_string()),
        ("baz".to_string(), "0123 412".to_string()),
    ];
    let n = map.add(&entry);
    let (ksz, vsz, ne) = map
        .write(&[n], &Options::new(1), &mut writer)
        .unwrap();

    let (fd, used) = pco_read_header(&writer).unwrap();
    assert_eq!(used, header_len);
    let (map2, handles, _) = StringMap::read(&fd, &writer[used..], 1, ksz, vsz, ne).unwrap();
    assert_eq!(handles, vec![n]);
    assert_eq!(map2.get(n).unwrap(), entry);
}

#[test]
fn three_records_round_trip() {
    // ingest three records, encode at the current version, read them back
    let ip = ipv4_mapped(1, 2, 3, 4);
    let rows = vec![
        entry(200, "GET", "/a", 100, ip),
        entry(404, "GET", "/b", 101, ip),
        entry(200, "GET", "/a", 102, ip),
    ];
    let mut b = Builder::new();
    for r in &rows {
        assert!(b.can_add(r));
        b.add_checked(r);
    }
    let mut buf = Vec::new();
    b.write_to(&Options::new(1), &mut buf).unwrap();
    let d = Builder::from_slice(&buf).unwrap();
    assert_eq!(d.len(), 3);
    for (i, r) in rows.iter().enumerate() {
        let got = d.get(i).unwrap();
        assert_eq!(got.status, r.status);
        assert_eq!(got.method, r.method);
        assert_eq!(got.uri, r.uri);
        assert_eq!(got.port, r.port);
        assert_eq!(got.time, r.time);
        assert_eq!(got.ip, 0xffff_01020304u128);
        assert_eq!(got.host, r.host);
        assert_eq!(got.proto, r.proto);
        assert_eq!(got.body, None);
    }
}

#[test]
fn version_downgrade_read() {
    // bytes produced at an old version read back with defaulted new fields
    let ip = ipv4_mapped(9, 8, 7, 6);
    let mut r0 = entry(301, "POST", "/x", 555, ip);
    r0.ua = Some("agent".to_string());
    r0.referer = Some("/from".to_string());
    r0.body = Some(vec![1, 2, 3]);
    r0.headers = Headers("k:v".to_string());
    let mut b = Builder::new();
    assert!(b.can_add(&r0));
    b.add_checked(&r0);
    let mut buf = Vec::new();
    b.write_to_version(2, &Options::new(1), &mut buf).unwrap();
    let d = Builder::from_slice(&buf).unwrap();
    assert_eq!(d.len(), 1);
    let got = d.get(0).unwrap();
    assert_eq!(got.status, 301);
    assert_eq!(got.method, "POST");
    assert_eq!(got.uri, "/x");
    assert_eq!(got.time, 555);
    assert_eq!(got.ip, ip);
    // the old version carries these
    assert_eq!(got.ua.as_deref(), Some("agent"));
    assert_eq!(got.body.as_deref(), Some(&[1u8, 2, 3][..]));
    // fields outside the old gate default
    assert_eq!(got.headers.0, "");
    assert_eq!(got.host, "");
    assert_eq!(got.proto, Protocol::Unknown);
}

#[test]
fn empty_block_round_trip() {
    let b = Builder::new();
    let mut buf = Vec::new();
    b.write_to(&Options::new(1), &mut buf).unwrap();
    let d = Builder::from_slice(&buf).unwrap();
    assert_eq!(d.len(), 0);
    assert!(d.get(0).is_none());
}

#[test]
fn single_entry_dictionary() {
    // every row shares one uri: the handle column is constant and the one
    // dictionary entry restores every row
    let ip = ipv4_mapped(10, 0, 0, 1);
    let mut b = Builder::new();
    for i in 0..5u64 {
        let r = entry(200, "GET", "/only", 1000 + i, ip);
        assert!(b.can_add(&r));
        b.add_checked(&r);
    }
    let mut buf = Vec::new();
    b.write_to(&Options::new(1), &mut buf).unwrap();
    let d = Builder::from_slice(&buf).unwrap();
    assert_eq!(d.len(), 5);
    for i in 0..5usize {
        assert_eq!(d.get(i).unwrap().uri, "/only");
    }
}

#[test]
fn version_reject() {
    let b = Builder::new();
    let mut buf = Vec::new();
    b.write_to(&Options::new(1), &mut buf).unwrap();
    // the body starts with the version varint; a newer one is refused
    buf[0] = 5;
    assert!(matches!(Builder::from_slice(&buf), Err(DecodeError::VersionTooNew)));
}

#[test]
fn headers_survive_round_trip() {
    let ip = ipv4_mapped(1, 1, 1, 1);
    let mut r0 = entry(200, "GET", "/h", 7, ip);
    r0.headers = Headers("accept:text\ncookie:a=b".to_string());
    let mut b = Builder::new();
    assert!(b.can_add(&r0));
    b.add_checked(&r0);
    let mut buf = Vec::new();
    b.write_to(&Options::new(1), &mut buf).unwrap();
    let d = Builder::from_slice(&buf).unwrap();
    assert_eq!(d.get(0).unwrap().headers.0, "accept:text\ncookie:a=b");
}
