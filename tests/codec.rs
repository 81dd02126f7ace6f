use rspb::codec::{decode_meta, encode_meta};
use rspb::meta::PasteMeta;

fn sample() -> PasteMeta {
    PasteMeta {
        create_time: -5,
        expire_time: Some(1_700_000_000),
        atime: None,
        name: Some("notes.txt".to_string()),
        size: 300,
        key: "secret-key".to_string(),
    }
}

fn same(a: &PasteMeta, b: &PasteMeta) -> bool {
    a.create_time == b.create_time
        && a.expire_time == b.expire_time
        && a.atime == b.atime
        && a.name == b.name
        && a.size == b.size
        && a.key == b.key
}

#[test]
fn record_round_trips() {
    let m = sample();
    let bytes = encode_meta(&m);
    let back = decode_meta(&bytes).unwrap();
    assert!(same(&m, &back));
}

#[test]
fn record_layout_is_fixed() {
    let m = PasteMeta {
        create_time: 1,
        expire_time: None,
        atime: Some(2),
        name: None,
        size: 5,
        key: "k1".to_string(),
    };
    let bytes = encode_meta(&m);
    let mut want: Vec<u8> = vec![1, 0, 0, 0, 0, 0, 0, 0, 0, 1, 2, 0, 0, 0, 0, 0, 0, 0, 0];
    want.extend_from_slice(&[5, 0, 0, 0, 0, 0, 0, 0]);
    want.extend_from_slice(&[2, 0, 0, 0, 0, 0, 0, 0, b'k', b'1']);
    assert_eq!(bytes, want);
}

#[test]
fn record_with_unicode_name_round_trips() {
    let mut m = sample();
    m.name = Some("größe ✓".to_string());
    let back = decode_meta(&encode_meta(&m)).unwrap();
    assert!(same(&m, &back));
}

#[test]
fn truncated_or_padded_records_are_refused() {
    let bytes = encode_meta(&sample());
    assert!(decode_meta(&bytes[..bytes.len() - 1].to_vec()).is_none());
    let mut longer = bytes.clone();
    longer.push(0);
    assert!(decode_meta(&longer).is_none());
    assert!(decode_meta(&Vec::new()).is_none());
}

#[test]
fn bad_tag_or_utf8_is_refused() {
    let mut bytes = encode_meta(&sample());
    bytes[8] = 7;
    assert!(decode_meta(&bytes).is_none());
    let m = PasteMeta { name: None, ..sample() };
    let mut raw = encode_meta(&m);
    let last = raw.len() - 1;
    raw[last] = 0xff;
    assert!(decode_meta(&raw).is_none());
}
