use pinroar::codec::{decode_pins, decode_user, encode_pins, encode_user};
use pinroar::credential::UserRecord;
use pinroar::pin::Pin;

fn sample_pins() -> Vec<Pin> {
    let mut a = Pin::new();
    a.id = 7;
    a.title = "Ünïcode ✓".to_string();
    a.urls = vec!["http://a.com".to_string()];
    a.description = "first".to_string();
    a.tags = vec!["x".to_string(), "yz".to_string()];
    a.starred = true;
    let mut b = Pin::new();
    b.id = 8;
    b.urls = vec!["http://b.com/".to_string(), "http://b.org".to_string()];
    b.unread = true;
    vec![a, b]
}

#[test]
fn pins_survive_a_round_trip() {
    let pins = sample_pins();
    let bytes = encode_pins(&pins);
    let back = decode_pins(&bytes).unwrap();
    assert_eq!(back.len(), 2);
    for (x, y) in pins.iter().zip(back.iter()) {
        assert_eq!(x.id, y.id);
        assert_eq!(x.title, y.title);
        assert_eq!(x.urls, y.urls);
        assert_eq!(x.description, y.description);
        assert_eq!(x.tags, y.tags);
        assert_eq!(x.starred, y.starred);
        assert_eq!(x.unread, y.unread);
    }
    assert_eq!(encode_pins(&back), bytes);
}

#[test]
fn empty_collection_is_eight_zero_bytes() {
    let bytes = encode_pins(&vec![]);
    assert_eq!(bytes, vec![0u8; 8]);
    assert_eq!(decode_pins(&bytes).unwrap().len(), 0);
}

#[test]
fn string_layout_is_count_then_codes() {
    let mut p = Pin::new();
    p.id = 1;
    p.title = "A".to_string();
    let bytes = encode_pins(&vec![p]);
    let mut expected = vec![1, 0, 0, 0, 0, 0, 0, 0];
    expected.extend_from_slice(&[1, 0, 0, 0, 0, 0, 0, 0]);
    expected.extend_from_slice(&[1, 0, 0, 0, 0, 0, 0, 0, 65, 0, 0, 0]);
    expected.extend_from_slice(&[0; 8]);
    expected.extend_from_slice(&[0; 8]);
    expected.extend_from_slice(&[0; 8]);
    expected.extend_from_slice(&[0, 0]);
    assert_eq!(bytes, expected);
}

#[test]
fn malformed_collections_are_refused() {
    let bytes = encode_pins(&sample_pins());
    assert!(decode_pins(&bytes[..bytes.len() - 1].to_vec()).is_none());
    let mut longer = bytes.clone();
    longer.push(0);
    assert!(decode_pins(&longer).is_none());
    let mut bad_flag = bytes.clone();
    let last = bad_flag.len() - 1;
    bad_flag[last] = 2;
    assert!(decode_pins(&bad_flag).is_none());
    assert!(decode_pins(&vec![]).is_none());
}

#[test]
fn invalid_character_code_is_refused() {
    let mut p = Pin::new();
    p.title = "A".to_string();
    let mut bytes = encode_pins(&vec![p]);
    bytes[24..28].copy_from_slice(&0xD800u32.to_le_bytes());
    assert!(decode_pins(&bytes).is_none());
}

#[test]
fn user_record_survives_a_round_trip() {
    let rec = UserRecord {
        username: "alice".to_string(),
        email: "a@x.org".to_string(),
        salt: "00ff00ff00ff00ff".to_string(),
        password_hash: vec![1, 2, 3, 255],
    };
    let bytes = encode_user(&rec);
    let back = decode_user(&bytes).unwrap();
    assert_eq!(back.username, rec.username);
    assert_eq!(back.email, rec.email);
    assert_eq!(back.salt, rec.salt);
    assert_eq!(back.password_hash, rec.password_hash);
    assert!(decode_user(&bytes[..bytes.len() - 1].to_vec()).is_none());
}
