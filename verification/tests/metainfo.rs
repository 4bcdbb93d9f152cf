use serde::ser::{Serialize, SerializeStruct, Serializer};
use strumyk::metainfo::{blocks_in_last_piece, is_last_piece_sized, last_piece_index};
use strumyk::{hash_info, info_to_bytes, is_hashable, Info, MetaInfo};

fn unhex(text: &str) -> Vec<u8> {
    (0..text.len() / 2)
        .map(|i| u8::from_str_radix(&text[2 * i..2 * i + 2], 16).unwrap())
        .collect()
}

fn info(length: Option<i64>, piece_length: i64, pieces: usize) -> Info {
    Info {
        name: "abc".to_string(),
        piece_length,
        pieces: vec![7u8; pieces],
        length,
        path: None,
    }
}

#[test]
fn it_works() {
    let result = 2 + 2;
    assert_eq!(result, 4);
}

#[test]
fn info_is_bencoded_with_ascending_keys() {
    let bytes = info_to_bytes(&info(Some(-5), 16384, 3));
    assert_eq!(
        bytes,
        b"d6:lengthi-5e4:name3:abc12:piece lengthi16384e6:pieces3:\x07\x07\x07e".to_vec()
    );
}

#[test]
fn missing_values_have_no_entry_and_text_is_utf8() {
    let info = Info {
        name: "zo\u{eb}!".to_string(),
        piece_length: 0,
        pieces: vec![],
        length: None,
        path: Some(b"x/".to_vec()),
    };
    assert_eq!(
        info_to_bytes(&info),
        b"d4:name5:zo\xc3\xab!4:path2:x/12:piece lengthi0e6:pieces0:e".to_vec()
    );
    let metainfo = MetaInfo { announce: "udp://tracker".to_string(), info };
    assert_eq!(hash_info(&metainfo), unhex("e7032e11a9cd6c9f77026ac323bd3bd6f70f9cde"));
}

/// An `Info` that bencodes itself field by field.
struct Fields(Info);

impl Serialize for Fields {
    fn serialize<S: Serializer>(&self, serializer: S) -> Result<S::Ok, S::Error> {
        let mut fields = serializer.serialize_struct("Info", 5)?;
        fields.serialize_field("name", &self.0.name)?;
        fields.serialize_field("piece length", &self.0.piece_length)?;
        fields.serialize_field("pieces", serde_bytes::Bytes::new(&self.0.pieces))?;
        fields.serialize_field("length", &self.0.length)?;
        fields.serialize_field("path", &self.0.path.clone().map(serde_bytes::ByteBuf::from))?;
        fields.end()
    }
}

#[test]
fn info_bencodes_as_a_struct_of_its_fields_does() {
    for length in [None, Some(i64::MIN), Some(0), Some(1234567890)] {
        for path in [None, Some(vec![]), Some(vec![0u8; 123])] {
            let mut info = info(length, 16384, 40);
            info.path = path;
            let bytes = info_to_bytes(&info);
            assert_eq!(bytes, serde_bencode::to_bytes(&Fields(info)).unwrap());
        }
    }
}

#[test]
fn hash_is_the_digest_of_the_bencoding() {
    let metainfo = MetaInfo { announce: "a".to_string(), info: info(Some(-5), 16384, 20) };
    assert_eq!(hash_info(&metainfo), unhex("da5515bf84fc7b3e2dfdcd5d50efeb93dbf8ffdf"));
}

#[test]
fn hash_does_not_depend_on_the_tracker() {
    let one = MetaInfo { announce: "a".to_string(), info: info(None, 1, 0) };
    let two = MetaInfo { announce: "b".to_string(), info: info(None, 1, 0) };
    let other = MetaInfo { announce: "a".to_string(), info: info(None, 2, 0) };
    assert_eq!(hash_info(&one), hash_info(&two));
    assert_ne!(hash_info(&one), hash_info(&other));
}

#[test]
fn different_infos_have_different_bencodings() {
    let one = info_to_bytes(&info(Some(1), 16384, 20));
    let two = info_to_bytes(&info(None, 16384, 20));
    assert_ne!(one, two);
}

#[test]
fn last_piece_is_counted_by_digests() {
    assert_eq!(last_piece_index(&info(None, 0, 20)), 0);
    assert_eq!(last_piece_index(&info(None, 0, 39)), 0);
    assert_eq!(last_piece_index(&info(None, 0, 40)), 1);
    assert_eq!(last_piece_index(&info(None, 0, 205)), 9);
}

#[test]
fn last_piece_has_one_block_more_than_it_fills() {
    assert_eq!(blocks_in_last_piece(&info(Some(1), 262144, 20)), 1);
    assert_eq!(blocks_in_last_piece(&info(Some(16383), 262144, 20)), 1);
    assert_eq!(blocks_in_last_piece(&info(Some(16384), 262144, 20)), 2);
    assert_eq!(blocks_in_last_piece(&info(Some(262144 + 40000), 262144, 40)), 3);
}

#[test]
fn last_piece_of_negative_size_rounds_toward_zero() {
    assert_eq!(blocks_in_last_piece(&info(Some(-1), 262144, 20)), 1);
    assert_eq!(blocks_in_last_piece(&info(Some(-16384), 262144, 20)), 0);
    assert_eq!(blocks_in_last_piece(&info(Some(-32768), 262144, 20)), usize::MAX);
}

#[test]
fn last_piece_may_not_be_sized() {
    assert!(is_last_piece_sized(&info(Some(1), 262144, 20)));
    assert!(!is_last_piece_sized(&info(None, 262144, 20)));
    assert!(!is_last_piece_sized(&info(Some(1), 262144, 19)));
    assert!(!is_last_piece_sized(&info(Some(1), i64::MAX, 60)));
    assert!(!is_last_piece_sized(&info(Some(i64::MIN), 1, 40)));
}

#[test]
fn ordinary_infos_are_hashable() {
    assert!(is_hashable(&info(None, 0, 0)));
    let mut info = info(Some(i64::MIN), i64::MAX, 2000);
    info.path = Some(vec![1; 1000]);
    assert!(is_hashable(&info));
}
