use mock_store::store::MockProtoStore;
use mock_store::traits::EncodingError;
use mock_store::traits::FromBytesProto;
use mock_store::traits::ToBytesProto;

/// A small structured message with a hand-rolled lossless codec,
/// standing in for a protobuf-style message type.
#[derive(Clone, Debug, PartialEq, Eq)]
struct Pair {
    left: u8,
    right: u8,
}

impl FromBytesProto for Pair {
    // Ghost member of the trait: it is erased from compiled code and
    // never called at runtime.
    fn decoded_proto(_bytes: vstd::prelude::Seq<u8>) -> Result<Self, EncodingError> {
        unreachable!()
    }

    fn from_bytes(bytes: &[u8]) -> Result<Self, EncodingError> {
        if bytes.len() == 2 {
            Ok(Pair { left: bytes[0], right: bytes[1] })
        } else {
            Err(EncodingError::StructDecodeFailure)
        }
    }
}

impl ToBytesProto for Pair {
    // Ghost member of the trait: it is erased from compiled code and
    // never called at runtime.
    fn encoded_proto(&self) -> vstd::prelude::Seq<u8> {
        unreachable!()
    }

    fn to_bytes(&self) -> Vec<u8> {
        vec![self.left, self.right]
    }
}

#[test]
fn proto_set_and_get_last() {
    let mut store: MockProtoStore<Pair> = MockProtoStore::new();
    store.set(1, "key", &Pair { left: 1, right: 2 });
    store.set(2, "key", &Pair { left: 3, right: 4 });
    let last = store.get_last("key").unwrap();
    assert_eq!(last, Some(Pair { left: 3, right: 4 }));
    let at1 = store.get_at(1, "key").unwrap();
    assert_eq!(at1, Some(Pair { left: 1, right: 2 }));
}

#[test]
fn proto_must_get_last() {
    let mut store: MockProtoStore<Pair> = MockProtoStore::new();
    store.set(1, "key", &Pair { left: 9, right: 8 });
    let got = store.must_get_last("key");
    assert_eq!(got, Pair { left: 9, right: 8 });
}

#[test]
fn proto_set_if_not_exists_keeps_original() {
    let mut store: MockProtoStore<Pair> = MockProtoStore::new();
    store.set_if_not_exists(1, "key", &Pair { left: 1, right: 1 });
    store.set_if_not_exists(2, "key", &Pair { left: 2, right: 2 });
    let last = store.get_last("key").unwrap();
    assert_eq!(last, Some(Pair { left: 1, right: 1 }));
}

#[test]
fn proto_existence_checks() {
    let mut store: MockProtoStore<Pair> = MockProtoStore::new();
    assert!(!store.has_last("key"));
    store.set(7, "key", &Pair { left: 0, right: 0 });
    assert!(store.has_last("key"));
    assert!(store.has_first("key"));
    assert!(store.has_at(7, "key"));
    assert!(!store.has_at(6, "key"));
}

#[test]
fn proto_set_many() {
    let mut store: MockProtoStore<Pair> = MockProtoStore::new();
    let keys = vec![String::from("a"), String::from("b")];
    store.set_many(1, &keys, &Pair { left: 5, right: 6 });
    assert_eq!(store.get_last("a").unwrap(), Some(Pair { left: 5, right: 6 }));
    assert_eq!(store.get_last("b").unwrap(), Some(Pair { left: 5, right: 6 }));
    let keys2 = vec![String::from("b"), String::from("c")];
    store.set_if_not_exists_many(2, &keys2, &Pair { left: 7, right: 7 });
    assert_eq!(store.get_last("b").unwrap(), Some(Pair { left: 5, right: 6 }));
    assert_eq!(store.get_last("c").unwrap(), Some(Pair { left: 7, right: 7 }));
}

#[test]
fn proto_codec_reports_struct_decode_failure() {
    let r = Pair::from_bytes(&[1]);
    assert_eq!(r, Err(EncodingError::StructDecodeFailure));
    let r = Pair::from_bytes(&[1, 2, 3]);
    assert_eq!(r, Err(EncodingError::StructDecodeFailure));
    let ok = Pair::from_bytes(&Pair { left: 1, right: 2 }.to_bytes());
    assert_eq!(ok, Ok(Pair { left: 1, right: 2 }));
}
