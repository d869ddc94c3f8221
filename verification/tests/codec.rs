use meilidb::codec::{docindex_from_bytes, docindex_to_bytes, document_attr_key, document_id_key};
use meilidb::{DocIndex, DocumentId};

#[test]
fn docindex_bytes_layout() {
    let d = DocIndex {
        document_id: DocumentId(0x0102030405060708),
        attribute: 0x1122,
        word_index: 0x3344,
        char_index: 0x5566,
        char_length: 0x7788,
    };
    let bytes = docindex_to_bytes(&d);
    assert_eq!(
        bytes,
        vec![
            0x08, 0x07, 0x06, 0x05, 0x04, 0x03, 0x02, 0x01, // document id, little-endian
            0x22, 0x11, // attribute
            0x44, 0x33, // word index
            0x66, 0x55, // char index
            0x88, 0x77, // char length
        ]
    );
}

#[test]
fn docindex_bytes_round_trip() {
    let d = DocIndex {
        document_id: DocumentId(42),
        attribute: 3,
        word_index: 7,
        char_index: 19,
        char_length: 5,
    };
    let bytes = docindex_to_bytes(&d);
    assert_eq!(docindex_from_bytes(&bytes), Some(d));
    assert_eq!(docindex_from_bytes(&bytes[..15]), None);
    assert_eq!(docindex_from_bytes(&[]), None);
}

#[test]
fn document_keys_are_big_endian() {
    assert_eq!(
        document_id_key(DocumentId(0x0102030405060708)),
        vec![0x01, 0x02, 0x03, 0x04, 0x05, 0x06, 0x07, 0x08]
    );
    assert_eq!(
        document_attr_key(DocumentId(1), 0x0203),
        vec![0, 0, 0, 0, 0, 0, 0, 1, 0x02, 0x03]
    );
}

#[test]
fn key_order_follows_id_order() {
    let ids = [0u64, 1, 255, 256, 65535, 1 << 32, u64::MAX - 1, u64::MAX];
    for (i, a) in ids.iter().enumerate() {
        for (j, b) in ids.iter().enumerate() {
            let ka = document_id_key(DocumentId(*a));
            let kb = document_id_key(DocumentId(*b));
            assert_eq!(ka.cmp(&kb), i.cmp(&j));
        }
    }
}
