//! On-disk record round trips: serialize then deserialize yields an equal
//! value, field for field.
use perps_dex::codec::decode_event;
use perps_dex::codec::decode_slab;
use perps_dex::codec::encode_event;
use perps_dex::codec::encode_slab;
use perps_dex::codec::EVENT_RECORD_SIZE;
use perps_dex::errors::ErrorCode;
use perps_dex::slab::Slab;
use perps_dex::state::OrderEvent;
use perps_dex::state::Side;
use perps_dex::state::EVENT_FILL;

fn owner_id(tag: u8) -> [u8; 32] {
    let mut id = [0u8; 32];
    id[0] = tag;
    id[31] = tag.wrapping_mul(3);
    id
}

#[test]
fn event_record_round_trips() {
    let ev = OrderEvent {
        event_type: EVENT_FILL,
        key: 0x1122_3344_5566_7788_99AA_BBCC_DDEE_FF01,
        price: 0xDEAD_BEEF_0BAD_F00D,
        qty: 42,
        owner: owner_id(7),
    };
    let bytes = encode_event(&ev);
    assert_eq!(bytes.len(), EVENT_RECORD_SIZE);
    let back = decode_event(&bytes).unwrap();
    assert_eq!(back.event_type, ev.event_type);
    assert_eq!(back.key, ev.key);
    assert_eq!(back.price, ev.price);
    assert_eq!(back.qty, ev.qty);
    assert_eq!(back.owner, ev.owner);
}

#[test]
fn event_record_is_little_endian_with_leading_tag() {
    let ev = OrderEvent {
        event_type: 1,
        key: 2,
        price: 3,
        qty: 4,
        owner: owner_id(5),
    };
    let bytes = encode_event(&ev);
    assert_eq!(bytes[0], 1);
    assert_eq!(bytes[1], 2);
    assert_eq!(bytes[2], 0);
    assert_eq!(bytes[17], 3);
    assert_eq!(bytes[25], 4);
    assert_eq!(bytes[33], 5);
}

#[test]
fn truncated_event_record_is_rejected() {
    let bytes = vec![0u8; 10];
    assert_eq!(
        decode_event(&bytes).unwrap_err(),
        ErrorCode::EventDeserializationFailure
    );
}

#[test]
fn slab_buffer_round_trips() {
    let mut slab = Slab::new(3, 1).unwrap();
    slab.insert(10, 105, 7, owner_id(1), 11).unwrap();
    slab.insert(11, 101, 9, owner_id(2), 12).unwrap();

    let (bytes, head, free_head) = encode_slab(&slab);
    assert_eq!(bytes.len(), 3 * 80);
    assert_eq!(head, slab.head);
    assert_eq!(free_head, slab.free_head);

    let back = decode_slab(&bytes, head, free_head, Side::Ask).unwrap();
    assert_eq!(back.head, slab.head);
    assert_eq!(back.free_head, slab.free_head);
    assert_eq!(back.side, Side::Ask);
    assert_eq!(back.nodes.len(), slab.nodes.len());
    for i in 0..slab.nodes.len() {
        assert_eq!(back.nodes[i].key, slab.nodes[i].key);
        assert_eq!(back.nodes[i].price, slab.nodes[i].price);
        assert_eq!(back.nodes[i].qty, slab.nodes[i].qty);
        assert_eq!(back.nodes[i].owner, slab.nodes[i].owner);
        assert_eq!(back.nodes[i].inserted_slot, slab.nodes[i].inserted_slot);
        assert_eq!(back.nodes[i].next, slab.nodes[i].next);
        assert_eq!(back.nodes[i].prev, slab.nodes[i].prev);
    }
}

#[test]
fn ragged_slab_buffer_is_rejected() {
    let bytes = vec![0u8; 81];
    match decode_slab(&bytes, 0, 0, Side::Bid) {
        Ok(_) => panic!("a ragged buffer must not decode"),
        Err(e) => assert_eq!(e, ErrorCode::EventDeserializationFailure),
    }
}
