use hft::message::{
    decode_journal, decode_record, encode_record, journal_append_offset, read_u16, read_u32, OrderMessage, RECORD_LEN,
};
use hft::network::{ingest_datagram, parse_message, BATCH_LEN, WIRE_LEN};

fn sample() -> OrderMessage {
    OrderMessage {
        ticker_id: 0x0102,
        user_id: 0x0304,
        is_bid: true,
        order_type: 4,
        price: 0x0A0B_0C0D,
        order_id: 7,
        quantity: 300,
        display_quantity: 100,
        stop_signal: true,
    }
}

fn same(a: &OrderMessage, b: &OrderMessage) -> bool {
    a.ticker_id == b.ticker_id
        && a.user_id == b.user_id
        && a.is_bid == b.is_bid
        && a.order_type == b.order_type
        && a.price == b.price
        && a.order_id == b.order_id
        && a.quantity == b.quantity
        && a.display_quantity == b.display_quantity
        && a.stop_signal == b.stop_signal
}

#[test]
fn default_message_is_all_zero() {
    let m = OrderMessage::default();
    assert!(same(&m, &OrderMessage {
        ticker_id: 0,
        user_id: 0,
        is_bid: false,
        order_type: 0,
        price: 0,
        order_id: 0,
        quantity: 0,
        display_quantity: 0,
        stop_signal: false,
    }));
}

#[test]
fn little_endian_reads() {
    let b = [0x34u8, 0x12, 0x78, 0x56, 0x34, 0x12, 0xff];
    assert_eq!(read_u16(&b, 0), 0x1234);
    assert_eq!(read_u32(&b, 2), 0x1234_5678);
    assert_eq!(read_u16(&b, 5), 0xff12);
}

#[test]
fn record_layout_is_fixed() {
    let mut out = vec![0xAAu8];
    encode_record(&sample(), &mut out);
    assert_eq!(out.len(), 1 + RECORD_LEN);
    assert_eq!(
        out,
        vec![
            0xAA, 0x02, 0x01, 0x04, 0x03, 1, 4, 0, 0, 0x0D, 0x0C, 0x0B, 0x0A, 7, 0, 0, 0, 0x2C, 0x01, 0, 0, 100, 0,
            0, 0, 1, 0, 0, 0,
        ]
    );
}

#[test]
fn record_decodes_back() {
    let mut out = vec![9u8, 9, 9];
    encode_record(&sample(), &mut out);
    let m = decode_record(&out, 3);
    assert!(same(&m, &sample()));
}

#[test]
fn journal_reads_back_what_was_written() {
    let mut a = sample();
    let mut bytes = Vec::new();
    encode_record(&a, &mut bytes);
    a.order_id = 8;
    a.is_bid = false;
    a.stop_signal = false;
    encode_record(&a, &mut bytes);
    bytes.extend_from_slice(&[1, 2, 3]);
    let msgs = decode_journal(&bytes);
    assert_eq!(msgs.len(), 2);
    assert!(same(&msgs[0], &sample()));
    assert!(same(&msgs[1], &a));
    assert_eq!(decode_journal(&[]).len(), 0);
}

#[test]
fn journal_offsets_stop_at_capacity() {
    assert_eq!(journal_append_offset(0, 100), Some(28));
    assert_eq!(journal_append_offset(56, 84), Some(84));
    assert_eq!(journal_append_offset(57, 84), None);
    assert_eq!(journal_append_offset(0, 27), None);
    assert_eq!(journal_append_offset(200, 100), None);
    assert_eq!(journal_append_offset(usize::MAX - 3, usize::MAX), None);
}

fn datagram(side: u8) -> [u8; 18] {
    [side, 2, 0x2A, 0x00, 0xE8, 0x03, 0x50, 0xC3, 0x00, 0x00, 0x39, 0x30, 0x00, 0x00, 0x0A, 0x00, 0x00, 0x00]
}

#[test]
fn parse_buy_datagram() {
    let m = parse_message(&datagram(b'B'));
    assert!(same(&m, &OrderMessage {
        ticker_id: 42,
        user_id: 1000,
        is_bid: true,
        order_type: 2,
        price: 50_000,
        order_id: 12_345,
        quantity: 10,
        display_quantity: 10,
        stop_signal: false,
    }));
}

#[test]
fn parse_any_other_side_byte_sells() {
    assert!(!parse_message(&datagram(b'S')).is_bid);
    assert!(!parse_message(&datagram(b'b')).is_bid);
}

#[test]
fn parse_reads_only_the_first_eighteen_bytes() {
    let mut long = datagram(b'B').to_vec();
    long.extend_from_slice(&[0xff; 10]);
    assert_eq!(parse_message(&long).quantity, 10);
}

#[test]
fn ingest_drops_wrong_sizes_and_reports_full_batch() {
    let mut batch = Vec::new();
    assert!(!ingest_datagram(&mut batch, &[1, 2, 3]));
    assert!(batch.is_empty());
    let mut long = datagram(b'B').to_vec();
    long.push(0);
    assert!(!ingest_datagram(&mut batch, &long));
    assert!(batch.is_empty());
    for k in 0..BATCH_LEN {
        let full = ingest_datagram(&mut batch, &datagram(b'B'));
        assert_eq!(full, k + 1 == BATCH_LEN);
    }
    assert_eq!(batch.len(), BATCH_LEN);
    assert_eq!(WIRE_LEN, 18);
    assert_eq!(batch[15].order_id, 12_345);
}
