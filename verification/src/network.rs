//! The order gateway's datagram format and its batching of datagrams.
use vstd::prelude::*;
use crate::message::{OrderMessage, le_u16, le_u32, read_u16, read_u32};

verus! {

/// Length of an order datagram on the wire.
pub const WIRE_LEN: usize = 18;

/// The order a datagram describes: byte 0 is the side (`b'B'` buys), byte 1
/// the order type, then ticker (2..4), user (4..6), price (6..10), order id
/// (10..14) and quantity (14..18), all little-endian. The whole quantity is
/// displayed.
pub open spec fn wire_message(b: Seq<u8>) -> OrderMessage {
    OrderMessage {
        ticker_id: le_u16(b[2], b[3]),
        user_id: le_u16(b[4], b[5]),
        is_bid: b[0] == 66,
        order_type: b[1],
        price: le_u32(b[6], b[7], b[8], b[9]),
        order_id: le_u32(b[10], b[11], b[12], b[13]),
        quantity: le_u32(b[14], b[15], b[16], b[17]),
        display_quantity: le_u32(b[14], b[15], b[16], b[17]),
        stop_signal: false,
    }
}

/// Every field of a datagram's order is read as it stands: the side byte
/// makes a buy exactly when it is `b'B'`, the order type is byte 1 whatever
/// its value, and the numbers are the little-endian values of their bytes,
/// the quantity shown in full.
pub proof fn lemma_wire_fields(b: Seq<u8>)
    requires
        b.len() >= 18,
    ensures
        ({
            let m = wire_message(b);
            &&& m.is_bid == (b[0] == 66u8)
            &&& m.order_type == b[1]
            &&& m.ticker_id as int == b[2] as int + 256 * b[3] as int
            &&& m.user_id as int == b[4] as int + 256 * b[5] as int
            &&& m.price as int == b[6] as int + 256 * b[7] as int + 65536 * b[8] as int + 16777216 * b[9] as int
            &&& m.order_id as int == b[10] as int + 256 * b[11] as int + 65536 * b[12] as int + 16777216
                * b[13] as int
            &&& m.quantity as int == b[14] as int + 256 * b[15] as int + 65536 * b[16] as int + 16777216
                * b[17] as int
            &&& m.display_quantity == m.quantity
            &&& !m.stop_signal
        }),
{
}

/// Decodes an order datagram. Only its first 18 bytes are read.
pub fn parse_message(raw_bytes: &[u8]) -> (m: OrderMessage)
    requires
        raw_bytes@.len() >= WIRE_LEN,
    ensures
        m == wire_message(raw_bytes@),
        m.order_type == raw_bytes@[1],
        m.is_bid == (raw_bytes@[0] == 66u8),
{
    let msg_type = raw_bytes[0];
    let order_type = raw_bytes[1];
    let ticker_id = read_u16(raw_bytes, 2);
    let user_id = read_u16(raw_bytes, 4);
    let price = read_u32(raw_bytes, 6);
    let order_id = read_u32(raw_bytes, 10);
    let quantity = read_u32(raw_bytes, 14);
    OrderMessage {
        ticker_id,
        user_id,
        is_bid: msg_type == 66u8,
        order_type,
        price,
        order_id,
        quantity,
        display_quantity: quantity,
        stop_signal: false,
    }
}


/// How many orders the gateway hands on at once.
pub const BATCH_LEN: usize = 16;

/// Takes in one received datagram: a datagram of exactly `WIRE_LEN` bytes
/// adds its order to `batch`, any other is dropped. Returns whether the
/// batch is full and must be handed on.
pub fn ingest_datagram(batch: &mut Vec<OrderMessage>, datagram: &[u8]) -> (full: bool)
    requires
        old(batch)@.len() < BATCH_LEN,
    ensures
        final(batch)@ == (if datagram@.len() == WIRE_LEN {
            old(batch)@.push(wire_message(datagram@))
        } else {
            old(batch)@
        }),
        full == (final(batch)@.len() == BATCH_LEN),
{
    if datagram.len() == WIRE_LEN {
        let m = parse_message(datagram);
        batch.push(m);
    }
    batch.len() == BATCH_LEN
}

} // verus!
