//! Order messages: the wire format the gateway receives and the fixed-size
//! record the sequencer journal stores.
use vstd::prelude::*;

verus! {

/// An order entering the engine. `order_type` is one of the `TYPE_*`
/// constants of the order book.
#[derive(Copy, Clone, Debug)]
pub struct OrderMessage {
    pub ticker_id: u16,
    pub user_id: u16,
    pub is_bid: bool,
    pub order_type: u8,
    pub price: u32,
    pub order_id: u32,
    pub quantity: u32,
    pub display_quantity: u32,
    pub stop_signal: bool,
}

pub open spec fn blank_message() -> OrderMessage {
    OrderMessage {
        ticker_id: 0,
        user_id: 0,
        is_bid: false,
        order_type: 0,
        price: 0,
        order_id: 0,
        quantity: 0,
        display_quantity: 0,
        stop_signal: false,
    }
}

impl Default for OrderMessage {
    fn default() -> (m: Self)
        ensures
            m == blank_message(),
    {
        OrderMessage {
            ticker_id: 0,
            user_id: 0,
            is_bid: false,
            order_type: 0,
            price: 0,
            order_id: 0,
            quantity: 0,
            display_quantity: 0,
            stop_signal: false,
        }
    }
}

/// The little-endian value of two bytes.
pub open spec fn le_u16(b0: u8, b1: u8) -> u16 {
    (b0 as int + 256 * (b1 as int)) as u16
}

/// The little-endian value of four bytes.
pub open spec fn le_u32(b0: u8, b1: u8, b2: u8, b3: u8) -> u32 {
    (b0 as int + 256 * (b1 as int) + 65536 * (b2 as int) + 16777216 * (b3 as int)) as u32
}

pub fn read_u16(b: &[u8], at: usize) -> (v: u16)
    requires
        at + 2 <= b@.len(),
    ensures
        v == le_u16(b@[at as int], b@[at + 1]),
{
    let b0 = b[at];
    let b1 = b[at + 1];
    let v = (b0 as u16) | ((b1 as u16) << 8);
    assert(v == (b0 as u16) | ((b1 as u16) << 8));
    assert((b0 as u16) | ((b1 as u16) << 8u16) == b0 as u16 + 256 * (b1 as u16)) by (bit_vector);
    v
}

pub fn read_u32(b: &[u8], at: usize) -> (v: u32)
    requires
        at + 4 <= b@.len(),
    ensures
        v == le_u32(b@[at as int], b@[at + 1], b@[at + 2], b@[at + 3]),
{
    let b0 = b[at];
    let b1 = b[at + 1];
    let b2 = b[at + 2];
    let b3 = b[at + 3];
    let v = (b0 as u32) | ((b1 as u32) << 8) | ((b2 as u32) << 16) | ((b3 as u32) << 24);
    assert((b0 as u32) | ((b1 as u32) << 8u32) | ((b2 as u32) << 16u32) | ((b3 as u32) << 24u32) == b0
        as u32 + 256 * (b1 as u32) + 65536 * (b2 as u32) + 16777216 * (b3 as u32)) by (bit_vector);
    v
}

/// Size of one journal record: the message laid out as a C struct, fields
/// little-endian, padding bytes zero.
pub const RECORD_LEN: usize = 28;

pub open spec fn u16_bytes(x: u16) -> Seq<u8> {
    seq![(x % 256) as u8, (x / 256) as u8]
}

pub open spec fn u32_bytes(x: u32) -> Seq<u8> {
    seq![(x % 256) as u8, ((x / 256) % 256) as u8, ((x / 65536) % 256) as u8, (x / 16777216) as u8]
}

pub open spec fn bool_byte(b: bool) -> u8 {
    if b {
        1
    } else {
        0
    }
}

/// The journal record of a message.
pub open spec fn record_bytes(m: OrderMessage) -> Seq<u8> {
    u16_bytes(m.ticker_id) + u16_bytes(m.user_id) + seq![bool_byte(m.is_bid), m.order_type, 0u8, 0u8]
        + u32_bytes(m.price) + u32_bytes(m.order_id) + u32_bytes(m.quantity) + u32_bytes(
        m.display_quantity,
    ) + seq![bool_byte(m.stop_signal), 0u8, 0u8, 0u8]
}

pub proof fn lemma_u16_bytes(x: u16)
    ensures
        u16_bytes(x).len() == 2,
        le_u16(u16_bytes(x)[0], u16_bytes(x)[1]) == x,
{
}

pub proof fn lemma_u32_bytes(x: u32)
    ensures
        u32_bytes(x).len() == 4,
        le_u32(u32_bytes(x)[0], u32_bytes(x)[1], u32_bytes(x)[2], u32_bytes(x)[3]) == x,
{
    let b = u32_bytes(x);
    assert(b[0] == x % 256);
    assert(b[1] == (x / 256) % 256);
    assert(b[2] == (x / 65536) % 256);
    assert(b[3] == x / 16777216);
    assert(x % 256 + 256 * ((x / 256) % 256) + 65536 * ((x / 65536) % 256) + 16777216 * (x / 16777216) == x)
        by (nonlinear_arith);
}

/// The message a journal record starting at `at` holds.
pub open spec fn record_message(b: Seq<u8>, at: int) -> OrderMessage {
    OrderMessage {
        ticker_id: le_u16(b[at], b[at + 1]),
        user_id: le_u16(b[at + 2], b[at + 3]),
        is_bid: b[at + 4] != 0,
        order_type: b[at + 5],
        price: le_u32(b[at + 8], b[at + 9], b[at + 10], b[at + 11]),
        order_id: le_u32(b[at + 12], b[at + 13], b[at + 14], b[at + 15]),
        quantity: le_u32(b[at + 16], b[at + 17], b[at + 18], b[at + 19]),
        display_quantity: le_u32(b[at + 20], b[at + 21], b[at + 22], b[at + 23]),
        stop_signal: b[at + 24] != 0,
    }
}

fn push_u16(out: &mut Vec<u8>, x: u16)
    ensures
        final(out)@ == old(out)@ + u16_bytes(x),
{
    let lo = (x & 0xff) as u8;
    let hi = (x >> 8) as u8;
    assert(x & 0xff == x % 256 && x >> 8 == x / 256) by (bit_vector);
    out.push(lo);
    out.push(hi);
    assert(out@ =~= old(out)@ + u16_bytes(x));
}

fn push_u32(out: &mut Vec<u8>, x: u32)
    ensures
        final(out)@ == old(out)@ + u32_bytes(x),
{
    let b0 = (x & 0xff) as u8;
    let b1 = ((x >> 8) & 0xff) as u8;
    let b2 = ((x >> 16) & 0xff) as u8;
    let b3 = (x >> 24) as u8;
    assert(x & 0xff == x % 256 && (x >> 8) & 0xff == (x / 256) % 256 && (x >> 16) & 0xff == (x / 65536)
        % 256 && x >> 24 == x / 16777216) by (bit_vector);
    out.push(b0);
    out.push(b1);
    out.push(b2);
    out.push(b3);
    assert(out@ =~= old(out)@ + u32_bytes(x));
}

fn bool_to_byte(b: bool) -> (r: u8)
    ensures
        r == bool_byte(b),
{
    if b {
        1
    } else {
        0
    }
}

/// Appends the journal record of `msg` to `out`.
pub fn encode_record(msg: &OrderMessage, out: &mut Vec<u8>)
    ensures
        final(out)@ == old(out)@ + record_bytes(*msg),
{
    push_u16(out, msg.ticker_id);
    push_u16(out, msg.user_id);
    out.push(bool_to_byte(msg.is_bid));
    out.push(msg.order_type);
    out.push(0);
    out.push(0);
    push_u32(out, msg.price);
    push_u32(out, msg.order_id);
    push_u32(out, msg.quantity);
    push_u32(out, msg.display_quantity);
    out.push(bool_to_byte(msg.stop_signal));
    out.push(0);
    out.push(0);
    out.push(0);
    assert(out@ =~= old(out)@ + record_bytes(*msg));
}

/// Decodes the journal record that starts at byte `at`.
pub fn decode_record(bytes: &[u8], at: usize) -> (m: OrderMessage)
    requires
        at + RECORD_LEN <= bytes@.len(),
    ensures
        m == record_message(bytes@, at as int),
{
    assert(bytes@.len() <= usize::MAX) by {
        assert(bytes.len() == bytes@.len());
    }
    OrderMessage {
        ticker_id: read_u16(bytes, at),
        user_id: read_u16(bytes, at + 2),
        is_bid: bytes[at + 4] != 0,
        order_type: bytes[at + 5],
        price: read_u32(bytes, at + 8),
        order_id: read_u32(bytes, at + 12),
        quantity: read_u32(bytes, at + 16),
        display_quantity: read_u32(bytes, at + 20),
        stop_signal: bytes[at + 24] != 0,
    }
}

/// A record decodes to the message it was encoded from.
pub proof fn lemma_record_roundtrip(m: OrderMessage, prefix: Seq<u8>, suffix: Seq<u8>)
    ensures
        record_message(prefix + record_bytes(m) + suffix, prefix.len() as int) == m,
        record_bytes(m).len() == RECORD_LEN,
{
    let b = prefix + record_bytes(m) + suffix;
    let at = prefix.len() as int;
    let r = record_bytes(m);
    lemma_u16_bytes(m.ticker_id);
    lemma_u16_bytes(m.user_id);
    lemma_u32_bytes(m.price);
    lemma_u32_bytes(m.order_id);
    lemma_u32_bytes(m.quantity);
    lemma_u32_bytes(m.display_quantity);
    assert(r.len() == 28);
    assert forall|j: int| 0 <= j < 28 implies #[trigger] b[at + j] == r[j] by {}
    let t = u16_bytes(m.ticker_id);
    let u = u16_bytes(m.user_id);
    let pr = u32_bytes(m.price);
    let oi = u32_bytes(m.order_id);
    let qt = u32_bytes(m.quantity);
    let dq = u32_bytes(m.display_quantity);
    assert(r[0] == t[0] && r[1] == t[1]);
    assert(r[2] == u[0] && r[3] == u[1]);
    assert(r[4] == bool_byte(m.is_bid) && r[5] == m.order_type);
    assert(r[8] == pr[0] && r[9] == pr[1] && r[10] == pr[2] && r[11] == pr[3]);
    assert(r[12] == oi[0] && r[13] == oi[1] && r[14] == oi[2] && r[15] == oi[3]);
    assert(r[16] == qt[0] && r[17] == qt[1] && r[18] == qt[2] && r[19] == qt[3]);
    assert(r[20] == dq[0] && r[21] == dq[1] && r[22] == dq[2] && r[23] == dq[3]);
    assert(r[24] == bool_byte(m.stop_signal));
}

/// Where the next record of a journal of `capacity` bytes goes: the new
/// end offset when a record still fits after `offset`, `None` when the
/// journal is full.
pub fn journal_append_offset(offset: usize, capacity: usize) -> (r: Option<usize>)
    ensures
        r == (if offset + RECORD_LEN <= capacity {
            Some((offset + RECORD_LEN) as usize)
        } else {
            None::<usize>
        }),
{
    if offset <= capacity && capacity - offset >= RECORD_LEN {
        Some(offset + RECORD_LEN)
    } else {
        None
    }
}

/// The messages a journal holds: one per whole record.
pub open spec fn journal_messages(bytes: Seq<u8>) -> Seq<OrderMessage> {
    Seq::new((bytes.len() / RECORD_LEN as nat) as nat, |i: int| record_message(bytes, i * 28))
}

/// Decodes every whole record of a journal, in order.
pub fn decode_journal(bytes: &[u8]) -> (msgs: Vec<OrderMessage>)
    ensures
        msgs@ == journal_messages(bytes@),
{
    let n = bytes.len() / RECORD_LEN;
    let mut msgs: Vec<OrderMessage> = Vec::new();
    let mut i: usize = 0;
    while i < n
        invariant
            n == bytes@.len() / 28,
            i <= n,
            msgs@.len() == i,
            forall|j: int| 0 <= j < i ==> #[trigger] msgs@[j] == record_message(bytes@, j * 28),
        decreases n - i,
    {
        assert(i * 28 + 28 <= n * 28) by (nonlinear_arith)
            requires
                i < n,
        ;
        assert(n * 28 <= bytes@.len()) by (nonlinear_arith)
            requires
                n == bytes@.len() / 28,
        ;
        assert(bytes@.len() <= usize::MAX) by {
            assert(bytes.len() == bytes@.len());
        }
        let m = decode_record(bytes, i * RECORD_LEN);
        msgs.push(m);
        i = i + 1;
    }
    assert(msgs@ =~= journal_messages(bytes@));
    msgs
}

/// The bytes of a journal holding `msgs`, in order.
pub open spec fn journal_bytes(msgs: Seq<OrderMessage>) -> Seq<u8>
    decreases msgs.len(),
{
    if msgs.len() == 0 {
        seq![]
    } else {
        journal_bytes(msgs.drop_last()) + record_bytes(msgs.last())
    }
}

/// Reading a journal back gives the messages written to it, in order.
#[verifier::spinoff_prover]
#[verifier::rlimit(40)]
pub proof fn lemma_journal_roundtrip(msgs: Seq<OrderMessage>)
    ensures
        journal_bytes(msgs).len() == msgs.len() * 28,
        journal_messages(journal_bytes(msgs)) == msgs,
    decreases msgs.len(),
{
    if msgs.len() > 0 {
        let init = msgs.drop_last();
        lemma_journal_roundtrip(init);
        let b0 = journal_bytes(init);
        let b = journal_bytes(msgs);
        lemma_record_roundtrip(msgs.last(), b0, seq![]);
        assert(b0 + record_bytes(msgs.last()) + seq![] =~= b);
        assert(b.len() == msgs.len() * 28);
        assert(b.len() / 28 == msgs.len()) by (nonlinear_arith)
            requires
                b.len() == msgs.len() * 28,
        ;
        assert forall|i: int| 0 <= i < msgs.len() implies #[trigger] record_message(b, i * 28) == msgs[i] by {
            if i < init.len() {
                assert(i * 28 + 28 <= init.len() * 28) by (nonlinear_arith)
                    requires
                        i < init.len(),
                ;
                assert forall|j: int| 0 <= j < b0.len() implies #[trigger] b[j] == b0[j] by {}
                assert(b0.len() / 28 == init.len()) by (nonlinear_arith)
                    requires
                        b0.len() == init.len() * 28,
                ;
                assert(journal_messages(b0)[i] == init[i]);
                assert(record_message(b, i * 28) == record_message(b0, i * 28));
            } else {
                assert(i * 28 == b0.len());
            }
        }
        assert(journal_messages(b) =~= msgs);
    } else {
        assert(journal_messages(journal_bytes(msgs)) =~= msgs);
    }
}

} // verus!
