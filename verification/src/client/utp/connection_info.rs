use vstd::prelude::*;

use crate::client::utp::header::{type_code, Header, Type};
use rand::Rng;

verus! {

/// A random connection id (`rand::Rng::gen` on the thread's generator).
#[verifier::external_body]
fn random_connection_id() -> u16 {
    rand::thread_rng().gen()
}

/// The current time in whole microseconds since the Unix epoch (`SystemTime::now`,
/// `SystemTime::duration_since`, `Duration::as_micros`); `None` when the clock reads earlier
/// than the epoch. It depends on the clock, so nothing is stated of it.
#[verifier::external_body]
fn micros_since_epoch() -> Option<u128> {
    match std::time::SystemTime::now().duration_since(std::time::UNIX_EPOCH) {
        Ok(d) => Some(d.as_micros()),
        Err(_) => None,
    }
}

/// The current time in microseconds since the Unix epoch, truncated to 32 bits (its low 32
/// bits, as uTP timestamps are); 0 when the clock reads earlier than the epoch.
fn now_micros() -> u32 {
    match micros_since_epoch() {
        Some(t) => low_32_bits(t),
        None => 0,
    }
}

/// The low 32 bits of `t`.
pub fn low_32_bits(t: u128) -> (r: u32)
    ensures
        r == t % 0x1_0000_0000,
{
    (t % 0x1_0000_0000) as u32
}

/// The state of one end of a uTP connection to the peer at `addr`: sequence and
/// acknowledgement numbers, connection ids and timing.
#[derive(Debug)]
pub struct UtpConnectionInfo<A> {
    addr: A,
    pub seq_nr: u16,
    pub ack_nr: u16,
    pub conn_id_recv: u16,
    conn_id_send: u16,
    wnd_size: u32,
    prev_timestamp_diff: u32,
}

/// The window size advertised in every header.
pub const WINDOW_SIZE: u32 = 10000;

impl<A: Copy> UtpConnectionInfo<A> {
    pub closed spec fn spec_seq_nr(&self) -> u16 {
        self.seq_nr
    }

    pub closed spec fn spec_ack_nr(&self) -> u16 {
        self.ack_nr
    }

    /// The id this end receives with.
    pub closed spec fn spec_conn_id_recv(&self) -> u16 {
        self.conn_id_recv
    }

    pub closed spec fn spec_addr(&self) -> A {
        self.addr
    }

    /// The id this end sends with.
    pub closed spec fn spec_conn_id_send(&self) -> u16 {
        self.conn_id_send
    }

    pub closed spec fn spec_wnd_size(&self) -> u32 {
        self.wnd_size
    }

    /// The delay measured on the last header received.
    pub closed spec fn spec_prev_timestamp_diff(&self) -> u32 {
        self.prev_timestamp_diff
    }

    /// A connection to `addr` that this end opens, with a random receive id and the next id
    /// (wrapping) to send with.
    pub fn new(addr: A) -> (r: UtpConnectionInfo<A>)
        ensures
            r.spec_addr() == addr,
            r.spec_seq_nr() == 1,
            r.spec_ack_nr() == 0,
            r.spec_conn_id_send() == (r.spec_conn_id_recv() + 1) % 65536,
            r.spec_wnd_size() == WINDOW_SIZE,
            r.spec_prev_timestamp_diff() == 0,
    {
        let conn_id_recv = random_connection_id();
        UtpConnectionInfo {
            seq_nr: 1,
            conn_id_recv,
            conn_id_send: conn_id_recv.wrapping_add(1),
            ack_nr: 0,
            wnd_size: WINDOW_SIZE,
            prev_timestamp_diff: 0,
            addr,
        }
    }

    /// The peer's address.
    pub fn addr(&self) -> (r: A)
        ensures
            r == self.spec_addr(),
    {
        self.addr
    }

    /// A connection to `addr` that the peer opened with `header`: this end receives on the
    /// next id (wrapping) and sends on the peer's id.
    pub fn new_from_incoming(addr: A, header: &Header) -> (r: UtpConnectionInfo<A>)
        ensures
            r.spec_addr() == addr,
            r.spec_seq_nr() == 1,
            r.spec_ack_nr() == 0,
            r.spec_conn_id_recv() == (header.connection_id + 1) % 65536,
            r.spec_conn_id_send() == header.connection_id,
            r.spec_wnd_size() == WINDOW_SIZE,
            r.spec_prev_timestamp_diff() == 0,
    {
        UtpConnectionInfo {
            seq_nr: 1,
            conn_id_recv: header.connection_id.wrapping_add(1),
            conn_id_send: header.connection_id,
            ack_nr: 0,
            wnd_size: WINDOW_SIZE,
            prev_timestamp_diff: 0,
            addr,
        }
    }

    /// The header of the next packet of type `header_type`, sent now: a SYN carries the
    /// receive id, other packets the send id; every packet but a STATE takes a sequence
    /// number; the timestamp is the clock's reading (see `create_header_at`).
    pub fn create_header(&mut self, header_type: Type) -> (r: Header)
        ensures
            r.type_ver_extension == type_code(header_type) * 4096 + 256,
            r.connection_id == if header_type == Type::StSyn {
                old(self).spec_conn_id_recv()
            } else {
                old(self).spec_conn_id_send()
            },
            r.timestamp_difference_microseconds == old(self).spec_prev_timestamp_diff(),
            r.wnd_size == old(self).spec_wnd_size(),
            r.seq_nr == old(self).spec_seq_nr(),
            r.ack_nr == old(self).spec_ack_nr(),
            final(self).spec_seq_nr() == if header_type == Type::StState {
                old(self).spec_seq_nr() as int
            } else {
                (old(self).spec_seq_nr() + 1) % 65536
            },
            final(self).spec_ack_nr() == old(self).spec_ack_nr(),
            final(self).spec_conn_id_recv() == old(self).spec_conn_id_recv(),
            final(self).spec_conn_id_send() == old(self).spec_conn_id_send(),
            final(self).spec_addr() == old(self).spec_addr(),
            final(self).spec_wnd_size() == old(self).spec_wnd_size(),
            final(self).spec_prev_timestamp_diff() == old(self).spec_prev_timestamp_diff(),
    {
        let now = now_micros();
        self.create_header_at(header_type, now)
    }

    /// The header of the next packet of type `header_type`, sent at `now` microseconds (the
    /// low 32 bits of the time since the Unix epoch): a SYN carries the receive id, other
    /// packets the send id; every packet but a STATE takes a sequence number.
    pub fn create_header_at(&mut self, header_type: Type, now: u32) -> (r: Header)
        ensures
            r.type_ver_extension == type_code(header_type) * 4096 + 256,
            r.connection_id == if header_type == Type::StSyn {
                old(self).spec_conn_id_recv()
            } else {
                old(self).spec_conn_id_send()
            },
            r.timestamp_microseconds == now,
            r.timestamp_difference_microseconds == old(self).spec_prev_timestamp_diff(),
            r.wnd_size == old(self).spec_wnd_size(),
            r.seq_nr == old(self).spec_seq_nr(),
            r.ack_nr == old(self).spec_ack_nr(),
            final(self).spec_seq_nr() == if header_type == Type::StState {
                old(self).spec_seq_nr() as int
            } else {
                (old(self).spec_seq_nr() + 1) % 65536
            },
            final(self).spec_ack_nr() == old(self).spec_ack_nr(),
            final(self).spec_conn_id_recv() == old(self).spec_conn_id_recv(),
            final(self).spec_conn_id_send() == old(self).spec_conn_id_send(),
            final(self).spec_addr() == old(self).spec_addr(),
            final(self).spec_wnd_size() == old(self).spec_wnd_size(),
            final(self).spec_prev_timestamp_diff() == old(self).spec_prev_timestamp_diff(),
    {
        let conn_id = if header_type == Type::StSyn {
            self.conn_id_recv
        } else {
            self.conn_id_send
        };
        let msg = Header::new(
            header_type,
            conn_id,
            now,
            self.prev_timestamp_diff,
            self.wnd_size,
            self.seq_nr,
            self.ack_nr,
        );
        if header_type != Type::StState {
            self.seq_nr = self.seq_nr.wrapping_add(1);
        }
        msg
    }

    /// Takes note of a header from the peer: its sequence number is acknowledged, and the
    /// delay since its timestamp (wrapping) is kept.
    pub fn process_header(&mut self, header: &Header)
        ensures
            final(self).spec_ack_nr() == header.seq_nr,
            final(self).spec_seq_nr() == old(self).spec_seq_nr(),
            final(self).spec_conn_id_recv() == old(self).spec_conn_id_recv(),
            final(self).spec_conn_id_send() == old(self).spec_conn_id_send(),
            final(self).spec_addr() == old(self).spec_addr(),
            final(self).spec_wnd_size() == old(self).spec_wnd_size(),
    {
        self.ack_nr = header.seq_nr;
        let now = now_micros();
        self.prev_timestamp_diff = now.wrapping_sub(header.timestamp_microseconds);
    }

    /// Sets the acknowledged sequence number.
    pub fn set_ack_nr(&mut self, ack_nr: u16)
        ensures
            final(self).spec_ack_nr() == ack_nr,
            final(self).spec_seq_nr() == old(self).spec_seq_nr(),
            final(self).spec_conn_id_recv() == old(self).spec_conn_id_recv(),
            final(self).spec_conn_id_send() == old(self).spec_conn_id_send(),
            final(self).spec_addr() == old(self).spec_addr(),
            final(self).spec_wnd_size() == old(self).spec_wnd_size(),
            final(self).spec_prev_timestamp_diff() == old(self).spec_prev_timestamp_diff(),
    {
        self.ack_nr = ack_nr;
    }

    /// The id this end receives with.
    pub fn get_conn_id_recv(&self) -> (r: u16)
        ensures
            r == self.spec_conn_id_recv(),
    {
        self.conn_id_recv
    }

    /// The last sequence number acknowledged.
    pub fn get_ack_nr(&self) -> (r: u16)
        ensures
            r == self.spec_ack_nr(),
    {
        self.ack_nr
    }

    /// Advances the sequence number by `n` (wrapping).
    pub fn advance_seq_nr(&mut self, n: usize)
        ensures
            final(self).spec_seq_nr() == (old(self).spec_seq_nr() + n % 65536) % 65536,
            final(self).spec_ack_nr() == old(self).spec_ack_nr(),
            final(self).spec_conn_id_recv() == old(self).spec_conn_id_recv(),
            final(self).spec_conn_id_send() == old(self).spec_conn_id_send(),
            final(self).spec_addr() == old(self).spec_addr(),
            final(self).spec_wnd_size() == old(self).spec_wnd_size(),
            final(self).spec_prev_timestamp_diff() == old(self).spec_prev_timestamp_diff(),
    {
        let step = (n % 65536) as u16;
        self.seq_nr = self.seq_nr.wrapping_add(step);
    }

    /// The size of the packets sent.
    pub fn packet_size(&self) -> (r: usize)
        ensures
            r == 1000,
    {
        1000
    }

    /// Takes note that data went out in `packets` packets after a header was created for
    /// the first: the sequence number advances by the others (wrapping).
    pub fn record_data_sent(&mut self, packets: usize)
        requires
            packets >= 1,
        ensures
            final(self).spec_seq_nr() == (old(self).spec_seq_nr() + (packets - 1) % 65536) % 65536,
            final(self).spec_ack_nr() == old(self).spec_ack_nr(),
            final(self).spec_conn_id_recv() == old(self).spec_conn_id_recv(),
            final(self).spec_conn_id_send() == old(self).spec_conn_id_send(),
            final(self).spec_addr() == old(self).spec_addr(),
    {
        let extra = ((packets - 1) % 65536) as u16;
        self.seq_nr = self.seq_nr.wrapping_add(extra);
    }
}

} // verus!
