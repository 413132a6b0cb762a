use vstd::prelude::*;

use crate::client::utp::header::HEADER_SIZE;

verus! {

/// One packet of a message sent over uTP: its sequence number, how many bytes of the
/// message's prefix follow its header, and the bytes `start..end` of the message's data
/// that come after those.
#[derive(Debug, Clone, Copy, PartialEq, Eq, Structural)]
pub struct PacketPlan {
    pub seq_nr: u16,
    pub prefix_len: usize,
    pub start: usize,
    pub end: usize,
}

/// The smaller of `a` and `b`.
pub open spec fn min_int(a: int, b: int) -> int {
    if a <= b {
        a
    } else {
        b
    }
}

/// The room for data in packet `i`: what `packet_size` leaves after the header, and, in
/// the first packet, after the prefix.
pub open spec fn room(packet_size: int, prefix_len: int, i: int) -> int {
    packet_size - HEADER_SIZE - if i == 0 {
        prefix_len
    } else {
        0
    }
}

/// Packet `i` of `packets` is numbered `i` after `seq_nr` (wrapping), carries the whole
/// prefix when it is the first, starts where the one before ends (the first at the start
/// of the data), and holds as much of the rest of the data as its room allows.
pub open spec fn packet_ok(
    packets: Seq<PacketPlan>,
    i: int,
    seq_nr: u16,
    packet_size: int,
    prefix_len: int,
    data_len: int,
) -> bool {
    let p = packets[i];
    &&& p.seq_nr == (seq_nr + i) % 65536
    &&& p.prefix_len == if i == 0 {
        prefix_len
    } else {
        0
    }
    &&& p.start == if i == 0 {
        0
    } else {
        packets[i - 1].end as int
    }
    &&& p.end == p.start + min_int(room(packet_size, prefix_len, i), data_len - p.start)
}

/// `packets` carry a message of `prefix_len` bytes of prefix and `data_len` bytes of data
/// in packets of `packet_size` bytes, numbered from `seq_nr` on (wrapping): as many packets
/// as it takes for the prefix and the data at `packet_size - 20` bytes after each header,
/// each as `packet_ok` says, the last ending with the data.
pub open spec fn packets_of(
    packets: Seq<PacketPlan>,
    seq_nr: u16,
    packet_size: int,
    prefix_len: int,
    data_len: int,
) -> bool {
    let w = packet_size - HEADER_SIZE;
    &&& packets.len() == (prefix_len + data_len + w - 1) / w
    &&& forall|i: int|
        0 <= i < packets.len() ==> #[trigger] packet_ok(
            packets,
            i,
            seq_nr,
            packet_size,
            prefix_len,
            data_len,
        )
    &&& packets.len() > 0 ==> packets.last().end == data_len
}

/// Appending a packet leaves what is said of the packets before it.
proof fn lemma_packet_ok_push(
    packets: Seq<PacketPlan>,
    p: PacketPlan,
    i: int,
    seq_nr: u16,
    packet_size: int,
    prefix_len: int,
    data_len: int,
)
    requires
        0 <= i < packets.len(),
    ensures
        packet_ok(packets.push(p), i, seq_nr, packet_size, prefix_len, data_len) == packet_ok(
            packets,
            i,
            seq_nr,
            packet_size,
            prefix_len,
            data_len,
        ),
{
    assert(packets.push(p)[i] == packets[i]);
    if i > 0 {
        assert(packets.push(p)[i - 1] == packets[i - 1]);
    }
}

/// The packets for a message of `prefix_len` bytes of prefix and `data_len` bytes of data,
/// sent in packets of `packet_size` bytes (a header, then as much as fits) numbered from
/// `seq_nr` on.
pub fn plan_packets(seq_nr: u16, packet_size: usize, prefix_len: usize, data_len: usize) -> (r: Vec<
    PacketPlan,
>)
    requires
        packet_size >= HEADER_SIZE + prefix_len,
        packet_size > HEADER_SIZE,
        prefix_len + data_len <= usize::MAX,
    ensures
        packets_of(r@, seq_nr, packet_size as int, prefix_len as int, data_len as int),
{
    let w = packet_size - HEADER_SIZE;
    let total = prefix_len + data_len;
    let count = if total % w == 0 {
        total / w
    } else {
        proof {
            assert(total / w < usize::MAX) by (nonlinear_arith)
                requires
                    w > 0,
                    total % w != 0,
                    total <= usize::MAX,
            ;
        }
        total / w + 1
    };
    proof {
        assert(count == (total + w - 1) as int / (w as int) && count * w >= total) by (nonlinear_arith)
            requires
                w > 0,
                count == if total % w == 0 {
                    (total / w) as int
                } else {
                    total / w + 1
                },
        ;
    }
    let mut out: Vec<PacketPlan> = Vec::new();
    let mut cur: usize = 0;
    let mut seq = seq_nr;
    let mut i: usize = 0;
    let ghost mut reach: int = 0;
    while i < count
        invariant
            w == packet_size - HEADER_SIZE,
            w > 0,
            packet_size >= HEADER_SIZE + prefix_len,
            total == prefix_len + data_len,
            count * w >= total,
            i <= count,
            out@.len() == i,
            cur <= data_len,
            seq as int == (seq_nr + i) % 65536,
            reach == i * w,
            i > 0 ==> out@.last().end == cur,
            i == 0 ==> cur == 0,
            i > 0 && cur < data_len ==> cur + prefix_len == reach,
            forall|k: int|
                0 <= k < i ==> #[trigger] packet_ok(
                    out@,
                    k,
                    seq_nr,
                    packet_size as int,
                    prefix_len as int,
                    data_len as int,
                ),
        decreases count - i,
    {
        let room_here = if i == 0 {
            w - prefix_len
        } else {
            w
        };
        let len = if room_here < data_len - cur {
            room_here
        } else {
            data_len - cur
        };
        let first_prefix = if i == 0 {
            prefix_len
        } else {
            0
        };
        let p = PacketPlan { seq_nr: seq, prefix_len: first_prefix, start: cur, end: cur + len };
        let ghost before = out@;
        out.push(p);
        proof {
            assert(out@ == before.push(p));
            assert forall|k: int| 0 <= k < i + 1 implies #[trigger] packet_ok(
                out@,
                k,
                seq_nr,
                packet_size as int,
                prefix_len as int,
                data_len as int,
            ) by {
                if k < i {
                    lemma_packet_ok_push(
                        before,
                        p,
                        k,
                        seq_nr,
                        packet_size as int,
                        prefix_len as int,
                        data_len as int,
                    );
                } else if k > 0 {
                    assert(out@[k - 1] == before[k - 1]);
                }
            }
            assert((i + 1) * w == i * w + w) by (nonlinear_arith);
            reach = reach + w;
        }
        cur = cur + len;
        seq = seq.wrapping_add(1);
        i = i + 1;
    }
    proof {
        assert(count * w - prefix_len >= data_len);
    }
    out
}

} // verus!
