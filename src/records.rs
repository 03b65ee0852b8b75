use vstd::prelude::*;
use crate::error::DnsError;
use crate::header::{
    be16, be32, qdcount, read_u16, read_u32, DNS_MAX_PACKET_SIZE, DNS_OFFSET_QUESTION, DNS_TYPE_OPT,
};
use crate::name::{lemma_name_end_in_bounds, lemma_walk_labels_frame, name_end, skip_name};

verus! {

/// Walks `count` resource records from `off`. Yields the offsets of the fixed
/// record headers (type, class, ttl, rdlength) that were reached, in order,
/// and the offset after the last record or why the walk stopped. A header is
/// listed as soon as its ten fixed bytes are present, even if its data then
/// overflows the buffer.
pub open spec fn rr_walk(p: Seq<u8>, off: int, count: int) -> (Seq<int>, Result<int, DnsError>)
    decreases count,
{
    if count <= 0 {
        (Seq::empty(), Ok(off))
    } else {
        match name_end(p, off) {
            Err(e) => (Seq::empty(), Err(e)),
            Ok((n, _)) => {
                if p.len() - n < 10 {
                    (Seq::empty(), Err(DnsError::ShortPacket))
                } else if be16(p, n + 8) > p.len() - n - 10 {
                    (seq![n], Err(DnsError::RecordOverflow))
                } else {
                    let rest = rr_walk(p, n + 10 + be16(p, n + 8), count - 1);
                    (seq![n] + rest.0, rest.1)
                }
            },
        }
    }
}

/// Whether the record whose fixed header starts at `h` is an OPT pseudo-record.
pub open spec fn is_opt(p: Seq<u8>, h: int) -> bool {
    be16(p, h) == DNS_TYPE_OPT as int
}

/// The headers among `hdrs` that belong to OPT pseudo-records, in order.
pub open spec fn opt_positions(p: Seq<u8>, hdrs: Seq<int>) -> Seq<int>
    decreases hdrs.len(),
{
    if hdrs.len() == 0 {
        Seq::empty()
    } else {
        let prev = opt_positions(p, hdrs.drop_last());
        if is_opt(p, hdrs.last()) {
            prev.push(hdrs.last())
        } else {
            prev
        }
    }
}

/// The smallest TTL among the non-OPT records of `hdrs`, or `init` if that
/// is smaller.
pub open spec fn ttl_floor(p: Seq<u8>, hdrs: Seq<int>, init: int) -> int
    decreases hdrs.len(),
{
    if hdrs.len() == 0 {
        init
    } else {
        let prev = ttl_floor(p, hdrs.drop_last(), init);
        let h = hdrs.last();
        if !is_opt(p, h) && be32(p, h + 4) < prev {
            be32(p, h + 4)
        } else {
            prev
        }
    }
}

/// `p` with the payload-size (class) field of the record header at `h` set
/// to `size`, big-endian.
pub open spec fn with_payload(p: Seq<u8>, h: int, size: u16) -> Seq<u8> {
    p.update(h + 2, (size / 256) as u8).update(h + 3, (size % 256) as u8)
}

/// Validation shared by the whole-message operations: a single question, a
/// length above the header and below 65,535 bytes, then the question's name
/// and its type and class. Yields where the answer section starts.
pub open spec fn question_end(p: Seq<u8>) -> Result<int, DnsError> {
    if p.len() < 6 {
        Err(DnsError::ShortPacket)
    } else if be16(p, 4) != 1 {
        Err(DnsError::UnsupportedQuestionCount)
    } else if p.len() <= DNS_OFFSET_QUESTION {
        Err(DnsError::ShortPacket)
    } else if p.len() >= DNS_MAX_PACKET_SIZE {
        Err(DnsError::PacketTooLarge)
    } else {
        match name_end(p, DNS_OFFSET_QUESTION as int) {
            Err(e) => Err(e),
            Ok((n, _)) => if p.len() - n < 4 {
                Err(DnsError::ShortPacket)
            } else {
                Ok(n + 4)
            },
        }
    }
}

/// Validates the header and skips the single question.
pub fn skip_question(packet: &[u8]) -> (r: Result<usize, DnsError>)
    ensures
        match question_end(packet@) {
            Ok(o) => r == Ok::<usize, DnsError>(o as usize),
            Err(e) => r == Err::<usize, DnsError>(e),
        },
        question_end(packet@) matches Ok(o) ==> DNS_OFFSET_QUESTION < o <= packet@.len()
            < DNS_MAX_PACKET_SIZE,
{
    proof {
        lemma_name_end_in_bounds(packet@, DNS_OFFSET_QUESTION as int);
    }
    let packet_len = packet.len();
    if packet_len < 6 {
        return Err(DnsError::ShortPacket);
    }
    if qdcount(packet) != 1 {
        return Err(DnsError::UnsupportedQuestionCount);
    }
    if packet_len <= DNS_OFFSET_QUESTION {
        return Err(DnsError::ShortPacket);
    }
    if packet_len >= DNS_MAX_PACKET_SIZE {
        return Err(DnsError::PacketTooLarge);
    }
    let offset = match skip_name(packet, DNS_OFFSET_QUESTION) {
        Ok((n, _)) => n,
        Err(e) => return Err(e),
    };
    if packet_len - offset < 4 {
        return Err(DnsError::ShortPacket);
    }
    Ok(offset + 4)
}

/// Every header that a walk reaches lies, with its ten fixed bytes, between
/// the start and the end of the buffer, and so does the offset it ends at.
pub(crate) proof fn lemma_rr_walk_bounds(p: Seq<u8>, off: int, count: int)
    requires
        0 <= off <= p.len(),
    ensures
        forall|j: int|
            0 <= j < rr_walk(p, off, count).0.len() ==> off < #[trigger] rr_walk(p, off, count).0[j]
                && rr_walk(p, off, count).0[j] + 10 <= p.len(),
        rr_walk(p, off, count).1 matches Ok(end) ==> off <= end <= p.len(),
    decreases count,
{
    if count > 0 {
        lemma_name_end_in_bounds(p, off);
        if let Ok((n, _)) = name_end(p, off) {
            if p.len() - n >= 10 && be16(p, n + 8) <= p.len() - n - 10 {
                let next = n + 10 + be16(p, n + 8);
                lemma_rr_walk_bounds(p, next, count - 1);
                let rest = rr_walk(p, next, count - 1);
                assert forall|j: int| 0 <= j < rest.0.len() + 1 implies off < #[trigger] (seq![n]
                    + rest.0)[j] && (seq![n] + rest.0)[j] + 10 <= p.len() by {
                    if j > 0 {
                        assert((seq![n] + rest.0)[j] == rest.0[j - 1]);
                    }
                }
            }
        }
    }
}

proof fn lemma_rr_walk_step(p: Seq<u8>, visited: Seq<int>, n: int, rest: Seq<int>)
    ensures
        visited + (seq![n] + rest) == visited.push(n) + rest,
        visited.push(n).drop_last() == visited,
{
    assert(visited + (seq![n] + rest) =~= visited.push(n) + rest);
    assert(visited.push(n).drop_last() =~= visited);
}

/// Walks `rrcount` records from `offset` and lowers `*found_min_ttl` to the
/// smallest TTL of the non-OPT records met. Returns the offset after the last
/// record. On error `*found_min_ttl` may have been lowered part of the way.
pub fn traverse_rrs(packet: &[u8], offset: usize, rrcount: u32, found_min_ttl: &mut u32) -> (r:
    Result<usize, DnsError>)
    requires
        offset <= packet@.len(),
    ensures
        match rr_walk(packet@, offset as int, rrcount as int).1 {
            Ok(end) => r == Ok::<usize, DnsError>(end as usize) && *final(found_min_ttl) as int
                == ttl_floor(packet@, rr_walk(packet@, offset as int, rrcount as int).0, *old(found_min_ttl) as int),
            Err(e) => r == Err::<usize, DnsError>(e),
        },
        *final(found_min_ttl) <= *old(found_min_ttl),
        rr_walk(packet@, offset as int, rrcount as int).1 matches Ok(end) ==> offset <= end
            <= packet@.len(),
{
    let ghost p = packet@;
    let ghost init = *found_min_ttl as int;
    let ghost mut visited: Seq<int> = Seq::empty();
    proof {
        lemma_rr_walk_bounds(p, offset as int, rrcount as int);
    }
    let packet_len = packet.len();
    let mut off = offset;
    let mut i: u32 = 0;
    assert(visited + rr_walk(p, off as int, rrcount as int).0 =~= rr_walk(p, off as int, rrcount as int).0);
    while i < rrcount
        invariant
            p == packet@,
            packet_len == p.len(),
            i <= rrcount,
            off <= packet_len,
            rr_walk(p, offset as int, rrcount as int) == (
                visited + rr_walk(p, off as int, rrcount - i).0,
                rr_walk(p, off as int, rrcount - i).1,
            ),
            *found_min_ttl as int == ttl_floor(p, visited, init),
            *found_min_ttl <= init,
            init == *old(found_min_ttl) as int,
        decreases rrcount - i,
    {
        let n = match skip_name(packet, off) {
            Ok((n, _)) => n,
            Err(e) => return Err(e),
        };
        if packet_len - n < 10 {
            return Err(DnsError::ShortPacket);
        }
        let qtype = read_u16(packet, n);
        let ttl = read_u32(packet, n + 4);
        if qtype != DNS_TYPE_OPT && ttl < *found_min_ttl {
            *found_min_ttl = ttl;
        }
        let rdlen = read_u16(packet, n + 8) as usize;
        proof {
            let rest = rr_walk(p, n + 10 + be16(p, n + 8), rrcount - i - 1);
            lemma_rr_walk_step(p, visited, n as int, rest.0);
            visited = visited.push(n as int);
        }
        let off2 = n + 10;
        if rdlen > packet_len - off2 {
            return Err(DnsError::RecordOverflow);
        }
        off = off2 + rdlen;
        i = i + 1;
    }
    Ok(off)
}

/// Every OPT header listed is one of the headers it was chosen from.
pub(crate) proof fn lemma_opt_positions_in(p: Seq<u8>, hdrs: Seq<int>)
    ensures
        forall|j: int|
            0 <= j < opt_positions(p, hdrs).len() ==> hdrs.contains(
                #[trigger] opt_positions(p, hdrs)[j],
            ),
    decreases hdrs.len(),
{
    if hdrs.len() > 0 {
        let prev = hdrs.drop_last();
        lemma_opt_positions_in(p, prev);
        assert forall|j: int| 0 <= j < opt_positions(p, hdrs).len() implies hdrs.contains(
            #[trigger] opt_positions(p, hdrs)[j],
        ) by {
            if j < opt_positions(p, prev).len() {
                let k = choose|k: int| 0 <= k < prev.len() && prev[k] == opt_positions(p, prev)[j];
                assert(hdrs[k] == prev[k]);
            } else {
                assert(hdrs[hdrs.len() - 1] == hdrs.last());
            }
        }
    }
}

/// Where the answer section starts lies after the header, within the buffer.
pub(crate) proof fn lemma_question_end_bounds(p: Seq<u8>)
    ensures
        question_end(p) matches Ok(o) ==> DNS_OFFSET_QUESTION < o <= p.len(),
{
    lemma_name_end_in_bounds(p, DNS_OFFSET_QUESTION as int);
}

proof fn lemma_opt_positions_concat(p: Seq<u8>, a: Seq<int>, b: Seq<int>)
    ensures
        opt_positions(p, a + b) == opt_positions(p, a) + opt_positions(p, b),
    decreases b.len(),
{
    if b.len() == 0 {
        assert(a + b =~= a);
        assert(opt_positions(p, a) + opt_positions(p, b) =~= opt_positions(p, a));
    } else {
        assert((a + b).drop_last() =~= a + b.drop_last());
        lemma_opt_positions_concat(p, a, b.drop_last());
        let prev = opt_positions(p, b.drop_last());
        if is_opt(p, b.last()) {
            assert(opt_positions(p, a) + prev.push(b.last()) =~= (opt_positions(p, a) + prev).push(
                b.last(),
            ));
        }
    }
}

/// The name walker reads no byte before `off`.
proof fn lemma_name_end_frame(p: Seq<u8>, q: Seq<u8>, off: int)
    requires
        p.len() == q.len(),
        forall|i: int| off <= i < p.len() ==> p[i] == q[i],
    ensures
        name_end(p, off) == name_end(q, off),
{
    lemma_walk_labels_frame(p, q, off, 0, 0);
}

/// Walks `rrcount` records from `offset` and sets the payload-size field of
/// each OPT pseudo-record met to `max_payload_size`. A second OPT record
/// fails the walk with `DuplicateOpt`, after the first has been rewritten.
/// Returns whether an OPT record was found.
pub fn traverse_rrs_mut(
    packet: &mut Vec<u8>,
    offset: usize,
    rrcount: u16,
    max_payload_size: u16,
) -> (r: Result<bool, DnsError>)
    requires
        offset <= old(packet)@.len(),
    ensures
        ({
            let walk = rr_walk(old(packet)@, offset as int, rrcount as int);
            let opts = opt_positions(old(packet)@, walk.0);
            &&& final(packet)@ == if opts.len() > 0 {
                with_payload(old(packet)@, opts[0], max_payload_size)
            } else {
                old(packet)@
            }
            &&& opts.len() >= 2 ==> r == Err::<bool, DnsError>(DnsError::DuplicateOpt)
            &&& opts.len() < 2 ==> match walk.1 {
                Ok(_) => r == Ok::<bool, DnsError>(opts.len() == 1),
                Err(e) => r == Err::<bool, DnsError>(e),
            }
        }),
{
    let ghost p = packet@;
    let ghost mut visited: Seq<int> = Seq::empty();
    proof {
        lemma_rr_walk_bounds(p, offset as int, rrcount as int);
    }
    let packet_len = packet.len();
    let mut off = offset;
    let mut i: u16 = 0;
    let mut found = false;
    let ghost mut first: int = 0;
    assert(visited + rr_walk(p, off as int, rrcount as int).0 =~= rr_walk(p, off as int, rrcount as int).0);
    while i < rrcount
        invariant
            p == old(packet)@,
            packet_len == p.len(),
            packet@.len() == p.len(),
            i <= rrcount,
            off <= packet_len,
            rr_walk(p, offset as int, rrcount as int) == (
                visited + rr_walk(p, off as int, rrcount - i).0,
                rr_walk(p, off as int, rrcount - i).1,
            ),
            opt_positions(p, visited).len() == if found { 1int } else { 0int },
            found ==> opt_positions(p, visited)[0] == first,
            found ==> first + 4 <= off,
            found ==> first >= 0,
            packet@ == if found { with_payload(p, first, max_payload_size) } else { p },
        decreases rrcount - i,
    {
        assert forall|j: int| off <= j < packet_len implies packet@[j] == p[j] by {}
        assert(visited + Seq::<int>::empty() =~= visited);
        proof {
            lemma_name_end_frame(packet@, p, off as int);
        }
        let n = match skip_name(packet.as_slice(), off) {
            Ok((n, _)) => n,
            Err(e) => return Err(e),
        };
        if packet_len - n < 10 {
            return Err(DnsError::ShortPacket);
        }
        let qtype = read_u16(packet.as_slice(), n);
        proof {
            let rest = rr_walk(p, n + 10 + be16(p, n + 8), rrcount - i - 1);
            lemma_rr_walk_step(p, visited, n as int, rest.0);
            visited = visited.push(n as int);
        }
        if qtype == DNS_TYPE_OPT {
            if found {
                proof {
                    let rest = rr_walk(p, n + 10 + be16(p, n + 8), rrcount - i - 1);
                    if be16(p, n + 8) > p.len() - n - 10 {
                        assert(rr_walk(p, offset as int, rrcount as int).0 =~= visited);
                    } else {
                        lemma_opt_positions_concat(p, visited, rest.0);
                    }
                }
                return Err(DnsError::DuplicateOpt);
            }
            packet.set(n + 2, (max_payload_size / 256) as u8);
            packet.set(n + 3, (max_payload_size % 256) as u8);
            found = true;
            proof {
                first = n as int;
            }
        }
        let rdlen = read_u16(packet.as_slice(), n + 8) as usize;
        let off2 = n + 10;
        if rdlen > packet_len - off2 {
            return Err(DnsError::RecordOverflow);
        }
        off = off2 + rdlen;
        i = i + 1;
    }
    assert(visited + Seq::<int>::empty() =~= visited);
    Ok(found)
}

} // verus!
