use vstd::prelude::*;
use crate::error::DnsError;
use crate::header::{
    ancount, arcount, arcount_inc, be16, nscount, DNS_MAX_PACKET_SIZE, DNS_TYPE_OPT,
};
use crate::records::{
    lemma_opt_positions_in, lemma_question_end_bounds, lemma_rr_walk_bounds, opt_positions, question_end, rr_walk, skip_question, traverse_rrs, traverse_rrs_mut,
    with_payload,
};

verus! {

/// The minimal OPT pseudo-record advertising `size`: root name, type 41,
/// payload size, and zero extended rcode, version, flags and rdlength.
pub open spec fn opt_record(size: u16) -> Seq<u8> {
    seq![0u8, 0u8, DNS_TYPE_OPT as u8, (size / 256) as u8, (size % 256) as u8, 0u8, 0u8, 0u8, 0u8, 0u8, 0u8]
}

/// `p` with its additional-record count incremented and a minimal OPT
/// record advertising `size` appended.
pub open spec fn with_opt_appended(p: Seq<u8>, size: u16) -> Seq<u8> {
    p.update(10, ((be16(p, 10) + 1) / 256) as u8).update(11, ((be16(p, 10) + 1) % 256) as u8)
        + opt_record(size)
}

/// Where the additional section starts, after the question and the answer
/// and authority records.
pub open spec fn additional_start(p: Seq<u8>) -> Result<int, DnsError> {
    match question_end(p) {
        Err(e) => Err(e),
        Ok(off) => rr_walk(p, off, be16(p, 6) + be16(p, 8)).1,
    }
}

/// The headers of the OPT records that the walk of the additional section
/// reaches (none when the section cannot be located).
pub open spec fn additional_opts(p: Seq<u8>) -> Seq<int> {
    match additional_start(p) {
        Err(_) => Seq::empty(),
        Ok(s) => opt_positions(p, rr_walk(p, s, be16(p, 10)).0),
    }
}

/// `p` with the payload size of its first additional OPT record set to
/// `size`, or `p` itself when there is none.
pub open spec fn opt_rewritten(p: Seq<u8>, size: u16) -> Seq<u8> {
    if additional_opts(p).len() > 0 {
        with_payload(p, additional_opts(p)[0], size)
    } else {
        p
    }
}

/// The message that results from advertising `size` in `p`: the single OPT
/// record of the additional section rewritten in place, or a new one
/// appended when there is none.
pub open spec fn edns_rewrite(p: Seq<u8>, size: u16) -> Result<Seq<u8>, DnsError> {
    match additional_start(p) {
        Err(e) => Err(e),
        Ok(s) => {
            let opts = additional_opts(p);
            if opts.len() >= 2 {
                Err(DnsError::DuplicateOpt)
            } else {
                match rr_walk(p, s, be16(p, 10)).1 {
                    Err(e) => Err(e),
                    Ok(_) => if opts.len() == 1 {
                        Ok(opt_rewritten(p, size))
                    } else if p.len() + 11 >= DNS_MAX_PACKET_SIZE {
                        Err(DnsError::PacketTooLarge)
                    } else if be16(p, 10) == 0xffff {
                        Err(DnsError::TooManyAdditionalRecords)
                    } else {
                        Ok(with_opt_appended(p, size))
                    },
                }
            }
        },
    }
}

/// Appends a minimal OPT record advertising `max_payload_size` and counts it
/// in the header, unless the message would reach 65,535 bytes or the
/// additional-record count is full.
pub fn add_edns_section(packet: &mut Vec<u8>, max_payload_size: u16) -> (r: Result<(), DnsError>)
    requires
        old(packet)@.len() >= 12,
    ensures
        old(packet)@.len() + 11 >= DNS_MAX_PACKET_SIZE ==> r == Err::<(), DnsError>(
            DnsError::PacketTooLarge,
        ) && final(packet)@ == old(packet)@,
        old(packet)@.len() + 11 < DNS_MAX_PACKET_SIZE && be16(old(packet)@, 10) == 0xffff ==> r
            == Err::<(), DnsError>(DnsError::TooManyAdditionalRecords) && final(packet)@ == old(
            packet,
        )@,
        old(packet)@.len() + 11 < DNS_MAX_PACKET_SIZE && be16(old(packet)@, 10) < 0xffff ==> r
            is Ok && final(packet)@ == with_opt_appended(old(packet)@, max_payload_size),
{
    let mut opt_rr: Vec<u8> = vec![
        0u8,
        (DNS_TYPE_OPT / 256) as u8,
        (DNS_TYPE_OPT % 256) as u8,
        (max_payload_size / 256) as u8,
        (max_payload_size % 256) as u8,
        0u8,
        0u8,
        0u8,
        0u8,
        0u8,
        0u8,
    ];
    if packet.len() >= DNS_MAX_PACKET_SIZE - opt_rr.len() {
        return Err(DnsError::PacketTooLarge);
    }
    match arcount_inc(packet) {
        Ok(()) => {},
        Err(e) => return Err(e),
    }
    assert(opt_rr@ =~= opt_record(max_payload_size));
    packet.append(&mut opt_rr);
    Ok(())
}

/// Sets the advertised EDNS0 payload size of the message in `packet` to
/// `max_payload_size`. On failure the buffer must be discarded: a first OPT
/// record may already have been rewritten.
pub fn set_edns_payload_size(packet: &mut Vec<u8>, max_payload_size: u16) -> (r: Result<
    (),
    DnsError,
>)
    ensures
        match edns_rewrite(old(packet)@, max_payload_size) {
            Ok(q) => r is Ok && final(packet)@ == q,
            Err(e) => r == Err::<(), DnsError>(e) && final(packet)@ == opt_rewritten(
                old(packet)@,
                max_payload_size,
            ),
        },
{
    let offset = match skip_question(packet.as_slice()) {
        Ok(o) => o,
        Err(e) => return Err(e),
    };
    let an = ancount(packet.as_slice());
    let ns = nscount(packet.as_slice());
    let ar = arcount(packet.as_slice());
    // Answer and authority records are only skipped; their TTLs are not used.
    let mut ignored: u32 = 0;
    let offset = match traverse_rrs(packet.as_slice(), offset, an as u32 + ns as u32, &mut ignored) {
        Ok(o) => o,
        Err(e) => return Err(e),
    };
    let edns_payload_set = match traverse_rrs_mut(packet, offset, ar, max_payload_size) {
        Ok(found) => found,
        Err(e) => return Err(e),
    };
    if edns_payload_set {
        return Ok(());
    }
    add_edns_section(packet, max_payload_size)
}

/// A message whose question count is not one is refused.
pub proof fn lemma_edns_question_count(p: Seq<u8>, size: u16)
    requires
        p.len() >= 6,
        be16(p, 4) != 1,
    ensures
        edns_rewrite(p, size) == Err::<Seq<u8>, DnsError>(DnsError::UnsupportedQuestionCount),
{
}

/// A second OPT record in the additional section makes the rewrite fail with
/// `DuplicateOpt`.
pub proof fn lemma_duplicate_opt_fails(p: Seq<u8>, size: u16)
    requires
        additional_start(p) is Ok,
        additional_opts(p).len() >= 2,
    ensures
        edns_rewrite(p, size) == Err::<Seq<u8>, DnsError>(DnsError::DuplicateOpt),
{
}

/// Without an OPT record, a well-formed message grows by exactly eleven
/// bytes: its additional-record count goes up by one, the bytes before the
/// count's field and after it are kept, and the new record is a root-named
/// OPT record whose payload field holds the requested size.
pub proof fn lemma_opt_appended(p: Seq<u8>, size: u16)
    requires
        additional_start(p) matches Ok(s) && rr_walk(p, s, be16(p, 10)).1 is Ok,
        additional_opts(p).len() == 0,
        p.len() + 11 < DNS_MAX_PACKET_SIZE,
        be16(p, 10) < 0xffff,
    ensures
        edns_rewrite(p, size) matches Ok(q) && {
            &&& q.len() == p.len() + 11
            &&& be16(q, 10) == be16(p, 10) + 1
            &&& forall|i: int| 0 <= i < p.len() && i != 10 && i != 11 ==> q[i] == p[i]
            &&& q[p.len() as int] == 0
            &&& be16(q, p.len() as int + 1) == DNS_TYPE_OPT as int
            &&& be16(q, p.len() as int + 3) == size as int
        },
{
    lemma_question_end_bounds(p);
    let q = with_opt_appended(p, size);
    let c = be16(p, 10) + 1;
    assert(((c / 256) as u8) as int * 256 + ((c % 256) as u8) as int == c);
    assert(q[p.len() as int + 3] == (size / 256) as u8);
    assert(q[p.len() as int + 4] == (size % 256) as u8);
    assert(q[p.len() as int + 1] == 0 && q[p.len() as int + 2] == 41);
}

/// With one OPT record in a well-formed message, the length is kept and only
/// that record's two-byte payload field changes, to the requested size.
pub proof fn lemma_existing_opt_updated(p: Seq<u8>, size: u16)
    requires
        additional_start(p) matches Ok(s) && rr_walk(p, s, be16(p, 10)).1 is Ok,
        additional_opts(p).len() == 1,
    ensures
        edns_rewrite(p, size) matches Ok(q) && {
            let h = additional_opts(p)[0];
            &&& q.len() == p.len()
            &&& 0 <= h && h + 10 <= p.len()
            &&& forall|i: int| 0 <= i < p.len() && i != h + 2 && i != h + 3 ==> q[i] == p[i]
            &&& be16(q, h + 2) == size as int
        },
{
    lemma_question_end_bounds(p);
    let off = question_end(p)->Ok_0;
    lemma_rr_walk_bounds(p, off, be16(p, 6) + be16(p, 8));
    let s = additional_start(p)->Ok_0;
    lemma_rr_walk_bounds(p, s, be16(p, 10));
    let hdrs = rr_walk(p, s, be16(p, 10)).0;
    lemma_opt_positions_in(p, hdrs);
    let h = additional_opts(p)[0];
    assert(hdrs.contains(opt_positions(p, hdrs)[0]));
    let k = choose|k: int| 0 <= k < hdrs.len() && hdrs[k] == h;
    assert(hdrs[k] + 10 <= p.len());
    let q = with_payload(p, h, size);
    assert(((size / 256) as u8) as int * 256 + ((size % 256) as u8) as int == size);
    assert(q[h + 2] == (size / 256) as u8);
}

} // verus!
