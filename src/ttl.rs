use vstd::prelude::*;
use crate::error::DnsError;
use crate::header::{ancount, arcount, be16, nscount};
use crate::records::{question_end, rr_walk, skip_question, traverse_rrs, ttl_floor};

verus! {

/// Number of records after the question: answers, authorities and
/// additional records together.
pub open spec fn total_records(p: Seq<u8>) -> int {
    be16(p, 6) + be16(p, 8) + be16(p, 10)
}

/// The cache lifetime of a response. Starting from `max_ttl` (or from
/// `failure_ttl` when the response holds no record), it is lowered to the
/// smallest TTL of the non-OPT records and then raised to `min_ttl` if
/// below it. The records must end exactly at the end of the buffer.
pub open spec fn cache_ttl(p: Seq<u8>, min_ttl: u32, max_ttl: u32, failure_ttl: u32) -> Result<
    u32,
    DnsError,
> {
    match question_end(p) {
        Err(e) => Err(e),
        Ok(off) => {
            let total = total_records(p);
            let walk = rr_walk(p, off, total);
            match walk.1 {
                Err(e) => Err(e),
                Ok(end) => if end != p.len() {
                    Err(DnsError::TrailingGarbage)
                } else {
                    let m = ttl_floor(
                        p,
                        walk.0,
                        if total > 0 {
                            max_ttl as int
                        } else {
                            failure_ttl as int
                        },
                    );
                    Ok(
                        if m < min_ttl {
                            min_ttl
                        } else {
                            m as u32
                        },
                    )
                },
            }
        },
    }
}

/// Computes the cache lifetime of the response in `packet`.
pub fn resolve_cache_ttl(packet: &[u8], min_ttl: u32, max_ttl: u32, failure_ttl: u32) -> (r:
    Result<u32, DnsError>)
    ensures
        r == cache_ttl(packet@, min_ttl, max_ttl, failure_ttl),
{
    let offset = match skip_question(packet) {
        Ok(o) => o,
        Err(e) => return Err(e),
    };
    let rrcount = ancount(packet) as u32 + nscount(packet) as u32 + arcount(packet) as u32;
    let mut found_min_ttl = if rrcount > 0 {
        max_ttl
    } else {
        failure_ttl
    };
    let end = match traverse_rrs(packet, offset, rrcount, &mut found_min_ttl) {
        Ok(end) => end,
        Err(e) => return Err(e),
    };
    if found_min_ttl < min_ttl {
        found_min_ttl = min_ttl;
    }
    if end != packet.len() {
        return Err(DnsError::TrailingGarbage);
    }
    Ok(found_min_ttl)
}

/// A response with no record after its question gets `failure_ttl`, raised
/// to `min_ttl` if below it.
pub proof fn lemma_zero_records(p: Seq<u8>, min_ttl: u32, max_ttl: u32, failure_ttl: u32)
    requires
        question_end(p) == Ok::<int, DnsError>(p.len() as int),
        total_records(p) == 0,
    ensures
        cache_ttl(p, min_ttl, max_ttl, failure_ttl) == Ok::<u32, DnsError>(
            if failure_ttl < min_ttl {
                min_ttl
            } else {
                failure_ttl
            },
        ),
{
}

/// Bytes left after the last record make the lifetime computation fail with
/// `TrailingGarbage`.
pub proof fn lemma_trailing_garbage(p: Seq<u8>, min_ttl: u32, max_ttl: u32, failure_ttl: u32)
    requires
        question_end(p) matches Ok(off) && rr_walk(p, off, total_records(p)).1 matches Ok(end)
            && end < p.len(),
    ensures
        cache_ttl(p, min_ttl, max_ttl, failure_ttl) == Err::<u32, DnsError>(
            DnsError::TrailingGarbage,
        ),
{
}

/// A message whose question count is not one is refused.
pub proof fn lemma_ttl_question_count(p: Seq<u8>, min_ttl: u32, max_ttl: u32, failure_ttl: u32)
    requires
        p.len() >= 6,
        be16(p, 4) != 1,
    ensures
        cache_ttl(p, min_ttl, max_ttl, failure_ttl) == Err::<u32, DnsError>(
            DnsError::UnsupportedQuestionCount,
        ),
{
}

} // verus!
