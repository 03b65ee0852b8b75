//! Bounds-checked inspection and in-place rewriting of DNS wire-format
//! messages: cache lifetime of a response, retry classification of its
//! response code, and the EDNS0 advertised payload size.

mod edns;
mod error;
mod header;
mod name;
mod records;
mod ttl;

pub use edns::{
    add_edns_section, additional_opts, additional_start, edns_rewrite, lemma_duplicate_opt_fails,
    lemma_edns_question_count, lemma_existing_opt_updated, lemma_opt_appended, opt_record,
    opt_rewritten, set_edns_payload_size, with_opt_appended,
};
pub use error::DnsError;
pub use header::{
    ancount, arcount, arcount_inc, be16, be32, header_rcode, is_recoverable_error, nscount,
    qdcount, rcode, DNS_HEADER_SIZE, DNS_MAX_HOSTNAME_LEN, DNS_MAX_PACKET_SIZE,
    DNS_OFFSET_QUESTION, DNS_RCODE_REFUSED, DNS_RCODE_SERVFAIL, DNS_TYPE_OPT,
};
pub use name::{
    lemma_name_end_in_bounds, lemma_pointer_first_byte, name_end, skip_name, walk_labels,
};
pub use records::{
    is_opt, opt_positions, question_end, rr_walk, skip_question, traverse_rrs, traverse_rrs_mut,
    ttl_floor, with_payload,
};
pub use ttl::{
    cache_ttl, lemma_trailing_garbage, lemma_ttl_question_count, lemma_zero_records,
    resolve_cache_ttl, total_records,
};
