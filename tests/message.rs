use dnswire::{
    add_edns_section, arcount_inc, is_recoverable_error, rcode, resolve_cache_ttl,
    set_edns_payload_size, skip_name, DnsError,
};

fn header(qd: u16, an: u16, ns: u16, ar: u16) -> Vec<u8> {
    vec![
        0x12,
        0x34,
        0x81,
        0x80,
        (qd >> 8) as u8,
        qd as u8,
        (an >> 8) as u8,
        an as u8,
        (ns >> 8) as u8,
        ns as u8,
        (ar >> 8) as u8,
        ar as u8,
    ]
}

fn question(p: &mut Vec<u8>) {
    p.extend_from_slice(&[7, b'e', b'x', b'a', b'm', b'p', b'l', b'e', 3, b'c', b'o', b'm', 0]);
    p.extend_from_slice(&[0, 1, 0, 1]);
}

fn a_record(p: &mut Vec<u8>, ttl: u32) {
    p.extend_from_slice(&[0xc0, 0x0c, 0, 1, 0, 1]);
    p.extend_from_slice(&ttl.to_be_bytes());
    p.extend_from_slice(&[0, 4, 192, 0, 2, 1]);
}

fn opt_rr(p: &mut Vec<u8>, size: u16) {
    p.extend_from_slice(&[0, 0, 41]);
    p.extend_from_slice(&size.to_be_bytes());
    p.extend_from_slice(&[0, 0, 0, 0, 0, 0]);
}

fn response(ttls: &[u32], opts: usize) -> Vec<u8> {
    let mut p = header(1, ttls.len() as u16, 0, opts as u16);
    question(&mut p);
    for &t in ttls {
        a_record(&mut p, t);
    }
    for _ in 0..opts {
        opt_rr(&mut p, 512);
    }
    p
}

#[test]
fn rcode_reads_low_bits() {
    assert_eq!(rcode(&[0, 0, 0x81, 0xf2]), 2);
    assert_eq!(rcode(&[0, 0, 0x81, 0x85]), 5);
    assert_eq!(rcode(&[0, 0, 0x81, 0x80]), 0);
}

#[test]
fn recoverable_codes() {
    assert!(is_recoverable_error(&[0, 0, 0x81, 0x82]));
    assert!(is_recoverable_error(&[0, 0, 0x81, 0x05]));
    assert!(is_recoverable_error(&[0, 0, 0x81, 0xf5]));
    assert!(!is_recoverable_error(&[0, 0, 0x81, 0x83]));
    assert!(!is_recoverable_error(&[0, 0, 0x81, 0x80]));
    assert!(!is_recoverable_error(&[0, 0, 0x81, 0x01]));
}

#[test]
fn two_records_take_the_smaller_ttl() {
    let p = response(&[300, 100], 0);
    assert_eq!(resolve_cache_ttl(&p, 50, 3600, 30), Ok(100));
}

#[test]
fn floor_wins_over_record_ttl() {
    let p = response(&[10], 0);
    assert_eq!(resolve_cache_ttl(&p, 50, 3600, 30), Ok(50));
}

#[test]
fn ceiling_applies_to_long_ttls() {
    let p = response(&[86400], 0);
    assert_eq!(resolve_cache_ttl(&p, 50, 3600, 30), Ok(3600));
}

#[test]
fn zero_records_use_failure_ttl() {
    let p = response(&[], 0);
    assert_eq!(resolve_cache_ttl(&p, 50, 3600, 20), Ok(50));
    assert_eq!(resolve_cache_ttl(&p, 10, 3600, 120), Ok(120));
}

#[test]
fn opt_ttl_is_ignored() {
    let mut p = response(&[300], 0);
    p[11] = 1;
    p.extend_from_slice(&[0, 0, 41, 0x10, 0x00, 0, 0, 0, 1, 0, 0]);
    assert_eq!(resolve_cache_ttl(&p, 5, 3600, 30), Ok(300));
}

#[test]
fn only_opt_record_keeps_max_ttl() {
    let p = response(&[], 1);
    assert_eq!(resolve_cache_ttl(&p, 5, 3600, 30), Ok(3600));
}

#[test]
fn trailing_bytes_are_refused() {
    let mut p = response(&[300], 0);
    p.push(0);
    assert_eq!(resolve_cache_ttl(&p, 50, 3600, 30), Err(DnsError::TrailingGarbage));
}

#[test]
fn record_data_past_end_is_refused() {
    let mut p = response(&[300], 0);
    let n = p.len();
    p[n - 5] = 5;
    assert_eq!(resolve_cache_ttl(&p, 50, 3600, 30), Err(DnsError::RecordOverflow));
}

#[test]
fn truncated_record_header_is_short() {
    let mut p = response(&[300], 0);
    p.truncate(p.len() - 8);
    assert_eq!(resolve_cache_ttl(&p, 50, 3600, 30), Err(DnsError::ShortPacket));
}

#[test]
fn missing_question_type_is_short() {
    let mut p = header(1, 0, 0, 0);
    p.extend_from_slice(&[1, b'a', 0, 0, 1]);
    assert_eq!(resolve_cache_ttl(&p, 50, 3600, 30), Err(DnsError::ShortPacket));
}

#[test]
fn header_only_is_short() {
    let p = header(1, 0, 0, 0);
    assert_eq!(resolve_cache_ttl(&p, 50, 3600, 30), Err(DnsError::ShortPacket));
    assert_eq!(resolve_cache_ttl(&[0, 0, 0, 0], 50, 3600, 30), Err(DnsError::ShortPacket));
    let mut v = p.clone();
    assert_eq!(set_edns_payload_size(&mut v, 1232), Err(DnsError::ShortPacket));
}

#[test]
fn question_count_other_than_one() {
    for qd in [0u16, 2, 0xffff] {
        let mut p = response(&[300], 0);
        p[4] = (qd >> 8) as u8;
        p[5] = qd as u8;
        assert_eq!(
            resolve_cache_ttl(&p, 50, 3600, 30),
            Err(DnsError::UnsupportedQuestionCount)
        );
        assert_eq!(
            set_edns_payload_size(&mut p, 1232),
            Err(DnsError::UnsupportedQuestionCount)
        );
    }
}

#[test]
fn oversized_packet_is_refused() {
    let mut p = response(&[300], 0);
    p.resize(65535, 0);
    assert_eq!(resolve_cache_ttl(&p, 50, 3600, 30), Err(DnsError::PacketTooLarge));
    assert_eq!(set_edns_payload_size(&mut p, 1232), Err(DnsError::PacketTooLarge));
}

#[test]
fn reserved_label_type_is_refused() {
    let mut p = header(1, 0, 0, 0);
    p.extend_from_slice(&[0x40, b'a', 0, 0, 1, 0, 1]);
    assert_eq!(resolve_cache_ttl(&p, 50, 3600, 30), Err(DnsError::LabelTooLong));
    assert_eq!(skip_name(&[0x80, 1, 2, 3], 0), Err(DnsError::LabelTooLong));
}

#[test]
fn label_past_end_is_malformed() {
    assert_eq!(skip_name(&[5, b'a', b'b', 0], 0), Err(DnsError::MalformedName));
    assert_eq!(skip_name(&[1, b'a', 0], 0), Err(DnsError::MalformedName));
}

#[test]
fn long_name_is_refused() {
    let mut p = Vec::new();
    for _ in 0..5 {
        p.push(63);
        p.extend_from_slice(&[b'x'; 63]);
    }
    p.extend_from_slice(&[0, 0, 1]);
    assert_eq!(skip_name(&p, 0), Err(DnsError::NameTooLong));
}

#[test]
fn name_of_256_octets_with_root_is_accepted() {
    let mut p = Vec::new();
    for _ in 0..3 {
        p.push(63);
        p.extend_from_slice(&[b'x'; 63]);
    }
    p.push(62);
    p.extend_from_slice(&[b'x'; 62]);
    p.extend_from_slice(&[0, 9]);
    assert_eq!(skip_name(&p, 0), Ok((256, 4)));
    let mut q = Vec::new();
    for _ in 0..4 {
        q.push(63);
        q.extend_from_slice(&[b'x'; 63]);
    }
    q.extend_from_slice(&[0, 9]);
    assert_eq!(skip_name(&q, 0), Err(DnsError::NameTooLong));
}

#[test]
fn pointer_on_last_byte_is_incomplete() {
    assert_eq!(
        skip_name(&[1, b'a', 0xc0], 0),
        Err(DnsError::IncompleteCompressionPointer)
    );
}

#[test]
fn short_name_entry() {
    assert_eq!(skip_name(&[0xc0], 0), Err(DnsError::ShortPacket));
    assert_eq!(skip_name(&[], 0), Err(DnsError::ShortPacket));
    assert_eq!(skip_name(&[0, 0, 0], 2), Err(DnsError::ShortPacket));
}

#[test]
fn pointer_first_advances_two() {
    assert_eq!(skip_name(&[0xc0, 0xff, 9, 9], 0), Ok((2, 0)));
    assert_eq!(skip_name(&[0, 0xff, 0xff, 1], 1), Ok((3, 0)));
}

#[test]
fn labels_are_counted() {
    let p = response(&[], 0);
    assert_eq!(skip_name(&p, 12), Ok((25, 2)));
    assert_eq!(skip_name(&[3, b'w', b'w', b'w', 0xc0, 0x0c], 0), Ok((6, 1)));
}

#[test]
fn accepted_names_end_within_buffer() {
    let inputs: Vec<Vec<u8>> = vec![
        vec![0, 0],
        vec![1, b'a', 0, 7],
        vec![0xff, 0xff],
        vec![2, b'a', b'b', 0xc1, 0x00],
    ];
    for p in inputs {
        match skip_name(&p, 0) {
            Ok((n, _)) => assert!(n > 0 && n <= p.len()),
            Err(_) => panic!("expected a name"),
        }
    }
}

#[test]
fn opt_is_appended_when_absent() {
    let mut p = response(&[300], 0);
    let before = p.clone();
    assert_eq!(set_edns_payload_size(&mut p, 1232), Ok(()));
    assert_eq!(p.len(), before.len() + 11);
    assert_eq!(u16::from_be_bytes([p[10], p[11]]), 1);
    assert_eq!(&p[..10], &before[..10]);
    assert_eq!(&p[12..before.len()], &before[12..]);
    let tail = &p[before.len()..];
    assert_eq!(tail, &[0, 0, 41, 0x04, 0xd0, 0, 0, 0, 0, 0, 0]);
    assert_eq!(resolve_cache_ttl(&p, 5, 3600, 30), Ok(300));
}

#[test]
fn existing_opt_is_rewritten_in_place() {
    let mut p = response(&[300], 1);
    let before = p.clone();
    assert_eq!(set_edns_payload_size(&mut p, 4096), Ok(()));
    assert_eq!(p.len(), before.len());
    let h = before.len() - 10;
    for i in 0..p.len() {
        if i != h + 2 && i != h + 3 {
            assert_eq!(p[i], before[i]);
        }
    }
    assert_eq!(u16::from_be_bytes([p[h + 2], p[h + 3]]), 4096);
}

#[test]
fn opt_in_answer_section_is_not_the_edns_record() {
    let mut p = header(1, 1, 0, 0);
    question(&mut p);
    opt_rr(&mut p, 512);
    let before = p.clone();
    assert_eq!(set_edns_payload_size(&mut p, 1400), Ok(()));
    assert_eq!(p.len(), before.len() + 11);
    assert_eq!(&p[before.len() - 11..before.len()], &before[before.len() - 11..]);
}

#[test]
fn duplicate_opt_is_refused() {
    let mut p = response(&[300], 2);
    assert_eq!(set_edns_payload_size(&mut p, 1232), Err(DnsError::DuplicateOpt));
}

#[test]
fn edns_walk_errors_propagate() {
    let mut p = response(&[300], 1);
    let n = p.len();
    p[n - 1] = 3;
    assert_eq!(set_edns_payload_size(&mut p, 1232), Err(DnsError::RecordOverflow));
}

#[test]
fn append_refused_at_size_limit() {
    let mut p = header(1, 0, 0, 0);
    p.resize(65524, 0);
    let before = p.clone();
    assert_eq!(add_edns_section(&mut p, 1232), Err(DnsError::PacketTooLarge));
    assert_eq!(p, before);
    let mut q = header(1, 0, 0, 0);
    q.resize(65523, 0);
    assert_eq!(add_edns_section(&mut q, 1232), Ok(()));
    assert_eq!(q.len(), 65534);
}

#[test]
fn append_refused_when_count_full() {
    let mut p = response(&[], 0);
    p[10] = 0xff;
    p[11] = 0xff;
    let before = p.clone();
    assert_eq!(add_edns_section(&mut p, 1232), Err(DnsError::TooManyAdditionalRecords));
    assert_eq!(p, before);
}

#[test]
fn additional_count_increments_across_bytes() {
    let mut p = header(1, 0, 0, 0x00ff);
    assert_eq!(arcount_inc(&mut p), Ok(()));
    assert_eq!((p[10], p[11]), (1, 0));
    let mut q = header(1, 0, 0, 0xffff);
    assert_eq!(arcount_inc(&mut q), Err(DnsError::TooManyAdditionalRecords));
}
