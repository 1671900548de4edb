use w2v_rs::codec::{format_header, parse_u32, push_dec_u64, read_header};

#[test]
fn numbers_format_as_plain_decimal() {
    let mut out: Vec<u8> = Vec::new();
    push_dec_u64(0, &mut out);
    assert_eq!(out, b"0".to_vec());
    out.clear();
    push_dec_u64(12345, &mut out);
    assert_eq!(out, b"12345".to_vec());
    out.clear();
    push_dec_u64(18446744073709551615, &mut out);
    assert_eq!(out, b"18446744073709551615".to_vec());
}

#[test]
fn parse_reads_back_what_format_wrote() {
    for n in [0u32, 1, 9, 10, 4096, 4294967295] {
        let mut out: Vec<u8> = Vec::new();
        push_dec_u64(n as u64, &mut out);
        let end = out.len();
        assert_eq!(parse_u32(&out, 0, end), Some(n));
    }
}

#[test]
fn parse_rejects_empty_junk_and_overflow() {
    assert_eq!(parse_u32(b"", 0, 0), None);
    assert_eq!(parse_u32(b"12a4", 0, 4), None);
    assert_eq!(parse_u32(b"-5", 0, 2), None);
    assert_eq!(parse_u32(b"4294967295", 0, 10), Some(4294967295));
    assert_eq!(parse_u32(b"4294967296", 0, 10), None);
}

#[test]
fn header_states_the_matrix_dimensions() {
    let header = format_header(4, 10);
    assert_eq!(header, b"4 10\n".to_vec());
}

#[test]
fn header_round_trips_through_its_parser() {
    for (rows, dim) in [(1u32, 1u32), (4, 10), (700000, 300)] {
        let header = format_header(rows, dim);
        assert_eq!(read_header(&header), Some((rows, dim)));
    }
}

#[test]
fn header_parser_rejects_malformed_lines() {
    assert_eq!(read_header(b""), None);
    assert_eq!(read_header(b"12\n"), None);
    assert_eq!(read_header(b"12 34"), None);
    assert_eq!(read_header(b" 34\n"), None);
    assert_eq!(read_header(b"a 34\n"), None);
    assert_eq!(read_header(b"12 \n"), None);
}
