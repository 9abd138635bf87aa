use csvscan::default_dialect;
use csvscan::Dialect;
use csvscan::FieldBuffer;
use csvscan::Parser;

fn parser_from_str(s: &str) -> Parser {
    Parser::new(default_dialect(), s.as_bytes().to_vec())
}

fn raw_fields(s: &str) -> Vec<Vec<u8>> {
    let mut p = parser_from_str(s);
    let rec = p.read_line().unwrap().unwrap();
    let mut out = Vec::new();
    let mut it = rec.iter();
    while let Some(f) = it.next() {
        out.push(f);
    }
    out
}

#[test]
fn scenario_quoted_field_kept_raw() {
    let fields = raw_fields("1,2,30,\"300, 400\",4\n");
    assert_eq!(
        fields,
        vec![
            b"1".to_vec(),
            b"2".to_vec(),
            b"30".to_vec(),
            b"\"300, 400\"".to_vec(),
            b"4".to_vec()
        ]
    );
}

#[test]
fn scenario_thirteen_fields_with_quoted_blob() {
    let line = "20120923_TB@DAL,3,29,12,TB,DAL,3,8,78,\"(14:12) (Shotgun) J.Freeman pass incomplete deep left to D.Clark. Pass incomplete on a \"\"seam\"\" route; Carter closest defender.\",7,10,2012\n";
    let mut p = parser_from_str(line);
    let rec = p.read_line().unwrap().unwrap();
    assert_eq!(rec.len(), 13);
    // the raw field keeps the enclosing quotes and the doubled quotes
    let blob = rec.field(9);
    assert_eq!(blob[0], b'"');
    assert_eq!(blob[blob.len() - 1], b'"');
    let text = String::from_utf8(blob).unwrap();
    assert!(text.contains("\"\"seam\"\""));
    assert_eq!(rec.field(12), b"2012".to_vec());
}

#[test]
fn scenario_thirteen_fields_bare() {
    let line = "20120905_DAL@NYG,1,,0,DAL,NYG,,,,D.Bailey kicks 69 yards from DAL 35 to NYG -4. D.Wilson to NYG 16 for 20 yards (A.Holmes).,0,0,2012\n";
    let mut p = parser_from_str(line);
    let rec = p.read_line().unwrap().unwrap();
    assert_eq!(rec.len(), 13);
    assert_eq!(rec.field(12), b"2012".to_vec());
}

#[test]
fn scenario_two_records() {
    let mut p = parser_from_str("1,2,30,\"300, 400\",4\n1,2,30,\"300, 400\",4\n");
    for _ in 0..2 {
        let rec = p.read_line().unwrap().unwrap();
        assert_eq!(rec.len(), 5);
        assert_eq!(rec.field(3), b"\"300, 400\"".to_vec());
        assert_eq!(rec.field(4), b"4".to_vec());
    }
    assert!(p.read_line().unwrap().is_none());
}

#[test]
fn scenario_quoted_crlf_inside_field() {
    let fields = raw_fields("a,\"b\r\nc\",d\n");
    assert_eq!(
        fields,
        vec![b"a".to_vec(), b"\"b\r\nc\"".to_vec(), b"d".to_vec()]
    );
}

#[test]
fn record_lengths_at_chunk_boundaries() {
    // records of exactly 63, 64, 65, 128 and 129 bytes
    for target in [63usize, 64, 65, 128, 129] {
        let first = "x".repeat(target - 2);
        let input = format!("{},y\nz\n", first);
        let mut p = parser_from_str(&input);
        let rec = p.read_line().unwrap().unwrap();
        assert_eq!(rec.len(), 2);
        assert_eq!(rec.field(0).len(), target - 2);
        assert_eq!(rec.field(1), b"y".to_vec());
        let rec2 = p.read_line().unwrap().unwrap();
        assert_eq!(rec2.field(0), b"z".to_vec());
        assert!(p.read_line().unwrap().is_none());
    }
}

#[test]
fn crlf_straddles_chunk_boundary() {
    // CR is the 64th byte of the first chunk; its LF opens the next chunk
    let first = "x".repeat(63);
    let input = format!("{}\r\nsecond\n", first);
    let mut p = parser_from_str(&input);
    let rec = p.read_line().unwrap().unwrap();
    assert_eq!(rec.len(), 1);
    assert_eq!(rec.field(0).len(), 63);
    let rec2 = p.read_line().unwrap().unwrap();
    assert!(rec2.eq_decoded_fields(&vec!["second".to_string()]));
    assert!(p.read_line().unwrap().is_none());
}

#[test]
fn quoted_delimiter_at_chunk_local_position_63() {
    // a quoted field whose protected comma is the 64th byte of the chunk
    let inner_prefix = "a".repeat(62);
    let input = format!("\"{},bbb\",tail\n", inner_prefix);
    assert_eq!(input.as_bytes()[63], b',');
    let mut p = parser_from_str(&input);
    let rec = p.read_line().unwrap().unwrap();
    assert_eq!(rec.len(), 2);
    assert_eq!(rec.field(1), b"tail".to_vec());
    let decoded = rec.decoded(0).unwrap();
    assert!(decoded.ends_with(",bbb"));
    assert!(p.read_line().unwrap().is_none());
}

#[test]
fn empty_line_between_records_is_elided() {
    let mut p = parser_from_str("a,b\n\nc,d\n");
    let rec = p.read_line().unwrap().unwrap();
    assert!(rec.eq_decoded_fields(&vec!["a".to_string(), "b".to_string()]));
    let rec2 = p.read_line().unwrap().unwrap();
    assert!(rec2.eq_decoded_fields(&vec!["c".to_string(), "d".to_string()]));
    assert!(p.read_line().unwrap().is_none());
}

#[test]
fn leading_blank_lines_are_elided() {
    let mut p = parser_from_str("\n\r\n\nvalue\n");
    let rec = p.read_line().unwrap().unwrap();
    assert!(rec.eq_decoded_fields(&vec!["value".to_string()]));
    assert!(p.read_line().unwrap().is_none());
}

#[test]
fn crlf_terminators_give_same_records_as_lf() {
    let lf_input = "a,b\nc,\"d\ne\",f\n";
    let crlf_input = "a,b\r\nc,\"d\ne\",f\r\n";
    let mut p1 = parser_from_str(lf_input);
    let mut p2 = parser_from_str(crlf_input);
    loop {
        match (p1.read_line().unwrap(), p2.read_line().unwrap()) {
            (Some(r1), Some(r2)) => {
                assert_eq!(r1.len(), r2.len());
                for i in 0..r1.len() {
                    assert_eq!(r1.field(i), r2.field(i));
                }
            }
            (None, None) => break,
            _ => panic!("record streams diverged"),
        }
    }
}

#[test]
fn crlf_normalization_preserves_whole_streams() {
    // every bare LF terminator becomes CRLF; the quoted LF, the blank
    // line, and the bare CR are untouched
    let lf_input = "a,b\n\nc,\"d\ne\",f\nx\ry\n";
    let crlf_input = "a,b\r\n\r\nc,\"d\ne\",f\r\nx\ry\r\n";
    let mut p1 = parser_from_str(lf_input);
    let mut p2 = parser_from_str(crlf_input);
    loop {
        match (p1.read_line().unwrap(), p2.read_line().unwrap()) {
            (Some(r1), Some(r2)) => {
                assert_eq!(r1.len(), r2.len());
                for i in 0..r1.len() {
                    assert_eq!(r1.field(i), r2.field(i));
                }
            }
            (None, None) => break,
            _ => panic!("record streams diverged"),
        }
    }
}

#[test]
fn round_trip_of_raw_fields() {
    let line = "aa,b,,dddd\n";
    let mut p = parser_from_str(line);
    let rec = p.read_line().unwrap().unwrap();
    let mut rebuilt: Vec<u8> = Vec::new();
    for i in 0..rec.len() {
        if i > 0 {
            rebuilt.push(b',');
        }
        rebuilt.extend_from_slice(&rec.field(i));
    }
    rebuilt.push(b'\n');
    assert_eq!(rebuilt, line.as_bytes().to_vec());
}

#[test]
fn last_record_without_terminator() {
    let mut p = parser_from_str("a,b");
    let rec = p.read_line().unwrap().unwrap();
    assert!(rec.eq_decoded_fields(&vec!["a".to_string(), "b".to_string()]));
    assert!(p.read_line().unwrap().is_none());
}

#[test]
fn bare_cr_terminates_record() {
    let mut p = parser_from_str("a\rb\n");
    let rec = p.read_line().unwrap().unwrap();
    assert!(rec.eq_decoded_fields(&vec!["a".to_string()]));
    let rec2 = p.read_line().unwrap().unwrap();
    assert!(rec2.eq_decoded_fields(&vec!["b".to_string()]));
    assert!(p.read_line().unwrap().is_none());
}

#[test]
fn empty_input_is_end_of_stream() {
    let mut p = parser_from_str("");
    assert!(p.read_line().unwrap().is_none());
}

#[test]
fn unterminated_quote_runs_to_end_of_input() {
    let mut p = parser_from_str("\"ab\n");
    assert!(!p.inside_quotes);
    let rec = p.read_line().unwrap().unwrap();
    assert_eq!(rec.len(), 1);
    // the line feed is protected by the open quote, so it is content
    assert_eq!(rec.field(0), b"\"ab\n".to_vec());
    assert!(p.inside_quotes);
    assert!(p.read_line().unwrap().is_none());
}

#[test]
fn quote_parity_is_tracked_across_records() {
    let mut p = parser_from_str("\"x\",y\nplain\n");
    let rec = p.read_line().unwrap().unwrap();
    assert_eq!(rec.field(0), b"\"x\"".to_vec());
    assert!(!p.inside_quotes);
    let rec2 = p.read_line().unwrap().unwrap();
    assert!(rec2.eq_decoded_fields(&vec!["plain".to_string()]));
    assert!(!p.inside_quotes);
}

#[test]
fn custom_dialect_semicolon_and_single_quote() {
    let dialect = Dialect {
        delimiter: b';',
        quotechar: b'\'',
        skipinitialspace: false,
        strict: false,
    };
    let mut p = Parser::new(dialect, b"one;'two;half';three\n".to_vec());
    let rec = p.read_line().unwrap().unwrap();
    assert_eq!(rec.len(), 3);
    assert_eq!(rec.field(1), b"'two;half'".to_vec());
    assert_eq!(rec.decoded(1).unwrap(), "two;half");
}

#[test]
fn eq_fields_rejects_wrong_expectation() {
    let mut p = parser_from_str("a,b\n");
    let rec = p.read_line().unwrap().unwrap();
    assert!(!rec.eq_decoded_fields(&vec!["a".to_string()]));
    assert!(!rec.eq_decoded_fields(&vec!["a".to_string(), "c".to_string()]));
}

#[test]
fn classifier_reports_terminator_and_parity() {
    let p = parser_from_str("");
    let mut chunk = b"a,b\n".to_vec();
    chunk.resize(64, 0u8);
    let (dmask, first_term, width, parity) = p.chunk_delimiter_offsets(&chunk, 4);
    assert_eq!(dmask, 0b10);
    assert_eq!(first_term, 3);
    assert_eq!(width, 1);
    assert!(!parity);
}

#[test]
fn classifier_sees_crlf_width_two() {
    let p = parser_from_str("");
    let mut chunk = b"ab\r\ncd\n".to_vec();
    chunk.resize(64, 0u8);
    let (_, first_term, width, _) = p.chunk_delimiter_offsets(&chunk, 7);
    assert_eq!(first_term, 2);
    assert_eq!(width, 2);
}

#[test]
fn classifier_masks_quoted_delimiters() {
    let p = parser_from_str("");
    let mut chunk = b"\"a,b\",c\n".to_vec();
    chunk.resize(64, 0u8);
    let (dmask, first_term, _, parity) = p.chunk_delimiter_offsets(&chunk, 8);
    // only the comma at position 5 is structural
    assert_eq!(dmask, 1 << 5);
    assert_eq!(first_term, 7);
    assert!(!parity);
}

#[test]
fn field_buffer_round_trip() {
    let mut fb = FieldBuffer::new(default_dialect());
    fb.append(&b"hello".to_vec(), 5);
    assert_eq!(fb.to_string().unwrap(), "hello");
    fb.clear();
    fb.append(&b"\"a\"\"b\"".to_vec(), 6);
    assert_eq!(fb.to_escaped_string().unwrap(), "a\"b");
}

#[test]
fn field_buffer_unquoted_is_untouched() {
    let mut fb = FieldBuffer::new(default_dialect());
    fb.append(&b"plain \"\" text".to_vec(), 13);
    // no enclosing quotes, so nothing collapses
    assert_eq!(fb.to_escaped_string().unwrap(), "plain \"\" text");
}

#[test]
fn field_buffer_reports_invalid_utf8() {
    let mut fb = FieldBuffer::new(default_dialect());
    fb.append(&vec![0xffu8, 0xfe], 2);
    assert!(fb.to_string().is_none());
    let mut ok = FieldBuffer::new(default_dialect());
    ok.append(&"é".as_bytes().to_vec(), 2);
    assert_eq!(ok.to_string().unwrap(), "é");
}

#[test]
fn decoded_reports_invalid_utf8() {
    let mut p = Parser::new(default_dialect(), vec![0xffu8, b',', b'a', b'\n']);
    let rec = p.read_line().unwrap().unwrap();
    assert!(rec.decoded(0).is_none());
    assert_eq!(rec.decoded(1).unwrap(), "a");
}

#[test]
fn long_record_spanning_many_chunks() {
    let big = "w".repeat(500);
    let input = format!("{},end\nnext\n", big);
    let mut p = parser_from_str(&input);
    let rec = p.read_line().unwrap().unwrap();
    assert_eq!(rec.len(), 2);
    assert_eq!(rec.field(0).len(), 500);
    assert_eq!(rec.field(1), b"end".to_vec());
    let rec2 = p.read_line().unwrap().unwrap();
    assert!(rec2.eq_decoded_fields(&vec!["next".to_string()]));
}

#[test]
fn records_depend_only_on_unconsumed_input() {
    // a parser that has already consumed a record behaves exactly like
    // a fresh parser over the remaining bytes
    let mut p1 = parser_from_str("skip,me\nc,\"d,d\",e\n");
    let _ = p1.read_line().unwrap().unwrap();
    let mut p2 = parser_from_str("c,\"d,d\",e\n");
    let r1 = p1.read_line().unwrap().unwrap();
    let r2 = p2.read_line().unwrap().unwrap();
    assert_eq!(r1.len(), r2.len());
    for i in 0..r1.len() {
        assert_eq!(r1.field(i), r2.field(i));
    }
}

#[test]
fn eq_fields_compares_raw_bytes() {
    // the sole raw field of this record is the two quote bytes
    let mut p = parser_from_str("\"\"\n");
    let rec = p.read_line().unwrap().unwrap();
    assert_eq!(rec.len(), 1);
    assert!(rec.eq_fields(&vec![b"\"\"".to_vec()]));
    // raw equality, so the reference must carry the quotes
    assert!(!rec.eq_fields(&vec![b"".to_vec()]));
    // the decoded comparison collapses the quotes away
    assert!(rec.eq_decoded_fields(&vec!["".to_string()]));
}

#[test]
fn eq_fields_on_a_plain_record() {
    let mut p = parser_from_str("a,\"b,c\",d\n");
    let rec = p.read_line().unwrap().unwrap();
    assert!(rec.eq_fields(&vec![
        b"a".to_vec(),
        b"\"b,c\"".to_vec(),
        b"d".to_vec()
    ]));
    assert!(!rec.eq_fields(&vec![b"a".to_vec(), b"b,c".to_vec(), b"d".to_vec()]));
    assert!(!rec.eq_fields(&vec![b"a".to_vec(), b"\"b,c\"".to_vec()]));
}

fn strict_dialect() -> Dialect {
    Dialect {
        delimiter: b',',
        quotechar: b'"',
        skipinitialspace: false,
        strict: true,
    }
}

#[test]
fn strict_mode_rejects_unterminated_quote() {
    let mut p = Parser::new(strict_dialect(), b"\"ab".to_vec());
    assert!(matches!(
        p.read_line(),
        Err(csvscan::ScanError::UnterminatedQuote)
    ));
}

#[test]
fn strict_mode_error_comes_after_good_records() {
    let mut p = Parser::new(strict_dialect(), b"x,y\n\"open".to_vec());
    let rec = p.read_line().unwrap().unwrap();
    assert!(rec.eq_fields(&vec![b"x".to_vec(), b"y".to_vec()]));
    assert!(matches!(
        p.read_line(),
        Err(csvscan::ScanError::UnterminatedQuote)
    ));
}

#[test]
fn strict_mode_accepts_balanced_quotes() {
    let mut p = Parser::new(strict_dialect(), b"a,\"b\"\n\"c\"".to_vec());
    let rec = p.read_line().unwrap().unwrap();
    assert!(rec.eq_fields(&vec![b"a".to_vec(), b"\"b\"".to_vec()]));
    let rec2 = p.read_line().unwrap().unwrap();
    assert!(rec2.eq_fields(&vec![b"\"c\"".to_vec()]));
    assert!(p.read_line().unwrap().is_none());
}

#[test]
fn lenient_mode_keeps_unterminated_quote_as_content() {
    let mut p = parser_from_str("\"open");
    let rec = p.read_line().unwrap().unwrap();
    assert!(rec.eq_fields(&vec![b"\"open".to_vec()]));
    assert!(p.read_line().unwrap().is_none());
}

#[test]
fn render_quotes_each_field() {
    let mut p = parser_from_str("a,bb,c\n");
    let rec = p.read_line().unwrap().unwrap();
    assert_eq!(rec.render().unwrap(), "\"a\", \"bb\", \"c\"");
}

#[test]
fn mask_invalid_bytes_values() {
    let p = parser_from_str("");
    assert_eq!(p.mask_invalid_bytes(1), 1);
    assert_eq!(p.mask_invalid_bytes(16), 0xffff);
    assert_eq!(p.mask_invalid_bytes(64), u64::MAX);
    assert_eq!(p.mask_invalid_bytes(200), u64::MAX);
}
