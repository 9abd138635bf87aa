use csvscan::default_dialect;
use csvscan::Parser;

fn parser_from_str(s: &str) -> Parser {
    Parser::new(default_dialect(), s.as_bytes().to_vec())
}

fn strings(v: &[&str]) -> Vec<String> {
    v.iter().map(|s| s.to_string()).collect()
}

#[test]
fn tests_test_line_parsing() {
    let line = "1,2,30,\"300, 400\",4\n";
    let mut p = parser_from_str(line);
    let record = p.read_line().unwrap().unwrap();
    assert!(record.eq_decoded_fields(&strings(&["1", "2", "30", "300, 400", "4"])));
}

#[test]
fn tests_test_line_parsing_continuation() {
    let line = ", \",1,2,\"300, 400\",4\n";
    let mut p = parser_from_str(line);
    p.inside_quotes = true;
    let record = p.read_line().unwrap().unwrap();
    assert!(record.eq_decoded_fields(&strings(&[", \"", "1", "2", "300, 400", "4"])));
}

#[test]
fn tests_test_line_parsing_escaped_newlines() {
    let line = ", \",1,2,\"300,\r\n 400\",4\n";
    let mut p = parser_from_str(line);
    p.inside_quotes = true;
    let record = p.read_line().unwrap().unwrap();
    assert!(record.eq_decoded_fields(&strings(&[", \"", "1", "2", "300,\r\n 400", "4"])));
}

#[test]
fn tests_test_line_parsing_boundaries() {
    let line = "12345678910,12345678910,12345678910,12345678910,offscore blah blah,season\n";
    let mut p = parser_from_str(line);
    let record = p.read_line().unwrap().unwrap();
    assert_eq!(
        record.decoded(record.len() - 2).unwrap(),
        "offscore blah blah"
    );
}

#[test]
fn tests_test_line_parsing_nfl_1() {
    let line = "20120905_DAL@NYG,1,,0,DAL,NYG,,,,D.Bailey kicks 69 yards from DAL 35 to NYG -4. D.Wilson to NYG 16 for 20 yards (A.Holmes).,0,0,2012\n";
    let mut p = parser_from_str(line);
    let record = p.read_line().unwrap().unwrap();
    assert_eq!(
        record.decoded(record.len() - 4).unwrap(),
        "D.Bailey kicks 69 yards from DAL 35 to NYG -4. D.Wilson to NYG 16 for 20 yards (A.Holmes).".to_string()
    );
}

#[test]
fn tests_test_line_parsing_nfl_2() {
    let line = "20120905_DAL@NYG,1,59,49,NYG,DAL,2,10,84,(14:49) E.Manning pass short middle to V.Cruz to NYG 21 for 5 yards (S.Lee) [J.Hatcher].,0,0,2012\n";
    let mut p = parser_from_str(line);
    let record = p.read_line().unwrap().unwrap();
    assert_eq!(
        record.decoded(record.len() - 4).unwrap(),
        "(14:49) E.Manning pass short middle to V.Cruz to NYG 21 for 5 yards (S.Lee) [J.Hatcher].".to_string()
    );
}

#[test]
fn tests_test_line_parsing_nfl_3() {
    let line = "20120905_DAL@NYG,1,57,9,NYG,DAL,1,10,87,(12:09) A.Bradshaw left tackle to NYG 15 for 2 yards (J.Hatcher J.Price-Brent).,0,0,2012\n";
    let mut p = parser_from_str(line);
    let record = p.read_line().unwrap().unwrap();
    assert_eq!(
        record.decoded(record.len() - 4).unwrap(),
        "(12:09) A.Bradshaw left tackle to NYG 15 for 2 yards (J.Hatcher J.Price-Brent)."
    );
    assert_eq!(record.decoded(record.len() - 1).unwrap(), "2012");
}

#[test]
fn tests_test_line_parsing_nfl_4() {
    let line = "20120905_DAL@NYG,1,57,9,NYG,DAL,1,10,87,(12:09) A.Bradshaw left tackle to NYG 15 for 2 yards (J.Hatcher J.Price-Brent).,0,0,2012\n";
    let mut p = parser_from_str(line);
    let record = p.read_line().unwrap().unwrap();
    assert_eq!(
        record.decoded(record.len() - 4).unwrap(),
        "(12:09) A.Bradshaw left tackle to NYG 15 for 2 yards (J.Hatcher J.Price-Brent).".to_string()
    );
    assert_eq!(record.decoded(record.len() - 1).unwrap(), "2012");
}

#[test]
fn tests_test_line_parsing_nfl_nested_quotes() {
    let line = "20120923_TB@DAL,3,29,12,TB,DAL,3,8,78,\"(14:12) (Shotgun) J.Freeman pass incomplete deep left to D.Clark. Pass incomplete on a \"\"seam\"\" route; Carter closest defender.\",7,10,2012\n";
    let mut p = parser_from_str(line);
    let record = p.read_line().unwrap().unwrap();
    assert_eq!(
        record.decoded(record.len() - 4).unwrap(),
        "(14:12) (Shotgun) J.Freeman pass incomplete deep left to D.Clark. Pass incomplete on a \"seam\" route; Carter closest defender.".to_string()
    );
    assert_eq!(record.decoded(record.len() - 1).unwrap(), "2012");
}
