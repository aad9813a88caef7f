use irb::text::Irb;
use irb::Error;

fn lines(ls: &[&[u8]]) -> Vec<Vec<u8>> {
    ls.iter().map(|l| l.to_vec()).collect()
}

#[test]
fn parses_two_by_two() {
    let ls = lines(&[
        b"ImageWidth=2",
        b"ImageHeight=2",
        b"[Data]",
        b"0,64 0,58",
        b"0,57\t1,5",
    ]);
    let irb = Irb::from_lines(&ls).unwrap();
    assert_eq!(2, irb.width());
    assert_eq!(2, irb.height());
    assert_eq!("0.64", irb.index(0, 0));
    assert_eq!("0.58", irb.index(1, 0));
    assert_eq!("0.57", irb.index(0, 1));
    assert_eq!("1.5", irb.index(1, 1));
}

#[test]
fn read_header_finds_both_dimensions() {
    let ls = lines(&[b"Noise", b"ImageWidth=3", b"ImageHeight=4", b"[Data]", b"1 2 3"]);
    assert_eq!(Ok((3, 4, 4)), Irb::read_header(&ls));
}

#[test]
fn missing_height_fails() {
    let ls = lines(&[b"ImageWidth=2", b"[Data]"]);
    assert_eq!(Err(Error::MissingHeight), Irb::from_lines(&ls).map(|_| ()));
}

#[test]
fn missing_both_reports_width_first() {
    let ls = lines(&[b"Camera=XYZ", b"[Data]"]);
    assert_eq!(Err(Error::MissingWidth), Irb::from_lines(&ls).map(|_| ()));
    let empty: Vec<Vec<u8>> = Vec::new();
    assert_eq!(Err(Error::MissingWidth), Irb::from_lines(&empty).map(|_| ()));
}

#[test]
fn declaration_without_equals_fails() {
    let ls = lines(&[b"ImageWidth 2", b"[Data]"]);
    assert_eq!(
        Err(Error::MissingEqualsSign(b"ImageWidth 2".to_vec())),
        Irb::from_lines(&ls).map(|_| ())
    );
}

#[test]
fn declaration_value_must_be_a_number() {
    let ls = lines(&[b"ImageWidth=abc", b"[Data]"]);
    assert_eq!(
        Err(Error::ParseNumeric(b"abc".to_vec())),
        Irb::from_lines(&ls).map(|_| ())
    );
}

#[test]
fn declaration_value_is_trimmed_and_split_on_second_equals() {
    let ls = lines(&[b"ImageWidth= 2 =9", b"ImageHeight=\t1 ", b"[Data]", b"5 5"]);
    let irb = Irb::from_lines(&ls).unwrap();
    assert_eq!(2, irb.width());
    assert_eq!(1, irb.height());
}

#[test]
fn later_declaration_wins() {
    let ls = lines(&[b"ImageWidth=7", b"ImageWidth=1", b"ImageHeight=1", b"[Data]", b"3,5"]);
    let irb = Irb::from_lines(&ls).unwrap();
    assert_eq!(1, irb.width());
}

#[test]
fn wrong_column_count_fails_at_first_bad_row() {
    let ls = lines(&[
        b"ImageWidth=2",
        b"ImageHeight=2",
        b"[Data]",
        b"1 2 3",
        b"this row is never reached",
    ]);
    assert_eq!(Err(Error::ImageWidth(3, 2)), Irb::from_lines(&ls).map(|_| ()));
}

#[test]
fn wrong_row_count_fails() {
    let ls = lines(&[b"ImageWidth=2", b"ImageHeight=2", b"[Data]", b"1 2", b"3 4", b"5 6"]);
    assert_eq!(Err(Error::ImageHeight(3, 2)), Irb::from_lines(&ls).map(|_| ()));
    let ls = lines(&[b"ImageWidth=2", b"ImageHeight=2", b"[Data]", b"1 2"]);
    assert_eq!(Err(Error::ImageHeight(1, 2)), Irb::from_lines(&ls).map(|_| ()));
}

#[test]
fn bad_data_token_fails() {
    let ls = lines(&[b"ImageWidth=2", b"ImageHeight=1", b"[Data]", b"1,5 no"]);
    assert_eq!(
        Err(Error::ParseNumeric(b"no".to_vec())),
        Irb::from_lines(&ls).map(|_| ())
    );
}

#[test]
fn semicolons_separate_samples() {
    let ls = lines(&[b"ImageWidth=3", b"ImageHeight=1", b"[Data]", b"1,5;2;-3.25e1"]);
    let irb = Irb::from_lines(&ls).unwrap();
    assert_eq!("1.5", irb.index(0, 0));
    assert_eq!("2", irb.index(1, 0));
    assert_eq!("-3.25e1", irb.index(2, 0));
}

#[test]
fn trailing_blank_lines_are_skipped() {
    let ls = lines(&[b"ImageWidth=1", b"ImageHeight=1", b"[Data]", b"4,25", b"", b"  \t"]);
    let irb = Irb::from_lines(&ls).unwrap();
    assert_eq!("4.25", irb.index(0, 0));
}

#[test]
fn temperature_is_bounds_checked() {
    let ls = lines(&[b"ImageWidth=2", b"ImageHeight=1", b"[Data]", b"1 2"]);
    let irb = Irb::from_lines(&ls).unwrap();
    assert_eq!(Some("2".to_string()), irb.temperature(1, 0));
    assert_eq!(None, irb.temperature(2, 0));
    assert_eq!(None, irb.temperature(0, 1));
}

#[test]
fn read_data_consumes_rows_from_an_offset() {
    let ls = lines(&[b"ignored header", b"1 2", b"3 4"]);
    let data = Irb::read_data(&ls, 1, 2, 2).unwrap();
    assert_eq!(vec!["1", "2", "3", "4"], data);
    assert_eq!(
        Err(Error::ImageHeight(1, 2)),
        Irb::read_data(&ls, 2, 2, 2).map(|_| ())
    );
}

#[test]
fn numeric_grammar_accepts_the_usual_shapes() {
    let ls = lines(&[
        b"ImageWidth=8",
        b"ImageHeight=1",
        b"[Data]",
        b"5. .5 1e3 +2.5e-3 -0,25 2,5E+1 007 -12.",
    ]);
    let irb = Irb::from_lines(&ls).unwrap();
    assert_eq!("5.", irb.index(0, 0));
    assert_eq!(".5", irb.index(1, 0));
    assert_eq!("1e3", irb.index(2, 0));
    assert_eq!("+2.5e-3", irb.index(3, 0));
    assert_eq!("-0.25", irb.index(4, 0));
    assert_eq!("2.5E+1", irb.index(5, 0));
    assert_eq!("007", irb.index(6, 0));
    assert_eq!("-12.", irb.index(7, 0));
    // every accepted token is one the usual float parse accepts too
    for col in 0..8 {
        irb.index(col, 0).parse::<f64>().unwrap();
    }
}

#[test]
fn numeric_grammar_rejects_malformed_tokens() {
    for bad in [
        &b"."[..],
        b"1e",
        b"--1",
        b"1.2.3",
        b"e5",
        b"1e2e3",
        b"2.5e1.5",
        b"+",
        b"inf",
    ] {
        let mut row = b"1,5 ".to_vec();
        row.extend_from_slice(bad);
        let ls = vec![
            b"ImageWidth=2".to_vec(),
            b"ImageHeight=1".to_vec(),
            b"[Data]".to_vec(),
            row,
        ];
        let expected: Vec<u8> = bad.iter().map(|b| if *b == b',' { b'.' } else { *b }).collect();
        assert_eq!(
            Err(Error::ParseNumeric(expected)),
            Irb::from_lines(&ls).map(|_| ()),
            "token {:?} should be rejected",
            String::from_utf8_lossy(bad)
        );
    }
}

#[test]
fn header_value_accepts_a_leading_plus() {
    let ls = lines(&[b"ImageWidth=+2", b"ImageHeight=1", b"[Data]", b"1 2"]);
    let irb = Irb::from_lines(&ls).unwrap();
    assert_eq!(2, irb.width());
}

#[test]
fn header_value_overflow_is_rejected() {
    let ls = lines(&[b"ImageWidth=99999999999999999999999999", b"[Data]"]);
    assert_eq!(
        Err(Error::ParseNumeric(b"99999999999999999999999999".to_vec())),
        Irb::from_lines(&ls).map(|_| ())
    );
}

#[test]
fn large_export_end_to_end() {
    let mut ls: Vec<Vec<u8>> = Vec::new();
    ls.push(b"ImageWidth=1024".to_vec());
    ls.push(b"ImageHeight=768".to_vec());
    ls.push(b"[Data]".to_vec());
    let mut plain_row: Vec<u8> = Vec::new();
    for col in 0..1024 {
        if col > 0 {
            plain_row.push(b' ');
        }
        plain_row.extend_from_slice(b"1,5");
    }
    let mut first_row = b"0,64".to_vec();
    first_row.extend_from_slice(&plain_row[3..]);
    let mut last_row = plain_row[..plain_row.len() - 3].to_vec();
    last_row.extend_from_slice(b"-37,49");
    ls.push(first_row);
    for _ in 1..767 {
        ls.push(plain_row.clone());
    }
    ls.push(last_row);
    let irb = Irb::from_lines(&ls).unwrap();
    assert_eq!(1024, irb.width());
    assert_eq!(768, irb.height());
    let first: f64 = irb.index(0, 0).parse().unwrap();
    assert!((first - 0.64).abs() < 1e-2);
    let last: f64 = irb.index(1023, 767).parse().unwrap();
    assert!((last - -37.49).abs() < 1e-2);
    let mid: f64 = irb.index(512, 300).parse().unwrap();
    assert!((mid - 1.5).abs() < 1e-2);
}
