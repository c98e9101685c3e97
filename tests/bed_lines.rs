use sunkmap::bed::{parse_bed_line, BedError, BedLine};

fn parse(s: &str) -> Result<Option<BedLine>, BedError> {
    parse_bed_line(&s.as_bytes().to_vec())
}

#[test]
fn bed3_line() {
    assert_eq!(
        parse("chr1\t100\t250"),
        Ok(Some(BedLine { name: b"chr1".to_vec(), start: 100, stop: 250, rest: vec![] }))
    );
}

#[test]
fn bed4_line_keeps_all_remaining_columns() {
    assert_eq!(
        parse("ctg\t-5\t+7\tname\t0.5"),
        Ok(Some(BedLine { name: b"ctg".to_vec(), start: -5, stop: 7, rest: b"name\t0.5".to_vec() }))
    );
}

#[test]
fn short_lines_are_skipped() {
    assert_eq!(parse("chr1\t100"), Ok(None));
    assert_eq!(parse(""), Ok(None));
}

#[test]
fn bad_positions() {
    assert_eq!(parse("c\t1x\t2"), Err(BedError::BadPosition));
    assert_eq!(parse("c\t\t2"), Err(BedError::BadPosition));
    assert_eq!(parse("c\t-\t2"), Err(BedError::BadPosition));
    assert_eq!(parse("c\t2147483648\t2"), Err(BedError::BadPosition));
    assert_eq!(parse("c\t1\t99999999999999999999"), Err(BedError::BadPosition));
    assert_eq!(
        parse("c\t-2147483648\t2147483647"),
        Ok(Some(BedLine { name: b"c".to_vec(), start: i32::MIN, stop: i32::MAX, rest: vec![] }))
    );
}
