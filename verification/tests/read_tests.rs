use f77_io::format::parse_format;
use f77_io::read::{FortranDefaultReader, FortranIterReader, LineSource, ReadErr};

fn reader(input: &str) -> FortranDefaultReader {
    FortranDefaultReader::new(LineSource::new(input))
}

#[test]
fn single_integer() {
    let mut r = reader("1\n");
    let mut v: i32 = 0;
    assert_eq!(r.read_value(&mut v).unwrap(), true);
    assert_eq!(v, 1);
}

#[test]
fn blank_lines_skipped() {
    let mut r = reader("1\n\n\n2");
    let mut a: i32 = 0;
    let mut b: i32 = 0;
    assert_eq!(r.read_value(&mut a).unwrap(), true);
    assert_eq!(r.read_value(&mut b).unwrap(), true);
    assert_eq!((a, b), (1, 2));
}

#[test]
fn commas_and_newlines_mix() {
    let mut r = reader("1,2\n3\ntrailing");
    let mut a: i32 = 0;
    let mut b: i32 = 0;
    let mut c: i32 = 0;
    assert_eq!(r.read_value(&mut a).unwrap(), true);
    assert_eq!(r.read_value(&mut b).unwrap(), true);
    assert_eq!(r.read_value(&mut c).unwrap(), true);
    assert_eq!((a, b, c), (1, 2, 3));
    let mut s = String::new();
    assert_eq!(r.read_value(&mut s).unwrap(), true);
    assert_eq!(s, "trailing");
}

#[test]
fn two_strings() {
    let mut r = reader("first line to read\nsecond line to read\nmore");
    let mut a = String::new();
    let mut b = String::new();
    assert_eq!(r.read_value(&mut a).unwrap(), true);
    assert_eq!(r.read_value(&mut b).unwrap(), true);
    assert_eq!(a, "first line to read");
    assert_eq!(b, "second line to read");
}

#[test]
fn sequence_of_integers() {
    let mut r = reader("1,2,3");
    let mut v: Vec<i32> = vec![0, 0, 0];
    assert_eq!(r.read_value(&mut v).unwrap(), true);
    assert_eq!(v, vec![1, 2, 3]);
}

#[test]
fn empty_fields_leave_destination() {
    let mut r = reader(",,7");
    let mut a: i32 = 42;
    let mut b: i32 = 43;
    let mut c: i32 = 0;
    assert_eq!(r.read_value(&mut a).unwrap(), false);
    assert_eq!(r.read_value(&mut b).unwrap(), false);
    assert_eq!(r.read_value(&mut c).unwrap(), true);
    assert_eq!((a, b, c), (42, 43, 7));
}

#[test]
fn end_of_stream_reads_nothing() {
    let mut r = reader("5");
    let mut a: i32 = 0;
    let mut b: i32 = 9;
    assert_eq!(r.read_value(&mut a).unwrap(), true);
    assert_eq!(r.read_value(&mut b).unwrap(), false);
    assert_eq!((a, b), (5, 9));
}

#[test]
fn signed_and_bounds() {
    let mut r = reader("-8, +9, 127, -128");
    let mut a: i8 = 0;
    let mut b: i8 = 0;
    let mut c: i8 = 0;
    let mut d: i8 = 0;
    assert_eq!(r.read_value(&mut a).unwrap(), true);
    assert_eq!(r.read_value(&mut b).unwrap(), true);
    assert_eq!(r.read_value(&mut c).unwrap(), true);
    assert_eq!(r.read_value(&mut d).unwrap(), true);
    assert_eq!((a, b, c, d), (-8, 9, 127, -128));
}

#[test]
fn integer_parse_errors() {
    let mut r = reader("abc");
    let mut v: i32 = 0;
    assert!(matches!(r.read_value(&mut v), Err(ReadErr::ParseIntError)));

    let mut r = reader("128");
    let mut v: i8 = 0;
    assert!(matches!(r.read_value(&mut v), Err(ReadErr::ParseIntError)));

    let mut r = reader("-1");
    let mut v: u32 = 0;
    assert!(matches!(r.read_value(&mut v), Err(ReadErr::ParseIntError)));

    let mut r = reader("99999999999999999999999999");
    let mut v: u64 = 0;
    assert!(matches!(r.read_value(&mut v), Err(ReadErr::ParseIntError)));
}

#[test]
fn logical_reads() {
    let mut r = reader("T f, F t");
    let mut a = false;
    let mut b = true;
    let mut c = true;
    let mut d = false;
    assert_eq!(r.read_value(&mut a).unwrap(), true);
    assert_eq!(r.read_value(&mut b).unwrap(), true);
    assert_eq!(r.read_value(&mut c).unwrap(), true);
    assert_eq!(r.read_value(&mut d).unwrap(), true);
    assert_eq!((a, b, c, d), (true, false, false, true));
}

#[test]
fn logical_parse_error() {
    let mut r = reader("x");
    let mut v = false;
    assert!(matches!(r.read_value(&mut v), Err(ReadErr::ParseBoolError)));
}

#[test]
fn format_directed_constants_consumed() {
    let ast = parse_format("(1X/)").unwrap();
    let mut r = FortranIterReader::new(&ast, LineSource::new("abcd\nefgh\n"));
    assert!(r.consume_constants(false).is_ok());
}

#[test]
fn literal_rejected_on_input() {
    let ast = parse_format("('a',I4)").unwrap();
    let mut r = FortranIterReader::new(&ast, LineSource::new("abcd\n"));
    assert!(matches!(r.consume_constants(true), Err(ReadErr::UnexpectedLiteral)));
}

#[test]
fn no_data_editings() {
    let ast = parse_format("()").unwrap();
    let mut r = FortranIterReader::new(&ast, LineSource::new("abcd\n"));
    assert!(matches!(r.consume_constants(true), Err(ReadErr::NoDataEditings)));
}

#[test]
fn format_directed_value_reads_nothing() {
    let ast = parse_format("(I4)").unwrap();
    let mut r = FortranIterReader::new(&ast, LineSource::new("1234\n"));
    r.consume_constants(true).unwrap();
    let mut v: i32 = 7;
    assert_eq!(r.read_value(&mut v).unwrap(), false);
    assert_eq!(v, 7);
}

#[test]
fn vector_error_stops_midway() {
    let mut r = reader("1,x,3");
    let mut v: Vec<i32> = vec![0, 0, 0];
    assert!(matches!(r.read_value(&mut v), Err(ReadErr::ParseIntError)));
    assert_eq!(v, vec![1, 0, 0]);
}

#[test]
fn csv_fields_direct() {
    let mut r = reader("x,y\nz");
    assert_eq!(r.read_next_csv().unwrap(), "x");
    assert_eq!(r.read_next_csv().unwrap(), "y");
    assert_eq!(r.read_next_csv().unwrap(), "z");
    assert_eq!(r.read_next_csv().unwrap(), "");
}

#[test]
fn rest_of_record_direct() {
    let mut r = reader("abc\ndef");
    assert_eq!(r.read_rest_string().unwrap(), "abc");
    assert_eq!(r.read_rest_string().unwrap(), "def");
    assert_eq!(r.read_rest_string().unwrap(), "");
}
