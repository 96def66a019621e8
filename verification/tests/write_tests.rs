use f77_io::format::{parse_format, FormatNode};
use f77_io::iter::FormatEvalIter;
use f77_io::write::{end_record, FortranIterWriter, FortranWrite, WriteErr};

fn drive<T: FortranWrite>(fmt: &str, vals: &[T]) -> Result<String, WriteErr> {
    let ast = parse_format(fmt).expect("format must parse");
    let mut out = String::new();
    let mut w = FortranIterWriter::new(&ast);
    for v in vals.iter() {
        w.write_constants(&mut out, true)?;
        w.write_value(&mut out, v)?;
    }
    w.write_constants(&mut out, false)?;
    Ok(out)
}

#[test]
fn walk_expands_repeats() {
    let ast = parse_format("(3(I4))").unwrap();
    let mut it = FormatEvalIter::new(&ast);
    for _ in 0..3 {
        let leaf = it.next().expect("a leaf");
        assert_eq!(leaf, FormatNode::Int(Some(4), None));
    }
    assert!(it.next().is_none());
}

#[test]
fn walk_yields_no_interior_nodes() {
    let ast = parse_format("(2(1X, 2('ab', I2))/, 3X)").unwrap();
    let mut it = FormatEvalIter::new(&ast);
    let mut n = 0;
    while let Some(leaf) = it.next() {
        assert!(!matches!(leaf, FormatNode::Group(_)));
        assert!(!matches!(leaf, FormatNode::Repeat(..)));
        n += 1;
    }
    assert_eq!(n, 2 * (1 + 2 * 2) + 1 + 3);
}

#[test]
fn star_on_integer() {
    let mut out = String::new();
    42u32.fortran_write_default(&mut out).unwrap();
    end_record(&mut out);
    assert_eq!(out, "          42\n");
}

#[test]
fn default_widths() {
    let mut out = String::new();
    (-7i8).fortran_write_default(&mut out).unwrap();
    assert_eq!(out, "   -7");
    let mut out = String::new();
    (-7i16).fortran_write_default(&mut out).unwrap();
    assert_eq!(out, "     -7");
    let mut out = String::new();
    true.fortran_write_default(&mut out).unwrap();
    assert_eq!(out, "      T");
    let mut out = String::new();
    "plain".to_string().fortran_write_default(&mut out).unwrap();
    assert_eq!(out, "plain");
}

#[test]
fn integer_min_digits() {
    assert_eq!(drive("(I8.3)", &[42u64]).unwrap(), "     042\n");
}

#[test]
fn reversion() {
    assert_eq!(drive("(I4)", &[1i32, 2i32]).unwrap(), "   1   2\n");
}

#[test]
fn data_without_format() {
    assert!(matches!(drive("()", &[1i32]), Err(WriteErr::DataWithoutFormat)));
}

#[test]
fn integer_overflow_renders_stars() {
    assert_eq!(drive("(I4)", &[123456i32]).unwrap(), "****\n");
}

#[test]
fn negative_integers() {
    assert_eq!(drive("(I6)", &[-42i32]).unwrap(), "   -42\n");
    assert_eq!(drive("(I6.4)", &[-42i32]).unwrap(), "  -042\n");
    assert_eq!(drive("(I4)", &[i8::MIN]).unwrap(), "-128\n");
}

#[test]
fn octal_and_hex() {
    assert_eq!(drive("(O4)", &[8u32]).unwrap(), "  10\n");
    assert_eq!(drive("(Z4)", &[255u32]).unwrap(), "  ff\n");
    assert_eq!(drive("(Z8)", &[-1i32]).unwrap(), "ffffffff\n");
    assert_eq!(drive("(O3)", &[-1i8]).unwrap(), "377\n");
}

#[test]
fn logical_fields() {
    assert_eq!(drive("(L4)", &[true]).unwrap(), "   T\n");
    assert_eq!(drive("(L1)", &[false]).unwrap(), "F\n");
    assert_eq!(drive("(L)", &[true]).unwrap(), " T\n");
}

#[test]
fn character_fields() {
    assert_eq!(drive("(A5)", &["ab".to_string()]).unwrap(), "***ab\n");
    assert_eq!(drive("(A2)", &["abcd".to_string()]).unwrap(), "ab\n");
    assert_eq!(drive("(A)", &["verbatim".to_string()]).unwrap(), "verbatim\n");
}

#[test]
fn constants_and_controls() {
    let ast = parse_format("('ab',2X/)").unwrap();
    let mut out = String::new();
    let mut w = FortranIterWriter::new(&ast);
    w.write_constants(&mut out, false).unwrap();
    assert_eq!(out, "ab  \n\n");
}

#[test]
fn nothing_for_empty_format_without_values() {
    let ast = parse_format("()").unwrap();
    let mut out = String::new();
    let mut w = FortranIterWriter::new(&ast);
    w.write_constants(&mut out, false).unwrap();
    assert_eq!(out, "");
}

#[test]
fn suppress_newline() {
    let ast = parse_format("('a',$)").unwrap();
    let mut out = String::new();
    let mut w = FortranIterWriter::new(&ast);
    w.write_constants(&mut out, false).unwrap();
    assert_eq!(out, "a");
}

#[test]
fn terminate_stops_without_values() {
    let ast = parse_format("('a',:,'b')").unwrap();
    let mut out = String::new();
    let mut w = FortranIterWriter::new(&ast);
    w.write_constants(&mut out, false).unwrap();
    assert_eq!(out, "a");
}

#[test]
fn terminate_ignored_with_values() {
    assert_eq!(drive("('a',:,'b',I2)", &[5i32]).unwrap(), "ab 5\n");
}

#[test]
fn invalid_editing_reported() {
    assert!(matches!(drive("(I4)", &[true]), Err(WriteErr::InvalidEditing(..))));
    assert!(matches!(drive("(L4)", &[7i32]), Err(WriteErr::InvalidEditing(..))));
    assert!(matches!(drive("(A4)", &[7u8]), Err(WriteErr::InvalidEditing(..))));
}

#[test]
fn q_rejected_on_write() {
    assert!(matches!(drive("(Q,I4)", &[1i32]), Err(WriteErr::UnexpectedQInWrite)));
}

#[test]
fn invalid_state_without_data_leaf() {
    let ast = parse_format("()").unwrap();
    let mut out = String::new();
    let mut w = FortranIterWriter::new(&ast);
    let r = w.write_value(&mut out, &1i32);
    assert!(matches!(r, Err(WriteErr::InvalidState)));
}

#[test]
fn repeated_group_reversion() {
    // after reversion the walk stops just before the next data leaf, so no
    // closing newline is reached
    assert_eq!(
        drive("(2(I2,'x'))", &[1u8, 2u8, 3u8]).unwrap(),
        " 1x 2x 3x"
    );
}

#[test]
fn vector_values_interleave() {
    assert_eq!(
        drive("(I2,'-')", &[vec![1i32, 2i32, 3i32]]).unwrap(),
        " 1- 2- 3-\n"
    );
}

#[test]
fn radix_and_scale_are_tracked() {
    // sticky prefixes are consumed silently on output
    assert_eq!(drive("(16R, 2P, I3)", &[5i32]).unwrap(), "  5\n");
}

#[test]
fn integer_and_real_fields() {
    let ast = parse_format("(I8.3, F8.3)").unwrap();
    let mut out = String::new();
    let mut w = FortranIterWriter::new(&ast);
    w.write_constants(&mut out, true).unwrap();
    w.write_value(&mut out, &42u64).unwrap();
    w.write_constants(&mut out, true).unwrap();
    let rendered = format!("{:.3}", 123.456f64);
    w.write_rendered_real(&mut out, &rendered).unwrap();
    w.write_constants(&mut out, false).unwrap();
    assert_eq!(out, "     042 123.456\n");
}

#[test]
fn rendered_real_overflow_and_mismatch() {
    let ast = parse_format("(F4.3)").unwrap();
    let mut out = String::new();
    let mut w = FortranIterWriter::new(&ast);
    w.write_constants(&mut out, true).unwrap();
    w.write_rendered_real(&mut out, "123.456").unwrap();
    w.write_constants(&mut out, false).unwrap();
    assert_eq!(out, "****\n");

    let ast = parse_format("(I4)").unwrap();
    let mut out = String::new();
    let mut w = FortranIterWriter::new(&ast);
    w.write_constants(&mut out, true).unwrap();
    assert!(matches!(
        w.write_rendered_real(&mut out, "1.5"),
        Err(WriteErr::InvalidEditing(..))
    ));
}

#[test]
fn peek_exposes_the_next_leaf() {
    let ast = parse_format("(2X, F8.3)").unwrap();
    let mut out = String::new();
    let mut w = FortranIterWriter::new(&ast);
    w.write_constants(&mut out, true).unwrap();
    let leaf = w.peek_leaf().unwrap();
    assert_eq!(leaf, FormatNode::Real(f77_io::format::RealFormat::F, Some(8), Some(3), None));
    w.write_rendered_real(&mut out, "1.500").unwrap();
    w.write_constants(&mut out, false).unwrap();
    assert_eq!(out, "     1.500\n");
}
