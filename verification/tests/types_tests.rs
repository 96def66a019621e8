use f77_io::types::{FortranAltType, FortranAryType, FortranTag};

#[test]
fn scalar_tags() {
    assert_eq!(<bool as FortranAltType>::fortran_tag(), FortranTag::Bool);
    assert_eq!(<i8 as FortranAltType>::fortran_tag(), FortranTag::Byte);
    assert_eq!(<i16 as FortranAltType>::fortran_tag(), FortranTag::Int2);
    assert_eq!(<i32 as FortranAltType>::fortran_tag(), FortranTag::Int4);
    assert_eq!(<i64 as FortranAltType>::fortran_tag(), FortranTag::Int8);
    assert_eq!(<u16 as FortranAltType>::fortran_tag(), FortranTag::Uint2);
    assert_eq!(<u32 as FortranAltType>::fortran_tag(), FortranTag::Uint4);
    assert_eq!(<u64 as FortranAltType>::fortran_tag(), FortranTag::Uint8);
    assert_eq!(<String as FortranAltType>::fortran_tag(), FortranTag::Strin);
}

#[test]
fn scalar_types_have_no_shape() {
    let t = <i32 as FortranAltType>::fortran_type();
    assert_eq!(t.tag, FortranTag::Int4);
    assert!(t.dim.is_none());
}

#[test]
fn array_types_carry_their_shape() {
    let t = <Vec<i64> as FortranAryType>::fortran_type(vec![2, 3]);
    assert_eq!(t.tag, FortranTag::Int8);
    assert_eq!(t.dim, Some(vec![2, 3]));
    assert_eq!(<Vec<u16> as FortranAryType>::fortran_tag(), FortranTag::Uint2);
}
