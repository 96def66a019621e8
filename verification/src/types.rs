//! The association between value types and their formatted-I/O kind tags.

use vstd::prelude::*;

verus! {

/// A one-machine-word logical value stored in a two-byte slot.
#[derive(Debug, Clone, Copy)]
pub struct Fbool2(pub bool);

/// A logical value stored in a four-byte slot.
#[derive(Debug, Clone, Copy)]
pub struct Fbool4(pub bool);

/// A logical value stored in an eight-byte slot.
#[derive(Debug, Clone, Copy)]
pub struct Fbool8(pub bool);

/// The kind of a supported value, as the editing rules see it.
#[derive(Debug, Clone, Copy, PartialEq, Eq, Structural)]
pub enum FortranTag {
    Byte,
    Bool,
    Bool2,
    Bool4,
    Bool8,
    Int2,
    Int4,
    Int8,
    Uint2,
    Uint4,
    Uint8,
    Real4,
    Real8,
    Strin,
    Complex4,
    Complex8,
}

/// A kind tag together with an optional array shape.
pub struct FortranType {
    pub tag: FortranTag,
    pub dim: Option<Vec<usize>>,
}

/// A scalar type with a formatted-I/O kind.
pub trait FortranAltType {
    /// The kind tag this type carries.
    spec fn spec_tag() -> FortranTag;

    fn fortran_tag() -> (t: FortranTag)
        ensures
            t == Self::spec_tag(),
    ;

    fn fortran_type() -> (t: FortranType)
        ensures
            t.tag == Self::spec_tag(),
            t.dim is None,
    ;
}

/// An array type whose elements have a formatted-I/O kind.
pub trait FortranAryType {
    /// The kind tag of the elements.
    spec fn spec_tag() -> FortranTag;

    fn fortran_tag() -> (t: FortranTag)
        ensures
            t == Self::spec_tag(),
    ;

    fn fortran_type(dim: Vec<usize>) -> (t: FortranType)
        ensures
            t.tag == Self::spec_tag(),
            t.dim matches Some(d) && d@ == dim@,
    ;
}

impl FortranAltType for bool {
    open spec fn spec_tag() -> FortranTag {
        FortranTag::Bool
    }

    fn fortran_tag() -> (t: FortranTag) {
        FortranTag::Bool
    }

    fn fortran_type() -> (t: FortranType) {
        FortranType { tag: FortranTag::Bool, dim: None }
    }
}

impl FortranAltType for Fbool2 {
    open spec fn spec_tag() -> FortranTag {
        FortranTag::Bool2
    }

    fn fortran_tag() -> (t: FortranTag) {
        FortranTag::Bool2
    }

    fn fortran_type() -> (t: FortranType) {
        FortranType { tag: FortranTag::Bool2, dim: None }
    }
}

impl FortranAltType for Fbool4 {
    open spec fn spec_tag() -> FortranTag {
        FortranTag::Bool4
    }

    fn fortran_tag() -> (t: FortranTag) {
        FortranTag::Bool4
    }

    fn fortran_type() -> (t: FortranType) {
        FortranType { tag: FortranTag::Bool4, dim: None }
    }
}

impl FortranAltType for Fbool8 {
    open spec fn spec_tag() -> FortranTag {
        FortranTag::Bool8
    }

    fn fortran_tag() -> (t: FortranTag) {
        FortranTag::Bool8
    }

    fn fortran_type() -> (t: FortranType) {
        FortranType { tag: FortranTag::Bool8, dim: None }
    }
}

impl FortranAltType for i8 {
    open spec fn spec_tag() -> FortranTag {
        FortranTag::Byte
    }

    fn fortran_tag() -> (t: FortranTag) {
        FortranTag::Byte
    }

    fn fortran_type() -> (t: FortranType) {
        FortranType { tag: FortranTag::Byte, dim: None }
    }
}

impl FortranAltType for i16 {
    open spec fn spec_tag() -> FortranTag {
        FortranTag::Int2
    }

    fn fortran_tag() -> (t: FortranTag) {
        FortranTag::Int2
    }

    fn fortran_type() -> (t: FortranType) {
        FortranType { tag: FortranTag::Int2, dim: None }
    }
}

impl FortranAltType for i32 {
    open spec fn spec_tag() -> FortranTag {
        FortranTag::Int4
    }

    fn fortran_tag() -> (t: FortranTag) {
        FortranTag::Int4
    }

    fn fortran_type() -> (t: FortranType) {
        FortranType { tag: FortranTag::Int4, dim: None }
    }
}

impl FortranAltType for i64 {
    open spec fn spec_tag() -> FortranTag {
        FortranTag::Int8
    }

    fn fortran_tag() -> (t: FortranTag) {
        FortranTag::Int8
    }

    fn fortran_type() -> (t: FortranType) {
        FortranType { tag: FortranTag::Int8, dim: None }
    }
}

impl FortranAltType for u16 {
    open spec fn spec_tag() -> FortranTag {
        FortranTag::Uint2
    }

    fn fortran_tag() -> (t: FortranTag) {
        FortranTag::Uint2
    }

    fn fortran_type() -> (t: FortranType) {
        FortranType { tag: FortranTag::Uint2, dim: None }
    }
}

impl FortranAltType for u32 {
    open spec fn spec_tag() -> FortranTag {
        FortranTag::Uint4
    }

    fn fortran_tag() -> (t: FortranTag) {
        FortranTag::Uint4
    }

    fn fortran_type() -> (t: FortranType) {
        FortranType { tag: FortranTag::Uint4, dim: None }
    }
}

impl FortranAltType for u64 {
    open spec fn spec_tag() -> FortranTag {
        FortranTag::Uint8
    }

    fn fortran_tag() -> (t: FortranTag) {
        FortranTag::Uint8
    }

    fn fortran_type() -> (t: FortranType) {
        FortranType { tag: FortranTag::Uint8, dim: None }
    }
}

impl FortranAltType for String {
    open spec fn spec_tag() -> FortranTag {
        FortranTag::Strin
    }

    fn fortran_tag() -> (t: FortranTag) {
        FortranTag::Strin
    }

    fn fortran_type() -> (t: FortranType) {
        FortranType { tag: FortranTag::Strin, dim: None }
    }
}

impl FortranAryType for Vec<bool> {
    open spec fn spec_tag() -> FortranTag {
        FortranTag::Bool
    }

    fn fortran_tag() -> (t: FortranTag) {
        FortranTag::Bool
    }

    fn fortran_type(dim: Vec<usize>) -> (t: FortranType) {
        FortranType { tag: FortranTag::Bool, dim: Some(dim) }
    }
}

impl FortranAryType for Vec<Fbool2> {
    open spec fn spec_tag() -> FortranTag {
        FortranTag::Bool2
    }

    fn fortran_tag() -> (t: FortranTag) {
        FortranTag::Bool2
    }

    fn fortran_type(dim: Vec<usize>) -> (t: FortranType) {
        FortranType { tag: FortranTag::Bool2, dim: Some(dim) }
    }
}

impl FortranAryType for Vec<Fbool4> {
    open spec fn spec_tag() -> FortranTag {
        FortranTag::Bool4
    }

    fn fortran_tag() -> (t: FortranTag) {
        FortranTag::Bool4
    }

    fn fortran_type(dim: Vec<usize>) -> (t: FortranType) {
        FortranType { tag: FortranTag::Bool4, dim: Some(dim) }
    }
}

impl FortranAryType for Vec<Fbool8> {
    open spec fn spec_tag() -> FortranTag {
        FortranTag::Bool8
    }

    fn fortran_tag() -> (t: FortranTag) {
        FortranTag::Bool8
    }

    fn fortran_type(dim: Vec<usize>) -> (t: FortranType) {
        FortranType { tag: FortranTag::Bool8, dim: Some(dim) }
    }
}

impl FortranAryType for Vec<i8> {
    open spec fn spec_tag() -> FortranTag {
        FortranTag::Byte
    }

    fn fortran_tag() -> (t: FortranTag) {
        FortranTag::Byte
    }

    fn fortran_type(dim: Vec<usize>) -> (t: FortranType) {
        FortranType { tag: FortranTag::Byte, dim: Some(dim) }
    }
}

impl FortranAryType for Vec<i16> {
    open spec fn spec_tag() -> FortranTag {
        FortranTag::Int2
    }

    fn fortran_tag() -> (t: FortranTag) {
        FortranTag::Int2
    }

    fn fortran_type(dim: Vec<usize>) -> (t: FortranType) {
        FortranType { tag: FortranTag::Int2, dim: Some(dim) }
    }
}

impl FortranAryType for Vec<i32> {
    open spec fn spec_tag() -> FortranTag {
        FortranTag::Int4
    }

    fn fortran_tag() -> (t: FortranTag) {
        FortranTag::Int4
    }

    fn fortran_type(dim: Vec<usize>) -> (t: FortranType) {
        FortranType { tag: FortranTag::Int4, dim: Some(dim) }
    }
}

impl FortranAryType for Vec<i64> {
    open spec fn spec_tag() -> FortranTag {
        FortranTag::Int8
    }

    fn fortran_tag() -> (t: FortranTag) {
        FortranTag::Int8
    }

    fn fortran_type(dim: Vec<usize>) -> (t: FortranType) {
        FortranType { tag: FortranTag::Int8, dim: Some(dim) }
    }
}

impl FortranAryType for Vec<u16> {
    open spec fn spec_tag() -> FortranTag {
        FortranTag::Uint2
    }

    fn fortran_tag() -> (t: FortranTag) {
        FortranTag::Uint2
    }

    fn fortran_type(dim: Vec<usize>) -> (t: FortranType) {
        FortranType { tag: FortranTag::Uint2, dim: Some(dim) }
    }
}

impl FortranAryType for Vec<u32> {
    open spec fn spec_tag() -> FortranTag {
        FortranTag::Uint4
    }

    fn fortran_tag() -> (t: FortranTag) {
        FortranTag::Uint4
    }

    fn fortran_type(dim: Vec<usize>) -> (t: FortranType) {
        FortranType { tag: FortranTag::Uint4, dim: Some(dim) }
    }
}

impl FortranAryType for Vec<u64> {
    open spec fn spec_tag() -> FortranTag {
        FortranTag::Uint8
    }

    fn fortran_tag() -> (t: FortranTag) {
        FortranTag::Uint8
    }

    fn fortran_type(dim: Vec<usize>) -> (t: FortranType) {
        FortranType { tag: FortranTag::Uint8, dim: Some(dim) }
    }
}

impl From<Fbool2> for bool {
    fn from(x: Fbool2) -> (r: bool) {
        x.0
    }
}

impl vstd::std_specs::convert::FromSpecImpl<Fbool2> for bool {
    open spec fn obeys_from_spec() -> bool {
        true
    }

    open spec fn from_spec(x: Fbool2) -> bool {
        x.0
    }
}

impl From<Fbool4> for bool {
    fn from(x: Fbool4) -> (r: bool) {
        x.0
    }
}

impl vstd::std_specs::convert::FromSpecImpl<Fbool4> for bool {
    open spec fn obeys_from_spec() -> bool {
        true
    }

    open spec fn from_spec(x: Fbool4) -> bool {
        x.0
    }
}

impl From<Fbool8> for bool {
    fn from(x: Fbool8) -> (r: bool) {
        x.0
    }
}

impl vstd::std_specs::convert::FromSpecImpl<Fbool8> for bool {
    open spec fn obeys_from_spec() -> bool {
        true
    }

    open spec fn from_spec(x: Fbool8) -> bool {
        x.0
    }
}

} // verus!
