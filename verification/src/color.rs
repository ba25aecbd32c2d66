//! Colour signalling.
use vstd::prelude::*;

verus! {

/// Colour primaries, by their code point.
#[derive(Clone, Copy, Debug, PartialEq, Eq, Structural)]
pub struct Primaries(pub u8);

/// Transfer characteristics, by their code point.
#[derive(Clone, Copy, Debug, PartialEq, Eq, Structural)]
pub struct TransferFunction(pub u8);

/// Matrix coefficients, by their code point. Code point 2 stands for unspecified ones.
#[derive(Clone, Copy, Debug, PartialEq, Eq, Structural)]
pub enum MatrixCoefficients {
    Unspecified,
    Code(u8),
}

impl Primaries {
    pub fn from_u8(code: u8) -> (r: Self)
        ensures
            r == Primaries(code),
    {
        Primaries(code)
    }
}

impl TransferFunction {
    pub fn from_u8(code: u8) -> (r: Self)
        ensures
            r == TransferFunction(code),
    {
        TransferFunction(code)
    }
}

impl MatrixCoefficients {
    pub open spec fn of(code: u8) -> Self {
        if code == 2 {
            MatrixCoefficients::Unspecified
        } else {
            MatrixCoefficients::Code(code)
        }
    }

    pub fn from_u8(code: u8) -> (r: Self)
        ensures
            r == MatrixCoefficients::of(code),
    {
        if code == 2 {
            MatrixCoefficients::Unspecified
        } else {
            MatrixCoefficients::Code(code)
        }
    }
}

/// Coding-independent code points of a colour space.
#[derive(Clone, Copy, Debug, PartialEq, Eq, Structural)]
pub struct Cicp {
    pub primaries: Primaries,
    pub transfer: TransferFunction,
    pub matrix: MatrixCoefficients,
    pub full_range: bool,
}

impl Cicp {
    /// Full-range sRGB with the BT.709 matrix.
    pub open spec fn standard() -> Cicp {
        Cicp {
            primaries: Primaries(1),
            transfer: TransferFunction(13),
            matrix: MatrixCoefficients::Code(1),
            full_range: true,
        }
    }

    /// Full-range sRGB with the BT.709 matrix.
    pub fn srgb() -> (r: Self)
        ensures
            r == Cicp::standard(),
    {
        Cicp {
            primaries: Primaries(1),
            transfer: TransferFunction(13),
            matrix: MatrixCoefficients::Code(1),
            full_range: true,
        }
    }
}

/// Colour information of an item: code points, an ICC profile, or both.
#[derive(Clone, Debug)]
pub struct ColorMetadata {
    pub cicp: Option<Cicp>,
    pub icc: Option<Vec<u8>>,
}

/// What colour information says.
pub struct Color {
    pub cicp: Option<Cicp>,
    pub icc: Option<Seq<u8>>,
}

/// The bytes of an optional blob.
pub open spec fn bytes_view(b: Option<Vec<u8>>) -> Option<Seq<u8>> {
    match b {
        Some(v) => Some(v@),
        None => None,
    }
}

/// A copy of an optional blob.
pub fn copy_bytes(b: &Option<Vec<u8>>) -> (r: Option<Vec<u8>>)
    ensures
        bytes_view(r) == bytes_view(*b),
{
    match b {
        Some(v) => {
            let c: Vec<u8> = v.clone();
            assert(c@ =~= v@);
            Some(c)
        },
        None => None,
    }
}

impl View for ColorMetadata {
    type V = Color;

    open spec fn view(&self) -> Color {
        Color { cicp: self.cicp, icc: bytes_view(self.icc) }
    }
}

impl ColorMetadata {
    /// A copy.
    pub fn duplicate(&self) -> (r: Self)
        ensures
            r@ == self@,
    {
        ColorMetadata { cicp: self.cicp, icc: copy_bytes(&self.icc) }
    }

    pub open spec fn says_nothing(self) -> bool {
        self.cicp is None && self.icc is None
    }

    /// Whether nothing is said.
    pub fn is_empty(&self) -> (r: bool)
        ensures
            r == self.says_nothing(),
    {
        self.cicp.is_none() && self.icc.is_none()
    }
}

/// Images without a colour description are in the primaries and matrix of code 1 with the transfer
/// function of code 13, at full range.
pub proof fn standard_colours_are_fixed()
    ensures
        Cicp::standard().primaries.0 == 1,
        Cicp::standard().transfer.0 == 13,
        Cicp::standard().matrix == MatrixCoefficients::of(1),
        MatrixCoefficients::of(2) is Unspecified,
        Cicp::standard().full_range,
{
}

/// Metadata say nothing if they have neither code points nor a profile.
pub proof fn empty_colours_say_nothing(c: ColorMetadata)
    ensures
        c.says_nothing() <==> c@.cicp is None && c@.icc is None,
        c@.cicp == c.cicp,
        c.icc matches Some(v) ==> c@.icc == Some(v@),
{
}

} // verus!
