use vstd::prelude::*;
use crate::format::{TYPE_DIM_MASK, TYPE_DIM_SCALAR, TYPE_DIM_1D, TYPE_DIM_2D, TYPE_DIM_3D};

verus! {

/// Shape of up to three dimensions.
///
/// The packed form holds the first axis in 32 bits, the second in 24 bits and
/// the third in 8 bits.
#[derive(Copy, Clone, Debug, PartialEq, Eq, Structural, Hash)]
pub enum Shape {
    Scalar,
    D1(u32),
    /// Reserves 24 bits for the second axis.
    D2(u32, u32),
    /// Reserves 24 bits for the second axis and 8 bits for the third axis.
    D3(u32, u32, u8),
}

/// The number of elements of a shape.
pub open spec fn shape_len(s: Shape) -> nat {
    match s {
        Shape::Scalar => 1,
        Shape::D1(x) => x as nat,
        Shape::D2(x, y) => x as nat * y as nat,
        Shape::D3(x, y, z) => x as nat * y as nat * z as nat,
    }
}

/// Whether the shape survives packing: its second axis fits in 24 bits.
pub open spec fn shape_packable(s: Shape) -> bool {
    match s {
        Shape::D2(_, y) => y < 0x100_0000,
        Shape::D3(_, y, _) => y < 0x100_0000,
        _ => true,
    }
}

/// The shape that `type_info`'s dimension bits and the packed words describe.
pub open spec fn spec_from_type_info(type_info: u16, shape: [u32; 2]) -> Shape {
    let dim = type_info & TYPE_DIM_MASK;
    if dim == TYPE_DIM_SCALAR {
        Shape::Scalar
    } else if dim == TYPE_DIM_1D {
        Shape::D1(shape[0])
    } else if dim == TYPE_DIM_2D {
        Shape::D2(shape[0], shape[1] & 0xff_ffff)
    } else {
        Shape::D3(shape[0], shape[1] & 0xff_ffff, (shape[1] >> 24u32) as u8)
    }
}

/// The dimension bits and packed words of a shape.
pub open spec fn spec_encode(s: Shape) -> (u16, [u32; 2]) {
    match s {
        Shape::Scalar => (TYPE_DIM_SCALAR, [0u32, 0u32]),
        Shape::D1(x) => (TYPE_DIM_1D, [x, 0u32]),
        Shape::D2(x, y) => (TYPE_DIM_2D, [x, y & 0xff_ffff]),
        Shape::D3(x, y, z) => (TYPE_DIM_3D, [x, (y & 0xff_ffff) | ((z as u32) << 24u32)]),
    }
}

impl Shape {
    /// Decodes a packed shape, taking the number of axes from `type_info`.
    pub fn from_type_info(type_info: u16, shape: [u32; 2]) -> (r: Shape)
        ensures
            r == spec_from_type_info(type_info, shape),
    {
        let dim = type_info & TYPE_DIM_MASK;
        if dim == TYPE_DIM_SCALAR {
            Shape::Scalar
        } else if dim == TYPE_DIM_1D {
            Shape::D1(shape[0])
        } else if dim == TYPE_DIM_2D {
            Shape::D2(shape[0], shape[1] & 0xff_ffff)
        } else {
            Shape::D3(shape[0], shape[1] & 0xff_ffff, (shape[1] >> 24) as u8)
        }
    }

    /// Decodes a packed shape with at least as many axes as `type_info` says,
    /// and more where the packed words hold non-zero higher axes.
    pub fn from_shape(type_info: u16, shape: [u32; 2]) -> (r: Shape)
        ensures
            ({
                let dims = type_info & TYPE_DIM_MASK;
                let x = shape[0];
                let y = shape[1] & 0xff_ffff;
                let z = (shape[1] >> 24u32) as u8;
                r == if z == 0 && dims < TYPE_DIM_3D {
                    if y == 0 && dims < TYPE_DIM_2D {
                        if x == 0 && dims < TYPE_DIM_1D {
                            Shape::Scalar
                        } else {
                            Shape::D1(x)
                        }
                    } else {
                        Shape::D2(x, y)
                    }
                } else {
                    Shape::D3(x, y, z)
                }
            }),
    {
        let type_dims = type_info & TYPE_DIM_MASK;
        let x = shape[0];
        let y = shape[1] & 0xff_ffff;
        let z = (shape[1] >> 24) as u8;
        if z == 0 && type_dims < TYPE_DIM_3D {
            if y == 0 && type_dims < TYPE_DIM_2D {
                if x == 0 && type_dims < TYPE_DIM_1D {
                    return Shape::Scalar;
                }
                return Shape::D1(x);
            }
            return Shape::D2(x, y);
        }
        Shape::D3(x, y, z)
    }

    /// Returns the total number of elements.
    pub fn len(&self) -> (r: usize)
        requires
            shape_len(*self) <= usize::MAX,
        ensures
            r == shape_len(*self),
    {
        match *self {
            Shape::Scalar => 1,
            Shape::D1(x) => x as usize,
            Shape::D2(x, y) => {
                if x == 0 || y == 0 {
                    assert(x as nat * y as nat == 0) by (nonlinear_arith)
                        requires
                            x == 0 || y == 0,
                    ;
                    0
                } else {
                    assert(x as nat <= x as nat * y as nat) by (nonlinear_arith)
                        requires
                            y >= 1,
                    ;
                    assert(y as nat <= x as nat * y as nat) by (nonlinear_arith)
                        requires
                            x >= 1,
                    ;
                    x as usize * y as usize
                }
            },
            Shape::D3(x, y, z) => {
                if x == 0 || y == 0 || z == 0 {
                    assert(x as nat * y as nat * z as nat == 0) by (nonlinear_arith)
                        requires
                            x == 0 || y == 0 || z == 0,
                    ;
                    0
                } else {
                    assert(x as nat * y as nat <= x as nat * y as nat * z as nat) by (nonlinear_arith)
                        requires
                            z >= 1,
                    ;
                    assert(x as nat <= x as nat * y as nat) by (nonlinear_arith)
                        requires
                            y >= 1,
                    ;
                    assert(y as nat <= x as nat * y as nat) by (nonlinear_arith)
                        requires
                            x >= 1,
                    ;
                    assert(z as nat <= x as nat * y as nat * z as nat) by (nonlinear_arith)
                        requires
                            x >= 1,
                            y >= 1,
                    ;
                    x as usize * y as usize * z as usize
                }
            },
        }
    }

    /// Reshapes as a one-dimensional array of the same length.
    pub fn flatten(&self) -> (r: Shape)
        requires
            shape_len(*self) <= u32::MAX,
            shape_len(*self) <= usize::MAX,
        ensures
            r == Shape::D1(shape_len(*self) as u32),
    {
        Shape::D1(self.len() as u32)
    }

    /// Encodes the shape as dimension bits and packed words.
    pub fn encode(&self) -> (r: (u16, [u32; 2]))
        ensures
            r == spec_encode(*self),
    {
        match *self {
            Shape::Scalar => (TYPE_DIM_SCALAR, [0, 0]),
            Shape::D1(x) => (TYPE_DIM_1D, [x, 0]),
            Shape::D2(x, y) => (TYPE_DIM_2D, [x, y & 0xff_ffff]),
            Shape::D3(x, y, z) => (TYPE_DIM_3D, [x, (y & 0xff_ffff) | ((z as u32) << 24)]),
        }
    }
}

/// Packing a shape and decoding it with its own dimension bits gives it back,
/// for every shape whose second axis fits in 24 bits.
pub proof fn lemma_shape_round_trip(s: Shape)
    requires
        shape_packable(s),
    ensures
        spec_from_type_info(spec_encode(s).0, spec_encode(s).1) == s,
{
    match s {
        Shape::Scalar => {
            assert(0u16 & 0x30 == 0) by (bit_vector);
        },
        Shape::D1(x) => {
            assert(0x10u16 & 0x30 == 0x10) by (bit_vector);
        },
        Shape::D2(x, y) => {
            assert(0x20u16 & 0x30 == 0x20) by (bit_vector);
            assert(y < 0x100_0000 ==> (y & 0xff_ffff) & 0xff_ffff == y) by (bit_vector);
        },
        Shape::D3(x, y, z) => {
            assert(0x30u16 & 0x30 == 0x30) by (bit_vector);
            let w = (y & 0xff_ffff) | ((z as u32) << 24u32);
            assert(y < 0x100_0000 ==> ((y & 0xff_ffff) | ((z as u32) << 24u32)) & 0xff_ffff == y)
                by (bit_vector);
            assert((((y & 0xff_ffff) | ((z as u32) << 24u32)) >> 24u32) as u8 == z) by (bit_vector);
        },
    }
}

} // verus!
