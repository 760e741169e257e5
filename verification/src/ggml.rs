//! The catalog of GGML tensor encodings: the closed set of numeric-encoding
//! tags a GGUF tensor record may carry, each with a display label and a fixed
//! bytes-per-element constant. Quantized encodings pack sub-byte values, so
//! the constant is a rational number, kept here as a numerator/denominator
//! pair of byte counts.

#![allow(non_camel_case_types)]

use vstd::prelude::*;

verus! {

/// A tensor's storage encoding: plain float/int widths plus the legacy block
/// quantizations (Q), K-quants and importance quantizations (IQ).
#[derive(Debug, Clone, Copy, PartialEq, Eq, Structural)]
pub enum GGMLType {
    F32,
    F16,
    Q4_0,
    Q4_1,
    Q5_0,
    Q5_1,
    Q8_0,
    Q8_1,
    Q2_K,
    Q3_K,
    Q4_K,
    Q5_K,
    Q6_K,
    Q8_K,
    IQ2_XXS,
    IQ2_XS,
    IQ3_XXS,
    IQ1_S,
    IQ4_NL,
    IQ3_S,
    IQ2_S,
    IQ4_XS,
    I8,
    I16,
    I32,
    I64,
    F64,
    IQ1_M,
    BF16,
    GGML_TYPE_Q1_58,
}

impl GGMLType {
    /// The encoding selected by a 32-bit tag, `None` when the tag is outside
    /// the recognized set.
    pub open spec fn spec_from_u32(value: u32) -> Option<GGMLType> {
        match value {
            0u32 => Some(GGMLType::F32),
            1u32 => Some(GGMLType::F16),
            2u32 => Some(GGMLType::Q4_0),
            3u32 => Some(GGMLType::Q4_1),
            6u32 => Some(GGMLType::Q5_0),
            7u32 => Some(GGMLType::Q5_1),
            8u32 => Some(GGMLType::Q8_0),
            9u32 => Some(GGMLType::Q8_1),
            10u32 => Some(GGMLType::Q2_K),
            11u32 => Some(GGMLType::Q3_K),
            12u32 => Some(GGMLType::Q4_K),
            13u32 => Some(GGMLType::Q5_K),
            14u32 => Some(GGMLType::Q6_K),
            15u32 => Some(GGMLType::Q8_K),
            16u32 => Some(GGMLType::IQ2_XXS),
            17u32 => Some(GGMLType::IQ2_XS),
            18u32 => Some(GGMLType::IQ3_XXS),
            19u32 => Some(GGMLType::IQ1_S),
            20u32 => Some(GGMLType::IQ4_NL),
            21u32 => Some(GGMLType::IQ3_S),
            22u32 => Some(GGMLType::IQ2_S),
            23u32 => Some(GGMLType::IQ4_XS),
            24u32 => Some(GGMLType::I8),
            25u32 => Some(GGMLType::I16),
            26u32 => Some(GGMLType::I32),
            27u32 => Some(GGMLType::I64),
            28u32 => Some(GGMLType::F64),
            29u32 => Some(GGMLType::IQ1_M),
            30u32 => Some(GGMLType::BF16),
            36u32 => Some(GGMLType::GGML_TYPE_Q1_58),
            _ => None,
        }
    }

    /// The tag that selects this encoding in a GGUF tensor record.
    pub open spec fn spec_tag(self) -> u32 {
        match self {
            GGMLType::F32 => 0u32,
            GGMLType::F16 => 1u32,
            GGMLType::Q4_0 => 2u32,
            GGMLType::Q4_1 => 3u32,
            GGMLType::Q5_0 => 6u32,
            GGMLType::Q5_1 => 7u32,
            GGMLType::Q8_0 => 8u32,
            GGMLType::Q8_1 => 9u32,
            GGMLType::Q2_K => 10u32,
            GGMLType::Q3_K => 11u32,
            GGMLType::Q4_K => 12u32,
            GGMLType::Q5_K => 13u32,
            GGMLType::Q6_K => 14u32,
            GGMLType::Q8_K => 15u32,
            GGMLType::IQ2_XXS => 16u32,
            GGMLType::IQ2_XS => 17u32,
            GGMLType::IQ3_XXS => 18u32,
            GGMLType::IQ1_S => 19u32,
            GGMLType::IQ4_NL => 20u32,
            GGMLType::IQ3_S => 21u32,
            GGMLType::IQ2_S => 22u32,
            GGMLType::IQ4_XS => 23u32,
            GGMLType::I8 => 24u32,
            GGMLType::I16 => 25u32,
            GGMLType::I32 => 26u32,
            GGMLType::I64 => 27u32,
            GGMLType::F64 => 28u32,
            GGMLType::IQ1_M => 29u32,
            GGMLType::BF16 => 30u32,
            GGMLType::GGML_TYPE_Q1_58 => 36u32,
        }
    }

    pub fn from_u32(value: u32) -> (r: Option<Self>)
        ensures
            r == Self::spec_from_u32(value),
            r matches Some(t) ==> t.spec_tag() == value,
    {
        proof {
            Self::lemma_tag_round_trip(value);
        }
        match value {
            0 => Some(GGMLType::F32),
            1 => Some(GGMLType::F16),
            2 => Some(GGMLType::Q4_0),
            3 => Some(GGMLType::Q4_1),
            6 => Some(GGMLType::Q5_0),
            7 => Some(GGMLType::Q5_1),
            8 => Some(GGMLType::Q8_0),
            9 => Some(GGMLType::Q8_1),
            10 => Some(GGMLType::Q2_K),
            11 => Some(GGMLType::Q3_K),
            12 => Some(GGMLType::Q4_K),
            13 => Some(GGMLType::Q5_K),
            14 => Some(GGMLType::Q6_K),
            15 => Some(GGMLType::Q8_K),
            16 => Some(GGMLType::IQ2_XXS),
            17 => Some(GGMLType::IQ2_XS),
            18 => Some(GGMLType::IQ3_XXS),
            19 => Some(GGMLType::IQ1_S),
            20 => Some(GGMLType::IQ4_NL),
            21 => Some(GGMLType::IQ3_S),
            22 => Some(GGMLType::IQ2_S),
            23 => Some(GGMLType::IQ4_XS),
            24 => Some(GGMLType::I8),
            25 => Some(GGMLType::I16),
            26 => Some(GGMLType::I32),
            27 => Some(GGMLType::I64),
            28 => Some(GGMLType::F64),
            29 => Some(GGMLType::IQ1_M),
            30 => Some(GGMLType::BF16),
            36 => Some(GGMLType::GGML_TYPE_Q1_58),
            _ => None,
        }
    }

    /// A recognized tag selects an encoding whose own tag is the one read.
    pub proof fn lemma_tag_round_trip(value: u32)
        ensures
            Self::spec_from_u32(value) matches Some(t) ==> t.spec_tag() == value,
    {
    }

    pub fn to_u32(&self) -> (r: u32)
        ensures
            r == self.spec_tag(),
            Self::spec_from_u32(r) == Some(*self),
    {
        match self {
            GGMLType::F32 => 0,
            GGMLType::F16 => 1,
            GGMLType::Q4_0 => 2,
            GGMLType::Q4_1 => 3,
            GGMLType::Q5_0 => 6,
            GGMLType::Q5_1 => 7,
            GGMLType::Q8_0 => 8,
            GGMLType::Q8_1 => 9,
            GGMLType::Q2_K => 10,
            GGMLType::Q3_K => 11,
            GGMLType::Q4_K => 12,
            GGMLType::Q5_K => 13,
            GGMLType::Q6_K => 14,
            GGMLType::Q8_K => 15,
            GGMLType::IQ2_XXS => 16,
            GGMLType::IQ2_XS => 17,
            GGMLType::IQ3_XXS => 18,
            GGMLType::IQ1_S => 19,
            GGMLType::IQ4_NL => 20,
            GGMLType::IQ3_S => 21,
            GGMLType::IQ2_S => 22,
            GGMLType::IQ4_XS => 23,
            GGMLType::I8 => 24,
            GGMLType::I16 => 25,
            GGMLType::I32 => 26,
            GGMLType::I64 => 27,
            GGMLType::F64 => 28,
            GGMLType::IQ1_M => 29,
            GGMLType::BF16 => 30,
            GGMLType::GGML_TYPE_Q1_58 => 36,
        }
    }

    /// Bytes per element as a fraction: numerator of the pair.
    /// Legacy Q-quants pack a 32-weight block (e.g. 18 bytes per 32 weights);
    /// K-quants and IQ-quants pack a 256-weight super-block.
    pub open spec fn spec_size_numer(self) -> u64 {
        match self {
            GGMLType::F32 | GGMLType::I32 => 4u64,
            GGMLType::F16 | GGMLType::BF16 | GGMLType::I16 => 2u64,
            GGMLType::F64 | GGMLType::I64 => 8u64,
            GGMLType::I8 => 1u64,
            GGMLType::Q4_0 => 18u64,
            GGMLType::Q4_1 => 20u64,
            GGMLType::Q5_0 => 22u64,
            GGMLType::Q5_1 => 24u64,
            GGMLType::Q8_0 => 34u64,
            GGMLType::Q8_1 => 36u64,
            GGMLType::Q2_K => 84u64,
            GGMLType::Q3_K => 110u64,
            GGMLType::Q4_K => 144u64,
            GGMLType::Q5_K => 176u64,
            GGMLType::Q6_K => 210u64,
            GGMLType::Q8_K => 292u64,
            GGMLType::IQ1_S => 50u64,
            GGMLType::IQ1_M => 56u64,
            GGMLType::IQ2_XXS => 66u64,
            GGMLType::IQ2_XS => 74u64,
            GGMLType::IQ2_S => 80u64,
            GGMLType::IQ3_XXS => 98u64,
            GGMLType::IQ3_S => 110u64,
            GGMLType::IQ4_NL => 136u64,
            GGMLType::IQ4_XS => 136u64,
            GGMLType::GGML_TYPE_Q1_58 => 79u64,
        }
    }

    /// Bytes per element as a fraction: denominator of the pair (the block
    /// size the numerator's byte count is shared over).
    pub open spec fn spec_size_denom(self) -> u64 {
        match self {
            GGMLType::F32 | GGMLType::I32 => 1u64,
            GGMLType::F16 | GGMLType::BF16 | GGMLType::I16 => 1u64,
            GGMLType::F64 | GGMLType::I64 => 1u64,
            GGMLType::I8 => 1u64,
            GGMLType::Q4_0 | GGMLType::Q4_1 | GGMLType::Q5_0 | GGMLType::Q5_1 | GGMLType::Q8_0
                | GGMLType::Q8_1 => 32u64,
            GGMLType::Q2_K | GGMLType::Q3_K | GGMLType::Q4_K | GGMLType::Q5_K | GGMLType::Q6_K
                | GGMLType::Q8_K => 256u64,
            GGMLType::IQ1_S | GGMLType::IQ1_M | GGMLType::IQ2_XXS | GGMLType::IQ2_XS
                | GGMLType::IQ2_S | GGMLType::IQ3_XXS | GGMLType::IQ3_S | GGMLType::IQ4_NL
                | GGMLType::IQ4_XS => 256u64,
            GGMLType::GGML_TYPE_Q1_58 => 400u64,
        }
    }

    /// Bytes per element as a (numerator, denominator) pair of byte counts.
    pub fn element_size_frac(&self) -> (r: (u64, u64))
        ensures
            r.0 == self.spec_size_numer(),
            r.1 == self.spec_size_denom(),
            r.1 >= 1,
    {
        (self.size_numer(), self.size_denom())
    }

    fn size_numer(&self) -> (r: u64)
        ensures
            r == self.spec_size_numer(),
    {
        match self {
            GGMLType::F32 | GGMLType::I32 => 4,
            GGMLType::F16 | GGMLType::BF16 | GGMLType::I16 => 2,
            GGMLType::F64 | GGMLType::I64 => 8,
            GGMLType::I8 => 1,
            GGMLType::Q4_0 => 18,
            GGMLType::Q4_1 => 20,
            GGMLType::Q5_0 => 22,
            GGMLType::Q5_1 => 24,
            GGMLType::Q8_0 => 34,
            GGMLType::Q8_1 => 36,
            GGMLType::Q2_K => 84,
            GGMLType::Q3_K => 110,
            GGMLType::Q4_K => 144,
            GGMLType::Q5_K => 176,
            GGMLType::Q6_K => 210,
            GGMLType::Q8_K => 292,
            GGMLType::IQ1_S => 50,
            GGMLType::IQ1_M => 56,
            GGMLType::IQ2_XXS => 66,
            GGMLType::IQ2_XS => 74,
            GGMLType::IQ2_S => 80,
            GGMLType::IQ3_XXS => 98,
            GGMLType::IQ3_S => 110,
            GGMLType::IQ4_NL => 136,
            GGMLType::IQ4_XS => 136,
            GGMLType::GGML_TYPE_Q1_58 => 79,
        }
    }

    fn size_denom(&self) -> (r: u64)
        ensures
            r == self.spec_size_denom(),
    {
        match self {
            GGMLType::F32 | GGMLType::I32 => 1,
            GGMLType::F16 | GGMLType::BF16 | GGMLType::I16 => 1,
            GGMLType::F64 | GGMLType::I64 => 1,
            GGMLType::I8 => 1,
            GGMLType::Q4_0 | GGMLType::Q4_1 | GGMLType::Q5_0 | GGMLType::Q5_1 | GGMLType::Q8_0
                | GGMLType::Q8_1 => 32,
            GGMLType::Q2_K | GGMLType::Q3_K | GGMLType::Q4_K | GGMLType::Q5_K | GGMLType::Q6_K
                | GGMLType::Q8_K => 256,
            GGMLType::IQ1_S | GGMLType::IQ1_M | GGMLType::IQ2_XXS | GGMLType::IQ2_XS
                | GGMLType::IQ2_S | GGMLType::IQ3_XXS | GGMLType::IQ3_S | GGMLType::IQ4_NL
                | GGMLType::IQ4_XS => 256,
            GGMLType::GGML_TYPE_Q1_58 => 400,
        }
    }

    /// The byte size of a tensor of `num_elements` elements in this encoding:
    /// the element count times bytes-per-element, rounded down, clamped to
    /// `usize::MAX`. An approximation for block-quantized encodings, since
    /// block and alignment padding is not modeled.
    pub open spec fn spec_tensor_size_bytes(self, num_elements: usize) -> usize {
        let exact = (num_elements as int) * (self.spec_size_numer() as int) / (
        self.spec_size_denom() as int);
        if exact > usize::MAX {
            usize::MAX
        } else {
            exact as usize
        }
    }

    pub fn tensor_size_bytes(&self, num_elements: usize) -> (r: usize)
        ensures
            r == self.spec_tensor_size_bytes(num_elements),
    {
        let (numer, denom) = self.element_size_frac();
        proof {
            assert((num_elements as int) * (numer as int) <= u128::MAX) by (nonlinear_arith)
                requires
                    num_elements <= u64::MAX,
                    numer <= 400,
            ;
        }
        let wide: u128 = (num_elements as u128) * (numer as u128) / (denom as u128);
        if wide > usize::MAX as u128 {
            usize::MAX
        } else {
            wide as usize
        }
    }

    /// The short human-readable label for this encoding, used for display.
    pub open spec fn spec_label(self) -> Seq<char> {
        match self {
            GGMLType::F32 => "F32"@,
            GGMLType::F16 => "F16"@,
            GGMLType::F64 => "F64"@,
            GGMLType::BF16 => "BF16"@,
            GGMLType::I8 => "I8"@,
            GGMLType::I16 => "I16"@,
            GGMLType::I32 => "I32"@,
            GGMLType::I64 => "I64"@,
            GGMLType::Q4_0 => "Q4_0"@,
            GGMLType::Q4_1 => "Q4_1"@,
            GGMLType::Q5_0 => "Q5_0"@,
            GGMLType::Q5_1 => "Q5_1"@,
            GGMLType::Q8_0 => "Q8_0"@,
            GGMLType::Q8_1 => "Q8_1"@,
            GGMLType::Q2_K => "Q2_K"@,
            GGMLType::Q3_K => "Q3_K"@,
            GGMLType::Q4_K => "Q4_K"@,
            GGMLType::Q5_K => "Q5_K"@,
            GGMLType::Q6_K => "Q6_K"@,
            GGMLType::Q8_K => "Q8_K"@,
            GGMLType::IQ2_XXS => "IQ2_XXS"@,
            GGMLType::IQ2_XS => "IQ2_XS"@,
            GGMLType::IQ3_XXS => "IQ3_XXS"@,
            GGMLType::IQ1_S => "IQ1_S"@,
            GGMLType::IQ4_NL => "IQ4_NL"@,
            GGMLType::IQ3_S => "IQ3_S"@,
            GGMLType::IQ2_S => "IQ2_S"@,
            GGMLType::IQ4_XS => "IQ4_XS"@,
            GGMLType::IQ1_M => "IQ1_M"@,
            GGMLType::GGML_TYPE_Q1_58 => "Q1_58"@,
        }
    }

    pub fn label(&self) -> (r: &'static str)
        ensures
            r@ == self.spec_label(),
    {
        match self {
            GGMLType::F32 => "F32",
            GGMLType::F16 => "F16",
            GGMLType::F64 => "F64",
            GGMLType::BF16 => "BF16",
            GGMLType::I8 => "I8",
            GGMLType::I16 => "I16",
            GGMLType::I32 => "I32",
            GGMLType::I64 => "I64",
            GGMLType::Q4_0 => "Q4_0",
            GGMLType::Q4_1 => "Q4_1",
            GGMLType::Q5_0 => "Q5_0",
            GGMLType::Q5_1 => "Q5_1",
            GGMLType::Q8_0 => "Q8_0",
            GGMLType::Q8_1 => "Q8_1",
            GGMLType::Q2_K => "Q2_K",
            GGMLType::Q3_K => "Q3_K",
            GGMLType::Q4_K => "Q4_K",
            GGMLType::Q5_K => "Q5_K",
            GGMLType::Q6_K => "Q6_K",
            GGMLType::Q8_K => "Q8_K",
            GGMLType::IQ2_XXS => "IQ2_XXS",
            GGMLType::IQ2_XS => "IQ2_XS",
            GGMLType::IQ3_XXS => "IQ3_XXS",
            GGMLType::IQ1_S => "IQ1_S",
            GGMLType::IQ4_NL => "IQ4_NL",
            GGMLType::IQ3_S => "IQ3_S",
            GGMLType::IQ2_S => "IQ2_S",
            GGMLType::IQ4_XS => "IQ4_XS",
            GGMLType::IQ1_M => "IQ1_M",
            GGMLType::GGML_TYPE_Q1_58 => "Q1_58",
        }
    }
}

} // verus!
