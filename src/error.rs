//! Errors of type parsing, value parsing and encoding.
use vstd::prelude::*;

verus! {

/// Why a type name, a value token or a whole parameter list was rejected.
#[derive(Clone, Debug, PartialEq, Eq)]
pub enum AbiError {
    /// The type name matches no production of the type grammar.
    Unsupported(String),
    /// A byte-blob token is not an even-length run of hex digits.
    HexDecode,
    /// An integer token is not base-10 text within the type's range.
    NumberFormat,
    /// A map entry lacks its `key:value` separator.
    InvalidMapEntry,
    /// The number of tokens differs from the number of declared inputs.
    ArityMismatch,
}

/// The mathematical content of an `AbiError`.
pub enum AbiErrorModel {
    Unsupported(Seq<char>),
    HexDecode,
    NumberFormat,
    InvalidMapEntry,
    ArityMismatch,
}

impl View for AbiError {
    type V = AbiErrorModel;

    open spec fn view(&self) -> AbiErrorModel {
        match self {
            AbiError::Unsupported(s) => AbiErrorModel::Unsupported(s@),
            AbiError::HexDecode => AbiErrorModel::HexDecode,
            AbiError::NumberFormat => AbiErrorModel::NumberFormat,
            AbiError::InvalidMapEntry => AbiErrorModel::InvalidMapEntry,
            AbiError::ArityMismatch => AbiErrorModel::ArityMismatch,
        }
    }
}

} // verus!
