//! Contract ABI metadata and the encoding of text call arguments into call
//! payloads.
pub mod encode;
pub mod error;
pub mod meta;
pub mod text;
pub mod types;
pub mod value;

pub use encode::PAYLOAD_VERSION;
pub use error::AbiError;
pub use meta::{
    FunctionDef, IRConstantMeta, IRContractABIMeta, IRContractMethodInputMeta,
    IRContractMethodMeta, IRContractMethodOutputMeta, MethodKind, CURRENT_IR_ABI_VERSION,
};
pub use types::{parse_type, ScalarType, TypeDescriptor};
pub use value::{parse_scalar, parse_value, AbiValue, Scalar};
