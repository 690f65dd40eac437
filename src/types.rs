//! The grammar of parameter type names.
use vstd::prelude::*;
use crate::text::{find_char, text_eq};
use crate::error::AbiError;

verus! {

/// A type a single parameter value, an array element or a map value can have.
#[derive(Clone, Copy, Debug, PartialEq, Eq, Structural)]
pub enum ScalarType {
    Bool,
    Str,
    Parampack,
    U8,
    I8,
    U16,
    I16,
    U32,
    I32,
    U64,
    I64,
    U128,
    I128,
}

/// A parsed parameter type: a scalar, an array `[T]` or a text-keyed map `{K:T}`.
#[derive(Clone, Copy, Debug, PartialEq, Eq, Structural)]
pub enum TypeDescriptor {
    Scalar(ScalarType),
    Array(ScalarType),
    StrMap(ScalarType),
}

/// The scalar type a name denotes, if any.
pub open spec fn scalar_type_spec(name: Seq<char>) -> Option<ScalarType> {
    if name == "bool"@ {
        Some(ScalarType::Bool)
    } else if name == "str"@ || name == "string"@ {
        Some(ScalarType::Str)
    } else if name == "parampack"@ {
        Some(ScalarType::Parampack)
    } else if name == "u8"@ {
        Some(ScalarType::U8)
    } else if name == "i8"@ {
        Some(ScalarType::I8)
    } else if name == "u16"@ {
        Some(ScalarType::U16)
    } else if name == "i16"@ {
        Some(ScalarType::I16)
    } else if name == "u32"@ {
        Some(ScalarType::U32)
    } else if name == "i32"@ {
        Some(ScalarType::I32)
    } else if name == "u64"@ {
        Some(ScalarType::U64)
    } else if name == "i64"@ {
        Some(ScalarType::I64)
    } else if name == "u128"@ {
        Some(ScalarType::U128)
    } else if name == "i128"@ {
        Some(ScalarType::I128)
    } else {
        None
    }
}

/// The element type of an array or map: any scalar but a raw byte blob.
pub open spec fn element_type_spec(name: Seq<char>) -> Option<ScalarType> {
    match scalar_type_spec(name) {
        Some(ScalarType::Parampack) => None,
        other => other,
    }
}

/// Index of the first `:` in a map type name (only meaningful when one exists).
pub open spec fn first_colon(name: Seq<char>) -> int {
    choose|p: int| 0 <= p < name.len() && name[p] == ':' && forall|j: int| 0 <= j < p ==> name[j] != ':'
}

pub open spec fn has_colon(name: Seq<char>) -> bool {
    exists|p: int| 0 <= p < name.len() && name[p] == ':'
}

/// The descriptor a type name denotes, or `None` when no production matches.
pub open spec fn type_spec(name: Seq<char>) -> Option<TypeDescriptor> {
    if scalar_type_spec(name) is Some {
        Some(TypeDescriptor::Scalar(scalar_type_spec(name).unwrap()))
    } else if name.len() >= 2 && name[0] == '[' && name.last() == ']' {
        match element_type_spec(name.subrange(1, name.len() - 1)) {
            Some(t) => Some(TypeDescriptor::Array(t)),
            None => None,
        }
    } else if name.len() >= 2 && name[0] == '{' && name.last() == '}' && has_colon(name) && first_colon(name) + 1 <= name.len() - 1 {
        match element_type_spec(name.subrange(first_colon(name) + 1, name.len() - 1)) {
            Some(t) => Some(TypeDescriptor::StrMap(t)),
            None => None,
        }
    } else {
        None
    }
}

/// Looks up a scalar type by name.
pub fn scalar_type(name: &str) -> (r: Option<ScalarType>)
    ensures
        r == scalar_type_spec(name@),
{
    if text_eq(name, "bool") {
        Some(ScalarType::Bool)
    } else if text_eq(name, "str") || text_eq(name, "string") {
        Some(ScalarType::Str)
    } else if text_eq(name, "parampack") {
        Some(ScalarType::Parampack)
    } else if text_eq(name, "u8") {
        Some(ScalarType::U8)
    } else if text_eq(name, "i8") {
        Some(ScalarType::I8)
    } else if text_eq(name, "u16") {
        Some(ScalarType::U16)
    } else if text_eq(name, "i16") {
        Some(ScalarType::I16)
    } else if text_eq(name, "u32") {
        Some(ScalarType::U32)
    } else if text_eq(name, "i32") {
        Some(ScalarType::I32)
    } else if text_eq(name, "u64") {
        Some(ScalarType::U64)
    } else if text_eq(name, "i64") {
        Some(ScalarType::I64)
    } else if text_eq(name, "u128") {
        Some(ScalarType::U128)
    } else if text_eq(name, "i128") {
        Some(ScalarType::I128)
    } else {
        None
    }
}

fn element_type(name: &str) -> (r: Option<ScalarType>)
    ensures
        r == element_type_spec(name@),
{
    match scalar_type(name) {
        Some(ScalarType::Parampack) => None,
        other => other,
    }
}

/// Parses a type name; an unknown name is `AbiError::Unsupported` carrying it.
pub fn parse_type(name: &str) -> (r: Result<TypeDescriptor, AbiError>)
    ensures
        match r {
            Ok(t) => type_spec(name@) == Some(t),
            Err(e) => type_spec(name@) is None && e is Unsupported && e->Unsupported_0@
                == name@,
        },
{
    let unsupported = AbiError::Unsupported(String::from_str(name));
    if let Some(t) = scalar_type(name) {
        return Ok(TypeDescriptor::Scalar(t));
    }
    let n = name.unicode_len();
    if n >= 2 && name.get_char(0) == '[' && name.get_char(n - 1) == ']' {
        return match element_type(name.substring_char(1, n - 1)) {
            Some(t) => Ok(TypeDescriptor::Array(t)),
            None => Err(unsupported),
        };
    }
    if n >= 2 && name.get_char(0) == '{' && name.get_char(n - 1) == '}' {
        if let Some(p) = find_char(name, ':') {
            proof {
                let s = name@;
                assert(has_colon(s));
                let q = first_colon(s);
                assert(0 <= q < s.len() && s[q] == ':' && forall|j: int| 0 <= j < q ==> s[j] != ':');
                assert(q == p as int) by {
                    if q < p {
                        assert(s[q] != ':');
                    } else if q > p {
                        assert(s[p as int] != ':');
                    }
                }
            }
            if p + 1 <= n - 1 {
                return match element_type(name.substring_char(p + 1, n - 1)) {
                    Some(t) => Ok(TypeDescriptor::StrMap(t)),
                    None => Err(unsupported),
                };
            }
        }
    }
    Err(unsupported)
}

} // verus!
