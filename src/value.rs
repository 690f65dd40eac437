//! Typed values and the parser that reads them from text tokens.
use vstd::prelude::*;
use vstd::string::*;
use crate::error::AbiError;
use crate::text::{all_digits, decimal_value, digit_value, digits_value, is_digit, parse_digits, split_on, split_spec, strings_view};
use crate::types::{ScalarType, TypeDescriptor};

verus! {

/// The error type of hex::decode; it is only told apart from success and
/// mapped to `AbiError::HexDecode`.
#[verifier::external_type_specification]
#[verifier::external_body]
pub struct ExFromHexError(hex::FromHexError);

/// A single parsed value of a scalar type.
#[derive(Clone, Debug, PartialEq, Eq)]
pub enum Scalar {
    Bool(bool),
    Str(String),
    Bytes(Vec<u8>),
    U8(u8),
    I8(i8),
    U16(u16),
    I16(i16),
    U32(u32),
    I32(i32),
    U64(u64),
    I64(i64),
    U128(u128),
    I128(i128),
}

/// The mathematical content of a `Scalar`.
pub enum ScalarModel {
    Bool(bool),
    Str(Seq<char>),
    Bytes(Seq<u8>),
    U8(u8),
    I8(i8),
    U16(u16),
    I16(i16),
    U32(u32),
    I32(i32),
    U64(u64),
    I64(i64),
    U128(u128),
    I128(i128),
}

impl View for Scalar {
    type V = ScalarModel;

    open spec fn view(&self) -> ScalarModel {
        match self {
            Scalar::Bool(b) => ScalarModel::Bool(*b),
            Scalar::Str(s) => ScalarModel::Str(s@),
            Scalar::Bytes(b) => ScalarModel::Bytes(b@),
            Scalar::U8(v) => ScalarModel::U8(*v),
            Scalar::I8(v) => ScalarModel::I8(*v),
            Scalar::U16(v) => ScalarModel::U16(*v),
            Scalar::I16(v) => ScalarModel::I16(*v),
            Scalar::U32(v) => ScalarModel::U32(*v),
            Scalar::I32(v) => ScalarModel::I32(*v),
            Scalar::U64(v) => ScalarModel::U64(*v),
            Scalar::I64(v) => ScalarModel::I64(*v),
            Scalar::U128(v) => ScalarModel::U128(*v),
            Scalar::I128(v) => ScalarModel::I128(*v),
        }
    }
}

/// A parsed parameter value: a scalar, an array of scalars, or the entries of a
/// text-keyed map in the order the token gave them (a later key overrides).
/// Arrays and maps carry their element type.
#[derive(Clone, Debug, PartialEq, Eq)]
pub enum AbiValue {
    Single(Scalar),
    Array(ScalarType, Vec<Scalar>),
    StrMap(ScalarType, Vec<(String, Scalar)>),
}

/// The mathematical content of an `AbiValue`.
pub enum AbiValueModel {
    Single(ScalarModel),
    Array(ScalarType, Seq<ScalarModel>),
    StrMap(ScalarType, Map<Seq<char>, ScalarModel>),
}

/// The mapping a list of entries denotes when a later key overrides an earlier one.
pub open spec fn entries_map(s: Seq<(Seq<char>, ScalarModel)>) -> Map<Seq<char>, ScalarModel>
    decreases s.len(),
{
    if s.len() == 0 {
        Map::empty()
    } else {
        entries_map(s.drop_last()).insert(s.last().0, s.last().1)
    }
}

pub open spec fn scalars_view(v: Seq<Scalar>) -> Seq<ScalarModel> {
    v.map_values(|s: Scalar| s@)
}

pub open spec fn entries_view(v: Seq<(String, Scalar)>) -> Seq<(Seq<char>, ScalarModel)> {
    v.map_values(|e: (String, Scalar)| (e.0@, e.1@))
}

impl View for AbiValue {
    type V = AbiValueModel;

    open spec fn view(&self) -> AbiValueModel {
        match self {
            AbiValue::Single(s) => AbiValueModel::Single(s@),
            AbiValue::Array(t, v) => AbiValueModel::Array(*t, scalars_view(v@)),
            AbiValue::StrMap(t, v) => AbiValueModel::StrMap(*t, entries_map(entries_view(v@))),
        }
    }
}

pub open spec fn is_hex_digit(c: char) -> bool {
    ('0' <= c && c <= '9') || ('a' <= c && c <= 'f') || ('A' <= c && c <= 'F')
}

pub open spec fn hex_digit_value(c: char) -> int {
    if '0' <= c && c <= '9' {
        c as int - '0' as int
    } else if 'a' <= c && c <= 'f' {
        c as int - 'a' as int + 10
    } else {
        c as int - 'A' as int + 10
    }
}

/// Text that decodes as hex: an even number of hex digits of either case.
pub open spec fn hex_text_ok(s: Seq<char>) -> bool {
    s.len() % 2 == 0 && forall|i: int| 0 <= i < s.len() ==> is_hex_digit(#[trigger] s[i])
}

/// The bytes a hex text denotes, two digits per byte, high digit first.
pub open spec fn hex_bytes(s: Seq<char>) -> Seq<u8> {
    Seq::new(
        s.len() / 2,
        |i: int| (hex_digit_value(s[2 * i]) * 16 + hex_digit_value(s[2 * i + 1])) as u8,
    )
}

/// Relies on hex::decode: it accepts exactly an even-length run of ASCII hex
/// digits of either case and turns each pair into one byte, high digit first.
#[verifier::external_body]
fn decode_hex(s: &str) -> (r: Result<Vec<u8>, hex::FromHexError>)
    ensures
        match r {
            Ok(b) => hex_text_ok(s@) && b@ == hex_bytes(s@),
            Err(_) => !hex_text_ok(s@),
        },
{
    hex::decode(s)
}

pub open spec fn is_signed(t: ScalarType) -> bool {
    matches!(t, ScalarType::I8 | ScalarType::I16 | ScalarType::I32 | ScalarType::I64 | ScalarType::I128)
}

/// The integer scalar of type `t` holding `v`, when `v` is in `t`'s range.
pub open spec fn int_scalar_spec(t: ScalarType, v: int) -> Option<ScalarModel> {
    match t {
        ScalarType::U8 => if 0 <= v <= u8::MAX { Some(ScalarModel::U8(v as u8)) } else { None },
        ScalarType::I8 => if i8::MIN <= v <= i8::MAX { Some(ScalarModel::I8(v as i8)) } else { None },
        ScalarType::U16 => if 0 <= v <= u16::MAX { Some(ScalarModel::U16(v as u16)) } else { None },
        ScalarType::I16 => if i16::MIN <= v <= i16::MAX { Some(ScalarModel::I16(v as i16)) } else { None },
        ScalarType::U32 => if 0 <= v <= u32::MAX { Some(ScalarModel::U32(v as u32)) } else { None },
        ScalarType::I32 => if i32::MIN <= v <= i32::MAX { Some(ScalarModel::I32(v as i32)) } else { None },
        ScalarType::U64 => if 0 <= v <= u64::MAX { Some(ScalarModel::U64(v as u64)) } else { None },
        ScalarType::I64 => if i64::MIN <= v <= i64::MAX { Some(ScalarModel::I64(v as i64)) } else { None },
        ScalarType::U128 => if 0 <= v <= u128::MAX { Some(ScalarModel::U128(v as u128)) } else { None },
        ScalarType::I128 => if i128::MIN <= v <= i128::MAX { Some(ScalarModel::I128(v as i128)) } else { None },
        _ => None,
    }
}

/// The error a token of scalar type `t` is rejected with.
pub open spec fn scalar_error(t: ScalarType) -> AbiError {
    if t == ScalarType::Parampack {
        AbiError::HexDecode
    } else {
        AbiError::NumberFormat
    }
}

/// What a token denotes as a value of scalar type `t`.
pub open spec fn scalar_spec(t: ScalarType, tok: Seq<char>) -> Option<ScalarModel> {
    match t {
        ScalarType::Bool => Some(ScalarModel::Bool(tok == "true"@)),
        ScalarType::Str => Some(ScalarModel::Str(tok)),
        ScalarType::Parampack => if hex_text_ok(tok) {
            Some(ScalarModel::Bytes(hex_bytes(tok)))
        } else {
            None
        },
        _ => match decimal_value(tok, is_signed(t)) {
            Some(v) => int_scalar_spec(t, v),
            None => None,
        },
    }
}

/// Reads an optionally signed decimal token as a sign and a magnitude.
fn parse_int_token(tok: &str, signed: bool) -> (r: Option<(bool, u128)>)
    ensures
        match r {
            Some((neg, m)) => (neg ==> signed) && decimal_value(tok@, signed) == Some(
                if neg { -(m as int) } else { m as int },
            ),
            None => match decimal_value(tok@, signed) {
                Some(v) => v > u128::MAX || v < -u128::MAX,
                None => true,
            },
        },
{
    let n = tok.unicode_len();
    if n > 0 {
        let c = tok.get_char(0);
        if c == '+' || (signed && c == '-') {
            assert(tok@.subrange(1, n as int) =~= tok@.drop_first());
            return match parse_digits(tok, 1) {
                Some(m) => Some((c == '-', m)),
                None => None,
            };
        }
    }
    assert(tok@.subrange(0, n as int) =~= tok@);
    match parse_digits(tok, 0) {
        Some(m) => Some((false, m)),
        None => None,
    }
}

/// The integer scalar of type `t` holding the signed magnitude, if in range.
fn int_scalar(t: ScalarType, neg: bool, m: u128) -> (r: Option<Scalar>)
    ensures
        ({
            let v = if neg { -(m as int) } else { m as int };
            match r {
                Some(s) => int_scalar_spec(t, v) == Some(s@),
                None => int_scalar_spec(t, v) is None,
            }
        }),
{
    let pos = !neg || m == 0;
    match t {
        ScalarType::U8 => if pos && m <= 0xff { Some(Scalar::U8(m as u8)) } else { None },
        ScalarType::U16 => if pos && m <= 0xffff { Some(Scalar::U16(m as u16)) } else { None },
        ScalarType::U32 => if pos && m <= 0xffff_ffff { Some(Scalar::U32(m as u32)) } else { None },
        ScalarType::U64 => if pos && m <= 0xffff_ffff_ffff_ffff { Some(Scalar::U64(m as u64)) } else { None },
        ScalarType::U128 => if pos { Some(Scalar::U128(m)) } else { None },
        ScalarType::I8 => if !neg && m <= 0x7f {
            Some(Scalar::I8(m as i8))
        } else if neg && m <= 0x80 {
            Some(Scalar::I8((0 - (m as i16)) as i8))
        } else {
            None
        },
        ScalarType::I16 => if !neg && m <= 0x7fff {
            Some(Scalar::I16(m as i16))
        } else if neg && m <= 0x8000 {
            Some(Scalar::I16((0 - (m as i32)) as i16))
        } else {
            None
        },
        ScalarType::I32 => if !neg && m <= 0x7fff_ffff {
            Some(Scalar::I32(m as i32))
        } else if neg && m <= 0x8000_0000 {
            Some(Scalar::I32((0 - (m as i64)) as i32))
        } else {
            None
        },
        ScalarType::I64 => if !neg && m <= 0x7fff_ffff_ffff_ffff {
            Some(Scalar::I64(m as i64))
        } else if neg && m <= 0x8000_0000_0000_0000 {
            Some(Scalar::I64((0 - (m as i128)) as i64))
        } else {
            None
        },
        ScalarType::I128 => if !neg && m <= 0x7fff_ffff_ffff_ffff_ffff_ffff_ffff_ffff {
            Some(Scalar::I128(m as i128))
        } else if neg && m < 0x8000_0000_0000_0000_0000_0000_0000_0000 {
            Some(Scalar::I128(0 - (m as i128)))
        } else if neg && m == 0x8000_0000_0000_0000_0000_0000_0000_0000 {
            Some(Scalar::I128(i128::MIN))
        } else {
            None
        },
        _ => None,
    }
}

/// Parses one token as a value of scalar type `t`.
pub fn parse_scalar(t: ScalarType, tok: &str) -> (r: Result<Scalar, AbiError>)
    ensures
        match r {
            Ok(s) => scalar_spec(t, tok@) == Some(s@),
            Err(e) => scalar_spec(t, tok@) is None && e == scalar_error(t),
        },
{
    match t {
        ScalarType::Bool => {
            let b = crate::text::text_eq(tok, "true");
            Ok(Scalar::Bool(b))
        },
        ScalarType::Str => Ok(Scalar::Str(String::from_str(tok))),
        ScalarType::Parampack => match decode_hex(tok) {
            Ok(b) => Ok(Scalar::Bytes(b)),
            Err(_) => Err(AbiError::HexDecode),
        },
        _ => {
            let signed = matches!(t, ScalarType::I8 | ScalarType::I16 | ScalarType::I32 | ScalarType::I64 | ScalarType::I128);
            match parse_int_token(tok, signed) {
                Some((neg, m)) => match int_scalar(t, neg, m) {
                    Some(s) => Ok(s),
                    None => Err(AbiError::NumberFormat),
                },
                None => Err(AbiError::NumberFormat),
            }
        },
    }
}

/// The values of all tokens as scalars of type `t`, or `None` if one is invalid.
pub open spec fn all_scalars_spec(t: ScalarType, toks: Seq<Seq<char>>) -> Option<Seq<ScalarModel>> {
    if forall|i: int| 0 <= i < toks.len() ==> (#[trigger] scalar_spec(t, toks[i])) is Some {
        Some(Seq::new(toks.len(), |i: int| scalar_spec(t, toks[i])->Some_0))
    } else {
        None
    }
}

/// The key and value texts of one `key:value` map entry; pieces after a
/// second `:` are ignored.
pub open spec fn map_entry_spec(pair: Seq<char>) -> Option<(Seq<char>, Seq<char>)> {
    let parts = split_spec(pair, ':');
    if parts.len() >= 2 {
        Some((parts[0], parts[1]))
    } else {
        None
    }
}

/// What a token denotes as a value of the given descriptor, or why it is rejected.
pub open spec fn value_spec(d: TypeDescriptor, tok: Seq<char>) -> Result<AbiValueModel, AbiError> {
    match d {
        TypeDescriptor::Scalar(t) => match scalar_spec(t, tok) {
            Some(s) => Ok(AbiValueModel::Single(s)),
            None => Err(scalar_error(t)),
        },
        TypeDescriptor::Array(t) => match all_scalars_spec(t, split_spec(tok, ',')) {
            Some(v) => Ok(AbiValueModel::Array(t, v)),
            None => Err(scalar_error(t)),
        },
        TypeDescriptor::StrMap(t) => {
            let pairs = split_spec(tok, ',');
            if exists|i: int| 0 <= i < pairs.len() && (#[trigger] map_entry_spec(pairs[i])) is None {
                Err(AbiError::InvalidMapEntry)
            } else {
                let entries = Seq::new(pairs.len(), |i: int| map_entry_spec(pairs[i])->Some_0);
                match all_scalars_spec(t, entries.map_values(|e: (Seq<char>, Seq<char>)| e.1)) {
                    Some(vs) => Ok(
                        AbiValueModel::StrMap(
                            t,
                            entries_map(Seq::new(pairs.len(), |i: int| (entries[i].0, vs[i]))),
                        ),
                    ),
                    None => Err(scalar_error(t)),
                }
            }
        },
    }
}

fn parse_array(t: ScalarType, tok: &str) -> (r: Result<Vec<Scalar>, AbiError>)
    ensures
        match r {
            Ok(v) => all_scalars_spec(t, split_spec(tok@, ',')) == Some(scalars_view(v@)),
            Err(e) => all_scalars_spec(t, split_spec(tok@, ',')) is None && e == scalar_error(t),
        },
{
    let pieces = split_on(tok, ',');
    let ghost pv = strings_view(pieces@);
    let mut out: Vec<Scalar> = Vec::new();
    let mut i: usize = 0;
    while i < pieces.len()
        invariant
            pv == strings_view(pieces@),
            pv == split_spec(tok@, ','),
            i <= pieces@.len(),
            out@.len() == i,
            forall|k: int| 0 <= k < i ==> scalar_spec(t, #[trigger] pv[k]) == Some(out@[k]@),
        decreases pieces@.len() - i,
    {
        match parse_scalar(t, pieces[i].as_str()) {
            Ok(s) => out.push(s),
            Err(e) => {
                assert(scalar_spec(t, pv[i as int]) is None);
                return Err(e);
            },
        }
        i += 1;
    }
    assert(scalars_view(out@) =~= Seq::new(pv.len(), |k: int| scalar_spec(t, pv[k])->Some_0));
    Ok(out)
}

fn parse_map(t: ScalarType, tok: &str) -> (r: Result<Vec<(String, Scalar)>, AbiError>)
    ensures
        match r {
            Ok(v) => value_spec(TypeDescriptor::StrMap(t), tok@) == Ok::<AbiValueModel, AbiError>(
                AbiValueModel::StrMap(t, entries_map(entries_view(v@))),
            ),
            Err(e) => value_spec(TypeDescriptor::StrMap(t), tok@) == Err::<AbiValueModel, AbiError>(e),
        },
{
    let pairs = split_on(tok, ',');
    let ghost pv = strings_view(pairs@);
    let mut keys: Vec<String> = Vec::new();
    let mut vals: Vec<String> = Vec::new();
    let mut i: usize = 0;
    while i < pairs.len()
        invariant
            pv == strings_view(pairs@),
            pv == split_spec(tok@, ','),
            i <= pairs@.len(),
            keys@.len() == i,
            vals@.len() == i,
            forall|k: int| 0 <= k < i ==> #[trigger] map_entry_spec(pv[k]) == Some((keys@[k]@, vals@[k]@)),
        decreases pairs@.len() - i,
    {
        let parts = split_on(pairs[i].as_str(), ':');
        if parts.len() < 2 {
            assert(map_entry_spec(pv[i as int]) is None);
            return Err(AbiError::InvalidMapEntry);
        }
        assert(parts@[0]@ == strings_view(parts@)[0]);
        assert(parts@[1]@ == strings_view(parts@)[1]);
        keys.push(parts[0].clone());
        vals.push(parts[1].clone());
        i += 1;
    }
    let ghost entries = Seq::new(pv.len(), |k: int| map_entry_spec(pv[k])->Some_0);
    let ghost vtoks = entries.map_values(|e: (Seq<char>, Seq<char>)| e.1);
    assert(!exists|k: int| 0 <= k < pv.len() && (#[trigger] map_entry_spec(pv[k])) is None);
    let mut out: Vec<(String, Scalar)> = Vec::new();
    let mut j: usize = 0;
    while j < vals.len()
        invariant
            pv == split_spec(tok@, ','),
            keys@.len() == pv.len(),
            vals@.len() == pv.len(),
            forall|k: int| 0 <= k < pv.len() ==> #[trigger] map_entry_spec(pv[k]) == Some((keys@[k]@, vals@[k]@)),
            entries == Seq::new(pv.len(), |k: int| map_entry_spec(pv[k])->Some_0),
            vtoks == entries.map_values(|e: (Seq<char>, Seq<char>)| e.1),
            j <= vals@.len(),
            out@.len() == j,
            forall|k: int| 0 <= k < j ==> scalar_spec(t, #[trigger] vtoks[k]) == Some(out@[k].1@)
                && out@[k].0@ == keys@[k]@,
        decreases vals@.len() - j,
    {
        assert(vtoks[j as int] == vals@[j as int]@);
        match parse_scalar(t, vals[j].as_str()) {
            Ok(s) => out.push((keys[j].clone(), s)),
            Err(e) => {
                assert(scalar_spec(t, vtoks[j as int]) is None);
                return Err(e);
            },
        }
        j += 1;
    }
    proof {
        assert forall|k: int| 0 <= k < vtoks.len() implies (#[trigger] scalar_spec(t, vtoks[k])) is Some by {
            assert(scalar_spec(t, vtoks[k]) == Some(out@[k].1@));
        }
        let vs = Seq::new(vtoks.len(), |k: int| scalar_spec(t, vtoks[k])->Some_0);
        assert(all_scalars_spec(t, vtoks) == Some(vs));
        assert(entries_view(out@) =~= Seq::new(pv.len(), |k: int| (entries[k].0, vs[k])));
    }
    Ok(out)
}

/// Parses a token as a value of the given descriptor. Any failure rejects the
/// whole token.
pub fn parse_value(d: TypeDescriptor, tok: &str) -> (r: Result<AbiValue, AbiError>)
    ensures
        match r {
            Ok(v) => value_spec(d, tok@) == Ok::<AbiValueModel, AbiError>(v@),
            Err(e) => value_spec(d, tok@) == Err::<AbiValueModel, AbiError>(e),
        },
{
    match d {
        TypeDescriptor::Scalar(t) => match parse_scalar(t, tok) {
            Ok(s) => Ok(AbiValue::Single(s)),
            Err(e) => Err(e),
        },
        TypeDescriptor::Array(t) => match parse_array(t, tok) {
            Ok(v) => Ok(AbiValue::Array(t, v)),
            Err(e) => Err(e),
        },
        TypeDescriptor::StrMap(t) => match parse_map(t, tok) {
            Ok(v) => Ok(AbiValue::StrMap(t, v)),
            Err(e) => Err(e),
        },
    }
}

/// The base-10 digits of a natural number, most significant first, without
/// leading zeros.
pub open spec fn decimal_digits(n: nat) -> Seq<char>
    decreases n,
{
    if n < 10 {
        seq![((n + 48) as u32) as char]
    } else {
        decimal_digits(n / 10).push((((n % 10) + 48) as u32) as char)
    }
}

/// The usual base-10 text of an integer: a `-` before negative numbers.
pub open spec fn decimal_text(v: int) -> Seq<char> {
    if v < 0 {
        seq!['-'] + decimal_digits((-v) as nat)
    } else {
        decimal_digits(v as nat)
    }
}

proof fn lemma_decimal_digits(n: nat)
    ensures
        decimal_digits(n).len() > 0,
        all_digits(decimal_digits(n)),
        digits_value(decimal_digits(n)) == n,
    decreases n,
{
    if n < 10 {
        let s = decimal_digits(n);
        assert(s.drop_last() =~= Seq::<char>::empty());
        assert(is_digit(s[0]));
        assert(digit_value(s[0]) == n);
        assert(digits_value(s.drop_last()) == 0);
        assert(s.last() == s[0]);
    } else {
        lemma_decimal_digits(n / 10);
        let p = decimal_digits(n / 10);
        let s = decimal_digits(n);
        let c = (((n % 10) + 48) as u32) as char;
        assert(s.drop_last() =~= p);
        assert(is_digit(c));
        assert(digit_value(c) == n % 10);
        assert(s.last() == c);
        assert((n / 10) * 10 + n % 10 == n) by (nonlinear_arith);
        assert forall|i: int| 0 <= i < s.len() implies is_digit(#[trigger] s[i]) by {
            if i < p.len() {
                assert(s[i] == p[i]);
            }
        }
    }
}

/// The parse half of the integer round trip: for every integer scalar type,
/// the decimal text of any value in the type's range parses back to that
/// value.
pub proof fn lemma_integer_text_round_trip(t: ScalarType, v: int)
    requires
        t != ScalarType::Bool,
        t != ScalarType::Str,
        t != ScalarType::Parampack,
        int_scalar_spec(t, v) is Some,
    ensures
        scalar_spec(t, decimal_text(v)) == int_scalar_spec(t, v),
{
    if v < 0 {
        let m = (-v) as nat;
        lemma_decimal_digits(m);
        let s = decimal_text(v);
        assert(is_signed(t));
        assert(s.drop_first() =~= decimal_digits(m));
        assert(s[0] == '-');
    } else {
        lemma_decimal_digits(v as nat);
        let s = decimal_text(v);
        assert(is_digit(s[0]));
    }
}

} // verus!
