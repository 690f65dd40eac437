use ir_abi::{
    parse_type, parse_value, AbiError, AbiValue, FunctionDef, IRContractABIMeta,
    IRContractMethodInputMeta, IRContractMethodMeta, MethodKind, Scalar, ScalarType,
    TypeDescriptor, CURRENT_IR_ABI_VERSION,
};

fn method(name: &str, types: &[&str]) -> IRContractMethodMeta {
    IRContractMethodMeta {
        name: name.to_string(),
        kind: MethodKind::Function,
        inputs: types
            .iter()
            .map(|t| IRContractMethodInputMeta { name: String::new(), ty: t.to_string() })
            .collect(),
        outputs: vec![],
    }
}

fn uleb(mut n: usize) -> Vec<u8> {
    let mut out = vec![];
    loop {
        let b = (n & 0x7f) as u8;
        n >>= 7;
        if n == 0 {
            out.push(b);
            return out;
        }
        out.push(b | 0x80);
    }
}

fn scalar_bytes(s: &Scalar) -> Vec<u8> {
    match s {
        Scalar::Bool(b) => vec![*b as u8],
        Scalar::Str(t) => {
            let mut v = uleb(t.len());
            v.extend_from_slice(t.as_bytes());
            v
        }
        Scalar::Bytes(b) => {
            let mut v = uleb(b.len());
            v.extend_from_slice(b);
            v
        }
        Scalar::U8(x) => x.to_le_bytes().to_vec(),
        Scalar::I8(x) => x.to_le_bytes().to_vec(),
        Scalar::U16(x) => x.to_le_bytes().to_vec(),
        Scalar::I16(x) => x.to_le_bytes().to_vec(),
        Scalar::U32(x) => x.to_le_bytes().to_vec(),
        Scalar::I32(x) => x.to_le_bytes().to_vec(),
        Scalar::U64(x) => x.to_le_bytes().to_vec(),
        Scalar::I64(x) => x.to_le_bytes().to_vec(),
        Scalar::U128(x) => x.to_le_bytes().to_vec(),
        Scalar::I128(x) => x.to_le_bytes().to_vec(),
    }
}

fn value_bytes(v: &AbiValue) -> Vec<u8> {
    match v {
        AbiValue::Single(s) => scalar_bytes(s),
        AbiValue::Array(_, items) => {
            let mut out = uleb(items.len());
            for s in items {
                out.extend(scalar_bytes(s));
            }
            out
        }
        AbiValue::StrMap(_, entries) => {
            let mut out = uleb(entries.len());
            for (k, s) in entries {
                out.extend(scalar_bytes(&Scalar::Str(k.clone())));
                out.extend(scalar_bytes(s));
            }
            out
        }
    }
}

fn map_of(v: AbiValue) -> std::collections::HashMap<String, Scalar> {
    match v {
        AbiValue::StrMap(_, entries) => entries.into_iter().collect(),
        other => panic!("not a map: {:?}", other),
    }
}

#[test]
fn scalar_type_names_parse() {
    assert_eq!(parse_type("bool"), Ok(TypeDescriptor::Scalar(ScalarType::Bool)));
    assert_eq!(parse_type("str"), Ok(TypeDescriptor::Scalar(ScalarType::Str)));
    assert_eq!(parse_type("string"), Ok(TypeDescriptor::Scalar(ScalarType::Str)));
    assert_eq!(parse_type("parampack"), Ok(TypeDescriptor::Scalar(ScalarType::Parampack)));
    assert_eq!(parse_type("i128"), Ok(TypeDescriptor::Scalar(ScalarType::I128)));
    assert_eq!(parse_type("u16"), Ok(TypeDescriptor::Scalar(ScalarType::U16)));
}

#[test]
fn composite_type_names_parse() {
    assert_eq!(parse_type("[u8]"), Ok(TypeDescriptor::Array(ScalarType::U8)));
    assert_eq!(parse_type("[string]"), Ok(TypeDescriptor::Array(ScalarType::Str)));
    assert_eq!(parse_type("{str:u64}"), Ok(TypeDescriptor::StrMap(ScalarType::U64)));
    assert_eq!(parse_type("{anything:bool}"), Ok(TypeDescriptor::StrMap(ScalarType::Bool)));
}

#[test]
fn unknown_type_names_are_unsupported() {
    assert_eq!(parse_type("u256"), Err(AbiError::Unsupported("u256".to_string())));
    assert_eq!(parse_type("Bool"), Err(AbiError::Unsupported("Bool".to_string())));
    assert_eq!(parse_type("["), Err(AbiError::Unsupported("[".to_string())));
    assert_eq!(parse_type("[[u8]]"), Err(AbiError::Unsupported("[[u8]]".to_string())));
    assert_eq!(parse_type("[parampack]"), Err(AbiError::Unsupported("[parampack]".to_string())));
    assert_eq!(parse_type("{str}"), Err(AbiError::Unsupported("{str}".to_string())));
    assert_eq!(parse_type("{str:}"), Err(AbiError::Unsupported("{str:}".to_string())));
    assert_eq!(parse_type(""), Err(AbiError::Unsupported(String::new())));
    assert_eq!(parse_type("[u8)"), Err(AbiError::Unsupported("[u8)".to_string())));
    assert_eq!(parse_type("{str:u8)"), Err(AbiError::Unsupported("{str:u8)".to_string())));
    assert_eq!(parse_type("{:"), Err(AbiError::Unsupported("{:".to_string())));
    assert_eq!(parse_type("{"), Err(AbiError::Unsupported("{".to_string())));
}

#[test]
fn bool_tokens_are_permissive() {
    let d = TypeDescriptor::Scalar(ScalarType::Bool);
    assert_eq!(parse_value(d, "true"), Ok(AbiValue::Single(Scalar::Bool(true))));
    assert_eq!(parse_value(d, "false"), Ok(AbiValue::Single(Scalar::Bool(false))));
    assert_eq!(parse_value(d, "yes"), Ok(AbiValue::Single(Scalar::Bool(false))));
    assert_eq!(parse_value(d, "TRUE"), Ok(AbiValue::Single(Scalar::Bool(false))));
}

#[test]
fn str_tokens_are_verbatim() {
    let d = TypeDescriptor::Scalar(ScalarType::Str);
    assert_eq!(
        parse_value(d, " a,b:c "),
        Ok(AbiValue::Single(Scalar::Str(" a,b:c ".to_string())))
    );
}

#[test]
fn parampack_tokens_decode_hex() {
    let d = TypeDescriptor::Scalar(ScalarType::Parampack);
    assert_eq!(parse_value(d, "0aFf"), Ok(AbiValue::Single(Scalar::Bytes(vec![0x0a, 0xff]))));
    assert_eq!(parse_value(d, ""), Ok(AbiValue::Single(Scalar::Bytes(vec![]))));
    assert_eq!(parse_value(d, "abc"), Err(AbiError::HexDecode));
    assert_eq!(parse_value(d, "zz"), Err(AbiError::HexDecode));
}

#[test]
fn integer_tokens_respect_width() {
    let u8d = TypeDescriptor::Scalar(ScalarType::U8);
    assert_eq!(parse_value(u8d, "255"), Ok(AbiValue::Single(Scalar::U8(255))));
    assert_eq!(parse_value(u8d, "+7"), Ok(AbiValue::Single(Scalar::U8(7))));
    assert_eq!(parse_value(u8d, "256"), Err(AbiError::NumberFormat));
    assert_eq!(parse_value(u8d, "-1"), Err(AbiError::NumberFormat));
    assert_eq!(parse_value(u8d, " 1"), Err(AbiError::NumberFormat));
    assert_eq!(parse_value(u8d, "0x10"), Err(AbiError::NumberFormat));
    assert_eq!(parse_value(u8d, ""), Err(AbiError::NumberFormat));
    let i8d = TypeDescriptor::Scalar(ScalarType::I8);
    assert_eq!(parse_value(i8d, "-128"), Ok(AbiValue::Single(Scalar::I8(-128))));
    assert_eq!(parse_value(i8d, "127"), Ok(AbiValue::Single(Scalar::I8(127))));
    assert_eq!(parse_value(i8d, "128"), Err(AbiError::NumberFormat));
    assert_eq!(parse_value(i8d, "-"), Err(AbiError::NumberFormat));
}

#[test]
fn integer_tokens_at_the_widest_range() {
    let i128d = TypeDescriptor::Scalar(ScalarType::I128);
    assert_eq!(
        parse_value(i128d, "-170141183460469231731687303715884105728"),
        Ok(AbiValue::Single(Scalar::I128(i128::MIN)))
    );
    assert_eq!(
        parse_value(i128d, "170141183460469231731687303715884105728"),
        Err(AbiError::NumberFormat)
    );
    let u128d = TypeDescriptor::Scalar(ScalarType::U128);
    assert_eq!(
        parse_value(u128d, "340282366920938463463374607431768211455"),
        Ok(AbiValue::Single(Scalar::U128(u128::MAX)))
    );
    assert_eq!(
        parse_value(u128d, "340282366920938463463374607431768211456"),
        Err(AbiError::NumberFormat)
    );
    let u64d = TypeDescriptor::Scalar(ScalarType::U64);
    assert_eq!(
        parse_value(u64d, "18446744073709551615"),
        Ok(AbiValue::Single(Scalar::U64(u64::MAX)))
    );
}

#[test]
fn array_tokens_split_on_commas() {
    let d = TypeDescriptor::Array(ScalarType::U8);
    assert_eq!(
        parse_value(d, "1,2,3"),
        Ok(AbiValue::Array(ScalarType::U8, vec![Scalar::U8(1), Scalar::U8(2), Scalar::U8(3)]))
    );
    assert_eq!(parse_value(d, "1,x,3"), Err(AbiError::NumberFormat));
    assert_eq!(parse_value(d, ""), Err(AbiError::NumberFormat));
    let s = TypeDescriptor::Array(ScalarType::Str);
    assert_eq!(parse_value(s, ""), Ok(AbiValue::Array(ScalarType::Str, vec![Scalar::Str(String::new())])));
    assert_eq!(
        parse_value(s, "a,,b"),
        Ok(AbiValue::Array(ScalarType::Str, vec![
            Scalar::Str("a".to_string()),
            Scalar::Str(String::new()),
            Scalar::Str("b".to_string())
        ]))
    );
    let b = TypeDescriptor::Array(ScalarType::Bool);
    assert_eq!(
        parse_value(b, "true,no"),
        Ok(AbiValue::Array(ScalarType::Bool, vec![Scalar::Bool(true), Scalar::Bool(false)]))
    );
}

#[test]
fn map_token_parses_entries() {
    let d = TypeDescriptor::StrMap(ScalarType::U8);
    let m = map_of(parse_value(d, "a:1,b:2").unwrap());
    assert_eq!(m.len(), 2);
    assert_eq!(m["a"], Scalar::U8(1));
    assert_eq!(m["b"], Scalar::U8(2));
}

#[test]
fn map_entry_without_separator_is_rejected() {
    let d = TypeDescriptor::StrMap(ScalarType::U8);
    assert_eq!(parse_value(d, "a:1,b"), Err(AbiError::InvalidMapEntry));
    assert_eq!(parse_value(d, "a:x,b"), Err(AbiError::InvalidMapEntry));
    assert_eq!(parse_value(d, "a:x"), Err(AbiError::NumberFormat));
}

#[test]
fn map_later_key_wins_and_extra_pieces_are_ignored() {
    let d = TypeDescriptor::StrMap(ScalarType::U8);
    let m = map_of(parse_value(d, "a:1,a:5,b:2:9").unwrap());
    assert_eq!(m.len(), 2);
    assert_eq!(m["a"], Scalar::U8(5));
    assert_eq!(m["b"], Scalar::U8(2));
}

#[test]
fn encode_scalar_then_array() {
    let m = method("f", &["u8", "[u8]"]);
    let bytes = m.encode_params(&["7", "1,2,3"], value_bytes).unwrap();
    assert_eq!(bytes, vec![0x00, 7, 3, 1, 2, 3]);
}

#[test]
fn encode_with_no_inputs_is_version_byte() {
    let m = method("f", &[]);
    assert_eq!(m.encode_params(&[], value_bytes), Ok(vec![0x00]));
}

#[test]
fn encode_arity_mismatch() {
    let m = method("f", &["u8", "[u8]"]);
    assert_eq!(m.encode_params(&["7"], value_bytes), Err(AbiError::ArityMismatch));
    assert_eq!(m.encode_params(&["7", "1", "2"], value_bytes), Err(AbiError::ArityMismatch));
    let empty = method("g", &[]);
    assert_eq!(empty.encode_params(&["1"], value_bytes), Err(AbiError::ArityMismatch));
}

#[test]
fn encode_reports_first_failure() {
    let m = method("f", &["u16", "bogus", "u8"]);
    assert_eq!(m.encode_params(&["70000", "x", "1"], value_bytes), Err(AbiError::NumberFormat));
    assert_eq!(
        m.encode_params(&["7", "x", "1"], value_bytes),
        Err(AbiError::Unsupported("bogus".to_string()))
    );
    let h = method("h", &["parampack"]);
    assert_eq!(h.encode_params(&["1"], value_bytes), Err(AbiError::HexDecode));
}

#[test]
fn encode_multi_byte_scalars_little_endian() {
    let m = method("f", &["u16", "i32", "bool", "str"]);
    let bytes = m.encode_params(&["258", "-2", "true", "hi"], value_bytes).unwrap();
    assert_eq!(bytes, vec![0x00, 2, 1, 0xfe, 0xff, 0xff, 0xff, 1, 2, b'h', b'i']);
}

#[test]
fn parse_params_gives_values_in_order() {
    let m = method("f", &["i8", "{str:bool}"]);
    let values = m.parse_params(&["-3", "k:true"]).unwrap();
    assert_eq!(values.len(), 2);
    assert_eq!(values[0], AbiValue::Single(Scalar::I8(-3)));
    assert_eq!(
        values[1],
        AbiValue::StrMap(ScalarType::Bool, vec![("k".to_string(), Scalar::Bool(true))])
    );
}

#[test]
fn build_constructor() {
    let table = vec![FunctionDef {
        qualified_name: "Foo.init".to_string(),
        param_types: vec![],
        ret_type: None,
    }];
    let meta = IRContractABIMeta::from_contract(&table);
    assert_eq!(meta.abi_version, CURRENT_IR_ABI_VERSION);
    assert_eq!(meta.methods.len(), 1);
    let m = &meta.methods[0];
    assert_eq!(m.name, "init");
    assert_eq!(m.kind, MethodKind::Constructor);
    assert!(m.inputs.is_empty());
    assert!(m.outputs.is_empty());
}

#[test]
fn build_function_with_inputs_and_output() {
    let table = vec![FunctionDef {
        qualified_name: "Foo.transfer".to_string(),
        param_types: vec!["str".to_string(), "u64".to_string()],
        ret_type: Some("bool".to_string()),
    }];
    let meta = IRContractABIMeta::from_contract(&table);
    let m = &meta.methods[0];
    assert_eq!(m.name, "transfer");
    assert_eq!(m.kind, MethodKind::Function);
    assert_eq!(m.inputs.len(), 2);
    assert_eq!(m.inputs[0].name, "");
    assert_eq!(m.inputs[0].ty, "str");
    assert_eq!(m.inputs[1].name, "");
    assert_eq!(m.inputs[1].ty, "u64");
    assert_eq!(m.outputs.len(), 1);
    assert_eq!(m.outputs[0].ty, "bool");
}

#[test]
fn build_strips_only_up_to_last_dot() {
    let table = vec![
        FunctionDef { qualified_name: "a.b.c".to_string(), param_types: vec![], ret_type: None },
        FunctionDef { qualified_name: "plain".to_string(), param_types: vec![], ret_type: None },
        FunctionDef { qualified_name: "x.".to_string(), param_types: vec![], ret_type: None },
    ];
    let meta = IRContractABIMeta::from_contract(&table);
    let names: Vec<String> = meta.methods.iter().map(|m| m.name.clone()).collect();
    assert_eq!(names, vec!["c".to_string(), "plain".to_string(), "".to_string()]);
}

#[test]
fn build_orders_methods_by_qualified_name() {
    let def = |q: &str, n: usize| FunctionDef {
        qualified_name: q.to_string(),
        param_types: vec!["u8".to_string(); n],
        ret_type: None,
    };
    let table = vec![def("Foo.zeta", 0), def("Foo.alpha", 1), def("Bar.init", 2), def("Foo.alpha", 3)];
    let meta = IRContractABIMeta::from_contract(&table);
    let names: Vec<&str> = meta.methods.iter().map(|m| m.name.as_str()).collect();
    assert_eq!(names, vec!["init", "alpha", "alpha", "zeta"]);
    assert_eq!(meta.methods[0].kind, MethodKind::Constructor);
    assert_eq!(meta.methods[1].inputs.len(), 1);
    assert_eq!(meta.methods[2].inputs.len(), 3);
    let reversed: Vec<FunctionDef> = table.into_iter().rev().collect();
    let again = IRContractABIMeta::from_contract(&reversed);
    let names_again: Vec<&str> = again.methods.iter().map(|m| m.name.as_str()).collect();
    assert_eq!(names_again, names);
}

#[test]
fn get_method_returns_first_of_duplicates() {
    let mut first = method("x", &["u8"]);
    first.kind = MethodKind::Constructor;
    let second = method("x", &["str", "str"]);
    let meta = IRContractABIMeta {
        abi_version: CURRENT_IR_ABI_VERSION,
        methods: vec![method("y", &[]), first, second],
    };
    let found = meta.get_method("x").unwrap();
    assert_eq!(found.inputs.len(), 1);
    assert_eq!(found.kind, MethodKind::Constructor);
    assert!(meta.get_method("z").is_none());
}

#[test]
fn default_metadata_is_empty() {
    let meta = IRContractABIMeta::default();
    assert_eq!(meta.abi_version, 0);
    assert!(meta.methods.is_empty());
}

#[test]
fn integer_text_parses_back_to_its_value() {
    let one = |t: ScalarType, text: String| parse_value(TypeDescriptor::Scalar(t), &text);
    assert_eq!(one(ScalarType::U8, 200u8.to_string()), Ok(AbiValue::Single(Scalar::U8(200))));
    assert_eq!(one(ScalarType::I8, i8::MIN.to_string()), Ok(AbiValue::Single(Scalar::I8(i8::MIN))));
    assert_eq!(one(ScalarType::U16, u16::MAX.to_string()), Ok(AbiValue::Single(Scalar::U16(u16::MAX))));
    assert_eq!(one(ScalarType::I16, (-300i16).to_string()), Ok(AbiValue::Single(Scalar::I16(-300))));
    assert_eq!(one(ScalarType::U32, 0u32.to_string()), Ok(AbiValue::Single(Scalar::U32(0))));
    assert_eq!(one(ScalarType::I32, i32::MIN.to_string()), Ok(AbiValue::Single(Scalar::I32(i32::MIN))));
    assert_eq!(one(ScalarType::I64, i64::MAX.to_string()), Ok(AbiValue::Single(Scalar::I64(i64::MAX))));
    assert_eq!(one(ScalarType::I128, i128::MAX.to_string()), Ok(AbiValue::Single(Scalar::I128(i128::MAX))));
    assert_eq!(one(ScalarType::Bool, "true".to_string()), Ok(AbiValue::Single(Scalar::Bool(true))));
    assert_eq!(one(ScalarType::Str, "x y".to_string()), Ok(AbiValue::Single(Scalar::Str("x y".to_string()))));
}
