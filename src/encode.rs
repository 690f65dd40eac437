//! Turning a method's text arguments into its call payload.
use vstd::prelude::*;
use crate::error::{AbiError, AbiErrorModel};
use crate::meta::IRContractMethodMeta;
use crate::types::{parse_type, type_spec};
use crate::value::{parse_value, value_spec, AbiValue, AbiValueModel};

verus! {

/// The format version byte every call payload starts with.
pub const PAYLOAD_VERSION: u8 = 0;

/// The declared input types of a method, in order.
pub open spec fn input_types(m: IRContractMethodMeta) -> Seq<Seq<char>> {
    m.inputs@.map_values(|i: crate::meta::IRContractMethodInputMeta| i.ty@)
}

pub open spec fn tokens_view(t: Seq<&str>) -> Seq<Seq<char>> {
    t.map_values(|s: &str| s@)
}

pub open spec fn values_view(v: Seq<AbiValue>) -> Seq<AbiValueModel> {
    v.map_values(|a: AbiValue| a@)
}

/// What one token denotes as a value of the named type, or why it is rejected.
pub open spec fn param_spec(ty: Seq<char>, tok: Seq<char>) -> Result<AbiValueModel, AbiErrorModel> {
    match type_spec(ty) {
        None => Err(AbiErrorModel::Unsupported(ty)),
        Some(d) => match value_spec(d, tok) {
            Ok(v) => Ok(v),
            Err(e) => Err(e@),
        },
    }
}

/// The values of the first `n` tokens, or the first error among them.
pub open spec fn params_prefix_spec(types: Seq<Seq<char>>, toks: Seq<Seq<char>>, n: nat) -> Result<
    Seq<AbiValueModel>,
    AbiErrorModel,
>
    decreases n,
{
    if n == 0 {
        Ok(Seq::empty())
    } else {
        match params_prefix_spec(types, toks, (n - 1) as nat) {
            Err(e) => Err(e),
            Ok(vs) => match param_spec(types[n - 1], toks[n - 1]) {
                Ok(v) => Ok(vs.push(v)),
                Err(e) => Err(e),
            },
        }
    }
}

/// The values of all tokens against the declared types, or the first error;
/// a token count unequal to the type count is `ArityMismatch`.
pub open spec fn params_spec(types: Seq<Seq<char>>, toks: Seq<Seq<char>>) -> Result<
    Seq<AbiValueModel>,
    AbiErrorModel,
> {
    if types.len() != toks.len() {
        Err(AbiErrorModel::ArityMismatch)
    } else {
        params_prefix_spec(types, toks, types.len())
    }
}

/// The concatenation of byte strings, in order.
pub open spec fn concat_all(s: Seq<Seq<u8>>) -> Seq<u8>
    decreases s.len(),
{
    if s.len() == 0 {
        Seq::empty()
    } else {
        concat_all(s.drop_last()) + s.last()
    }
}

/// The payload for the given per-parameter encodings: the version byte, then
/// each encoding in order with nothing between them.
pub open spec fn payload(encodings: Seq<Vec<u8>>) -> Seq<u8> {
    seq![PAYLOAD_VERSION] + concat_all(encodings.map_values(|e: Vec<u8>| e@))
}

proof fn lemma_prefix_error_stays(types: Seq<Seq<char>>, toks: Seq<Seq<char>>, k: nat, n: nat)
    requires
        k <= n,
        params_prefix_spec(types, toks, k) is Err,
    ensures
        params_prefix_spec(types, toks, n) == params_prefix_spec(types, toks, k),
    decreases n - k,
{
    if k < n {
        lemma_prefix_error_stays(types, toks, k, (n - 1) as nat);
    }
}

impl IRContractMethodMeta {
    /// Parses each token against the type of the input at its position.
    pub fn parse_params(&self, params_strings: &[&str]) -> (r: Result<Vec<AbiValue>, AbiError>)
        ensures
            match r {
                Ok(v) => params_spec(input_types(*self), tokens_view(params_strings@)) == Ok::<
                    Seq<AbiValueModel>,
                    AbiErrorModel,
                >(values_view(v@)),
                Err(e) => params_spec(input_types(*self), tokens_view(params_strings@)) == Err::<
                    Seq<AbiValueModel>,
                    AbiErrorModel,
                >(e@),
            },
    {
        let ghost types = input_types(*self);
        let ghost toks = tokens_view(params_strings@);
        if self.inputs.len() != params_strings.len() {
            return Err(AbiError::ArityMismatch);
        }
        let mut values: Vec<AbiValue> = Vec::new();
        assert(values_view(values@) =~= Seq::<AbiValueModel>::empty());
        let mut i: usize = 0;
        while i < params_strings.len()
            invariant
                types == input_types(*self),
                toks == tokens_view(params_strings@),
                types.len() == toks.len(),
                i <= toks.len(),
                params_prefix_spec(types, toks, i as nat) == Ok::<Seq<AbiValueModel>, AbiErrorModel>(
                    values_view(values@),
                ),
            decreases toks.len() - i,
        {
            let ghost before = values@;
            let step = match parse_type(self.inputs[i].ty.as_str()) {
                Ok(d) => match parse_value(d, params_strings[i]) {
                    Ok(v) => Ok(v),
                    Err(e) => Err(e),
                },
                Err(e) => Err(e),
            };
            match step {
                Ok(v) => {
                    values.push(v);
                    assert(values_view(values@) =~= values_view(before).push(v@));
                },
                Err(e) => {
                    proof {
                        lemma_prefix_error_stays(types, toks, (i + 1) as nat, types.len());
                    }
                    return Err(e);
                },
            }
            i += 1;
        }
        Ok(values)
    }

    /// Encodes the text arguments of a call to this method: each token is
    /// parsed against its input's type and handed to `encode_value`, and the
    /// payload is the version byte followed by those encodings in order. The
    /// first failure rejects the whole call.
    pub fn encode_params<F: Fn(&AbiValue) -> Vec<u8>>(
        &self,
        params_strings: &[&str],
        encode_value: F,
    ) -> (r: Result<Vec<u8>, AbiError>)
        requires
            forall|v: &AbiValue| encode_value.requires((v,)),
        ensures
            params_strings@.len() != self.inputs@.len() ==> r == Err::<Vec<u8>, AbiError>(
                AbiError::ArityMismatch,
            ),
            match params_spec(input_types(*self), tokens_view(params_strings@)) {
                Err(e) => r is Err && r->Err_0@ == e,
                Ok(vs) => r is Ok && exists|vals: Seq<AbiValue>, outs: Seq<Vec<u8>>|
                    {
                        &&& values_view(vals) == vs
                        &&& outs.len() == vals.len()
                        &&& forall|k: int|
                            0 <= k < vals.len() ==> encode_value.ensures((&vals[k],), #[trigger] outs[k])
                        &&& r->Ok_0@ == payload(outs)
                    },
            },
    {
        let values = match self.parse_params(params_strings) {
            Ok(v) => v,
            Err(e) => return Err(e),
        };
        let mut result: Vec<u8> = vec![PAYLOAD_VERSION];
        let ghost mut outs: Seq<Vec<u8>> = Seq::empty();
        assert(result@ =~= payload(outs));
        let mut i: usize = 0;
        while i < values.len()
            invariant
                forall|v: &AbiValue| encode_value.requires((v,)),
                i <= values@.len(),
                outs.len() == i,
                forall|k: int| 0 <= k < i ==> encode_value.ensures((&values@[k],), #[trigger] outs[k]),
                result@ == payload(outs),
            decreases values@.len() - i,
        {
            let mut bytes = encode_value(&values[i]);
            proof {
                let prev = outs;
                outs = outs.push(bytes);
                assert(outs.map_values(|e: Vec<u8>| e@).drop_last() =~= prev.map_values(|e: Vec<u8>| e@));
            }
            result.append(&mut bytes);
            assert(result@ =~= payload(outs));
            i += 1;
        }
        Ok(result)
    }
}

} // verus!
