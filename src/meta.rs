//! Method descriptions of a compiled contract, and the metadata that lists them.
use vstd::prelude::*;
use vstd::string::*;
use crate::text::{lemma_text_le_total, lemma_text_le_transitive, text_eq, text_le, text_le_exec};

verus! {

/// The current version of the metadata schema.
pub const CURRENT_IR_ABI_VERSION: u16 = 1;

/// Whether a method is the constructor or an ordinary callable function.
#[derive(Clone, Copy, Debug, PartialEq, Eq, Structural)]
pub enum MethodKind {
    Function,
    Constructor,
}

/// One declared parameter of a method: its name (empty when unknown) and its
/// textual type.
#[derive(Clone, Debug)]
pub struct IRContractMethodInputMeta {
    pub name: String,
    pub ty: String,
}

/// The textual type of a method's return value.
#[derive(Clone, Debug)]
pub struct IRContractMethodOutputMeta {
    pub ty: String,
}

/// A callable method: its unqualified name, kind, inputs in declaration order
/// and at most one output.
#[derive(Clone, Debug)]
pub struct IRContractMethodMeta {
    pub name: String,
    pub kind: MethodKind,
    pub inputs: Vec<IRContractMethodInputMeta>,
    pub outputs: Vec<IRContractMethodOutputMeta>,
}

/// A named compile-time constant: its type, its data as hex text, and a
/// readable rendering of its value.
#[derive(Clone, Debug, Default, PartialEq, Eq, Hash)]
pub struct IRConstantMeta {
    pub ty: String,
    pub data: String,
    pub readable: String,
}

/// The methods of a contract, stamped with the schema version that shaped them.
#[derive(Clone, Debug)]
pub struct IRContractABIMeta {
    pub abi_version: u16,
    pub methods: Vec<IRContractMethodMeta>,
}

/// A function of a compiled program as the builder reads it: its qualified
/// name, the textual types of its parameters, and its return type (`None`
/// when it returns nothing).
#[derive(Clone, Debug)]
pub struct FunctionDef {
    pub qualified_name: String,
    pub param_types: Vec<String>,
    pub ret_type: Option<String>,
}

/// The part of a qualified name after its last `.`; the whole name when it
/// holds none.
pub open spec fn short_name(q: Seq<char>) -> Seq<char>
    decreases q.len(),
{
    if q.len() == 0 {
        q
    } else if q.last() == '.' {
        Seq::empty()
    } else {
        short_name(q.drop_last()).push(q.last())
    }
}

/// The kind a method of the given unqualified name has.
pub open spec fn kind_of(name: Seq<char>) -> MethodKind {
    if name == "init"@ {
        MethodKind::Constructor
    } else {
        MethodKind::Function
    }
}

/// `m` is the description the builder owes for `f`.
pub open spec fn describes(m: IRContractMethodMeta, f: FunctionDef) -> bool {
    &&& m.name@ == short_name(f.qualified_name@)
    &&& m.kind == kind_of(short_name(f.qualified_name@))
    &&& m.inputs@.len() == f.param_types@.len()
    &&& forall|i: int|
        0 <= i < m.inputs@.len() ==> (#[trigger] m.inputs@[i]).name@ == Seq::<char>::empty()
            && m.inputs@[i].ty@ == f.param_types@[i]@
    &&& match f.ret_type {
        None => m.outputs@.len() == 0,
        Some(t) => m.outputs@.len() == 1 && m.outputs@[0].ty@ == t@,
    }
}

/// `i` is the position of the first method called `name`.
pub open spec fn first_named(methods: Seq<IRContractMethodMeta>, name: Seq<char>, i: int) -> bool {
    &&& 0 <= i < methods.len()
    &&& methods[i].name@ == name
    &&& forall|j: int| 0 <= j < i ==> methods[j].name@ != name
}

/// Position of the first method called `name`, if any.
pub open spec fn method_position(methods: Seq<IRContractMethodMeta>, name: Seq<char>) -> Option<int> {
    if exists|i: int| first_named(methods, name, i) {
        Some(choose|i: int| first_named(methods, name, i))
    } else {
        None
    }
}

/// Lookup by name finds the first method of that name in stored order: a
/// later method of the same name is never returned while an earlier one exists.
pub proof fn lemma_lookup_takes_first(methods: Seq<IRContractMethodMeta>, name: Seq<char>, i: int)
    requires
        first_named(methods, name, i),
    ensures
        method_position(methods, name) == Some(i),
{
    let k = choose|k: int| first_named(methods, name, k);
    assert(first_named(methods, name, k));
    if k < i {
        assert(methods[k].name@ != name);
    } else if k > i {
        assert(methods[i].name@ != name);
    }
}

/// With no method called `name`, lookup finds nothing.
pub proof fn lemma_lookup_absent(methods: Seq<IRContractMethodMeta>, name: Seq<char>)
    requires
        forall|j: int| 0 <= j < methods.len() ==> methods[j].name@ != name,
    ensures
        method_position(methods, name) is None,
{
}

/// The unqualified name of a qualified function name.
fn unqualified(q: &str) -> (r: String)
    ensures
        r@ == short_name(q@),
{
    let n = q.unicode_len();
    let mut start: usize = 0;
    let mut i: usize = 0;
    while i < n
        invariant
            n == q@.len(),
            start <= i <= n,
            short_name(q@.subrange(0, i as int)) == q@.subrange(start as int, i as int),
        decreases n - i,
    {
        let c = q.get_char(i);
        proof {
            assert(q@.subrange(0, i + 1).drop_last() =~= q@.subrange(0, i as int));
        }
        if c == '.' {
            start = i + 1;
            i += 1;
            assert(q@.subrange(start as int, i as int) =~= Seq::<char>::empty());
        } else {
            i += 1;
            assert(q@.subrange(start as int, i as int) =~= q@.subrange(start as int, i - 1).push(c));
        }
    }
    assert(q@.subrange(0, n as int) =~= q@);
    String::from_str(q.substring_char(start, n))
}

impl Default for IRContractABIMeta {
    fn default() -> (r: IRContractABIMeta)
        ensures
            r.abi_version == 0,
            r.methods@.len() == 0,
    {
        IRContractABIMeta { abi_version: 0, methods: Vec::new() }
    }
}

impl IRContractMethodMeta {
    /// Describes one function of a compiled program.
    pub fn from_function(f: &FunctionDef) -> (r: IRContractMethodMeta)
        ensures
            describes(r, *f),
    {
        let mut inputs: Vec<IRContractMethodInputMeta> = Vec::new();
        let mut i: usize = 0;
        while i < f.param_types.len()
            invariant
                i <= f.param_types@.len(),
                inputs@.len() == i,
                forall|k: int|
                    0 <= k < i ==> (#[trigger] inputs@[k]).name@ == Seq::<char>::empty()
                        && inputs@[k].ty@ == f.param_types@[k]@,
            decreases f.param_types@.len() - i,
        {
            inputs.push(IRContractMethodInputMeta { name: String::new(), ty: f.param_types[i].clone() });
            i += 1;
        }
        let mut outputs: Vec<IRContractMethodOutputMeta> = Vec::new();
        match &f.ret_type {
            Some(t) => outputs.push(IRContractMethodOutputMeta { ty: t.clone() }),
            None => {},
        }
        let name = unqualified(f.qualified_name.as_str());
        let kind = if text_eq(name.as_str(), "init") {
            MethodKind::Constructor
        } else {
            MethodKind::Function
        };
        IRContractMethodMeta { name, kind, inputs, outputs }
    }
}

impl IRContractABIMeta {
    /// The first method called `abi_method_name`, in stored order.
    pub fn get_method(&self, abi_method_name: &str) -> (r: Option<&IRContractMethodMeta>)
        ensures
            match method_position(self.methods@, abi_method_name@) {
                Some(i) => r == Some(&self.methods@[i]),
                None => r is None,
            },
    {
        let mut i: usize = 0;
        while i < self.methods.len()
            invariant
                i <= self.methods@.len(),
                forall|j: int| 0 <= j < i ==> self.methods@[j].name@ != abi_method_name@,
            decreases self.methods@.len() - i,
        {
            if text_eq(self.methods[i].name.as_str(), abi_method_name) {
                proof {
                    lemma_lookup_takes_first(self.methods@, abi_method_name@, i as int);
                }
                return Some(&self.methods[i]);
            }
            i += 1;
        }
        proof {
            lemma_lookup_absent(self.methods@, abi_method_name@);
        }
        None
    }

    /// Builds the metadata of a compiled program from its function table, one
    /// method per function, ordered by qualified name (functions of equal
    /// name keep their table order), so that the result does not depend on
    /// the order the table was read in.
    pub fn from_contract(functions: &Vec<FunctionDef>) -> (r: IRContractABIMeta)
        ensures
            r.abi_version == CURRENT_IR_ABI_VERSION,
            r.methods@.len() == functions@.len(),
            exists|order: Seq<int>|
                {
                    &&& is_ordering(order, functions@.len() as int)
                    &&& forall|i: int|
                        0 <= i < order.len() ==> describes(
                            #[trigger] r.methods@[i],
                            functions@[order[i]],
                        )
                    &&& sorted_by_name(functions@, order)
                    &&& keeps_table_order(functions@, order)
                },
    {
        let order = name_order(functions);
        let ghost perm = order@.map_values(|k: usize| k as int);
        let mut methods: Vec<IRContractMethodMeta> = Vec::new();
        let mut i: usize = 0;
        while i < order.len()
            invariant
                perm == order@.map_values(|k: usize| k as int),
                is_ordering(perm, functions@.len() as int),
                i <= order@.len(),
                methods@.len() == i,
                forall|k: int| 0 <= k < i ==> describes(#[trigger] methods@[k], functions@[perm[k]]),
            decreases order@.len() - i,
        {
            assert(perm[i as int] == order@[i as int] as int);
            let m = IRContractMethodMeta::from_function(&functions[order[i]]);
            methods.push(m);
            i += 1;
        }
        IRContractABIMeta { abi_version: CURRENT_IR_ABI_VERSION, methods }
    }
}

/// `order` lists each position below `n` exactly once.
pub open spec fn is_ordering(order: Seq<int>, n: int) -> bool {
    &&& order.len() == n
    &&& forall|i: int| 0 <= i < n ==> 0 <= #[trigger] order[i] < n
    &&& forall|i: int, j: int| 0 <= i < j < n ==> order[i] != order[j]
}

/// Taking the functions at the positions `order` lists gives ascending
/// qualified names.
pub open spec fn sorted_by_name(functions: Seq<FunctionDef>, order: Seq<int>) -> bool {
    forall|i: int, j: int|
        0 <= i < j < order.len() ==> text_le(
            functions[order[i]].qualified_name@,
            functions[order[j]].qualified_name@,
        )
}

/// Functions of equal qualified name stay in table order.
pub open spec fn keeps_table_order(functions: Seq<FunctionDef>, order: Seq<int>) -> bool {
    forall|i: int, j: int|
        0 <= i < j < order.len() && functions[order[i]].qualified_name@
            == functions[order[j]].qualified_name@ ==> order[i] < order[j]
}

/// The positions of the table's functions in ascending order of qualified
/// name; equal names keep their table order.
fn name_order(functions: &Vec<FunctionDef>) -> (r: Vec<usize>)
    ensures
        is_ordering(r@.map_values(|k: usize| k as int), functions@.len() as int),
        sorted_by_name(functions@, r@.map_values(|k: usize| k as int)),
        keeps_table_order(functions@, r@.map_values(|k: usize| k as int)),
{
    let ghost f = functions@;
    let mut order: Vec<usize> = Vec::new();
    let mut i: usize = 0;
    while i < functions.len()
        invariant
            f == functions@,
            i <= f.len(),
            order@.len() == i,
            forall|k: int| 0 <= k < i ==> #[trigger] order@[k] < i,
            forall|a: int, b: int| 0 <= a < b < i ==> order@[a] != order@[b],
            forall|a: int, b: int|
                0 <= a < b < i ==> text_le(
                    f[order@[a] as int].qualified_name@,
                    f[order@[b] as int].qualified_name@,
                ),
            forall|a: int, b: int|
                0 <= a < b < i && f[order@[a] as int].qualified_name@ == f[order@[b] as int].qualified_name@
                    ==> order@[a] < order@[b],
        decreases f.len() - i,
    {
        let key = functions[i].qualified_name.as_str();
        let mut p: usize = 0;
        loop
            invariant
                f == functions@,
                i < f.len(),
                key@ == f[i as int].qualified_name@,
                order@.len() == i,
                forall|k: int| 0 <= k < i ==> #[trigger] order@[k] < i,
                p <= order@.len(),
                forall|q: int| 0 <= q < p ==> text_le(#[trigger] f[order@[q] as int].qualified_name@, key@),
                forall|a: int, b: int|
                    0 <= a < b < i ==> text_le(
                        f[order@[a] as int].qualified_name@,
                        f[order@[b] as int].qualified_name@,
                    ),
            ensures
                p < order@.len() ==> !text_le(f[order@[p as int] as int].qualified_name@, key@),
            decreases order@.len() - p,
        {
            if p == order.len() {
                break;
            }
            if !text_le_exec(functions[order[p]].qualified_name.as_str(), key) {
                break;
            }
            p += 1;
        }
        proof {
            if p < order@.len() {
                lemma_text_le_total(f[order@[p as int] as int].qualified_name@, key@);
                assert forall|q: int| p <= q < order@.len() implies text_le(
                    key@,
                    #[trigger] f[order@[q] as int].qualified_name@,
                ) by {
                    if q > p {
                        lemma_text_le_transitive(
                            key@,
                            f[order@[p as int] as int].qualified_name@,
                            f[order@[q] as int].qualified_name@,
                        );
                    }
                }
            }
        }
        let ghost old_order = order@;
        order.insert(p, i);
        proof {
            assert forall|a: int, b: int| 0 <= a < b < i + 1 implies text_le(
                f[order@[a] as int].qualified_name@,
                f[order@[b] as int].qualified_name@,
            ) by {
                if b < p {
                    assert(order@[a] == old_order[a] && order@[b] == old_order[b]);
                } else if b == p {
                    assert(order@[a] == old_order[a]);
                } else if a < p {
                    assert(order@[a] == old_order[a] && order@[b] == old_order[b - 1]);
                    if p < old_order.len() {
                        assert(text_le(key@, f[old_order[b - 1] as int].qualified_name@));
                        lemma_text_le_transitive(
                            f[old_order[a] as int].qualified_name@,
                            key@,
                            f[old_order[b - 1] as int].qualified_name@,
                        );
                    }
                } else if a == p {
                    assert(order@[b] == old_order[b - 1]);
                } else {
                    assert(order@[a] == old_order[a - 1] && order@[b] == old_order[b - 1]);
                }
            }
            assert forall|a: int, b: int|
                0 <= a < b < i + 1 && f[order@[a] as int].qualified_name@
                    == f[order@[b] as int].qualified_name@ implies order@[a] < order@[b] by {
                if b < p {
                    assert(order@[a] == old_order[a] && order@[b] == old_order[b]);
                } else if b == p {
                    assert(order@[a] == old_order[a]);
                } else if a < p {
                    assert(order@[a] == old_order[a] && order@[b] == old_order[b - 1]);
                } else if a == p {
                    assert(order@[b] == old_order[b - 1]);
                    assert(text_le(
                        f[old_order[p as int] as int].qualified_name@,
                        f[old_order[b - 1] as int].qualified_name@,
                    ) || b - 1 == p);
                    assert(false);
                } else {
                    assert(order@[a] == old_order[a - 1] && order@[b] == old_order[b - 1]);
                }
            }
            assert forall|k: int| 0 <= k < i + 1 implies #[trigger] order@[k] < i + 1 by {
                if k < p {
                    assert(order@[k] == old_order[k]);
                } else if k > p {
                    assert(order@[k] == old_order[k - 1]);
                }
            }
            assert forall|a: int, b: int| 0 <= a < b < i + 1 implies order@[a] != order@[b] by {
                if b < p {
                    assert(order@[a] == old_order[a] && order@[b] == old_order[b]);
                } else if b == p {
                    assert(order@[a] == old_order[a]);
                } else if a < p {
                    assert(order@[a] == old_order[a] && order@[b] == old_order[b - 1]);
                } else if a == p {
                    assert(order@[b] == old_order[b - 1]);
                } else {
                    assert(order@[a] == old_order[a - 1] && order@[b] == old_order[b - 1]);
                }
            }
        }
        i += 1;
    }
    order
}

} // verus!
