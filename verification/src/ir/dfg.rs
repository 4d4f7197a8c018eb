//! The data flow graph: values, instructions and the parameters of blocks.
//!
//! The graph owns every SSA value of a function. A value is the result of an
//! instruction, a parameter of a block, or an alias of another value. An
//! alias forwards to the value it stands for, and every question about a
//! value is answered for the value at the end of its chain of aliases.
//!
//! The contracts of `DataFlowGraph` are stated over its view, `DfgView`: the
//! tables of the graph as sequences. Each operation that changes the graph
//! has a function on views of the same name that says what the graph is
//! afterwards.

use crate::ir::entities::{Ebb, Inst, Value};
use crate::ir::instructions::{InstView, InstructionData, InstructionFormat, Opcode};
use crate::ir::types::Type;
use vstd::prelude::*;

verus! {

/// What the graph records of one value.
#[derive(Clone, Copy, Debug, PartialEq, Eq, Structural)]
pub enum ValueData {
    /// Result number `num` of the instruction `inst`.
    Inst { ty: Type, num: usize, inst: Inst },
    /// Parameter number `num` of the block `ebb`.
    Param { ty: Type, num: usize, ebb: Ebb },
    /// An alias of the value `original`.
    Alias { ty: Type, original: Value },
    /// A former block parameter that another value has replaced. It has no
    /// definition until it is made an alias.
    Detached { ty: Type },
}

impl ValueData {
    /// The type of the value.
    pub open spec fn ty(self) -> Type {
        match self {
            ValueData::Inst { ty, .. } => ty,
            ValueData::Param { ty, .. } => ty,
            ValueData::Alias { ty, .. } => ty,
            ValueData::Detached { ty } => ty,
        }
    }
}

/// Where a value is defined.
#[derive(Clone, Copy, Debug, PartialEq, Eq, Structural)]
pub enum ValueDef {
    /// The value is the result with the given number of an instruction.
    Res(Inst, usize),
    /// The value is the parameter with the given number of a block.
    Param(Ebb, usize),
}

/// Follow the aliases from `v` to the value that `v` stands for. The ranks
/// decrease along every alias of a well-formed graph, which bounds the walk.
pub open spec fn resolve_in(values: Seq<ValueData>, rank: Seq<nat>, v: Value) -> Value
    decreases rank[v.0 as int],
{
    if v.0 < values.len() {
        match values[v.0 as int] {
            ValueData::Alias { original, .. } => {
                if rank[original.0 as int] < rank[v.0 as int] {
                    resolve_in(values, rank, original)
                } else {
                    v
                }
            },
            _ => v,
        }
    } else {
        v
    }
}

/// The tables of a data flow graph as sequences.
#[verifier::ext_equal]
pub struct DfgView {
    /// The instructions, by instruction index.
    pub insts: Seq<InstView>,
    /// The results of each instruction, by instruction index.
    pub results: Seq<Seq<Value>>,
    /// What is recorded of each value, by value index.
    pub values: Seq<ValueData>,
    /// The parameters of each block, by block index.
    pub params: Seq<Seq<Value>>,
    /// A measure that decreases along every alias: it witnesses that no chain
    /// of aliases runs in a circle. A value that is no alias has rank 0.
    pub rank: Seq<nat>,
}

impl DfgView {
    /// Does `v` refer to a value of this graph?
    pub open spec fn is_value(self, v: Value) -> bool {
        v.0 < self.values.len()
    }

    /// Does `i` refer to an instruction of this graph?
    pub open spec fn is_inst(self, i: Inst) -> bool {
        i.0 < self.insts.len()
    }

    /// Does `e` refer to a block of this graph?
    pub open spec fn is_ebb(self, e: Ebb) -> bool {
        e.0 < self.params.len()
    }

    /// What is recorded of the value `v`.
    pub open spec fn value(self, v: Value) -> ValueData {
        self.values[v.0 as int]
    }

    /// The instruction `i`.
    pub open spec fn inst(self, i: Inst) -> InstView {
        self.insts[i.0 as int]
    }

    /// The results of the instruction `i`.
    pub open spec fn inst_results(self, i: Inst) -> Seq<Value> {
        self.results[i.0 as int]
    }

    /// The parameters of the block `e`.
    pub open spec fn ebb_params(self, e: Ebb) -> Seq<Value> {
        self.params[e.0 as int]
    }

    /// The type of the value `v`.
    pub open spec fn value_type(self, v: Value) -> Type {
        self.value(v).ty()
    }

    /// The value that `v` stands for: `v` itself unless it is an alias.
    pub open spec fn resolve(self, v: Value) -> Value {
        resolve_in(self.values, self.rank, v)
    }

    /// Where the value that `v` stands for is defined.
    pub open spec fn value_def(self, v: Value) -> ValueDef {
        match self.value(self.resolve(v)) {
            ValueData::Inst { inst, num, .. } => ValueDef::Res(inst, num),
            ValueData::Param { ebb, num, .. } => ValueDef::Param(ebb, num),
            _ => arbitrary(),
        }
    }

    /// The value that will be created next.
    pub open spec fn next_value(self) -> Value {
        Value(self.values.len() as usize)
    }

    /// The instruction that will be created next.
    pub open spec fn next_inst(self) -> Inst {
        Inst(self.insts.len() as usize)
    }

    /// The instruction `i` is well formed: its operands have the shape of
    /// its opcode's format and are values of the graph, its destination is a
    /// block of the graph, and it has the results of its opcode.
    pub open spec fn inst_wf(self, i: Inst) -> bool {
        let data = self.inst(i);
        &&& data.format == data.opcode.spec_format()
        &&& data.shaped()
        &&& forall|k: int| 0 <= k < data.args.len() ==> self.is_value(#[trigger] data.args[k])
        &&& data.destination matches Some(d) ==> self.is_ebb(d)
        &&& self.inst_results(i).len() == data.opcode.spec_num_results()
        &&& forall|k: int|
            0 <= k < self.inst_results(i).len() ==> {
                let r = #[trigger] self.inst_results(i)[k];
                &&& self.is_value(r)
                &&& self.value(r) is Inst
                &&& self.value(r)->inst == i
                &&& self.value(r)->Inst_num == k
            }
    }

    /// The record of the value `v` is well formed: a result is a result of
    /// its instruction, a parameter is a parameter of its block, and an
    /// alias stands for a value of the same type and of lower rank.
    pub open spec fn value_wf(self, v: Value) -> bool {
        match self.value(v) {
            ValueData::Inst { num, inst, .. } => {
                &&& self.is_inst(inst)
                &&& num < self.inst_results(inst).len()
                &&& self.inst_results(inst)[num as int] == v
                &&& self.rank[v.0 as int] == 0
            },
            ValueData::Param { num, ebb, .. } => {
                &&& self.is_ebb(ebb)
                &&& num < self.ebb_params(ebb).len()
                &&& self.ebb_params(ebb)[num as int] == v
                &&& self.rank[v.0 as int] == 0
            },
            ValueData::Alias { ty, original } => {
                &&& self.is_value(original)
                &&& self.rank[original.0 as int] < self.rank[v.0 as int]
                &&& self.value_type(original) == ty
            },
            ValueData::Detached { .. } => self.rank[v.0 as int] == 0,
        }
    }

    /// The parameters of the block `e` are parameter values that know their
    /// block and their number.
    pub open spec fn ebb_wf(self, e: Ebb) -> bool {
        forall|j: int|
            0 <= j < self.ebb_params(e).len() ==> {
                let p = #[trigger] self.ebb_params(e)[j];
                &&& self.is_value(p)
                &&& self.value(p) is Param
                &&& self.value(p)->ebb == e
                &&& self.value(p)->Param_num == j
            }
    }

    /// The graph is well formed: its tables refer to each other consistently
    /// and fit the index types.
    pub open spec fn wf(self) -> bool {
        &&& self.results.len() == self.insts.len()
        &&& self.rank.len() == self.values.len()
        &&& self.values.len() <= usize::MAX
        &&& self.insts.len() <= usize::MAX
        &&& self.params.len() <= usize::MAX
        &&& forall|i: Inst| self.is_inst(i) ==> #[trigger] self.inst_wf(i)
        &&& forall|v: Value| self.is_value(v) ==> #[trigger] self.value_wf(v)
        &&& forall|e: Ebb| self.is_ebb(e) ==> #[trigger] self.ebb_wf(e)
    }

    /// No value of the graph is detached: every value has a definition.
    pub open spec fn settled(self) -> bool {
        forall|v: Value| self.is_value(v) ==> !(#[trigger] self.value(v) is Detached)
    }

    /// In a well-formed graph, the value that `v` stands for is a value of
    /// the graph, no alias, and of the type of `v`.
    pub proof fn lemma_resolve(self, v: Value)
        requires
            self.wf(),
            self.is_value(v),
        ensures
            self.is_value(self.resolve(v)),
            !(self.value(self.resolve(v)) is Alias),
            self.value_type(self.resolve(v)) == self.value_type(v),
            !(self.value(v) is Alias) ==> self.resolve(v) == v,
            self.value(v) matches ValueData::Alias { original, .. } ==> self.resolve(v)
                == self.resolve(original),
        decreases self.rank[v.0 as int],
    {
        assert(self.value_wf(v));
        match self.value(v) {
            ValueData::Alias { original, .. } => {
                self.lemma_resolve(original);
            },
            _ => {},
        }
    }

    /// The value that `v` stands for is the same in two graphs that have the
    /// same aliases among the values of the first.
    pub proof fn lemma_resolve_same(self, other: DfgView, v: Value)
        requires
            self.wf(),
            self.is_value(v),
            self.values.len() <= other.values.len(),
            forall|x: Value| #[trigger]
                self.is_value(x) ==> {
                    &&& other.rank[x.0 as int] == self.rank[x.0 as int]
                    &&& (self.value(x) is Alias ==> other.value(x) == self.value(x))
                    &&& (other.value(x) is Alias ==> self.value(x) is Alias)
                },
        ensures
            other.resolve(v) == self.resolve(v),
        decreases self.rank[v.0 as int],
    {
        assert(self.value_wf(v));
        assert(self.is_value(v));
        match self.value(v) {
            ValueData::Alias { original, .. } => {
                assert(self.is_value(original));
                self.lemma_resolve_same(other, original);
            },
            _ => {},
        }
    }
}

/// The graph after each of the operations that change it.
impl DfgView {
    /// The graph with one more block, which has no parameters.
    pub open spec fn make_ebb(self) -> DfgView {
        DfgView { params: self.params.push(Seq::empty()), ..self }
    }

    /// The graph after a new parameter of type `ty` is appended to `ebb`.
    pub open spec fn append_ebb_param(self, ebb: Ebb, ty: Type) -> DfgView {
        let num = self.ebb_params(ebb).len() as usize;
        DfgView {
            values: self.values.push(ValueData::Param { ty, num, ebb }),
            rank: self.rank.push(0),
            params: self.params.update(ebb.0 as int, self.ebb_params(ebb).push(self.next_value())),
            ..self
        }
    }

    /// The graph after the block parameter `old` is replaced by a new
    /// parameter of type `ty` at the same place. `old` is detached.
    pub open spec fn replace_ebb_param(self, old: Value, ty: Type) -> DfgView {
        let ebb = self.value(old)->ebb;
        let num = self.value(old)->Param_num;
        DfgView {
            values: self.values.update(
                old.0 as int,
                ValueData::Detached { ty: self.value_type(old) },
            ).push(ValueData::Param { ty, num, ebb }),
            rank: self.rank.push(0),
            params: self.params.update(
                ebb.0 as int,
                self.ebb_params(ebb).update(num as int, self.next_value()),
            ),
            ..self
        }
    }

    /// The graph after a new instruction `data` is created, with the results
    /// of its opcode, each of type `ty`.
    pub open spec fn make_inst(self, data: InstView, ty: Type) -> DfgView {
        let n = data.opcode.spec_num_results() as nat;
        let inst = self.next_inst();
        let first = self.values.len();
        DfgView {
            insts: self.insts.push(data),
            results: self.results.push(Seq::new(n, |k: int| Value((first + k) as usize))),
            values: self.values + Seq::new(
                n,
                |k: int| ValueData::Inst { ty, num: k as usize, inst },
            ),
            rank: self.rank + Seq::new(n, |k: int| 0nat),
            ..self
        }
    }

    /// The graph after the detached value `dest` is made an alias of the
    /// value that `src` stands for.
    pub open spec fn change_to_alias(self, dest: Value, src: Value) -> DfgView {
        let original = self.resolve(src);
        DfgView {
            values: self.values.update(
                dest.0 as int,
                ValueData::Alias { ty: self.value_type(dest), original },
            ),
            rank: Seq::new(
                self.rank.len(),
                |x: int|
                    if x == dest.0 {
                        1nat
                    } else if self.values[x] is Alias {
                        self.rank[x] + 1
                    } else {
                        0nat
                    },
            ),
            ..self
        }
    }

    /// The graph with the value operands of `inst` replaced by `args`.
    pub open spec fn set_inst_args(self, inst: Inst, args: Seq<Value>) -> DfgView {
        DfgView { insts: self.insts.update(inst.0 as int, self.inst(inst).with_args(args)), ..self }
    }

    /// An instruction that can be added to the graph: its operands have the
    /// shape of its opcode's format and are values of the graph, and its
    /// destination is a block of the graph.
    pub open spec fn accepts(self, data: InstView) -> bool {
        &&& data.format == data.opcode.spec_format()
        &&& data.shaped()
        &&& forall|k: int| 0 <= k < data.args.len() ==> self.is_value(#[trigger] data.args[k])
        &&& data.destination matches Some(d) ==> self.is_ebb(d)
    }

    /// A list of operands that can replace the operands of `inst`: values of
    /// the graph, as many as the format of `inst` asks for.
    pub open spec fn accepts_args(self, inst: Inst, args: Seq<Value>) -> bool {
        &&& self.inst(inst).format != InstructionFormat::Branch ==> args.len() == self.inst(
            inst,
        ).args.len()
        &&& forall|k: int| 0 <= k < args.len() ==> self.is_value(#[trigger] args[k])
    }

    /// A new block keeps the graph well formed.
    pub proof fn lemma_make_ebb_wf(self)
        requires
            self.wf(),
            self.params.len() < usize::MAX,
        ensures
            self.make_ebb().wf(),
            self.settled() ==> self.make_ebb().settled(),
    {
        let after = self.make_ebb();
        assert forall|i: Inst| after.is_inst(i) implies #[trigger] after.inst_wf(i) by {
            assert(self.inst_wf(i));
        }
        assert forall|v: Value| after.is_value(v) implies #[trigger] after.value_wf(v) by {
            assert(self.value_wf(v));
        }
        assert forall|e: Ebb| after.is_ebb(e) implies #[trigger] after.ebb_wf(e) by {
            if self.is_ebb(e) {
                assert(self.ebb_wf(e));
            }
        }
        if self.settled() {
            assert forall|v: Value| after.is_value(v) implies !(#[trigger] after.value(v)
                is Detached) by {
                assert(!(self.value(v) is Detached));
            }
        }
    }

    /// A new parameter keeps the graph well formed.
    pub proof fn lemma_append_ebb_param_wf(self, ebb: Ebb, ty: Type)
        requires
            self.wf(),
            self.is_ebb(ebb),
            self.values.len() < usize::MAX,
            self.ebb_params(ebb).len() <= usize::MAX,
        ensures
            self.append_ebb_param(ebb, ty).wf(),
            self.settled() ==> self.append_ebb_param(ebb, ty).settled(),
    {
        let after = self.append_ebb_param(ebb, ty);
        let new = self.next_value();
        assert forall|i: Inst| after.is_inst(i) implies #[trigger] after.inst_wf(i) by {
            assert(self.inst_wf(i));
        }
        assert forall|v: Value| after.is_value(v) implies #[trigger] after.value_wf(v) by {
            if self.is_value(v) {
                assert(self.value_wf(v));
            }
        }
        assert forall|e: Ebb| after.is_ebb(e) implies #[trigger] after.ebb_wf(e) by {
            assert(self.ebb_wf(e));
        }
        if self.settled() {
            assert forall|v: Value| after.is_value(v) implies !(#[trigger] after.value(v)
                is Detached) by {
                if self.is_value(v) {
                    assert(!(self.value(v) is Detached));
                }
            }
        }
    }

    /// Replacing a parameter keeps the graph well formed; the old parameter
    /// is detached.
    pub proof fn lemma_replace_ebb_param_wf(self, old: Value, ty: Type)
        requires
            self.wf(),
            self.is_value(old),
            self.value(old) is Param,
            self.values.len() < usize::MAX,
        ensures
            self.replace_ebb_param(old, ty).wf(),
    {
        let after = self.replace_ebb_param(old, ty);
        let ebb = self.value(old)->ebb;
        assert(self.value_wf(old));
        assert forall|i: Inst| after.is_inst(i) implies #[trigger] after.inst_wf(i) by {
            assert(self.inst_wf(i));
        }
        assert forall|v: Value| after.is_value(v) implies #[trigger] after.value_wf(v) by {
            if self.is_value(v) {
                assert(self.value_wf(v));
            }
        }
        assert forall|e: Ebb| after.is_ebb(e) implies #[trigger] after.ebb_wf(e) by {
            assert(self.ebb_wf(e));
        }
    }

    /// A new instruction that the graph accepts keeps the graph well formed.
    pub proof fn lemma_make_inst_wf(self, data: InstView, ty: Type)
        requires
            self.wf(),
            self.accepts(data),
            self.values.len() + data.opcode.spec_num_results() <= usize::MAX,
            self.insts.len() < usize::MAX,
        ensures
            self.make_inst(data, ty).wf(),
            self.settled() ==> self.make_inst(data, ty).settled(),
    {
        let after = self.make_inst(data, ty);
        let new = self.next_inst();
        assert forall|i: Inst| after.is_inst(i) implies #[trigger] after.inst_wf(i) by {
            if self.is_inst(i) {
                assert(self.inst_wf(i));
            } else {
                assert(i == new);
                assert(after.inst(i) == data);
            }
        }
        assert forall|v: Value| after.is_value(v) implies #[trigger] after.value_wf(v) by {
            if self.is_value(v) {
                assert(self.value_wf(v));
            }
        }
        assert forall|e: Ebb| after.is_ebb(e) implies #[trigger] after.ebb_wf(e) by {
            assert(self.ebb_wf(e));
        }
        if self.settled() {
            assert forall|v: Value| after.is_value(v) implies !(#[trigger] after.value(v)
                is Detached) by {
                if self.is_value(v) {
                    assert(!(self.value(v) is Detached));
                }
            }
        }
    }

    /// Making a detached value an alias of a value of its type that does not
    /// stand for it keeps the graph well formed.
    pub proof fn lemma_change_to_alias_wf(self, dest: Value, src: Value)
        requires
            self.wf(),
            self.is_value(dest),
            self.is_value(src),
            self.value(dest) is Detached,
            self.resolve(src) != dest,
            self.value_type(src) == self.value_type(dest),
        ensures
            self.change_to_alias(dest, src).wf(),
    {
        let after = self.change_to_alias(dest, src);
        self.lemma_resolve(src);
        assert forall|i: Inst| after.is_inst(i) implies #[trigger] after.inst_wf(i) by {
            assert(self.inst_wf(i));
        }
        assert forall|v: Value| after.is_value(v) implies #[trigger] after.value_wf(v) by {
            assert(self.value_wf(v));
            if let ValueData::Alias { original, .. } = self.value(v) {
                assert(self.value_wf(original));
            }
        }
        assert forall|e: Ebb| after.is_ebb(e) implies #[trigger] after.ebb_wf(e) by {
            assert(self.ebb_wf(e));
        }
    }

    /// Replacing the operands of an instruction by operands that the graph
    /// accepts keeps the graph well formed, and every value stands for what
    /// it stood for.
    pub proof fn lemma_set_inst_args_wf(self, inst: Inst, args: Seq<Value>)
        requires
            self.wf(),
            self.is_inst(inst),
            self.accepts_args(inst, args),
        ensures
            self.set_inst_args(inst, args).wf(),
            self.settled() ==> self.set_inst_args(inst, args).settled(),
            forall|v: Value| self.set_inst_args(inst, args).resolve(v) == self.resolve(v),
    {
        let after = self.set_inst_args(inst, args);
        assert forall|i: Inst| after.is_inst(i) implies #[trigger] after.inst_wf(i) by {
            assert(self.inst_wf(i));
        }
        assert forall|v: Value| after.is_value(v) implies #[trigger] after.value_wf(v) by {
            assert(self.value_wf(v));
        }
        assert forall|e: Ebb| after.is_ebb(e) implies #[trigger] after.ebb_wf(e) by {
            assert(self.ebb_wf(e));
        }
        if self.settled() {
            assert forall|v: Value| after.is_value(v) implies !(#[trigger] after.value(v)
                is Detached) by {
                assert(!(self.value(v) is Detached));
            }
        }
    }

    /// After `dest` is made an alias of `src`, a value that stood for `dest`
    /// stands for what `src` stood for, and every other value stands for
    /// what it stood for before.
    pub proof fn lemma_resolve_after_alias(self, dest: Value, src: Value, v: Value)
        requires
            self.wf(),
            self.is_value(dest),
            self.is_value(src),
            self.is_value(v),
            self.value(dest) is Detached,
            self.resolve(src) != dest,
        ensures
            self.change_to_alias(dest, src).resolve(v) == if self.resolve(v) == dest {
                self.resolve(src)
            } else {
                self.resolve(v)
            },
        decreases self.rank[v.0 as int],
    {
        let after = self.change_to_alias(dest, src);
        self.lemma_resolve(src);
        self.lemma_resolve(v);
        assert(self.value_wf(v));
        if v == dest {
            let original = self.resolve(src);
            assert(after.value(v) == ValueData::Alias { ty: self.value_type(dest), original });
            assert(after.resolve(original) == original);
        } else {
            match self.value(v) {
                ValueData::Alias { original, .. } => {
                    assert(self.value_wf(original));
                    self.lemma_resolve_after_alias(dest, src, original);
                },
                _ => {},
            }
        }
    }
}

/// The data flow graph of a function.
pub struct DataFlowGraph {
    insts: Vec<InstructionData>,
    results: Vec<Vec<Value>>,
    values: Vec<ValueData>,
    ebbs: Vec<Vec<Value>>,
    rank: Ghost<Seq<nat>>,
}

impl View for DataFlowGraph {
    type V = DfgView;

    /// The tables of the graph as sequences.
    closed spec fn view(&self) -> DfgView {
        DfgView {
            insts: Seq::new(self.insts@.len(), |i: int| self.insts@[i]@),
            results: Seq::new(self.results@.len(), |i: int| self.results@[i]@),
            values: self.values@,
            params: Seq::new(self.ebbs@.len(), |e: int| self.ebbs@[e]@),
            rank: self.rank@,
        }
    }
}

impl DataFlowGraph {
    /// An empty graph.
    pub fn new() -> (dfg: DataFlowGraph)
        ensures
            dfg@.wf(),
            dfg@.settled(),
            dfg@.insts.len() == 0,
            dfg@.results.len() == 0,
            dfg@.values.len() == 0,
            dfg@.params.len() == 0,
    {
        DataFlowGraph {
            insts: Vec::new(),
            results: Vec::new(),
            values: Vec::new(),
            ebbs: Vec::new(),
            rank: Ghost(Seq::empty()),
        }
    }

    /// The number of values.
    pub fn num_values(&self) -> (n: usize)
        ensures
            n == self@.values.len(),
    {
        self.values.len()
    }

    /// The number of instructions.
    pub fn num_insts(&self) -> (n: usize)
        ensures
            n == self@.insts.len(),
    {
        self.insts.len()
    }

    /// The number of blocks.
    pub fn num_ebbs(&self) -> (n: usize)
        ensures
            n == self@.params.len(),
    {
        self.ebbs.len()
    }

    /// Create a block without parameters.
    pub fn make_ebb(&mut self) -> (ebb: Ebb)
        requires
            old(self)@.wf(),
        ensures
            ebb.0 == old(self)@.params.len(),
            final(self)@ == old(self)@.make_ebb(),
            final(self)@.wf(),
            old(self)@.settled() ==> final(self)@.settled(),
    {
        let ebb = Ebb(self.ebbs.len());
        self.ebbs.push(Vec::new());
        proof {
            vstd::std_specs::vec::axiom_spec_len(&self.ebbs);
            assert(self@ =~~= old(self)@.make_ebb());
            old(self)@.lemma_make_ebb_wf();
        }
        ebb
    }

    /// The number of parameters of `ebb`.
    pub fn num_ebb_params(&self, ebb: Ebb) -> (n: usize)
        requires
            self@.is_ebb(ebb),
        ensures
            n == self@.ebb_params(ebb).len(),
    {
        self.ebbs[ebb.0].len()
    }

    /// The parameters of `ebb`.
    pub fn ebb_params(&self, ebb: Ebb) -> (params: &Vec<Value>)
        requires
            self@.is_ebb(ebb),
        ensures
            params@ == self@.ebb_params(ebb),
    {
        &self.ebbs[ebb.0]
    }

    /// Append a parameter of type `ty` to `ebb` and return the new value.
    pub fn append_ebb_param(&mut self, ebb: Ebb, ty: Type) -> (value: Value)
        requires
            old(self)@.wf(),
            old(self)@.is_ebb(ebb),
        ensures
            value == old(self)@.next_value(),
            final(self)@ == old(self)@.append_ebb_param(ebb, ty),
            final(self)@.wf(),
            old(self)@.settled() ==> final(self)@.settled(),
    {
        let value = Value(self.values.len());
        let num = self.ebbs[ebb.0].len();
        self.values.push(ValueData::Param { ty, num, ebb });
        self.ebbs[ebb.0].push(value);
        proof {
            self.rank@ = self.rank@.push(0);
            vstd::std_specs::vec::axiom_spec_len(&self.values);
            vstd::std_specs::vec::axiom_spec_len(&self.ebbs[ebb.0 as int]);
            assert(self@ =~~= old(self)@.append_ebb_param(ebb, ty));
            old(self)@.lemma_append_ebb_param_wf(ebb, ty);
        }
        value
    }

    /// Replace the block parameter `old_value` by a new parameter of type
    /// `ty` that takes its place in the block, and return the new value.
    /// `old_value` is left detached, to be made an alias of another value.
    pub fn replace_ebb_param(&mut self, old_value: Value, ty: Type) -> (value: Value)
        requires
            old(self)@.wf(),
            old(self)@.is_value(old_value),
            old(self)@.value(old_value) is Param,
        ensures
            value == old(self)@.next_value(),
            final(self)@ == old(self)@.replace_ebb_param(old_value, ty),
            final(self)@.wf(),
    {
        proof {
            assert(self@.value_wf(old_value));
        }
        let value = Value(self.values.len());
        match self.values[old_value.0] {
            ValueData::Param { ty: old_ty, num, ebb } => {
                self.values[old_value.0] = ValueData::Detached { ty: old_ty };
                self.values.push(ValueData::Param { ty, num, ebb });
                self.ebbs[ebb.0][num] = value;
            },
            _ => {},
        }
        proof {
            self.rank@ = self.rank@.push(0);
            vstd::std_specs::vec::axiom_spec_len(&self.values);
            assert(self@ =~~= old(self)@.replace_ebb_param(old_value, ty));
            old(self)@.lemma_replace_ebb_param_wf(old_value, ty);
        }
        value
    }

    /// The type of `value`.
    pub fn value_type(&self, value: Value) -> (ty: Type)
        requires
            self@.is_value(value),
        ensures
            ty == self@.value_type(value),
    {
        match self.values[value.0] {
            ValueData::Inst { ty, .. } => ty,
            ValueData::Param { ty, .. } => ty,
            ValueData::Alias { ty, .. } => ty,
            ValueData::Detached { ty } => ty,
        }
    }

    /// What the graph records of `value`.
    pub fn value_data(&self, value: Value) -> (data: ValueData)
        requires
            self@.is_value(value),
        ensures
            data == self@.value(value),
    {
        self.values[value.0]
    }

    /// Follow the aliases from `value` to the value that it stands for.
    pub fn resolve_aliases(&self, value: Value) -> (original: Value)
        requires
            self@.wf(),
            self@.is_value(value),
        ensures
            original == self@.resolve(value),
            self@.is_value(original),
            !(self@.value(original) is Alias),
    {
        let mut v = value;
        loop
            invariant
                self@.wf(),
                self@.is_value(v),
                self@.resolve(v) == self@.resolve(value),
            decreases self@.rank[v.0 as int],
        {
            proof {
                self@.lemma_resolve(v);
                assert(self@.value_wf(v));
            }
            match self.values[v.0] {
                ValueData::Alias { original, .. } => {
                    v = original;
                },
                _ => {
                    return v;
                },
            }
        }
    }

    /// Where the value that `value` stands for is defined.
    pub fn value_def(&self, value: Value) -> (def: ValueDef)
        requires
            self@.wf(),
            self@.is_value(value),
            !(self@.value(self@.resolve(value)) is Detached),
        ensures
            def == self@.value_def(value),
    {
        let original = self.resolve_aliases(value);
        match self.values[original.0] {
            ValueData::Inst { inst, num, .. } => ValueDef::Res(inst, num),
            ValueData::Param { ebb, num, .. } => ValueDef::Param(ebb, num),
            _ => vstd::pervasive::unreached(),
        }
    }

    /// Make the detached value `dest` an alias of the value that `src`
    /// stands for. Both have the same type, and `src` does not stand for
    /// `dest`.
    pub fn change_to_alias(&mut self, dest: Value, src: Value)
        requires
            old(self)@.wf(),
            old(self)@.is_value(dest),
            old(self)@.is_value(src),
            old(self)@.value(dest) is Detached,
            old(self)@.resolve(src) != dest,
            old(self)@.value_type(src) == old(self)@.value_type(dest),
        ensures
            final(self)@ == old(self)@.change_to_alias(dest, src),
            final(self)@.wf(),
    {
        let original = self.resolve_aliases(src);
        let ty = self.value_type(dest);
        self.values[dest.0] = ValueData::Alias { ty, original };
        proof {
            self.rank@ = old(self)@.change_to_alias(dest, src).rank;
            assert(self@ =~~= old(self)@.change_to_alias(dest, src));
            old(self)@.lemma_change_to_alias_wf(dest, src);
        }
    }

    /// Create the instruction `data` with the results of its opcode, each of
    /// type `ty`.
    pub fn make_inst(&mut self, data: InstructionData, ty: Type) -> (inst: Inst)
        requires
            old(self)@.wf(),
            old(self)@.accepts(data@),
        ensures
            inst == old(self)@.next_inst(),
            final(self)@ == old(self)@.make_inst(data@, ty),
            final(self)@.wf(),
            old(self)@.settled() ==> final(self)@.settled(),
    {
        let inst = Inst(self.insts.len());
        let n = data.opcode().num_results();
        let ghost first = self.values.len();
        let mut results: Vec<Value> = Vec::new();
        let mut k: usize = 0;
        while k < n
            invariant
                k <= n <= 2,
                first == old(self).values@.len(),
                self.insts == old(self).insts,
                self.results == old(self).results,
                self.ebbs == old(self).ebbs,
                self.rank == old(self).rank,
                self.values@ == old(self).values@ + Seq::new(
                    k as nat,
                    |j: int| ValueData::Inst { ty, num: j as usize, inst },
                ),
                results@ == Seq::new(k as nat, |j: int| Value((first + j) as usize)),
            decreases n - k,
        {
            results.push(Value(self.values.len()));
            self.values.push(ValueData::Inst { ty, num: k, inst });
            k = k + 1;
        }
        self.insts.push(data);
        self.results.push(results);
        proof {
            self.rank@ = self.rank@ + Seq::new(n as nat, |j: int| 0nat);
            vstd::std_specs::vec::axiom_spec_len(&self.values);
            vstd::std_specs::vec::axiom_spec_len(&self.insts);
            assert(self@ =~~= old(self)@.make_inst(data@, ty));
            old(self)@.lemma_make_inst_wf(data@, ty);
        }
        inst
    }

    /// The contents of the instruction `inst`.
    pub fn inst_data(&self, inst: Inst) -> (data: &InstructionData)
        requires
            self@.is_inst(inst),
        ensures
            data@ == self@.inst(inst),
    {
        &self.insts[inst.0]
    }

    /// The opcode of the instruction `inst`.
    pub fn opcode(&self, inst: Inst) -> (op: Opcode)
        requires
            self@.is_inst(inst),
        ensures
            op == self@.inst(inst).opcode,
    {
        self.insts[inst.0].opcode()
    }

    /// The number of value operands of the instruction `inst`.
    pub fn num_inst_args(&self, inst: Inst) -> (n: usize)
        requires
            self@.is_inst(inst),
        ensures
            n == self@.inst(inst).args.len(),
    {
        self.insts[inst.0].num_args()
    }

    /// The value operand of `inst` at `index`.
    pub fn inst_arg(&self, inst: Inst, index: usize) -> (v: Value)
        requires
            self@.is_inst(inst),
            index < self@.inst(inst).args.len(),
        ensures
            v == self@.inst(inst).args[index as int],
    {
        self.insts[inst.0].arg(index)
    }

    /// The results of the instruction `inst`.
    pub fn inst_results(&self, inst: Inst) -> (results: &Vec<Value>)
        requires
            self@.wf(),
            self@.is_inst(inst),
        ensures
            results@ == self@.inst_results(inst),
    {
        &self.results[inst.0]
    }

    /// The first result of the instruction `inst`, which has a result.
    pub fn first_result(&self, inst: Inst) -> (v: Value)
        requires
            self@.wf(),
            self@.is_inst(inst),
            self@.inst_results(inst).len() > 0,
        ensures
            v == self@.inst_results(inst)[0],
    {
        self.results[inst.0][0]
    }

    /// Replace the value operand of `inst` at `index` by `value`.
    pub fn set_inst_arg(&mut self, inst: Inst, index: usize, value: Value)
        requires
            old(self)@.wf(),
            old(self)@.is_inst(inst),
            index < old(self)@.inst(inst).args.len(),
            old(self)@.is_value(value),
        ensures
            final(self)@ == old(self)@.set_inst_args(
                inst,
                old(self)@.inst(inst).args.update(index as int, value),
            ),
            final(self)@.wf(),
            old(self)@.settled() ==> final(self)@.settled(),
    {
        self.insts[inst.0].set_arg(index, value);
        proof {
            let args = old(self)@.inst(inst).args.update(index as int, value);
            assert(self@ =~~= old(self)@.set_inst_args(inst, args));
            assert(old(self)@.inst_wf(inst));
            old(self)@.lemma_set_inst_args_wf(inst, args);
        }
    }

    /// Take the list of value operands out of the branch `inst`, which is
    /// left with an empty list until `put_value_list` gives it one. An
    /// instruction of another format has no such list.
    pub fn take_value_list(&mut self, inst: Inst) -> (list: Option<Vec<Value>>)
        requires
            old(self)@.wf(),
            old(self)@.is_inst(inst),
        ensures
            old(self)@.inst(inst).format == InstructionFormat::Branch ==> list is Some && list->0@
                == old(self)@.inst(inst).args && final(self)@ == old(self)@.set_inst_args(
                inst,
                Seq::empty(),
            ),
            old(self)@.inst(inst).format != InstructionFormat::Branch ==> list is None
                && final(self)@ == old(self)@,
            final(self)@.wf(),
            old(self)@.settled() ==> final(self)@.settled(),
    {
        let list = self.insts[inst.0].take_value_list();
        proof {
            if old(self)@.inst(inst).format == InstructionFormat::Branch {
                assert(self@ =~~= old(self)@.set_inst_args(inst, Seq::empty()));
                old(self)@.lemma_set_inst_args_wf(inst, Seq::empty());
            } else {
                assert(self@ =~~= old(self)@);
            }
        }
        list
    }

    /// Give the branch `inst`, whose list of value operands was taken, the
    /// list `list`.
    pub fn put_value_list(&mut self, inst: Inst, list: Vec<Value>)
        requires
            old(self)@.wf(),
            old(self)@.is_inst(inst),
            old(self)@.inst(inst).format == InstructionFormat::Branch,
            old(self)@.inst(inst).args.len() == 0,
            forall|k: int| 0 <= k < list@.len() ==> old(self)@.is_value(#[trigger] list@[k]),
        ensures
            final(self)@ == old(self)@.set_inst_args(inst, list@),
            final(self)@.wf(),
            old(self)@.settled() ==> final(self)@.settled(),
    {
        let ghost args = list@;
        self.insts[inst.0].put_value_list(list);
        proof {
            assert(self@ =~~= old(self)@.set_inst_args(inst, args));
            old(self)@.lemma_set_inst_args_wf(inst, args);
        }
    }
}

} // verus!
