use vstd::prelude::*;
use std::collections::HashMap;
use crate::bytecode::{ByteCode, ConstValue, Expression, Identifier, TypeTag, Value};
use crate::object::{ClassId, TaggedValue, literal_value};
use crate::types::ResultId;

verus! {

broadcast use vstd::std_specs::hash::group_hash_axioms;

/// Why a program cannot be compiled.
#[derive(Debug, Clone, Copy, PartialEq, Eq, Structural)]
pub enum ProgramError {
    /// A local was read before anything was assigned to it.
    UnboundIdentifier(Identifier),
    /// An operation was applied to values of tags it does not accept.
    TypeMismatch,
    /// An assignment to the reserved identifier zero.
    ReservedIdentifier,
    /// A program without instructions has no result.
    EmptyProgram,
}

/// Native 64-bit addition, which wraps around.
pub open spec fn native_add(a: u64, b: u64) -> u64 {
    if a + b > u64::MAX {
        (a + b - 0x1_0000_0000_0000_0000) as u64
    } else {
        (a + b) as u64
    }
}

/// Bindings of identifiers to values.
pub type Scope = Map<u32, TaggedValue>;

/// The sum of two values: both must be `U64`.
pub open spec fn sum_of(a: TaggedValue, b: TaggedValue) -> Result<TaggedValue, ProgramError> {
    if a.tag == TypeTag::U64 && b.tag == TypeTag::U64 {
        Ok(TaggedValue { tag: TypeTag::U64, class_id: ClassId(0), raw: native_add(a.raw, b.raw) })
    } else {
        Err(ProgramError::TypeMismatch)
    }
}

/// What an operand evaluates to, and the scope after it.
pub open spec fn eval_value(v: Value, scope: Scope) -> Result<(TaggedValue, Scope), ProgramError>
    decreases v,
{
    match v {
        Value::Literal(c) => Ok((literal_value(c), scope)),
        Value::Local(id) => if scope.contains_key(id.0) {
            Ok((scope[id.0], scope))
        } else {
            Err(ProgramError::UnboundIdentifier(id))
        },
        Value::Computed(e) => eval_expression(*e, scope),
    }
}

/// What an expression evaluates to, and the scope after it. An assignment yields the
/// assigned value; an addition evaluates its left operand first.
pub open spec fn eval_expression(e: Expression, scope: Scope) -> Result<
    (TaggedValue, Scope),
    ProgramError,
>
    decreases e,
{
    match e {
        Expression::Assignment(id, v) => if id.0 == 0 {
            Err(ProgramError::ReservedIdentifier)
        } else {
            match eval_value(v, scope) {
                Ok((x, s)) => Ok((x, s.insert(id.0, x))),
                Err(err) => Err(err),
            }
        },
        Expression::Add(l, r) => match eval_value(l, scope) {
            Err(err) => Err(err),
            Ok((a, s1)) => match eval_value(r, s1) {
                Err(err) => Err(err),
                Ok((b, s2)) => match sum_of(a, b) {
                    Ok(x) => Ok((x, s2)),
                    Err(err) => Err(err),
                },
            },
        },
    }
}

/// The state after the first `n` instructions: the last result, if any, and the scope.
pub open spec fn eval_prefix(instructions: Seq<Expression>, n: nat) -> Result<
    (Option<TaggedValue>, Scope),
    ProgramError,
>
    decreases n,
{
    if n == 0 {
        Ok((None, Map::empty()))
    } else {
        match eval_prefix(instructions, (n - 1) as nat) {
            Err(err) => Err(err),
            Ok((_, s)) => match eval_expression(instructions[n - 1], s) {
                Ok((x, s2)) => Ok((Some(x), s2)),
                Err(err) => Err(err),
            },
        }
    }
}

/// After `id <- v`, reading `id` gives the value that `v` evaluated to, and the
/// assignment itself yields that value.
pub proof fn lemma_assignment_binds(id: Identifier, v: Value, scope: Scope)
    requires
        id.0 != 0,
        eval_value(v, scope) is Ok,
    ensures
        ({
            let (x, s) = eval_value(v, scope)->Ok_0;
            let assigned = eval_expression(Expression::Assignment(id, v), scope);
            &&& assigned == Ok::<(TaggedValue, Scope), ProgramError>((x, s.insert(id.0, x)))
            &&& eval_value(Value::Local(id), s.insert(id.0, x)) == Ok::<
                (TaggedValue, Scope),
                ProgramError,
            >((x, s.insert(id.0, x)))
        }),
{
}

/// Reading an identifier that the scope does not bind fails with `UnboundIdentifier`.
pub proof fn lemma_unbound_lookup(id: Identifier, scope: Scope)
    requires
        !scope.contains_key(id.0),
    ensures
        eval_value(Value::Local(id), scope) == Err::<(TaggedValue, Scope), ProgramError>(
            ProgramError::UnboundIdentifier(id),
        ),
{
}

/// A program's scope binds only identifiers that one of its instructions assigns:
/// an identifier that no instruction assigns stays unbound after every prefix.
pub proof fn lemma_never_assigned_unbound(instructions: Seq<Expression>, n: nat, id: u32)
    requires
        n <= instructions.len(),
        forall|k: int| 0 <= k < n ==> !assigns(#[trigger] instructions[k], id),
        eval_prefix(instructions, n) is Ok,
    ensures
        !eval_prefix(instructions, n)->Ok_0.1.contains_key(id),
    decreases n,
{
    if n > 0 {
        lemma_never_assigned_unbound(instructions, (n - 1) as nat, id);
        let s = eval_prefix(instructions, (n - 1) as nat)->Ok_0.1;
        lemma_expression_binds_only_assigned(instructions[n - 1], s, id);
    }
}

/// Whether an expression assigns `id` anywhere inside it.
pub open spec fn assigns(e: Expression, id: u32) -> bool
    decreases e,
{
    match e {
        Expression::Assignment(b, v) => b.0 == id || value_assigns(v, id),
        Expression::Add(l, r) => value_assigns(l, id) || value_assigns(r, id),
    }
}

pub open spec fn value_assigns(v: Value, id: u32) -> bool
    decreases v,
{
    match v {
        Value::Computed(e) => assigns(*e, id),
        _ => false,
    }
}

proof fn lemma_expression_binds_only_assigned(e: Expression, s: Scope, id: u32)
    requires
        !assigns(e, id),
        !s.contains_key(id),
        eval_expression(e, s) is Ok,
    ensures
        !eval_expression(e, s)->Ok_0.1.contains_key(id),
    decreases e,
{
    match e {
        Expression::Assignment(b, v) => {
            lemma_value_binds_only_assigned(v, s, id);
        },
        Expression::Add(l, r) => {
            lemma_value_binds_only_assigned(l, s, id);
            let s1 = eval_value(l, s)->Ok_0.1;
            lemma_value_binds_only_assigned(r, s1, id);
        },
    }
}

proof fn lemma_value_binds_only_assigned(v: Value, s: Scope, id: u32)
    requires
        !value_assigns(v, id),
        !s.contains_key(id),
        eval_value(v, s) is Ok,
    ensures
        !eval_value(v, s)->Ok_0.1.contains_key(id),
    decreases v,
{
    match v {
        Value::Computed(e) => {
            lemma_expression_binds_only_assigned(*e, s, id);
        },
        _ => {},
    }
}

/// Once an instruction fails, the program fails with that error.
pub proof fn lemma_prefix_error(instructions: Seq<Expression>, m: nat, n: nat)
    requires
        m <= n,
        eval_prefix(instructions, m) is Err,
    ensures
        eval_prefix(instructions, n) == eval_prefix(instructions, m),
    decreases n,
{
    if m < n {
        lemma_prefix_error(instructions, m, (n - 1) as nat);
    }
}

/// A program's result: the value of its last instruction.
pub open spec fn program_result(instructions: Seq<Expression>) -> Result<TaggedValue, ProgramError> {
    match eval_prefix(instructions, instructions.len()) {
        Ok((Some(x), _)) => Ok(x),
        Ok((None, _)) => Err(ProgramError::EmptyProgram),
        Err(err) => Err(err),
    }
}

/// One generated instruction; instruction `i` defines result `i`.
#[derive(Debug, Clone, Copy, PartialEq, Eq, Structural)]
pub enum Instruction {
    /// Allocates a value and sets all its fields; the payload is a constant or an
    /// earlier integer result.
    MakeValue { tag: TypeTag, class_id: ClassId, raw: crate::types::Value },
    /// Loads the payload of an earlier value.
    LoadRaw(ResultId),
    /// Adds two earlier integer results.
    IntAdd(ResultId, ResultId),
}

/// What an instruction computed when the generated code ran.
#[derive(Debug, Clone, Copy, PartialEq, Eq, Structural)]
pub enum Slot {
    Record(TaggedValue),
    Int(u64),
    /// An instruction whose operands were not of the kind it reads.
    Invalid,
}

/// What one instruction computes from the results before it.
pub open spec fn step(slots: Seq<Slot>, i: Instruction) -> Slot {
    match i {
        Instruction::MakeValue { tag, class_id, raw } => match raw {
            crate::types::Value::Const(ConstValue::U64(c)) => Slot::Record(
                TaggedValue { tag, class_id, raw: c },
            ),
            crate::types::Value::Opaque(r) => if r.0 < slots.len() && slots[r.0 as int] is Int {
                Slot::Record(TaggedValue { tag, class_id, raw: slots[r.0 as int]->Int_0 })
            } else {
                Slot::Invalid
            },
        },
        Instruction::LoadRaw(r) => if r.0 < slots.len() && slots[r.0 as int] is Record {
            Slot::Int(slots[r.0 as int]->Record_0.raw)
        } else {
            Slot::Invalid
        },
        Instruction::IntAdd(a, b) => if a.0 < slots.len() && b.0 < slots.len()
            && slots[a.0 as int] is Int && slots[b.0 as int] is Int {
            Slot::Int(native_add(slots[a.0 as int]->Int_0, slots[b.0 as int]->Int_0))
        } else {
            Slot::Invalid
        },
    }
}

/// What every instruction computes, run in order.
pub open spec fn run(instructions: Seq<Instruction>) -> Seq<Slot>
    decreases instructions.len(),
{
    if instructions.len() == 0 {
        Seq::empty()
    } else {
        let prev = run(instructions.drop_last());
        prev.push(step(prev, instructions.last()))
    }
}

pub proof fn lemma_run_len(instructions: Seq<Instruction>)
    ensures
        run(instructions).len() == instructions.len(),
    decreases instructions.len(),
{
    if instructions.len() > 0 {
        lemma_run_len(instructions.drop_last());
    }
}

pub proof fn lemma_run_push(instructions: Seq<Instruction>, i: Instruction)
    ensures
        run(instructions.push(i)) == run(instructions).push(step(run(instructions), i)),
{
    assert(instructions.push(i).drop_last() =~= instructions);
}

/// Appending instructions does not change what the earlier ones compute.
pub proof fn lemma_run_prefix(a: Seq<Instruction>, b: Seq<Instruction>, k: int)
    requires
        a.len() <= b.len(),
        b.subrange(0, a.len() as int) == a,
        0 <= k < a.len(),
    ensures
        run(b)[k] == run(a)[k],
    decreases b.len(),
{
    if b.len() > a.len() {
        let c = b.drop_last();
        assert(c.subrange(0, a.len() as int) =~= a);
        lemma_run_prefix(a, c, k);
        lemma_run_len(c);
    } else {
        assert(b =~= a);
    }
}

/// Result `rid` of the instructions is a value record holding `v`, made with `v`'s tag.
pub open spec fn holds(instructions: Seq<Instruction>, rid: usize, v: TaggedValue) -> bool {
    &&& rid < instructions.len()
    &&& run(instructions)[rid as int] == Slot::Record(v)
    &&& instructions[rid as int] matches Instruction::MakeValue { tag, .. } && tag == v.tag
}

proof fn lemma_holds_extend(a: Seq<Instruction>, b: Seq<Instruction>, rid: usize, v: TaggedValue)
    requires
        holds(a, rid, v),
        a.len() <= b.len(),
        b.subrange(0, a.len() as int) == a,
    ensures
        holds(b, rid, v),
{
    lemma_run_prefix(a, b, rid as int);
    assert(b[rid as int] == b.subrange(0, a.len() as int)[rid as int]);
}

/// Whether an instruction gives an integer rather than a value.
pub open spec fn gives_int(i: Instruction) -> bool {
    i is LoadRaw || i is IntAdd
}

/// The operands of instruction `k` are earlier results of the kind it reads.
pub open spec fn operands_ok(instructions: Seq<Instruction>, k: int) -> bool {
    match instructions[k] {
        Instruction::MakeValue { raw, .. } => match raw {
            crate::types::Value::Opaque(r) => r.0 < k && gives_int(instructions[r.0 as int]),
            crate::types::Value::Const(_) => true,
        },
        Instruction::LoadRaw(r) => r.0 < k && instructions[r.0 as int] is MakeValue,
        Instruction::IntAdd(a, b) => a.0 < k && b.0 < k && gives_int(instructions[a.0 as int])
            && gives_int(instructions[b.0 as int]),
    }
}

pub open spec fn instructions_ok(instructions: Seq<Instruction>) -> bool {
    forall|k: int| 0 <= k < instructions.len() ==> #[trigger] operands_ok(instructions, k)
}

/// Every operand refers back to a result of the right kind, and the result is a value.
pub open spec fn well_formed(instructions: Seq<Instruction>, result: ResultId) -> bool {
    &&& instructions_ok(instructions)
    &&& result.0 < instructions.len()
    &&& instructions[result.0 as int] is MakeValue
}

proof fn lemma_instructions_ok_push(instructions: Seq<Instruction>, i: Instruction)
    requires
        instructions_ok(instructions),
        operands_ok(instructions.push(i), instructions.len() as int),
    ensures
        instructions_ok(instructions.push(i)),
{
    let n = instructions.push(i);
    assert forall|k: int| 0 <= k < n.len() implies #[trigger] operands_ok(n, k) by {
        if k < instructions.len() {
            assert(operands_ok(instructions, k));
            assert(n[k] == instructions[k]);
        }
    }
}

/// Generated code: instructions and the result that the entry point returns the payload of.
#[derive(Debug)]
pub struct Program {
    pub instructions: Vec<Instruction>,
    pub result: ResultId,
}

/// The payload that a program returns when it runs, if its result is a value.
pub open spec fn program_output(instructions: Seq<Instruction>, result: ResultId) -> Option<u64> {
    if result.0 < instructions.len() && run(instructions)[result.0 as int] is Record {
        Some(run(instructions)[result.0 as int]->Record_0.raw)
    } else {
        None
    }
}

fn exec_step(slots: &Vec<Slot>, i: Instruction) -> (r: Slot)
    ensures
        r == step(slots@, i),
{
    match i {
        Instruction::MakeValue { tag, class_id, raw } => match raw {
            crate::types::Value::Const(ConstValue::U64(c)) => Slot::Record(
                TaggedValue { tag, class_id, raw: c },
            ),
            crate::types::Value::Opaque(r) => if r.0 < slots.len() {
                match slots[r.0] {
                    Slot::Int(x) => Slot::Record(TaggedValue { tag, class_id, raw: x }),
                    _ => Slot::Invalid,
                }
            } else {
                Slot::Invalid
            },
        },
        Instruction::LoadRaw(r) => if r.0 < slots.len() {
            match slots[r.0] {
                Slot::Record(v) => Slot::Int(v.raw),
                _ => Slot::Invalid,
            }
        } else {
            Slot::Invalid
        },
        Instruction::IntAdd(a, b) => if a.0 < slots.len() && b.0 < slots.len() {
            match (slots[a.0], slots[b.0]) {
                (Slot::Int(x), Slot::Int(y)) => Slot::Int(x.wrapping_add(y)),
                _ => Slot::Invalid,
            }
        } else {
            Slot::Invalid
        },
    }
}

fn gives_int_exec(i: Instruction) -> (r: bool)
    ensures
        r == gives_int(i),
{
    match i {
        Instruction::MakeValue { .. } => false,
        _ => true,
    }
}

fn operands_ok_exec(instructions: &Vec<Instruction>, k: usize) -> (r: bool)
    requires
        k < instructions@.len(),
    ensures
        r == operands_ok(instructions@, k as int),
{
    match instructions[k] {
        Instruction::MakeValue { raw, .. } => match raw {
            crate::types::Value::Opaque(r) => r.0 < k && gives_int_exec(instructions[r.0]),
            crate::types::Value::Const(_) => true,
        },
        Instruction::LoadRaw(r) => r.0 < k && !gives_int_exec(instructions[r.0]),
        Instruction::IntAdd(a, b) => a.0 < k && b.0 < k && gives_int_exec(instructions[a.0])
            && gives_int_exec(instructions[b.0]),
    }
}

impl Program {
    /// Whether every operand names an earlier result of the kind its instruction reads, and
    /// the result is a value.
    pub fn is_well_formed(&self) -> (r: bool)
        ensures
            r == well_formed(self.instructions@, self.result),
    {
        let mut k: usize = 0;
        while k < self.instructions.len()
            invariant
                k <= self.instructions@.len(),
                forall|j: int| 0 <= j < k ==> #[trigger] operands_ok(self.instructions@, j),
            decreases self.instructions@.len() - k,
        {
            if !operands_ok_exec(&self.instructions, k) {
                return false;
            }
            k = k + 1;
        }
        self.result.0 < self.instructions.len() && !gives_int_exec(self.instructions[self.result.0])
    }

    /// Runs the instructions in order and gives what each computed.
    pub fn run_instructions(&self) -> (r: Vec<Slot>)
        ensures
            r@ == run(self.instructions@),
    {
        let mut slots: Vec<Slot> = Vec::new();
        let mut i: usize = 0;
        while i < self.instructions.len()
            invariant
                i <= self.instructions@.len(),
                slots@ == run(self.instructions@.subrange(0, i as int)),
            decreases self.instructions@.len() - i,
        {
            let s = exec_step(&slots, self.instructions[i]);
            proof {
                let pre = self.instructions@.subrange(0, i as int);
                assert(self.instructions@.subrange(0, i + 1) =~= pre.push(self.instructions@[i as int]));
                lemma_run_push(pre, self.instructions@[i as int]);
            }
            slots.push(s);
            i = i + 1;
        }
        assert(self.instructions@.subrange(0, i as int) =~= self.instructions@);
        slots
    }

    /// Runs the program and gives the payload of its result.
    pub fn evaluate(&self) -> (r: Option<u64>)
        ensures
            r == program_output(self.instructions@, self.result),
    {
        let slots = self.run_instructions();
        proof {
            lemma_run_len(self.instructions@);
        }
        if self.result.0 < slots.len() {
            match slots[self.result.0] {
                Slot::Record(v) => Some(v.raw),
                _ => None,
            }
        } else {
            None
        }
    }
}

/// Lowers expressions into instructions, tracking which result holds each binding.
pub struct CodeGen {
    scope: HashMap<u32, usize>,
    instructions: Vec<Instruction>,
}

impl CodeGen {
    /// The generator's bindings stand for the scope `s`: the same identifiers are bound,
    /// each to a result that holds its value.
    pub closed spec fn models(&self, s: Scope) -> bool {
        &&& instructions_ok(self.instructions@)
        &&& forall|id: u32| #[trigger] self.scope@.contains_key(id) <==> s.contains_key(id)
        &&& forall|id: u32|
            s.contains_key(id) ==> holds(self.instructions@, #[trigger] self.scope@[id], s[id])
    }

    closed spec fn extends(&self, earlier: &CodeGen) -> bool {
        &&& earlier.instructions@.len() <= self.instructions@.len()
        &&& self.instructions@.subrange(0, earlier.instructions@.len() as int)
            == earlier.instructions@
    }

    pub fn new() -> (r: Self)
        ensures
            r.models(Map::empty()),
    {
        CodeGen { scope: HashMap::new(), instructions: Vec::new() }
    }

    fn emit(&mut self, i: Instruction) -> (r: usize)
        ensures
            instructions_ok(old(self).instructions@) && operands_ok(
                old(self).instructions@.push(i),
                old(self).instructions@.len() as int,
            ) ==> instructions_ok(final(self).instructions@),
            final(self).instructions@ == old(self).instructions@.push(i),
            final(self).scope@ == old(self).scope@,
            r == old(self).instructions@.len(),
            final(self).extends(&*old(self)),
    {
        let r = self.instructions.len();
        proof {
            if instructions_ok(self.instructions@) && operands_ok(
                self.instructions@.push(i),
                self.instructions@.len() as int,
            ) {
                lemma_instructions_ok_push(self.instructions@, i);
            }
        }
        self.instructions.push(i);
        assert(self.instructions@.subrange(0, r as int) =~= old(self).instructions@);
        r
    }

    proof fn lemma_models_extend(&self, earlier: &CodeGen, s: Scope)
        requires
            earlier.models(s),
            instructions_ok(self.instructions@),
            self.extends(earlier),
            self.scope@ == earlier.scope@,
        ensures
            self.models(s),
    {
        assert forall|id: u32| s.contains_key(id) implies holds(
            self.instructions@,
            #[trigger] self.scope@[id],
            s[id],
        ) by {
            lemma_holds_extend(earlier.instructions@, self.instructions@, earlier.scope@[id], s[id]);
        }
    }

    /// The tag of a value made by an earlier instruction.
    fn static_tag(&self, rid: usize) -> (r: Option<TypeTag>)
        ensures
            rid < self.instructions@.len() ==> (self.instructions@[rid as int] matches Instruction::MakeValue { tag, .. } ==> r == Some(tag)),
    {
        if rid < self.instructions.len() {
            match self.instructions[rid] {
                Instruction::MakeValue { tag, .. } => Some(tag),
                _ => None,
            }
        } else {
            None
        }
    }

    /// Lowers an operand: a literal becomes a new value, a local is the result bound to it,
    /// a nested expression is lowered in place.
    fn build_value(&mut self, value: Value, Ghost(s): Ghost<Scope>) -> (r: Result<usize, ProgramError>)
        requires
            old(self).models(s),
        ensures
            match eval_value(value, s) {
                Ok((x, s2)) => r matches Ok(rid) && final(self).models(s2) && holds(
                    final(self).instructions@,
                    rid,
                    x,
                ) && final(self).extends(&*old(self)),
                Err(err) => r == Err::<usize, ProgramError>(err),
            },
        decreases value,
    {
        match value {
            Value::Literal(c) => {
                let ghost before = *self;
                let rid = self.emit(
                    Instruction::MakeValue {
                        tag: TypeTag::U64,
                        class_id: ClassId(0),
                        raw: crate::types::Value::Const(c),
                    },
                );
                proof {
                    self.lemma_models_extend(&before, s);
                    lemma_run_push(before.instructions@, self.instructions@.last());
                    lemma_run_len(before.instructions@);
                }
                Ok(rid)
            },
            Value::Local(id) => {
                match self.scope.get(&id.0) {
                    Some(rid) => {
                        assert(self.extends(&*old(self))) by {
                            assert(self.instructions@.subrange(0, self.instructions@.len() as int)
                                =~= self.instructions@);
                        }
                        Ok(*rid)
                    },
                    None => Err(ProgramError::UnboundIdentifier(id)),
                }
            },
            Value::Computed(e) => self.build_expression(*e, Ghost(s)),
        }
    }

    /// Lowers an expression. An assignment binds the result of its operand; an addition
    /// checks that both operands are `U64`, loads their payloads, adds them and makes a
    /// new `U64` value of the sum.
    fn build_expression(&mut self, expression: Expression, Ghost(s): Ghost<Scope>) -> (r: Result<
        usize,
        ProgramError,
    >)
        requires
            old(self).models(s),
        ensures
            match eval_expression(expression, s) {
                Ok((x, s2)) => r matches Ok(rid) && final(self).models(s2) && holds(
                    final(self).instructions@,
                    rid,
                    x,
                ) && final(self).extends(&*old(self)),
                Err(err) => r == Err::<usize, ProgramError>(err),
            },
        decreases expression,
    {
        match expression {
            Expression::Assignment(binding, value) => {
                if binding.0 == 0 {
                    return Err(ProgramError::ReservedIdentifier);
                }
                let rid = self.build_value(value, Ghost(s));
                match rid {
                    Ok(rid) => {
                        let ghost x = eval_value(value, s)->Ok_0.0;
                        let ghost s2 = eval_value(value, s)->Ok_0.1;
                        let ghost before = *self;
                        self.scope.insert(binding.0, rid);
                        proof {
                            assert(self.instructions@ == before.instructions@);
                            assert(self.instructions@.subrange(0, self.instructions@.len() as int)
                                =~= self.instructions@);
                            let s3 = s2.insert(binding.0, x);
                            assert forall|id: u32| s3.contains_key(id) implies holds(
                                self.instructions@,
                                #[trigger] self.scope@[id],
                                s3[id],
                            ) by {
                                if id != binding.0 {
                                    assert(s2.contains_key(id));
                                }
                            }
                            lemma_extends_trans_gen(self, &before, &*old(self));
                        }
                        Ok(rid)
                    },
                    Err(err) => Err(err),
                }
            },
            Expression::Add(left, right) => {
                let a = self.build_value(left, Ghost(s));
                let a = match a {
                    Ok(a) => a,
                    Err(err) => {
                        return Err(err);
                    },
                };
                let ghost x = eval_value(left, s)->Ok_0.0;
                let ghost s1 = eval_value(left, s)->Ok_0.1;
                let ghost after_left = *self;
                let b = self.build_value(right, Ghost(s1));
                let b = match b {
                    Ok(b) => b,
                    Err(err) => {
                        return Err(err);
                    },
                };
                let ghost y = eval_value(right, s1)->Ok_0.0;
                let ghost s2 = eval_value(right, s1)->Ok_0.1;
                proof {
                    lemma_holds_extend(after_left.instructions@, self.instructions@, a, x);
                }
                let ta = self.static_tag(a);
                let tb = self.static_tag(b);
                match (ta, tb) {
                    (Some(TypeTag::U64), Some(TypeTag::U64)) => {},
                    _ => {
                        return Err(ProgramError::TypeMismatch);
                    },
                }
                let ghost after_right = *self;
                let la = self.emit(Instruction::LoadRaw(ResultId(a)));
                let ghost g1 = *self;
                let lb = self.emit(Instruction::LoadRaw(ResultId(b)));
                let ghost g2 = *self;
                let sum = self.emit(Instruction::IntAdd(ResultId(la), ResultId(lb)));
                let ghost g3 = *self;
                let rid = self.emit(
                    Instruction::MakeValue {
                        tag: TypeTag::U64,
                        class_id: ClassId(0),
                        raw: crate::types::Value::Opaque(ResultId(sum)),
                    },
                );
                proof {
                    lemma_run_len(after_right.instructions@);
                    lemma_run_len(g1.instructions@);
                    lemma_run_len(g2.instructions@);
                    lemma_run_len(g3.instructions@);
                    lemma_run_push(after_right.instructions@, g1.instructions@.last());
                    lemma_run_push(g1.instructions@, g2.instructions@.last());
                    lemma_run_push(g2.instructions@, g3.instructions@.last());
                    lemma_run_push(g3.instructions@, self.instructions@.last());
                    lemma_run_prefix(after_right.instructions@, g1.instructions@, a as int);
                    lemma_run_prefix(after_right.instructions@, g1.instructions@, b as int);
                    lemma_run_prefix(g1.instructions@, g2.instructions@, b as int);
                    lemma_run_prefix(g1.instructions@, g2.instructions@, la as int);
                    lemma_run_prefix(g2.instructions@, g3.instructions@, la as int);
                    lemma_run_prefix(g2.instructions@, g3.instructions@, lb as int);
                    lemma_extends_trans_gen(&g2, &g1, &after_right);
                    lemma_extends_trans_gen(&g3, &g2, &after_right);
                    lemma_extends_trans_gen(self, &g3, &after_right);
                    self.lemma_models_extend(&after_right, s2);
                    lemma_extends_trans_gen(&after_right, &after_left, &*old(self));
                    lemma_extends_trans_gen(self, &after_right, &*old(self));
                    assert(run(self.instructions@)[rid as int] == Slot::Record(
                        sum_of(x, y)->Ok_0,
                    ));
                }
                Ok(rid)
            },
        }
    }

    /// Lowers a whole program; the result is that of its last instruction.
    pub fn generate(self, bytecode: ByteCode) -> (r: Result<Program, ProgramError>)
        ensures
            match program_result(bytecode.instructions@) {
                Ok(x) => r matches Ok(p) && program_output(p.instructions@, p.result) == Some(
                    x.raw,
                ) && run(p.instructions@)[p.result.0 as int] == Slot::Record(x) && well_formed(
                    p.instructions@,
                    p.result,
                ),
                Err(err) => r matches Err(e) && e == err,
            },
    {
        let mut gen = CodeGen::new();
        let ghost program = bytecode.instructions@;
        let mut remaining = bytecode.instructions;
        let mut result: Option<usize> = None;
        let mut k: usize = 0;
        let n = remaining.len();
        while remaining.len() > 0
            invariant
                program == bytecode.instructions@,
                n == program.len(),
                k <= n,
                remaining@ == program.subrange(k as int, n as int),
                eval_prefix(program, k as nat) matches Ok((last, s)) && gen.models(s) && match last {
                    Some(x) => result matches Some(rid) && holds(gen.instructions@, rid, x),
                    None => result is None,
                },
            decreases remaining@.len(),
        {
            let ghost s = eval_prefix(program, k as nat)->Ok_0.1;
            let instruction = remaining.remove(0);
            assert(instruction == program[k as int]);
            let r = gen.build_expression(instruction, Ghost(s));
            match r {
                Ok(rid) => {
                    result = Some(rid);
                },
                Err(err) => {
                    proof {
                        assert(k < n);
                        assert(eval_expression(program[k as int], s) is Err);
                        assert(eval_prefix(program, (k + 1) as nat) == Err::<
                            (Option<TaggedValue>, Scope),
                            ProgramError,
                        >(err));
                        lemma_prefix_error(program, (k + 1) as nat, n as nat);
                    }
                    return Err(err);
                },
            }
            k = k + 1;
            assert(remaining@ =~= program.subrange(k as int, n as int));
        }
        assert(k == n);
        match result {
            Some(rid) => {
                proof {
                    lemma_run_len(gen.instructions@);
                }
                Ok(Program { instructions: gen.instructions, result: ResultId(rid) })
            },
            None => Err(ProgramError::EmptyProgram),
        }
    }

    /// Compiles the program and evaluates the generated instructions with `run`: gives the
    /// payload of the program's result under that model of the instructions.
    pub fn execute(self, bytecode: ByteCode) -> (r: Result<u64, ProgramError>)
        ensures
            match program_result(bytecode.instructions@) {
                Ok(x) => r == Ok::<u64, ProgramError>(x.raw),
                Err(err) => r == Err::<u64, ProgramError>(err),
            },
    {
        match self.generate(bytecode) {
            Ok(program) => match program.evaluate() {
                Some(raw) => Ok(raw),
                None => {
                    proof {
                        assert(false);
                    }
                    Err(ProgramError::EmptyProgram)
                },
            },
            Err(err) => Err(err),
        }
    }
}

proof fn lemma_extends_trans_gen(a: &CodeGen, b: &CodeGen, c: &CodeGen)
    requires
        a.extends(b),
        b.extends(c),
    ensures
        a.extends(c),
{
    assert(a.instructions@.subrange(0, c.instructions@.len() as int)
        =~= b.instructions@.subrange(0, c.instructions@.len() as int));
}

} // verus!
