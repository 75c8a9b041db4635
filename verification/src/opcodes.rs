//! The opcode catalog and typed operands: the builtin opcode signatures, the
//! tagged operand union the validator produces, and the dispatch from an
//! opcode's mnemonic to its builtin meaning.

use vstd::prelude::*;
use crate::model::{ExprV, OpCodeV};
use crate::scan::ReadHead;
use crate::text::bytes_eq;

verus! {

/// Numeric sentinel the comparison opcodes bind for a true outcome.
pub const TRUE: i64 = 0;

/// Numeric sentinel the comparison opcodes bind for a false outcome.
pub const FALSE: i64 = 1;

/// Iteration budget of one counting loop; its exhaustion is a
/// `StackOverflow` error, so a loop that can never reach its bound still
/// terminates.
pub const LOOP_FUEL: u64 = 1000000;

/// A value operand: either a literal number, or the name of a register or
/// variable to resolve when the opcode executes.
#[derive(Debug, Clone)]
pub enum ProbableValue {
    Value(i64),
    Name(Vec<u8>),
}

/// A typed operand of an opcode invocation.  Catalog entries hold template
/// operands (whose payloads are ignored); validated invocations hold the
/// concrete resolved operands.
#[derive(Debug, Clone)]
pub enum ExpressionType {
    IntegerLiteral(i64),
    ProbableLiteral(ProbableValue),
    StringLiteral(Vec<u8>),
    /// Searched in the local scope first, then among the global registers.
    ContainerReference(Vec<u8>),
    RegisterReference(Vec<u8>),
    VariableReference(Vec<u8>),
    InstructionReference(Vec<u8>, Vec<Vec<u8>>),
}

impl View for ExpressionType {
    type V = ExprV;

    open spec fn view(&self) -> ExprV {
        match self {
            ExpressionType::IntegerLiteral(v) => ExprV::IntegerLiteral(*v),
            ExpressionType::ProbableLiteral(p) => match p {
                ProbableValue::Value(v) => ExprV::ProbableValue(*v),
                ProbableValue::Name(n) => ExprV::ProbableName(n@),
            },
            ExpressionType::StringLiteral(s) => ExprV::StringLiteral(s@),
            ExpressionType::ContainerReference(s) => ExprV::ContainerReference(s@),
            ExpressionType::RegisterReference(s) => ExprV::RegisterReference(s@),
            ExpressionType::VariableReference(s) => ExprV::VariableReference(s@),
            ExpressionType::InstructionReference(s, ps) => ExprV::InstructionReference(
                s@,
                ps.deep_view(),
            ),
        }
    }
}

impl DeepView for ExpressionType {
    type V = ExprV;

    open spec fn deep_view(&self) -> ExprV {
        self@
    }
}

/// The kind of an operand, as the catalog declares expectations.
pub ghost enum ArgKind {
    Value,
    Literal,
    Text,
    Container,
    RegRef,
    VarRef,
    InstRef,
}

/// The kind of a typed operand.
pub open spec fn arg_kind(e: ExprV) -> ArgKind {
    match e {
        ExprV::IntegerLiteral(_) => ArgKind::Literal,
        ExprV::ProbableValue(_) => ArgKind::Value,
        ExprV::ProbableName(_) => ArgKind::Value,
        ExprV::StringLiteral(_) => ArgKind::Text,
        ExprV::ContainerReference(_) => ArgKind::Container,
        ExprV::RegisterReference(_) => ArgKind::RegRef,
        ExprV::VariableReference(_) => ArgKind::VarRef,
        ExprV::InstructionReference(_, _) => ArgKind::InstRef,
    }
}

/// Human-readable kind name of an operand.
pub open spec fn expr_kind_name(e: ExprV) -> Seq<char> {
    match e {
        ExprV::IntegerLiteral(_) => "Integer Literal"@,
        ExprV::ProbableValue(_) => "Probable Integer (Variable, or Literal)"@,
        ExprV::ProbableName(_) => "Probable Integer (Variable, or Literal)"@,
        ExprV::StringLiteral(_) => "String Literal"@,
        ExprV::ContainerReference(_) => "Container Reference"@,
        ExprV::RegisterReference(_) => "Register Reference"@,
        ExprV::VariableReference(_) => "Variable Reference"@,
        ExprV::InstructionReference(_, _) => "Instruction Reference"@,
    }
}

impl ExpressionType {
    /// Human-readable name of this operand's kind, for diagnostics.
    pub fn name(&self) -> (r: String)
        ensures
            r@ == expr_kind_name(self@),
    {
        match self {
            ExpressionType::IntegerLiteral(_) => "Integer Literal".to_owned(),
            ExpressionType::ProbableLiteral(_) => "Probable Integer (Variable, or Literal)"
                .to_owned(),
            ExpressionType::StringLiteral(_) => "String Literal".to_owned(),
            ExpressionType::ContainerReference(_) => "Container Reference".to_owned(),
            ExpressionType::RegisterReference(_) => "Register Reference".to_owned(),
            ExpressionType::VariableReference(_) => "Variable Reference".to_owned(),
            ExpressionType::InstructionReference(_, _) => "Instruction Reference".to_owned(),
        }
    }
}

/// Template for a literal-number operand.
pub fn literal() -> (r: ExpressionType)
    ensures
        r@ == ExprV::IntegerLiteral(0),
{
    ExpressionType::IntegerLiteral(0)
}

/// Template for a literal-or-reference value operand.
pub fn prob_literal() -> (r: ExpressionType)
    ensures
        r@ == ExprV::ProbableValue(FALSE),
{
    ExpressionType::ProbableLiteral(ProbableValue::Value(FALSE))
}

/// Template for a container-reference operand.
pub fn container() -> (r: ExpressionType)
    ensures
        r@ == ExprV::ContainerReference(Seq::empty()),
{
    ExpressionType::ContainerReference(Vec::new())
}

/// Template for a global-register-reference operand.
pub fn register() -> (r: ExpressionType)
    ensures
        r@ == ExprV::RegisterReference(Seq::empty()),
{
    ExpressionType::RegisterReference(Vec::new())
}

/// Template for a local-variable-reference operand.
pub fn variable() -> (r: ExpressionType)
    ensures
        r@ == ExprV::VariableReference(Seq::empty()),
{
    ExpressionType::VariableReference(Vec::new())
}

/// Template for a string-literal operand.
pub fn s_literal() -> (r: ExpressionType)
    ensures
        r@ == ExprV::StringLiteral(Seq::empty()),
{
    ExpressionType::StringLiteral(Vec::new())
}

/// Template for an instruction-reference operand.
pub fn inst_ref() -> (r: ExpressionType)
    ensures
        r@ == ExprV::InstructionReference(Seq::empty(), Seq::empty()),
{
    let r = ExpressionType::InstructionReference(Vec::new(), Vec::new());
    proof {
        if let ExpressionType::InstructionReference(_, ref ps) = r {
            assert(ps.deep_view() =~= Seq::<Seq<u8>>::empty());
        }
    }
    r
}

/// The builtin opcodes.
#[derive(Debug, Clone, Copy, PartialEq, Eq, Structural)]
pub enum OpKind {
    Move,
    Modulo,
    Greater,
    Less,
    Equal,
    GreaterEqual,
    LessEqual,
    Accumulate,
    Make,
    Show,
    ShowLine,
    Invoke,
    InvokeBind,
    Delete,
    Print,
    PrintLine,
    Negate,
    ForLoop,
    Branch,
    /// Not a builtin mnemonic.
    Unknown,
}

/// The mnemonic of each builtin opcode.
pub open spec fn op_name_of(k: OpKind) -> Seq<u8> {
    match k {
        OpKind::Move => seq![109u8, 111u8, 118u8],
        OpKind::Modulo => seq![109u8, 111u8, 100u8],
        OpKind::Greater => seq![103u8, 116u8],
        OpKind::Less => seq![108u8, 116u8],
        OpKind::Equal => seq![101u8, 113u8],
        OpKind::GreaterEqual => seq![103u8, 116u8, 101u8],
        OpKind::LessEqual => seq![108u8, 116u8, 101u8],
        OpKind::Accumulate => seq![97u8, 100u8, 100u8],
        OpKind::Make => seq![109u8, 97u8, 107u8],
        OpKind::Show => seq![100u8, 105u8, 115u8],
        OpKind::ShowLine => seq![100u8, 115u8, 108u8],
        OpKind::Invoke => seq![100u8, 111u8],
        OpKind::InvokeBind => seq![100u8, 111u8, 114u8],
        OpKind::Delete => seq![100u8, 101u8, 108u8],
        OpKind::Print => seq![112u8, 116u8],
        OpKind::PrintLine => seq![112u8, 116u8, 108u8],
        OpKind::Negate => seq![110u8, 101u8, 103u8],
        OpKind::ForLoop => seq![102u8, 111u8, 114u8],
        OpKind::Branch => seq![105u8, 102u8],
        OpKind::Unknown => Seq::empty(),
    }
}

/// The builtin opcode a mnemonic names, or `Unknown`.
pub open spec fn op_kind_of(name: Seq<u8>) -> OpKind {
    if name == op_name_of(OpKind::Move) {
        OpKind::Move
    } else if name == op_name_of(OpKind::Modulo) {
        OpKind::Modulo
    } else if name == op_name_of(OpKind::Greater) {
        OpKind::Greater
    } else if name == op_name_of(OpKind::Less) {
        OpKind::Less
    } else if name == op_name_of(OpKind::Equal) {
        OpKind::Equal
    } else if name == op_name_of(OpKind::GreaterEqual) {
        OpKind::GreaterEqual
    } else if name == op_name_of(OpKind::LessEqual) {
        OpKind::LessEqual
    } else if name == op_name_of(OpKind::Accumulate) {
        OpKind::Accumulate
    } else if name == op_name_of(OpKind::Make) {
        OpKind::Make
    } else if name == op_name_of(OpKind::Show) {
        OpKind::Show
    } else if name == op_name_of(OpKind::ShowLine) {
        OpKind::ShowLine
    } else if name == op_name_of(OpKind::Invoke) {
        OpKind::Invoke
    } else if name == op_name_of(OpKind::InvokeBind) {
        OpKind::InvokeBind
    } else if name == op_name_of(OpKind::Delete) {
        OpKind::Delete
    } else if name == op_name_of(OpKind::Print) {
        OpKind::Print
    } else if name == op_name_of(OpKind::PrintLine) {
        OpKind::PrintLine
    } else if name == op_name_of(OpKind::Negate) {
        OpKind::Negate
    } else if name == op_name_of(OpKind::ForLoop) {
        OpKind::ForLoop
    } else if name == op_name_of(OpKind::Branch) {
        OpKind::Branch
    } else {
        OpKind::Unknown
    }
}

/// The expected operand kinds of each builtin opcode, in order.
pub open spec fn kind_sig(k: OpKind) -> Seq<ArgKind> {
    match k {
        OpKind::Move => seq![ArgKind::Value, ArgKind::Container],
        OpKind::Modulo => seq![ArgKind::Value, ArgKind::Value, ArgKind::Text],
        OpKind::Greater => seq![ArgKind::Value, ArgKind::Value, ArgKind::Text],
        OpKind::Less => seq![ArgKind::Value, ArgKind::Value, ArgKind::Text],
        OpKind::Equal => seq![ArgKind::Value, ArgKind::Value, ArgKind::Text],
        OpKind::GreaterEqual => seq![ArgKind::Value, ArgKind::Value, ArgKind::Text],
        OpKind::LessEqual => seq![ArgKind::Value, ArgKind::Value, ArgKind::Text],
        OpKind::Accumulate => seq![ArgKind::Value, ArgKind::Container],
        OpKind::Make => seq![ArgKind::Text, ArgKind::Value],
        OpKind::Show => seq![ArgKind::Container],
        OpKind::ShowLine => seq![ArgKind::Container],
        OpKind::Invoke => seq![ArgKind::InstRef],
        OpKind::InvokeBind => seq![ArgKind::InstRef, ArgKind::Text],
        OpKind::Delete => seq![ArgKind::VarRef],
        OpKind::Print => seq![ArgKind::Text],
        OpKind::PrintLine => seq![ArgKind::Text],
        OpKind::Negate => seq![ArgKind::Container],
        OpKind::ForLoop => seq![
            ArgKind::Text,
            ArgKind::Literal,
            ArgKind::Literal,
            ArgKind::Literal,
            ArgKind::InstRef,
        ],
        OpKind::Branch => seq![ArgKind::InstRef, ArgKind::InstRef, ArgKind::InstRef],
        OpKind::Unknown => Seq::empty(),
    }
}

/// Dispatch a mnemonic to its builtin opcode.
pub fn op_kind(name: &Vec<u8>) -> (k: OpKind)
    ensures
        k == op_kind_of(name@),
{
    let c_mov: Vec<u8> = vec![109u8, 111u8, 118u8];
    if bytes_eq(name, &c_mov) {
        proof {
            assert(c_mov@ =~= op_name_of(OpKind::Move));
        }
        return OpKind::Move;
    }
    let c_mod: Vec<u8> = vec![109u8, 111u8, 100u8];
    if bytes_eq(name, &c_mod) {
        proof {
            assert(c_mod@ =~= op_name_of(OpKind::Modulo));
        }
        return OpKind::Modulo;
    }
    let c_gt: Vec<u8> = vec![103u8, 116u8];
    if bytes_eq(name, &c_gt) {
        proof {
            assert(c_gt@ =~= op_name_of(OpKind::Greater));
        }
        return OpKind::Greater;
    }
    let c_lt: Vec<u8> = vec![108u8, 116u8];
    if bytes_eq(name, &c_lt) {
        proof {
            assert(c_lt@ =~= op_name_of(OpKind::Less));
        }
        return OpKind::Less;
    }
    let c_eq: Vec<u8> = vec![101u8, 113u8];
    if bytes_eq(name, &c_eq) {
        proof {
            assert(c_eq@ =~= op_name_of(OpKind::Equal));
        }
        return OpKind::Equal;
    }
    let c_gte: Vec<u8> = vec![103u8, 116u8, 101u8];
    if bytes_eq(name, &c_gte) {
        proof {
            assert(c_gte@ =~= op_name_of(OpKind::GreaterEqual));
        }
        return OpKind::GreaterEqual;
    }
    let c_lte: Vec<u8> = vec![108u8, 116u8, 101u8];
    if bytes_eq(name, &c_lte) {
        proof {
            assert(c_lte@ =~= op_name_of(OpKind::LessEqual));
        }
        return OpKind::LessEqual;
    }
    let c_add: Vec<u8> = vec![97u8, 100u8, 100u8];
    if bytes_eq(name, &c_add) {
        proof {
            assert(c_add@ =~= op_name_of(OpKind::Accumulate));
        }
        return OpKind::Accumulate;
    }
    let c_mak: Vec<u8> = vec![109u8, 97u8, 107u8];
    if bytes_eq(name, &c_mak) {
        proof {
            assert(c_mak@ =~= op_name_of(OpKind::Make));
        }
        return OpKind::Make;
    }
    let c_dis: Vec<u8> = vec![100u8, 105u8, 115u8];
    if bytes_eq(name, &c_dis) {
        proof {
            assert(c_dis@ =~= op_name_of(OpKind::Show));
        }
        return OpKind::Show;
    }
    let c_dsl: Vec<u8> = vec![100u8, 115u8, 108u8];
    if bytes_eq(name, &c_dsl) {
        proof {
            assert(c_dsl@ =~= op_name_of(OpKind::ShowLine));
        }
        return OpKind::ShowLine;
    }
    let c_do: Vec<u8> = vec![100u8, 111u8];
    if bytes_eq(name, &c_do) {
        proof {
            assert(c_do@ =~= op_name_of(OpKind::Invoke));
        }
        return OpKind::Invoke;
    }
    let c_dor: Vec<u8> = vec![100u8, 111u8, 114u8];
    if bytes_eq(name, &c_dor) {
        proof {
            assert(c_dor@ =~= op_name_of(OpKind::InvokeBind));
        }
        return OpKind::InvokeBind;
    }
    let c_del: Vec<u8> = vec![100u8, 101u8, 108u8];
    if bytes_eq(name, &c_del) {
        proof {
            assert(c_del@ =~= op_name_of(OpKind::Delete));
        }
        return OpKind::Delete;
    }
    let c_pt: Vec<u8> = vec![112u8, 116u8];
    if bytes_eq(name, &c_pt) {
        proof {
            assert(c_pt@ =~= op_name_of(OpKind::Print));
        }
        return OpKind::Print;
    }
    let c_ptl: Vec<u8> = vec![112u8, 116u8, 108u8];
    if bytes_eq(name, &c_ptl) {
        proof {
            assert(c_ptl@ =~= op_name_of(OpKind::PrintLine));
        }
        return OpKind::PrintLine;
    }
    let c_neg: Vec<u8> = vec![110u8, 101u8, 103u8];
    if bytes_eq(name, &c_neg) {
        proof {
            assert(c_neg@ =~= op_name_of(OpKind::Negate));
        }
        return OpKind::Negate;
    }
    let c_for: Vec<u8> = vec![102u8, 111u8, 114u8];
    if bytes_eq(name, &c_for) {
        proof {
            assert(c_for@ =~= op_name_of(OpKind::ForLoop));
        }
        return OpKind::ForLoop;
    }
    let c_if: Vec<u8> = vec![105u8, 102u8];
    if bytes_eq(name, &c_if) {
        proof {
            assert(c_if@ =~= op_name_of(OpKind::Branch));
        }
        return OpKind::Branch;
    }
    proof {
        assert(c_mov@ =~= op_name_of(OpKind::Move));
        assert(c_mod@ =~= op_name_of(OpKind::Modulo));
        assert(c_gt@ =~= op_name_of(OpKind::Greater));
        assert(c_lt@ =~= op_name_of(OpKind::Less));
        assert(c_eq@ =~= op_name_of(OpKind::Equal));
        assert(c_gte@ =~= op_name_of(OpKind::GreaterEqual));
        assert(c_lte@ =~= op_name_of(OpKind::LessEqual));
        assert(c_add@ =~= op_name_of(OpKind::Accumulate));
        assert(c_mak@ =~= op_name_of(OpKind::Make));
        assert(c_dis@ =~= op_name_of(OpKind::Show));
        assert(c_dsl@ =~= op_name_of(OpKind::ShowLine));
        assert(c_do@ =~= op_name_of(OpKind::Invoke));
        assert(c_dor@ =~= op_name_of(OpKind::InvokeBind));
        assert(c_del@ =~= op_name_of(OpKind::Delete));
        assert(c_pt@ =~= op_name_of(OpKind::Print));
        assert(c_ptl@ =~= op_name_of(OpKind::PrintLine));
        assert(c_neg@ =~= op_name_of(OpKind::Negate));
        assert(c_for@ =~= op_name_of(OpKind::ForLoop));
        assert(c_if@ =~= op_name_of(OpKind::Branch));
    }
    OpKind::Unknown
}

/// One opcode: a catalog template when `location` is `None` and the
/// `arguments` are expectation templates; a validated invocation when the
/// `arguments` are concrete and `location` points at the statement.
#[derive(Debug, Clone)]
pub struct OpCode {
    pub name: Vec<u8>,
    pub arguments: Vec<ExpressionType>,
    pub location: Option<ReadHead>,
}

impl View for OpCode {
    type V = OpCodeV;

    open spec fn view(&self) -> OpCodeV {
        OpCodeV { name: self.name@, arguments: self.arguments.deep_view(), location: self.location }
    }
}

impl DeepView for OpCode {
    type V = OpCodeV;

    open spec fn deep_view(&self) -> OpCodeV {
        self@
    }
}

impl OpCode {
    /// A fresh catalog entry with the given mnemonic and no expectations.
    pub fn new_str(name: Vec<u8>) -> (r: OpCode)
        ensures
            r@.name == name@,
            r@.arguments == Seq::<ExprV>::empty(),
            r@.location is None,
    {
        let r = OpCode { name, arguments: Vec::new(), location: None };
        proof {
            assert(r@.arguments =~= Seq::<ExprV>::empty());
        }
        r
    }

    /// A fresh catalog entry with the given mnemonic.
    pub fn new(name: Vec<u8>) -> (r: OpCode)
        ensures
            r@.name == name@,
            r@.arguments == Seq::<ExprV>::empty(),
            r@.location is None,
    {
        OpCode::new_str(name)
    }

    /// This entry with one more expected operand appended.
    pub fn expecting(self, some: ExpressionType) -> (r: OpCode)
        ensures
            r@.name == self@.name,
            r@.location == self@.location,
            r@.arguments == self@.arguments.push(some@),
    {
        let ghost old_args = self.arguments.deep_view();
        let ghost some_v = some@;
        let mut args = self.arguments;
        args.push(some);
        let r = OpCode { name: self.name, arguments: args, location: self.location };
        proof {
            assert(r.arguments.deep_view() =~= old_args.push(some_v));
        }
        r
    }
}

/// A converted operand has the kind the signature expected.
pub proof fn lemma_arg_ok_kind(
    kind: ArgKind,
    raw: Seq<u8>,
    a: ExprV,
    globals: Seq<crate::model::RegV>,
    scope: Seq<crate::model::RegV>,
    insts: Seq<crate::model::InstV>,
)
    requires
        arg_ok(kind, raw, a, globals, scope, insts),
    ensures
        arg_kind(a) == kind,
{
}

/// An opcode whose operands were all converted against its mnemonic's
/// signature is validated.
pub proof fn lemma_parsed_op_wf(
    op: OpCodeV,
    toks: Seq<Seq<u8>>,
    globals: Seq<crate::model::RegV>,
    scope: Seq<crate::model::RegV>,
    insts: Seq<crate::model::InstV>,
)
    requires
        toks.len() > 0,
        op.name == toks[0],
        op.arguments.len() == kind_sig(op_kind_of(toks[0])).len(),
        forall|i: int|
            0 <= i < kind_sig(op_kind_of(toks[0])).len() ==> arg_ok(
                #[trigger] kind_sig(op_kind_of(toks[0]))[i],
                toks[i + 1],
                op.arguments[i],
                globals,
                scope,
                insts,
            ),
    ensures
        op_wf(op),
{
    let sig = kind_sig(op_kind_of(toks[0]));
    assert forall|i: int| 0 <= i < op.arguments.len() implies op.arguments.map_values(
        |e: ExprV| arg_kind(e),
    )[i] == sig[i] by {
        lemma_arg_ok_kind(sig[i], toks[i + 1], op.arguments[i], globals, scope, insts);
    }
    assert(op.arguments.map_values(|e: ExprV| arg_kind(e)) =~= sig);
}

/// A catalog is well formed when every entry is a builtin mnemonic carrying
/// its expected operand kinds, and every builtin mnemonic has an entry.
pub open spec fn catalog_ok(c: Seq<OpCodeV>) -> bool {
    &&& forall|i: int|
        0 <= i < c.len() ==> op_kind_of(#[trigger] c[i].name) != OpKind::Unknown
            && c[i].arguments.map_values(|e: ExprV| arg_kind(e)) == kind_sig(
            op_kind_of(c[i].name),
        )
    &&& forall|k: OpKind|
        #![trigger op_name_of(k)]
        k != OpKind::Unknown ==> exists|i: int|
            0 <= i < c.len() && #[trigger] c[i].name == op_name_of(k)
}

/// In a well-formed catalog, a mnemonic is found exactly when it is a
/// builtin, and its entry carries the builtin's expected operand kinds.
pub proof fn lemma_catalog_lookup(c: Seq<OpCodeV>, name: Seq<u8>)
    requires
        catalog_ok(c),
    ensures
        crate::model::has_op(c, name) == (op_kind_of(name) != OpKind::Unknown),
        crate::model::has_op(c, name) ==> {
            let e = c[crate::model::op_idx(c, name)];
            &&& e.name == name
            &&& e.arguments.map_values(|x: ExprV| arg_kind(x)) == kind_sig(op_kind_of(name))
        },
{
    crate::model::lemma_find_op_from_range(c, name, 0);
    let k = op_kind_of(name);
    if k != OpKind::Unknown {
        assert(name == op_name_of(k));
        let i = choose|i: int| 0 <= i < c.len() && #[trigger] c[i].name == op_name_of(k);
        assert(c[i].name == name);
        if !crate::model::has_op(c, name) {
            assert(c[i].name != name);
        }
    } else {
        if crate::model::has_op(c, name) {
            let j = crate::model::op_idx(c, name);
            assert(op_kind_of(c[j].name) != OpKind::Unknown);
        }
    }
}

/// Whether a raw token can be converted to an operand of the expected kind,
/// in the given validation context.
pub open spec fn arg_convertible(
    kind: ArgKind,
    raw: Seq<u8>,
    globals: Seq<crate::model::RegV>,
    scope: Seq<crate::model::RegV>,
    insts: Seq<crate::model::InstV>,
) -> bool {
    match kind {
        ArgKind::Value => true,
        ArgKind::Literal => crate::text::parse_int_spec(raw) is Some,
        ArgKind::Text => !crate::model::is_container(globals, scope, raw)
            && !crate::text::has_digit(raw),
        ArgKind::Container => true,
        ArgKind::RegRef => crate::model::has_reg(globals, raw),
        ArgKind::VarRef => true,
        ArgKind::InstRef => crate::model::has_inst(insts, raw),
    }
}

/// The operand the validator produces for a raw token of the expected kind.
pub open spec fn arg_ok(
    kind: ArgKind,
    raw: Seq<u8>,
    a: ExprV,
    globals: Seq<crate::model::RegV>,
    scope: Seq<crate::model::RegV>,
    insts: Seq<crate::model::InstV>,
) -> bool {
    match kind {
        ArgKind::Value => match crate::text::parse_int_spec(raw) {
            Some(v) => a == ExprV::ProbableValue(v),
            None => a == ExprV::ProbableName(raw),
        },
        ArgKind::Literal => crate::text::parse_int_spec(raw) matches Some(v) && a
            == ExprV::IntegerLiteral(v),
        ArgKind::Text => !crate::model::is_container(globals, scope, raw)
            && !crate::text::has_digit(raw) && a == ExprV::StringLiteral(
            crate::text::strip_dquotes(raw),
        ),
        ArgKind::Container => a == ExprV::ContainerReference(raw),
        ArgKind::RegRef => crate::model::has_reg(globals, raw) && a == ExprV::RegisterReference(
            raw,
        ),
        ArgKind::VarRef => a == ExprV::VariableReference(raw),
        ArgKind::InstRef => crate::model::has_inst(insts, raw) && a
            == ExprV::InstructionReference(
            raw,
            insts[crate::model::inst_idx(insts, raw)].arguments,
        ),
    }
}

/// A converted operand is convertible.
pub proof fn lemma_arg_ok_convertible(
    kind: ArgKind,
    raw: Seq<u8>,
    a: ExprV,
    globals: Seq<crate::model::RegV>,
    scope: Seq<crate::model::RegV>,
    insts: Seq<crate::model::InstV>,
)
    requires
        arg_ok(kind, raw, a, globals, scope, insts),
    ensures
        arg_convertible(kind, raw, globals, scope, insts),
{
}

/// All argument tokens of a statement can be converted to the expected
/// kinds; `raws` holds the mnemonic first, then the argument tokens.
pub open spec fn args_convertible(
    sig: Seq<ArgKind>,
    raws: Seq<Seq<u8>>,
    globals: Seq<crate::model::RegV>,
    scope: Seq<crate::model::RegV>,
    insts: Seq<crate::model::InstV>,
) -> bool {
    forall|i: int|
        0 <= i < sig.len() ==> arg_convertible(#[trigger] sig[i], raws[i + 1], globals, scope, insts)
}

// ------------------------------------------------------------------
// Operand and state semantics
// ------------------------------------------------------------------

/// Ghost view of a value operand.
pub open spec fn pv_view(p: ProbableValue) -> ExprV {
    match p {
        ProbableValue::Value(v) => ExprV::ProbableValue(v),
        ProbableValue::Name(n) => ExprV::ProbableName(n@),
    }
}

/// What a value operand resolves to at execution time: a literal is itself;
/// a deferred name is looked up in the local scope first, then globally.
pub open spec fn resolve_operand(
    e: ExprV,
    globals: Seq<crate::model::RegV>,
    scope: Seq<crate::model::RegV>,
) -> Option<i64> {
    match e {
        ExprV::ProbableValue(v) => Some(v),
        ExprV::ProbableName(n) => crate::model::resolve_val(globals, scope, n),
        _ => None,
    }
}

/// The comparison each comparison opcode computes.
pub open spec fn cmp_holds(k: OpKind, a: i64, b: i64) -> bool {
    match k {
        OpKind::Greater => a > b,
        OpKind::Less => a < b,
        OpKind::Equal => a == b,
        OpKind::GreaterEqual => a >= b,
        OpKind::LessEqual => a <= b,
        _ => false,
    }
}

/// Truncated remainder, as the modulo opcode computes it.
pub open spec fn trunc_rem(a: int, d: int) -> int {
    if a == 0 {
        0
    } else if a > 0 && d > 0 {
        a % d
    } else if a < 0 && d < 0 {
        ((a * -1) % (d * -1)) * -1
    } else if a < 0 {
        ((a * -1) % d) * -1
    } else {
        a % (d * -1)
    }
}

/// Case-insensitive match against the reserved name `res`.
pub open spec fn ascii_lower(b: u8) -> u8 {
    if 65 <= b <= 90 {
        (b + 32) as u8
    } else {
        b
    }
}

/// Whether `n` is the reserved name `res`, ignoring ASCII case.
pub open spec fn is_res_ci(n: Seq<u8>) -> bool {
    n.len() == 3 && ascii_lower(n[0]) == 114 && ascii_lower(n[1]) == 101 && ascii_lower(n[2])
        == 115
}

/// The names of the registers of a table, in order.
pub open spec fn names_of(s: Seq<crate::model::RegV>) -> Seq<Seq<u8>> {
    s.map_values(|r: crate::model::RegV| r.name)
}

/// A validated opcode: its operands have exactly the kinds its mnemonic's
/// catalog signature expects.
pub open spec fn op_wf(op: OpCodeV) -> bool {
    op.arguments.map_values(|e: ExprV| arg_kind(e)) == kind_sig(op_kind_of(op.name))
}

/// Every opcode of an instruction is validated.
pub open spec fn inst_codes_wf(i: crate::model::InstV) -> bool {
    forall|j: int| 0 <= j < i.codes.len() ==> op_wf(#[trigger] i.codes[j])
}

/// Every opcode of every instruction is validated.
pub open spec fn insts_wf(iv: Seq<crate::model::InstV>) -> bool {
    forall|i: int| 0 <= i < iv.len() ==> inst_codes_wf(#[trigger] iv[i])
}

/// The string-literal payload of an operand.
pub open spec fn text_of(e: ExprV) -> Seq<u8> {
    match e {
        ExprV::StringLiteral(s) => s,
        _ => Seq::empty(),
    }
}

/// The referenced name of a container, register or variable operand.
pub open spec fn ref_name_of(e: ExprV) -> Seq<u8> {
    match e {
        ExprV::ContainerReference(s) => s,
        ExprV::RegisterReference(s) => s,
        ExprV::VariableReference(s) => s,
        _ => Seq::empty(),
    }
}

/// The referenced instruction name of an instruction operand.
pub open spec fn inst_name_of(e: ExprV) -> Seq<u8> {
    match e {
        ExprV::InstructionReference(n, _) => n,
        _ => Seq::empty(),
    }
}

/// The payload of a literal-number operand.
pub open spec fn lit_of(e: ExprV) -> i64 {
    match e {
        ExprV::IntegerLiteral(v) => v,
        _ => 0,
    }
}


/// The validation error a raw token of the expected kind produces, when it
/// cannot be converted: the specific variant and its payload.
pub open spec fn arg_error_matches(
    kind: ArgKind,
    raw: Seq<u8>,
    e: crate::interpreter::IllError,
    globals: Seq<crate::model::RegV>,
    scope: Seq<crate::model::RegV>,
    insts: Seq<crate::model::InstV>,
) -> bool {
    match kind {
        ArgKind::Literal => e matches crate::interpreter::IllError::OpCodeInvalidArgument(
            _,
            _,
            got,
        ) && got@ == raw,
        ArgKind::Text => if crate::model::is_container(globals, scope, raw) {
            e matches crate::interpreter::IllError::UnescapedStringLiteralIsContainer(_, got)
                && got@ == raw
        } else {
            e matches crate::interpreter::IllError::OpCodeInvalidArgument(_, _, got) && got@
                == raw
        },
        ArgKind::RegRef => e matches crate::interpreter::IllError::NonExistentRegister(_, n)
            && n@ == raw,
        ArgKind::InstRef => e matches crate::interpreter::IllError::NonExistentInstruction(_, n)
            && n@ == raw,
        _ => true,
    }
}

/// Index of the first argument token that cannot be converted, or the
/// signature's length when all convert; `raws` holds the mnemonic first.
pub open spec fn first_unconv(
    sig: Seq<ArgKind>,
    raws: Seq<Seq<u8>>,
    globals: Seq<crate::model::RegV>,
    scope: Seq<crate::model::RegV>,
    insts: Seq<crate::model::InstV>,
    i: int,
) -> int
    decreases sig.len() - i,
{
    if !(0 <= i < sig.len()) {
        sig.len() as int
    } else if !arg_convertible(sig[i], raws[i + 1], globals, scope, insts) {
        i
    } else {
        first_unconv(sig, raws, globals, scope, insts, i + 1)
    }
}

/// The first unconvertible position is exactly where a left-to-right check
/// stops.
pub proof fn lemma_first_unconv_is(
    sig: Seq<ArgKind>,
    raws: Seq<Seq<u8>>,
    globals: Seq<crate::model::RegV>,
    scope: Seq<crate::model::RegV>,
    insts: Seq<crate::model::InstV>,
    i: int,
    j: int,
)
    requires
        0 <= i <= j <= sig.len(),
        forall|k: int| i <= k < j ==> arg_convertible(#[trigger] sig[k], raws[k + 1], globals, scope, insts),
        j < sig.len() ==> !arg_convertible(sig[j], raws[j + 1], globals, scope, insts),
    ensures
        first_unconv(sig, raws, globals, scope, insts, i) == j,
    decreases j - i,
{
    if i < j {
        lemma_first_unconv_is(sig, raws, globals, scope, insts, i + 1, j);
    }
}

/// An entry carries a builtin mnemonic and its expected operand kinds.
spec fn entry_is(v: OpCodeV, k: OpKind) -> bool {
    &&& v.name == op_name_of(k)
    &&& v.arguments.map_values(|e: ExprV| arg_kind(e)) == kind_sig(k)
}

/// The mnemonics of the catalog's entries, in catalog order.
pub open spec fn catalog_names() -> Seq<Seq<u8>> {
    seq![
        op_name_of(OpKind::Move),
        op_name_of(OpKind::Modulo),
        op_name_of(OpKind::Greater),
        op_name_of(OpKind::Less),
        op_name_of(OpKind::Equal),
        op_name_of(OpKind::GreaterEqual),
        op_name_of(OpKind::LessEqual),
        op_name_of(OpKind::Accumulate),
        op_name_of(OpKind::Make),
        op_name_of(OpKind::Show),
        op_name_of(OpKind::ShowLine),
        op_name_of(OpKind::Invoke),
        op_name_of(OpKind::InvokeBind),
        op_name_of(OpKind::Delete),
        op_name_of(OpKind::Print),
        op_name_of(OpKind::PrintLine),
        op_name_of(OpKind::Negate),
        op_name_of(OpKind::ForLoop),
        op_name_of(OpKind::Branch),
    ]
}

/// The catalog of builtin opcode signatures.
#[verifier::rlimit(60)]
pub fn default_opcodes() -> (r: Vec<OpCode>)
    ensures
        catalog_ok(r.deep_view()),
        r.deep_view().len() == 19,
        r.deep_view().map_values(|o: OpCodeV| o.name) == catalog_names(),
        forall|i: int| 0 <= i < r.deep_view().len() ==> (#[trigger] r.deep_view()[i]).location is None,
{
    let mut opcodes: Vec<OpCode> = Vec::new();
    let o = OpCode::new(vec![109u8, 111u8, 118u8]).expecting(prob_literal()).expecting(container());
    let ghost v0 = o@;
    proof {
        assert(v0.name =~= op_name_of(OpKind::Move));
        assert(v0.arguments.map_values(|e: ExprV| arg_kind(e)) =~= kind_sig(OpKind::Move));
    }
    opcodes.push(o);
    let o = OpCode::new(vec![109u8, 111u8, 100u8]).expecting(prob_literal()).expecting(
        prob_literal(),
    ).expecting(s_literal());
    let ghost v1 = o@;
    proof {
        assert(v1.name =~= op_name_of(OpKind::Modulo));
        assert(v1.arguments.map_values(|e: ExprV| arg_kind(e)) =~= kind_sig(OpKind::Modulo));
    }
    opcodes.push(o);
    let o = OpCode::new(vec![103u8, 116u8]).expecting(prob_literal()).expecting(
        prob_literal(),
    ).expecting(s_literal());
    let ghost v2 = o@;
    proof {
        assert(v2.name =~= op_name_of(OpKind::Greater));
        assert(v2.arguments.map_values(|e: ExprV| arg_kind(e)) =~= kind_sig(OpKind::Greater));
    }
    opcodes.push(o);
    let o = OpCode::new(vec![108u8, 116u8]).expecting(prob_literal()).expecting(
        prob_literal(),
    ).expecting(s_literal());
    let ghost v3 = o@;
    proof {
        assert(v3.name =~= op_name_of(OpKind::Less));
        assert(v3.arguments.map_values(|e: ExprV| arg_kind(e)) =~= kind_sig(OpKind::Less));
    }
    opcodes.push(o);
    let o = OpCode::new(vec![101u8, 113u8]).expecting(prob_literal()).expecting(
        prob_literal(),
    ).expecting(s_literal());
    let ghost v4 = o@;
    proof {
        assert(v4.name =~= op_name_of(OpKind::Equal));
        assert(v4.arguments.map_values(|e: ExprV| arg_kind(e)) =~= kind_sig(OpKind::Equal));
    }
    opcodes.push(o);
    let o = OpCode::new(vec![103u8, 116u8, 101u8]).expecting(prob_literal()).expecting(
        prob_literal(),
    ).expecting(s_literal());
    let ghost v5 = o@;
    proof {
        assert(v5.name =~= op_name_of(OpKind::GreaterEqual));
        assert(v5.arguments.map_values(|e: ExprV| arg_kind(e)) =~= kind_sig(OpKind::GreaterEqual));
    }
    opcodes.push(o);
    let o = OpCode::new(vec![108u8, 116u8, 101u8]).expecting(prob_literal()).expecting(
        prob_literal(),
    ).expecting(s_literal());
    let ghost v6 = o@;
    proof {
        assert(v6.name =~= op_name_of(OpKind::LessEqual));
        assert(v6.arguments.map_values(|e: ExprV| arg_kind(e)) =~= kind_sig(OpKind::LessEqual));
    }
    opcodes.push(o);
    let o = OpCode::new(vec![97u8, 100u8, 100u8]).expecting(prob_literal()).expecting(container());
    let ghost v7 = o@;
    proof {
        assert(v7.name =~= op_name_of(OpKind::Accumulate));
        assert(v7.arguments.map_values(|e: ExprV| arg_kind(e)) =~= kind_sig(OpKind::Accumulate));
    }
    opcodes.push(o);
    let o = OpCode::new(vec![109u8, 97u8, 107u8]).expecting(s_literal()).expecting(prob_literal());
    let ghost v8 = o@;
    proof {
        assert(v8.name =~= op_name_of(OpKind::Make));
        assert(v8.arguments.map_values(|e: ExprV| arg_kind(e)) =~= kind_sig(OpKind::Make));
    }
    opcodes.push(o);
    let o = OpCode::new(vec![100u8, 105u8, 115u8]).expecting(container());
    let ghost v9 = o@;
    proof {
        assert(v9.name =~= op_name_of(OpKind::Show));
        assert(v9.arguments.map_values(|e: ExprV| arg_kind(e)) =~= kind_sig(OpKind::Show));
    }
    opcodes.push(o);
    let o = OpCode::new(vec![100u8, 115u8, 108u8]).expecting(container());
    let ghost v10 = o@;
    proof {
        assert(v10.name =~= op_name_of(OpKind::ShowLine));
        assert(v10.arguments.map_values(|e: ExprV| arg_kind(e)) =~= kind_sig(OpKind::ShowLine));
    }
    opcodes.push(o);
    let o = OpCode::new(vec![100u8, 111u8]).expecting(inst_ref());
    let ghost v11 = o@;
    proof {
        assert(v11.name =~= op_name_of(OpKind::Invoke));
        assert(v11.arguments.map_values(|e: ExprV| arg_kind(e)) =~= kind_sig(OpKind::Invoke));
    }
    opcodes.push(o);
    let o = OpCode::new(vec![100u8, 111u8, 114u8]).expecting(inst_ref()).expecting(s_literal());
    let ghost v12 = o@;
    proof {
        assert(v12.name =~= op_name_of(OpKind::InvokeBind));
        assert(v12.arguments.map_values(|e: ExprV| arg_kind(e)) =~= kind_sig(OpKind::InvokeBind));
    }
    opcodes.push(o);
    let o = OpCode::new(vec![100u8, 101u8, 108u8]).expecting(variable());
    let ghost v13 = o@;
    proof {
        assert(v13.name =~= op_name_of(OpKind::Delete));
        assert(v13.arguments.map_values(|e: ExprV| arg_kind(e)) =~= kind_sig(OpKind::Delete));
    }
    opcodes.push(o);
    let o = OpCode::new(vec![112u8, 116u8]).expecting(s_literal());
    let ghost v14 = o@;
    proof {
        assert(v14.name =~= op_name_of(OpKind::Print));
        assert(v14.arguments.map_values(|e: ExprV| arg_kind(e)) =~= kind_sig(OpKind::Print));
    }
    opcodes.push(o);
    let o = OpCode::new(vec![112u8, 116u8, 108u8]).expecting(s_literal());
    let ghost v15 = o@;
    proof {
        assert(v15.name =~= op_name_of(OpKind::PrintLine));
        assert(v15.arguments.map_values(|e: ExprV| arg_kind(e)) =~= kind_sig(OpKind::PrintLine));
    }
    opcodes.push(o);
    let o = OpCode::new(vec![110u8, 101u8, 103u8]).expecting(container());
    let ghost v16 = o@;
    proof {
        assert(v16.name =~= op_name_of(OpKind::Negate));
        assert(v16.arguments.map_values(|e: ExprV| arg_kind(e)) =~= kind_sig(OpKind::Negate));
    }
    opcodes.push(o);
    let o = OpCode::new(vec![102u8, 111u8, 114u8]).expecting(s_literal()).expecting(
        literal(),
    ).expecting(literal()).expecting(literal()).expecting(inst_ref());
    let ghost v17 = o@;
    proof {
        assert(v17.name =~= op_name_of(OpKind::ForLoop));
        assert(v17.arguments.map_values(|e: ExprV| arg_kind(e)) =~= kind_sig(OpKind::ForLoop));
    }
    opcodes.push(o);
    let o = OpCode::new(vec![105u8, 102u8]).expecting(inst_ref()).expecting(inst_ref()).expecting(
        inst_ref(),
    );
    let ghost v18 = o@;
    proof {
        assert(v18.name =~= op_name_of(OpKind::Branch));
        assert(v18.arguments.map_values(|e: ExprV| arg_kind(e)) =~= kind_sig(OpKind::Branch));
    }
    opcodes.push(o);
    proof {
        let c = opcodes.deep_view();
        assert(c =~= seq![
            v0,
            v1,
            v2,
            v3,
            v4,
            v5,
            v6,
            v7,
            v8,
            v9,
            v10,
            v11,
            v12,
            v13,
            v14,
            v15,
            v16,
            v17,
            v18,
        ]);
        assert(entry_is(c[0], OpKind::Move));
        assert(entry_is(c[1], OpKind::Modulo));
        assert(entry_is(c[2], OpKind::Greater));
        assert(entry_is(c[3], OpKind::Less));
        assert(entry_is(c[4], OpKind::Equal));
        assert(entry_is(c[5], OpKind::GreaterEqual));
        assert(entry_is(c[6], OpKind::LessEqual));
        assert(entry_is(c[7], OpKind::Accumulate));
        assert(entry_is(c[8], OpKind::Make));
        assert(entry_is(c[9], OpKind::Show));
        assert(entry_is(c[10], OpKind::ShowLine));
        assert(entry_is(c[11], OpKind::Invoke));
        assert(entry_is(c[12], OpKind::InvokeBind));
        assert(entry_is(c[13], OpKind::Delete));
        assert(entry_is(c[14], OpKind::Print));
        assert(entry_is(c[15], OpKind::PrintLine));
        assert(entry_is(c[16], OpKind::Negate));
        assert(entry_is(c[17], OpKind::ForLoop));
        assert(entry_is(c[18], OpKind::Branch));
        assert forall|k: OpKind| #![trigger op_name_of(k)] k != OpKind::Unknown implies exists|
            i: int,
        |
            0 <= i < c.len() && #[trigger] c[i].name == op_name_of(k) by {
            match k {
                OpKind::Move => assert(c[0].name == op_name_of(k)),
                OpKind::Modulo => assert(c[1].name == op_name_of(k)),
                OpKind::Greater => assert(c[2].name == op_name_of(k)),
                OpKind::Less => assert(c[3].name == op_name_of(k)),
                OpKind::Equal => assert(c[4].name == op_name_of(k)),
                OpKind::GreaterEqual => assert(c[5].name == op_name_of(k)),
                OpKind::LessEqual => assert(c[6].name == op_name_of(k)),
                OpKind::Accumulate => assert(c[7].name == op_name_of(k)),
                OpKind::Make => assert(c[8].name == op_name_of(k)),
                OpKind::Show => assert(c[9].name == op_name_of(k)),
                OpKind::ShowLine => assert(c[10].name == op_name_of(k)),
                OpKind::Invoke => assert(c[11].name == op_name_of(k)),
                OpKind::InvokeBind => assert(c[12].name == op_name_of(k)),
                OpKind::Delete => assert(c[13].name == op_name_of(k)),
                OpKind::Print => assert(c[14].name == op_name_of(k)),
                OpKind::PrintLine => assert(c[15].name == op_name_of(k)),
                OpKind::Negate => assert(c[16].name == op_name_of(k)),
                OpKind::ForLoop => assert(c[17].name == op_name_of(k)),
                OpKind::Branch => assert(c[18].name == op_name_of(k)),
                OpKind::Unknown => (),
            }
        }
        assert forall|i: int| 0 <= i < c.len() implies op_kind_of(#[trigger] c[i].name)
            != OpKind::Unknown && c[i].arguments.map_values(|e: ExprV| arg_kind(e)) == kind_sig(
            op_kind_of(c[i].name),
        ) by {
            if i == 0 {
                assert(op_kind_of(c[0].name) == OpKind::Move);
            } else if i == 1 {
                assert(op_kind_of(c[1].name) == OpKind::Modulo);
            } else if i == 2 {
                assert(op_kind_of(c[2].name) == OpKind::Greater);
            } else if i == 3 {
                assert(op_kind_of(c[3].name) == OpKind::Less);
            } else if i == 4 {
                assert(op_kind_of(c[4].name) == OpKind::Equal);
            } else if i == 5 {
                assert(op_kind_of(c[5].name) == OpKind::GreaterEqual);
            } else if i == 6 {
                assert(op_kind_of(c[6].name) == OpKind::LessEqual);
            } else if i == 7 {
                assert(op_kind_of(c[7].name) == OpKind::Accumulate);
            } else if i == 8 {
                assert(op_kind_of(c[8].name) == OpKind::Make);
            } else if i == 9 {
                assert(op_kind_of(c[9].name) == OpKind::Show);
            } else if i == 10 {
                assert(op_kind_of(c[10].name) == OpKind::ShowLine);
            } else if i == 11 {
                assert(op_kind_of(c[11].name) == OpKind::Invoke);
            } else if i == 12 {
                assert(op_kind_of(c[12].name) == OpKind::InvokeBind);
            } else if i == 13 {
                assert(op_kind_of(c[13].name) == OpKind::Delete);
            } else if i == 14 {
                assert(op_kind_of(c[14].name) == OpKind::Print);
            } else if i == 15 {
                assert(op_kind_of(c[15].name) == OpKind::PrintLine);
            } else if i == 16 {
                assert(op_kind_of(c[16].name) == OpKind::Negate);
            } else if i == 17 {
                assert(op_kind_of(c[17].name) == OpKind::ForLoop);
            } else {
                assert(op_kind_of(c[18].name) == OpKind::Branch);
            }
        }
        assert(c.map_values(|o: OpCodeV| o.name) =~= catalog_names());
        assert forall|i: int| 0 <= i < c.len() implies (#[trigger] c[i]).location is None by {
            if i == 0 {
                assert(c[0].location is None);
            } else if i == 1 {
                assert(c[1].location is None);
            } else if i == 2 {
                assert(c[2].location is None);
            } else if i == 3 {
                assert(c[3].location is None);
            } else if i == 4 {
                assert(c[4].location is None);
            } else if i == 5 {
                assert(c[5].location is None);
            } else if i == 6 {
                assert(c[6].location is None);
            } else if i == 7 {
                assert(c[7].location is None);
            } else if i == 8 {
                assert(c[8].location is None);
            } else if i == 9 {
                assert(c[9].location is None);
            } else if i == 10 {
                assert(c[10].location is None);
            } else if i == 11 {
                assert(c[11].location is None);
            } else if i == 12 {
                assert(c[12].location is None);
            } else if i == 13 {
                assert(c[13].location is None);
            } else if i == 14 {
                assert(c[14].location is None);
            } else if i == 15 {
                assert(c[15].location is None);
            } else if i == 16 {
                assert(c[16].location is None);
            } else if i == 17 {
                assert(c[17].location is None);
            } else {
                assert(c[18].location is None);
            }
        }
    }
    opcodes
}

// ------------------------------------------------------------------
// Opcode handlers
// ------------------------------------------------------------------

/// Resolve a container name at execution time: local scope first, then the
/// global registers.
pub fn resolve_container(
    name: &Vec<u8>,
    registers: &Vec<crate::interpreter::Register>,
    scope: &Vec<crate::interpreter::Register>,
) -> (r: Option<i64>)
    ensures
        r == crate::model::resolve_val(registers.deep_view(), scope.deep_view(), name@),
{
    match crate::interpreter::find_register_index(scope, name) {
        Some(i) => Some(scope[i].value),
        None => match crate::interpreter::find_register_index(registers, name) {
            Some(i) => Some(registers[i].value),
            None => None,
        },
    }
}

/// Resolve a value operand: a literal is itself, a deferred name is looked
/// up local-first; an unresolved name is a `NonExistentRegister` error.
pub fn resolve_probable(
    pv: &ProbableValue,
    file: &crate::interpreter::EnhancedFile,
    rh_err: ReadHead,
    registers: &Vec<crate::interpreter::Register>,
    scope: &Vec<crate::interpreter::Register>,
) -> (r: Result<i64, crate::interpreter::AdvancedIllError>)
    ensures
        ({
            let res = resolve_operand(pv_view(*pv), registers.deep_view(), scope.deep_view());
            &&& (r matches Ok(v) ==> res == Some(v))
            &&& (r is Ok <==> res is Some)
            &&& (r matches Err(e) ==> res is None && (e.error matches
            crate::interpreter::IllError::NonExistentRegister(h, n) && h == rh_err && n@
                == pv_view(*pv)->ProbableName_0) && e.head == Some(rh_err) && e.file@ == file@)
        }),
{
    match pv {
        ProbableValue::Value(v) => Ok(*v),
        ProbableValue::Name(n) => match resolve_container(n, registers, scope) {
            Some(v) => Ok(v),
            None => {
                let err = crate::interpreter::IllError::NonExistentRegister(
                    rh_err,
                    crate::text::sub_vec(n, 0, n.len()),
                );
                proof {
                    if let crate::interpreter::IllError::NonExistentRegister(_, ref nn) = err {
                        assert(nn@ =~= n@);
                    }
                }
                Err(crate::interpreter::AdvancedIllError::new(
                    err,
                    Some(rh_err),
                    file.unsafe_clone(),
                ))
            },
        },
    }
}

/// Executable test for [`is_res_ci`].
pub fn name_is_res(name: &Vec<u8>) -> (r: bool)
    ensures
        r == is_res_ci(name@),
{
    if name.len() != 3 {
        return false;
    }
    let b0 = name[0];
    let b1 = name[1];
    let b2 = name[2];
    let l0: u8 = if b0 >= 65 && b0 <= 90 {
        b0 + 32
    } else {
        b0
    };
    let l1: u8 = if b1 >= 65 && b1 <= 90 {
        b1 + 32
    } else {
        b1
    };
    let l2: u8 = if b2 >= 65 && b2 <= 90 {
        b2 + 32
    } else {
        b2
    };
    l0 == 114 && l1 == 101 && l2 == 115
}

/// Append bytes to the captured output stream.
pub fn emit_bytes(output: &mut Vec<u8>, bytes: &Vec<u8>)
    ensures
        final(output)@ == old(output)@ + bytes@,
{
    let ghost base = output@;
    let mut i: usize = 0;
    proof {
        assert(base + bytes@.subrange(0, 0) =~= base);
    }
    while i < bytes.len()
        invariant
            i <= bytes@.len(),
            output@ == base + bytes@.subrange(0, i as int),
        decreases bytes@.len() - i,
    {
        proof {
            assert(bytes@.subrange(0, i + 1) =~= bytes@.subrange(0, i as int).push(
                bytes@[i as int],
            ));
            assert((base + bytes@.subrange(0, i as int)).push(bytes@[i as int]) =~= base
                + bytes@.subrange(0, i + 1));
        }
        output.push(bytes[i]);
        i = i + 1;
    }
    proof {
        assert(bytes@.subrange(0, bytes@.len() as int) =~= bytes@);
    }
}


/// The shadow hint a redefinition error carries when a global register
/// already owns the name.
pub open spec fn register_hint() -> Seq<u8> {
    seq![
        82u8, 101u8, 103u8, 105u8, 115u8, 116u8, 101u8, 114u8, 32u8, 82u8, 101u8, 102u8, 101u8,
        114u8, 101u8, 110u8, 99u8, 101u8,
    ]
}

/// The shadow hint a redefinition error carries when a local variable
/// already owns the name.
pub open spec fn variable_hint() -> Seq<u8> {
    seq![
        86u8, 97u8, 114u8, 105u8, 97u8, 98u8, 108u8, 101u8, 32u8, 82u8, 101u8, 102u8, 101u8,
        114u8, 101u8, 110u8, 99u8, 101u8,
    ]
}

/// Build the global-register shadow hint.
pub fn register_hint_bytes() -> (r: Vec<u8>)
    ensures
        r@ == register_hint(),
{
    let v: Vec<u8> = vec![
        82u8, 101u8, 103u8, 105u8, 115u8, 116u8, 101u8, 114u8, 32u8, 82u8, 101u8, 102u8, 101u8,
        114u8, 101u8, 110u8, 99u8, 101u8,
    ];
    proof {
        assert(v@ =~= register_hint());
    }
    v
}

/// Build the local-variable shadow hint.
pub fn variable_hint_bytes() -> (r: Vec<u8>)
    ensures
        r@ == variable_hint(),
{
    let v: Vec<u8> = vec![
        86u8, 97u8, 114u8, 105u8, 97u8, 98u8, 108u8, 101u8, 32u8, 82u8, 101u8, 102u8, 101u8,
        114u8, 101u8, 110u8, 99u8, 101u8,
    ];
    proof {
        assert(v@ =~= variable_hint());
    }
    v
}

/// The operand kinds of a validated opcode, position by position.
pub proof fn lemma_shape(args: Seq<ExprV>, k: OpKind)
    requires
        args.map_values(|e: ExprV| arg_kind(e)) == kind_sig(k),
    ensures
        args.len() == kind_sig(k).len(),
        forall|i: int| 0 <= i < args.len() ==> arg_kind(#[trigger] args[i]) == kind_sig(k)[i],
{
    assert(args.map_values(|e: ExprV| arg_kind(e)).len() == args.len());
    assert forall|i: int| 0 <= i < args.len() implies arg_kind(#[trigger] args[i]) == kind_sig(k)[i]
    by {
        assert(args.map_values(|e: ExprV| arg_kind(e))[i] == arg_kind(args[i]));
    }
}

/// What `mak` does: create a fresh local variable, unless the name is
/// already taken, is the reserved `res`, or the value does not resolve.
pub open spec fn make_post(
    args: Seq<ExprV>,
    gv: Seq<crate::model::RegV>,
    sv0: Seq<crate::model::RegV>,
    r: Result<(), crate::interpreter::AdvancedIllError>,
    sv1: Seq<crate::model::RegV>,
) -> bool {
    let name = text_of(args[0]);
    if crate::model::has_reg(gv, name) {
        &&& sv1 == sv0
        &&& r matches Err(e) && (e.error matches crate::interpreter::IllError::RegisterRedefinition(
            _,
            n,
            h,
        ) && n@ == name && (h matches Some(hh) && hh@ == register_hint()))
    } else if crate::model::has_reg(sv0, name) {
        &&& sv1 == sv0
        &&& r matches Err(e) && (e.error matches crate::interpreter::IllError::RegisterRedefinition(
            _,
            n,
            h,
        ) && n@ == name && (h matches Some(hh) && hh@ == variable_hint()))
    } else if is_res_ci(name) {
        &&& sv1 == sv0
        &&& r matches Err(e) && (e.error matches crate::interpreter::IllError::RegisterRedefinition(
            _,
            n,
            h,
        ) && n@ == name && h is None)
    } else {
        match resolve_operand(args[1], gv, sv0) {
            None => {
                &&& sv1 == sv0
                &&& r matches Err(e) && e.error matches crate::interpreter::IllError::NonExistentRegister(
                    _,
                    _,
                )
            },
            Some(v) => {
                &&& r is Ok
                &&& sv1 == sv0.push(
                    crate::model::RegV { name, value: v, is_variable: true },
                )
            },
        }
    }
}

/// Execute `mak`: bind a new local variable to a resolved value.
pub fn op_make(
    args: &Vec<ExpressionType>,
    file: &crate::interpreter::EnhancedFile,
    rh_err: ReadHead,
    registers: &Vec<crate::interpreter::Register>,
    scope: &mut Vec<crate::interpreter::Register>,
) -> (r: Result<(), crate::interpreter::AdvancedIllError>)
    requires
        args.deep_view().map_values(|e: ExprV| arg_kind(e)) == kind_sig(OpKind::Make),
    ensures
        make_post(
            args.deep_view(),
            registers.deep_view(),
            old(scope).deep_view(),
            r,
            final(scope).deep_view(),
        ),
        final(scope)@.len() >= old(scope)@.len(),
{
    proof {
        lemma_shape(args.deep_view(), OpKind::Make);
        assert(arg_kind(args.deep_view()[0]) == ArgKind::Text);
        assert(arg_kind(args.deep_view()[1]) == ArgKind::Value);
    }
    let identifier = match &args[0] {
        ExpressionType::StringLiteral(s) => s,
        _ => {
            return Ok(());
        },
    };
    proof {
        assert(args.deep_view()[0] == args@[0]@);
        assert(text_of(args.deep_view()[0]) == identifier@);
    }
    if crate::interpreter::register_exists_in(registers, identifier) {
        let nm = crate::text::sub_vec(identifier, 0, identifier.len());
        proof {
            assert(nm@ =~= identifier@);
        }
        let err = crate::interpreter::IllError::RegisterRedefinition(
            rh_err,
            nm,
            Some(register_hint_bytes()),
        );
        return Err(crate::interpreter::AdvancedIllError::new(
            err,
            Some(rh_err),
            file.unsafe_clone(),
        ));
    }
    if crate::interpreter::register_exists_in(scope, identifier) {
        let nm = crate::text::sub_vec(identifier, 0, identifier.len());
        proof {
            assert(nm@ =~= identifier@);
        }
        let err = crate::interpreter::IllError::RegisterRedefinition(
            rh_err,
            nm,
            Some(variable_hint_bytes()),
        );
        return Err(crate::interpreter::AdvancedIllError::new(
            err,
            Some(rh_err),
            file.unsafe_clone(),
        ));
    }
    if name_is_res(identifier) {
        let nm = crate::text::sub_vec(identifier, 0, identifier.len());
        proof {
            assert(nm@ =~= identifier@);
        }
        let err = crate::interpreter::IllError::RegisterRedefinition(rh_err, nm, None);
        return Err(crate::interpreter::AdvancedIllError::new(
            err,
            Some(rh_err),
            file.unsafe_clone(),
        ));
    }
    let value = match &args[1] {
        ExpressionType::ProbableLiteral(p) => p,
        _ => {
            return Ok(());
        },
    };
    let v = match resolve_probable(value, file, rh_err, registers, scope) {
        Ok(v) => v,
        Err(e) => {
            return Err(e);
        },
    };
    let ghost before = scope.deep_view();
    let nm = crate::text::sub_vec(identifier, 0, identifier.len());
    proof {
        assert(nm@ =~= identifier@);
    }
    let reg = crate::interpreter::make_register(nm, v, true);
    crate::interpreter::push_register(scope, reg);
    proof {
        assert(scope.deep_view() =~= before.push(
            crate::model::RegV {
                name: text_of(args.deep_view()[0]),
                value: v,
                is_variable: true,
            },
        ));
    }
    Ok(())
}


/// What the comparison opcodes do: resolve both values, then bind a fresh
/// local variable to the true or false sentinel of the comparison.
pub open spec fn cmp_post(
    k: OpKind,
    args: Seq<ExprV>,
    gv: Seq<crate::model::RegV>,
    sv0: Seq<crate::model::RegV>,
    r: Result<(), crate::interpreter::AdvancedIllError>,
    sv1: Seq<crate::model::RegV>,
) -> bool {
    let name = text_of(args[2]);
    match resolve_operand(args[0], gv, sv0) {
        None => {
            &&& sv1 == sv0
            &&& r matches Err(e) && e.error matches crate::interpreter::IllError::NonExistentRegister(
                _,
                _,
            )
        },
        Some(a) => match resolve_operand(args[1], gv, sv0) {
            None => {
                &&& sv1 == sv0
                &&& r matches Err(e) && e.error matches crate::interpreter::IllError::NonExistentRegister(
                    _,
                    _,
                )
            },
            Some(b) => {
                if crate::model::has_reg(gv, name) {
                    &&& sv1 == sv0
                    &&& r matches Err(e) && (e.error matches crate::interpreter::IllError::RegisterRedefinition(
                        _,
                        n,
                        h,
                    ) && n@ == name && (h matches Some(hh) && hh@ == register_hint()))
                } else if crate::model::has_reg(sv0, name) {
                    &&& sv1 == sv0
                    &&& r matches Err(e) && (e.error matches crate::interpreter::IllError::RegisterRedefinition(
                        _,
                        n,
                        h,
                    ) && n@ == name && (h matches Some(hh) && hh@ == variable_hint()))
                } else {
                    &&& r is Ok
                    &&& sv1 == sv0.push(
                        crate::model::RegV {
                            name,
                            value: if cmp_holds(k, a, b) {
                                TRUE
                            } else {
                                FALSE
                            },
                            is_variable: true,
                        },
                    )
                }
            },
        },
    }
}

/// Whether `k` is one of the comparison opcodes.
pub open spec fn is_cmp_kind(k: OpKind) -> bool {
    k == OpKind::Greater || k == OpKind::Less || k == OpKind::Equal || k == OpKind::GreaterEqual
        || k == OpKind::LessEqual
}

/// Execute a comparison opcode: bind the comparison's sentinel outcome to a
/// fresh local variable.
pub fn op_cmp(
    k: OpKind,
    args: &Vec<ExpressionType>,
    file: &crate::interpreter::EnhancedFile,
    rh_err: ReadHead,
    registers: &Vec<crate::interpreter::Register>,
    scope: &mut Vec<crate::interpreter::Register>,
) -> (r: Result<(), crate::interpreter::AdvancedIllError>)
    requires
        is_cmp_kind(k),
        args.deep_view().map_values(|e: ExprV| arg_kind(e)) == kind_sig(k),
    ensures
        cmp_post(
            k,
            args.deep_view(),
            registers.deep_view(),
            old(scope).deep_view(),
            r,
            final(scope).deep_view(),
        ),
        final(scope)@.len() >= old(scope)@.len(),
{
    proof {
        lemma_shape(args.deep_view(), k);
        assert(arg_kind(args.deep_view()[0]) == ArgKind::Value);
        assert(arg_kind(args.deep_view()[1]) == ArgKind::Value);
        assert(arg_kind(args.deep_view()[2]) == ArgKind::Text);
        assert(args.deep_view()[0] == args@[0]@);
        assert(args.deep_view()[1] == args@[1]@);
        assert(args.deep_view()[2] == args@[2]@);
    }
    let t_for = match &args[0] {
        ExpressionType::ProbableLiteral(p) => p,
        _ => {
            return Ok(());
        },
    };
    let by = match &args[1] {
        ExpressionType::ProbableLiteral(p) => p,
        _ => {
            return Ok(());
        },
    };
    let identifier = match &args[2] {
        ExpressionType::StringLiteral(s) => s,
        _ => {
            return Ok(());
        },
    };
    let a = match resolve_probable(t_for, file, rh_err, registers, scope) {
        Ok(v) => v,
        Err(e) => {
            return Err(e);
        },
    };
    let b = match resolve_probable(by, file, rh_err, registers, scope) {
        Ok(v) => v,
        Err(e) => {
            return Err(e);
        },
    };
    if crate::interpreter::register_exists_in(registers, identifier) {
        let nm = crate::text::sub_vec(identifier, 0, identifier.len());
        proof {
            assert(nm@ =~= identifier@);
        }
        let err = crate::interpreter::IllError::RegisterRedefinition(
            rh_err,
            nm,
            Some(register_hint_bytes()),
        );
        return Err(crate::interpreter::AdvancedIllError::new(
            err,
            Some(rh_err),
            file.unsafe_clone(),
        ));
    }
    if crate::interpreter::register_exists_in(scope, identifier) {
        let nm = crate::text::sub_vec(identifier, 0, identifier.len());
        proof {
            assert(nm@ =~= identifier@);
        }
        let err = crate::interpreter::IllError::RegisterRedefinition(
            rh_err,
            nm,
            Some(variable_hint_bytes()),
        );
        return Err(crate::interpreter::AdvancedIllError::new(
            err,
            Some(rh_err),
            file.unsafe_clone(),
        ));
    }
    let holds = match k {
        OpKind::Greater => a > b,
        OpKind::Less => a < b,
        OpKind::Equal => a == b,
        OpKind::GreaterEqual => a >= b,
        OpKind::LessEqual => a <= b,
        _ => false,
    };
    let value: i64 = if holds {
        TRUE
    } else {
        FALSE
    };
    let ghost before = scope.deep_view();
    let nm = crate::text::sub_vec(identifier, 0, identifier.len());
    proof {
        assert(nm@ =~= identifier@);
    }
    let reg = crate::interpreter::make_register(nm, value, true);
    crate::interpreter::push_register(scope, reg);
    proof {
        assert(scope.deep_view() =~= before.push(
            crate::model::RegV {
                name: text_of(args.deep_view()[2]),
                value,
                is_variable: true,
            },
        ));
    }
    Ok(())
}

/// A comparison opcode that succeeds binds a fresh variable under the third
/// operand's name holding exactly the true sentinel when the comparison
/// holds of the two resolved values, and exactly the false sentinel when it
/// does not.
pub proof fn law_comparison_binds_sentinel(
    k: OpKind,
    args: Seq<ExprV>,
    gv: Seq<crate::model::RegV>,
    sv0: Seq<crate::model::RegV>,
    r: Result<(), crate::interpreter::AdvancedIllError>,
    sv1: Seq<crate::model::RegV>,
)
    requires
        is_cmp_kind(k),
        cmp_post(k, args, gv, sv0, r, sv1),
        r is Ok,
    ensures
        sv1.len() == sv0.len() + 1,
        sv1.last().name == text_of(args[2]),
        sv1.last().is_variable,
        resolve_operand(args[0], gv, sv0) is Some,
        resolve_operand(args[1], gv, sv0) is Some,
        sv1.last().value == TRUE <==> cmp_holds(
            k,
            resolve_operand(args[0], gv, sv0)->0,
            resolve_operand(args[1], gv, sv0)->0,
        ),
        sv1.last().value == TRUE || sv1.last().value == FALSE,
{
}

/// A `mov` that succeeds leaves the destination container resolving to the
/// moved value: writing then reading the same name observes the write.
pub proof fn law_move_then_read(
    args: Seq<ExprV>,
    gv0: Seq<crate::model::RegV>,
    sv0: Seq<crate::model::RegV>,
    r: Result<(), crate::interpreter::AdvancedIllError>,
    gv1: Seq<crate::model::RegV>,
    sv1: Seq<crate::model::RegV>,
)
    requires
        move_post(args, gv0, sv0, r, gv1, sv1),
        r is Ok,
    ensures
        resolve_operand(args[0], gv0, sv0) is Some,
        crate::model::resolve_val(gv1, sv1, ref_name_of(args[1])) == resolve_operand(
            args[0],
            gv0,
            sv0,
        ),
{
    let name = ref_name_of(args[1]);
    let v = resolve_operand(args[0], gv0, sv0)->0;
    if crate::model::has_reg(sv0, name) {
        let i = crate::model::reg_idx(sv0, name);
        crate::model::lemma_find_reg_from_range(sv0, name, 0);
        assert forall|kk: int| 0 <= kk < i implies sv1[kk].name != name by {
            assert(sv1[kk] == sv0[kk]);
        }
        crate::model::lemma_find_reg_from_is(sv1, name, 0, i);
        assert(sv1[i].value == v);
    } else {
        let i = crate::model::reg_idx(gv0, name);
        crate::model::lemma_find_reg_from_range(gv0, name, 0);
        crate::model::lemma_find_reg_from_range(sv0, name, 0);
        crate::model::lemma_find_reg_from_is(sv1, name, 0, sv1.len() as int);
        assert(!crate::model::has_reg(sv1, name));
        assert forall|kk: int| 0 <= kk < i implies gv1[kk].name != name by {
            assert(gv1[kk] == gv0[kk]);
        }
        crate::model::lemma_find_reg_from_is(gv1, name, 0, i);
        assert(gv1[i].value == v);
    }
}

/// What `mod` does: resolve both values, then bind a fresh local variable
/// to the truncated remainder; a zero divisor is an error.
pub open spec fn modulo_post(
    args: Seq<ExprV>,
    gv: Seq<crate::model::RegV>,
    sv0: Seq<crate::model::RegV>,
    r: Result<(), crate::interpreter::AdvancedIllError>,
    sv1: Seq<crate::model::RegV>,
) -> bool {
    let name = text_of(args[2]);
    match resolve_operand(args[0], gv, sv0) {
        None => {
            &&& sv1 == sv0
            &&& r matches Err(e) && e.error matches crate::interpreter::IllError::NonExistentRegister(
                _,
                _,
            )
        },
        Some(a) => match resolve_operand(args[1], gv, sv0) {
            None => {
                &&& sv1 == sv0
                &&& r matches Err(e) && e.error matches crate::interpreter::IllError::NonExistentRegister(
                    _,
                    _,
                )
            },
            Some(b) => {
                if crate::model::has_reg(gv, name) {
                    &&& sv1 == sv0
                    &&& r matches Err(e) && (e.error matches crate::interpreter::IllError::RegisterRedefinition(
                        _,
                        n,
                        h,
                    ) && n@ == name && (h matches Some(hh) && hh@ == register_hint()))
                } else if crate::model::has_reg(sv0, name) {
                    &&& sv1 == sv0
                    &&& r matches Err(e) && (e.error matches crate::interpreter::IllError::RegisterRedefinition(
                        _,
                        n,
                        h,
                    ) && n@ == name && (h matches Some(hh) && hh@ == variable_hint()))
                } else if b == 0 {
                    &&& sv1 == sv0
                    &&& r matches Err(e) && e.error matches crate::interpreter::IllError::DivisionByZero(
                        _,
                    )
                } else {
                    &&& r is Ok
                    &&& sv1 == sv0.push(
                        crate::model::RegV {
                            name,
                            value: trunc_rem(a as int, b as int) as i64,
                            is_variable: true,
                        },
                    )
                }
            },
        },
    }
}

/// Execute `mod`: bind the truncated remainder to a fresh local variable.
pub fn op_modulo(
    args: &Vec<ExpressionType>,
    file: &crate::interpreter::EnhancedFile,
    rh_err: ReadHead,
    registers: &Vec<crate::interpreter::Register>,
    scope: &mut Vec<crate::interpreter::Register>,
) -> (r: Result<(), crate::interpreter::AdvancedIllError>)
    requires
        args.deep_view().map_values(|e: ExprV| arg_kind(e)) == kind_sig(OpKind::Modulo),
    ensures
        modulo_post(
            args.deep_view(),
            registers.deep_view(),
            old(scope).deep_view(),
            r,
            final(scope).deep_view(),
        ),
        final(scope)@.len() >= old(scope)@.len(),
{
    proof {
        lemma_shape(args.deep_view(), OpKind::Modulo);
        assert(arg_kind(args.deep_view()[0]) == ArgKind::Value);
        assert(arg_kind(args.deep_view()[1]) == ArgKind::Value);
        assert(arg_kind(args.deep_view()[2]) == ArgKind::Text);
        assert(args.deep_view()[0] == args@[0]@);
        assert(args.deep_view()[1] == args@[1]@);
        assert(args.deep_view()[2] == args@[2]@);
    }
    let t_for = match &args[0] {
        ExpressionType::ProbableLiteral(p) => p,
        _ => {
            return Ok(());
        },
    };
    let by = match &args[1] {
        ExpressionType::ProbableLiteral(p) => p,
        _ => {
            return Ok(());
        },
    };
    let identifier = match &args[2] {
        ExpressionType::StringLiteral(s) => s,
        _ => {
            return Ok(());
        },
    };
    let a = match resolve_probable(t_for, file, rh_err, registers, scope) {
        Ok(v) => v,
        Err(e) => {
            return Err(e);
        },
    };
    let b = match resolve_probable(by, file, rh_err, registers, scope) {
        Ok(v) => v,
        Err(e) => {
            return Err(e);
        },
    };
    if crate::interpreter::register_exists_in(registers, identifier) {
        let nm = crate::text::sub_vec(identifier, 0, identifier.len());
        proof {
            assert(nm@ =~= identifier@);
        }
        let err = crate::interpreter::IllError::RegisterRedefinition(
            rh_err,
            nm,
            Some(register_hint_bytes()),
        );
        return Err(crate::interpreter::AdvancedIllError::new(
            err,
            Some(rh_err),
            file.unsafe_clone(),
        ));
    }
    if crate::interpreter::register_exists_in(scope, identifier) {
        let nm = crate::text::sub_vec(identifier, 0, identifier.len());
        proof {
            assert(nm@ =~= identifier@);
        }
        let err = crate::interpreter::IllError::RegisterRedefinition(
            rh_err,
            nm,
            Some(variable_hint_bytes()),
        );
        return Err(crate::interpreter::AdvancedIllError::new(
            err,
            Some(rh_err),
            file.unsafe_clone(),
        ));
    }
    if b == 0 {
        let err = crate::interpreter::IllError::DivisionByZero(rh_err);
        return Err(crate::interpreter::AdvancedIllError::new(
            err,
            Some(rh_err),
            file.unsafe_clone(),
        ));
    }
    let value: i64 = match a.checked_rem(b) {
        Some(v) => v,
        None => 0,
    };
    proof {
        assert(value == trunc_rem(a as int, b as int));
    }
    let ghost before = scope.deep_view();
    let nm = crate::text::sub_vec(identifier, 0, identifier.len());
    proof {
        assert(nm@ =~= identifier@);
    }
    let reg = crate::interpreter::make_register(nm, value, true);
    crate::interpreter::push_register(scope, reg);
    proof {
        assert(scope.deep_view() =~= before.push(
            crate::model::RegV {
                name: text_of(args.deep_view()[2]),
                value,
                is_variable: true,
            },
        ));
    }
    Ok(())
}

/// What `mov` does: resolve the source value and overwrite the destination
/// container, searched local-first.
pub open spec fn move_post(
    args: Seq<ExprV>,
    gv0: Seq<crate::model::RegV>,
    sv0: Seq<crate::model::RegV>,
    r: Result<(), crate::interpreter::AdvancedIllError>,
    gv1: Seq<crate::model::RegV>,
    sv1: Seq<crate::model::RegV>,
) -> bool {
    let name = ref_name_of(args[1]);
    match resolve_operand(args[0], gv0, sv0) {
        None => {
            &&& gv1 == gv0
            &&& sv1 == sv0
            &&& r matches Err(e) && e.error matches crate::interpreter::IllError::NonExistentRegister(
                _,
                _,
            )
        },
        Some(v) => {
            if crate::model::has_reg(sv0, name) {
                &&& r is Ok
                &&& gv1 == gv0
                &&& sv1 == sv0.update(
                    crate::model::reg_idx(sv0, name),
                    crate::model::RegV {
                        value: v,
                        ..sv0[crate::model::reg_idx(sv0, name)]
                    },
                )
            } else if crate::model::has_reg(gv0, name) {
                &&& r is Ok
                &&& sv1 == sv0
                &&& gv1 == gv0.update(
                    crate::model::reg_idx(gv0, name),
                    crate::model::RegV {
                        value: v,
                        ..gv0[crate::model::reg_idx(gv0, name)]
                    },
                )
            } else {
                &&& gv1 == gv0
                &&& sv1 == sv0
                &&& r matches Err(e) && (e.error matches crate::interpreter::IllError::NonExistentRegister(
                    _,
                    n,
                ) && n@ == name)
            }
        },
    }
}

/// Execute `mov`: write a resolved value into a container.
pub fn op_move(
    args: &Vec<ExpressionType>,
    file: &crate::interpreter::EnhancedFile,
    rh_err: ReadHead,
    registers: &mut Vec<crate::interpreter::Register>,
    scope: &mut Vec<crate::interpreter::Register>,
) -> (r: Result<(), crate::interpreter::AdvancedIllError>)
    requires
        args.deep_view().map_values(|e: ExprV| arg_kind(e)) == kind_sig(OpKind::Move),
    ensures
        move_post(
            args.deep_view(),
            old(registers).deep_view(),
            old(scope).deep_view(),
            r,
            final(registers).deep_view(),
            final(scope).deep_view(),
        ),
        final(registers)@.len() == old(registers)@.len(),
        final(scope)@.len() == old(scope)@.len(),
{
    proof {
        lemma_shape(args.deep_view(), OpKind::Move);
        assert(arg_kind(args.deep_view()[0]) == ArgKind::Value);
        assert(arg_kind(args.deep_view()[1]) == ArgKind::Container);
        assert(args.deep_view()[0] == args@[0]@);
        assert(args.deep_view()[1] == args@[1]@);
    }
    let value_x = match &args[0] {
        ExpressionType::ProbableLiteral(p) => p,
        _ => {
            return Ok(());
        },
    };
    let identifier = match &args[1] {
        ExpressionType::ContainerReference(s) => s,
        _ => {
            return Ok(());
        },
    };
    let v = match resolve_probable(value_x, file, rh_err, registers, scope) {
        Ok(v) => v,
        Err(e) => {
            return Err(e);
        },
    };
    match crate::interpreter::find_register_index(scope, identifier) {
        Some(i) => {
            crate::interpreter::set_register_value(scope, i, v);
            Ok(())
        },
        None => match crate::interpreter::find_register_index(registers, identifier) {
            Some(i) => {
                crate::interpreter::set_register_value(registers, i, v);
                Ok(())
            },
            None => {
                let nm = crate::text::sub_vec(identifier, 0, identifier.len());
                proof {
                    assert(nm@ =~= identifier@);
                }
                let err = crate::interpreter::IllError::NonExistentRegister(rh_err, nm);
                Err(crate::interpreter::AdvancedIllError::new(
                    err,
                    Some(rh_err),
                    file.unsafe_clone(),
                ))
            },
        },
    }
}

/// What `add` does: resolve the source value and accumulate it into the
/// destination container (wrapping on overflow), searched local-first.
pub open spec fn accumulate_post(
    args: Seq<ExprV>,
    gv0: Seq<crate::model::RegV>,
    sv0: Seq<crate::model::RegV>,
    r: Result<(), crate::interpreter::AdvancedIllError>,
    gv1: Seq<crate::model::RegV>,
    sv1: Seq<crate::model::RegV>,
) -> bool {
    let name = ref_name_of(args[1]);
    match resolve_operand(args[0], gv0, sv0) {
        None => {
            &&& gv1 == gv0
            &&& sv1 == sv0
            &&& r matches Err(e) && e.error matches crate::interpreter::IllError::NonExistentRegister(
                _,
                _,
            )
        },
        Some(v) => {
            if crate::model::has_reg(sv0, name) {
                &&& r is Ok
                &&& gv1 == gv0
                &&& sv1 == sv0.update(
                    crate::model::reg_idx(sv0, name),
                    crate::model::RegV {
                        value: sv0[crate::model::reg_idx(sv0, name)].value.wrapping_add(v),
                        ..sv0[crate::model::reg_idx(sv0, name)]
                    },
                )
            } else if crate::model::has_reg(gv0, name) {
                &&& r is Ok
                &&& sv1 == sv0
                &&& gv1 == gv0.update(
                    crate::model::reg_idx(gv0, name),
                    crate::model::RegV {
                        value: gv0[crate::model::reg_idx(gv0, name)].value.wrapping_add(v),
                        ..gv0[crate::model::reg_idx(gv0, name)]
                    },
                )
            } else {
                &&& gv1 == gv0
                &&& sv1 == sv0
                &&& r matches Err(e) && (e.error matches crate::interpreter::IllError::NonExistentRegister(
                    _,
                    n,
                ) && n@ == name)
            }
        },
    }
}

/// Execute `add`: accumulate a resolved value into a container.
pub fn op_accumulate(
    args: &Vec<ExpressionType>,
    file: &crate::interpreter::EnhancedFile,
    rh_err: ReadHead,
    registers: &mut Vec<crate::interpreter::Register>,
    scope: &mut Vec<crate::interpreter::Register>,
) -> (r: Result<(), crate::interpreter::AdvancedIllError>)
    requires
        args.deep_view().map_values(|e: ExprV| arg_kind(e)) == kind_sig(OpKind::Accumulate),
    ensures
        accumulate_post(
            args.deep_view(),
            old(registers).deep_view(),
            old(scope).deep_view(),
            r,
            final(registers).deep_view(),
            final(scope).deep_view(),
        ),
        final(registers)@.len() == old(registers)@.len(),
        final(scope)@.len() == old(scope)@.len(),
{
    proof {
        lemma_shape(args.deep_view(), OpKind::Accumulate);
        assert(arg_kind(args.deep_view()[0]) == ArgKind::Value);
        assert(arg_kind(args.deep_view()[1]) == ArgKind::Container);
        assert(args.deep_view()[0] == args@[0]@);
        assert(args.deep_view()[1] == args@[1]@);
    }
    let value_x = match &args[0] {
        ExpressionType::ProbableLiteral(p) => p,
        _ => {
            return Ok(());
        },
    };
    let identifier = match &args[1] {
        ExpressionType::ContainerReference(s) => s,
        _ => {
            return Ok(());
        },
    };
    let v = match resolve_probable(value_x, file, rh_err, registers, scope) {
        Ok(v) => v,
        Err(e) => {
            return Err(e);
        },
    };
    match crate::interpreter::find_register_index(scope, identifier) {
        Some(i) => {
            crate::interpreter::add_register_value(scope, i, v);
            Ok(())
        },
        None => match crate::interpreter::find_register_index(registers, identifier) {
            Some(i) => {
                crate::interpreter::add_register_value(registers, i, v);
                Ok(())
            },
            None => {
                let nm = crate::text::sub_vec(identifier, 0, identifier.len());
                proof {
                    assert(nm@ =~= identifier@);
                }
                let err = crate::interpreter::IllError::NonExistentRegister(rh_err, nm);
                Err(crate::interpreter::AdvancedIllError::new(
                    err,
                    Some(rh_err),
                    file.unsafe_clone(),
                ))
            },
        },
    }
}

/// What the display opcodes do: print the container's value in decimal,
/// with a trailing newline for the line-printing form.
pub open spec fn show_post(
    args: Seq<ExprV>,
    gv: Seq<crate::model::RegV>,
    sv: Seq<crate::model::RegV>,
    ov0: Seq<u8>,
    r: Result<(), crate::interpreter::AdvancedIllError>,
    ov1: Seq<u8>,
    nl: bool,
) -> bool {
    let name = ref_name_of(args[0]);
    match crate::model::resolve_val(gv, sv, name) {
        None => {
            &&& ov1 == ov0
            &&& r matches Err(e) && (e.error matches crate::interpreter::IllError::NonExistentRegister(
                _,
                n,
            ) && n@ == name)
        },
        Some(v) => {
            &&& r is Ok
            &&& ov1 == ov0 + crate::text::dec_repr(v as int) + (if nl {
                seq![10u8]
            } else {
                Seq::<u8>::empty()
            })
        },
    }
}

/// Execute `dis` or `dsl`: print a container's value.
pub fn op_show(
    args: &Vec<ExpressionType>,
    file: &crate::interpreter::EnhancedFile,
    rh_err: ReadHead,
    registers: &Vec<crate::interpreter::Register>,
    scope: &Vec<crate::interpreter::Register>,
    output: &mut Vec<u8>,
    nl: bool,
) -> (r: Result<(), crate::interpreter::AdvancedIllError>)
    requires
        args.deep_view().map_values(|e: ExprV| arg_kind(e)) == kind_sig(OpKind::Show),
    ensures
        show_post(
            args.deep_view(),
            registers.deep_view(),
            scope.deep_view(),
            old(output)@,
            r,
            final(output)@,
            nl,
        ),
{
    proof {
        lemma_shape(args.deep_view(), OpKind::Show);
        assert(arg_kind(args.deep_view()[0]) == ArgKind::Container);
        assert(args.deep_view()[0] == args@[0]@);
    }
    let identifier = match &args[0] {
        ExpressionType::ContainerReference(s) => s,
        _ => {
            return Ok(());
        },
    };
    match resolve_container(identifier, registers, scope) {
        Some(v) => {
            let ghost base = output@;
            let rendered = crate::text::format_value(v);
            emit_bytes(output, &rendered);
            if nl {
                output.push(crate::scan::NEWLINE);
                proof {
                    assert(output@ =~= base + crate::text::dec_repr(v as int) + seq![10u8]);
                }
            } else {
                proof {
                    assert(output@ =~= base + crate::text::dec_repr(v as int)
                        + Seq::<u8>::empty());
                }
            }
            Ok(())
        },
        None => {
            let nm = crate::text::sub_vec(identifier, 0, identifier.len());
            proof {
                assert(nm@ =~= identifier@);
            }
            let err = crate::interpreter::IllError::NonExistentRegister(rh_err, nm);
            Err(crate::interpreter::AdvancedIllError::new(err, Some(rh_err), file.unsafe_clone()))
        },
    }
}

/// What `neg` does: flip the container's value between the two boolean
/// sentinels, searched local-first.
pub open spec fn negate_post(
    args: Seq<ExprV>,
    gv0: Seq<crate::model::RegV>,
    sv0: Seq<crate::model::RegV>,
    r: Result<(), crate::interpreter::AdvancedIllError>,
    gv1: Seq<crate::model::RegV>,
    sv1: Seq<crate::model::RegV>,
) -> bool {
    let name = ref_name_of(args[0]);
    if crate::model::has_reg(sv0, name) {
        let old_v = sv0[crate::model::reg_idx(sv0, name)].value;
        &&& r is Ok
        &&& gv1 == gv0
        &&& sv1 == sv0.update(
            crate::model::reg_idx(sv0, name),
            crate::model::RegV {
                value: if old_v == TRUE {
                    FALSE
                } else {
                    TRUE
                },
                ..sv0[crate::model::reg_idx(sv0, name)]
            },
        )
    } else if crate::model::has_reg(gv0, name) {
        let old_v = gv0[crate::model::reg_idx(gv0, name)].value;
        &&& r is Ok
        &&& sv1 == sv0
        &&& gv1 == gv0.update(
            crate::model::reg_idx(gv0, name),
            crate::model::RegV {
                value: if old_v == TRUE {
                    FALSE
                } else {
                    TRUE
                },
                ..gv0[crate::model::reg_idx(gv0, name)]
            },
        )
    } else {
        &&& gv1 == gv0
        &&& sv1 == sv0
        &&& r matches Err(e) && (e.error matches crate::interpreter::IllError::NonExistentRegister(
            _,
            n,
        ) && n@ == name)
    }
}

/// Execute `neg`: flip a container between the boolean sentinels.
pub fn op_negate(
    args: &Vec<ExpressionType>,
    file: &crate::interpreter::EnhancedFile,
    rh_err: ReadHead,
    registers: &mut Vec<crate::interpreter::Register>,
    scope: &mut Vec<crate::interpreter::Register>,
) -> (r: Result<(), crate::interpreter::AdvancedIllError>)
    requires
        args.deep_view().map_values(|e: ExprV| arg_kind(e)) == kind_sig(OpKind::Negate),
    ensures
        negate_post(
            args.deep_view(),
            old(registers).deep_view(),
            old(scope).deep_view(),
            r,
            final(registers).deep_view(),
            final(scope).deep_view(),
        ),
        final(registers)@.len() == old(registers)@.len(),
        final(scope)@.len() == old(scope)@.len(),
{
    proof {
        lemma_shape(args.deep_view(), OpKind::Negate);
        assert(arg_kind(args.deep_view()[0]) == ArgKind::Container);
        assert(args.deep_view()[0] == args@[0]@);
    }
    let identifier = match &args[0] {
        ExpressionType::ContainerReference(s) => s,
        _ => {
            return Ok(());
        },
    };
    match crate::interpreter::find_register_index(scope, identifier) {
        Some(i) => {
            let cur = scope[i].value;
            let nv: i64 = if cur == TRUE {
                FALSE
            } else {
                TRUE
            };
            crate::interpreter::set_register_value(scope, i, nv);
            Ok(())
        },
        None => match crate::interpreter::find_register_index(registers, identifier) {
            Some(i) => {
                let cur = registers[i].value;
                let nv: i64 = if cur == TRUE {
                    FALSE
                } else {
                    TRUE
                };
                crate::interpreter::set_register_value(registers, i, nv);
                Ok(())
            },
            None => {
                let nm = crate::text::sub_vec(identifier, 0, identifier.len());
                proof {
                    assert(nm@ =~= identifier@);
                }
                let err = crate::interpreter::IllError::NonExistentRegister(rh_err, nm);
                Err(crate::interpreter::AdvancedIllError::new(
                    err,
                    Some(rh_err),
                    file.unsafe_clone(),
                ))
            },
        },
    }
}

/// What `del` does: remove a local variable from the scope.
pub open spec fn delete_post(
    args: Seq<ExprV>,
    sv0: Seq<crate::model::RegV>,
    r: Result<(), crate::interpreter::AdvancedIllError>,
    sv1: Seq<crate::model::RegV>,
) -> bool {
    let name = ref_name_of(args[0]);
    if crate::model::has_reg(sv0, name) {
        &&& r is Ok
        &&& sv1 == sv0.remove(crate::model::reg_idx(sv0, name))
    } else {
        &&& sv1 == sv0
        &&& r matches Err(e) && (e.error matches crate::interpreter::IllError::NonExistentRegister(
            _,
            n,
        ) && n@ == name)
    }
}

/// Execute `del`: remove a local variable.
pub fn op_delete(
    args: &Vec<ExpressionType>,
    file: &crate::interpreter::EnhancedFile,
    rh_err: ReadHead,
    scope: &mut Vec<crate::interpreter::Register>,
) -> (r: Result<(), crate::interpreter::AdvancedIllError>)
    requires
        args.deep_view().map_values(|e: ExprV| arg_kind(e)) == kind_sig(OpKind::Delete),
    ensures
        delete_post(args.deep_view(), old(scope).deep_view(), r, final(scope).deep_view()),
        final(scope)@.len() <= old(scope)@.len(),
{
    proof {
        lemma_shape(args.deep_view(), OpKind::Delete);
        assert(arg_kind(args.deep_view()[0]) == ArgKind::VarRef);
        assert(args.deep_view()[0] == args@[0]@);
    }
    let identifier = match &args[0] {
        ExpressionType::VariableReference(s) => s,
        _ => {
            return Ok(());
        },
    };
    match crate::interpreter::find_register_index(scope, identifier) {
        Some(i) => {
            crate::interpreter::remove_register(scope, i);
            Ok(())
        },
        None => {
            let nm = crate::text::sub_vec(identifier, 0, identifier.len());
            proof {
                assert(nm@ =~= identifier@);
            }
            let err = crate::interpreter::IllError::NonExistentRegister(rh_err, nm);
            Err(crate::interpreter::AdvancedIllError::new(err, Some(rh_err), file.unsafe_clone()))
        },
    }
}

/// What the print opcodes do: append the literal text, with a trailing
/// newline for the line-printing form.
pub open spec fn print_post(
    args: Seq<ExprV>,
    ov0: Seq<u8>,
    r: Result<(), crate::interpreter::AdvancedIllError>,
    ov1: Seq<u8>,
    nl: bool,
) -> bool {
    &&& r is Ok
    &&& ov1 == ov0 + text_of(args[0]) + (if nl {
        seq![10u8]
    } else {
        Seq::<u8>::empty()
    })
}

/// Execute `pt` or `ptl`: print literal text.
pub fn op_print(args: &Vec<ExpressionType>, output: &mut Vec<u8>, nl: bool) -> (r: Result<
    (),
    crate::interpreter::AdvancedIllError,
>)
    requires
        args.deep_view().map_values(|e: ExprV| arg_kind(e)) == kind_sig(OpKind::Print),
    ensures
        print_post(args.deep_view(), old(output)@, r, final(output)@, nl),
{
    proof {
        lemma_shape(args.deep_view(), OpKind::Print);
        assert(arg_kind(args.deep_view()[0]) == ArgKind::Text);
        assert(args.deep_view()[0] == args@[0]@);
    }
    let s = match &args[0] {
        ExpressionType::StringLiteral(s) => s,
        _ => {
            return Ok(());
        },
    };
    let ghost base = output@;
    emit_bytes(output, s);
    if nl {
        output.push(crate::scan::NEWLINE);
        proof {
            assert(output@ =~= base + text_of(args.deep_view()[0]) + seq![10u8]);
        }
    } else {
        proof {
            assert(output@ =~= base + text_of(args.deep_view()[0]) + Seq::<u8>::empty());
        }
    }
    Ok(())
}

// ------------------------------------------------------------------
// The evaluator
// ------------------------------------------------------------------

/// What every evaluation step preserves: the set of global register names
/// never changes, unique names stay unique in both tables, and output is
/// only ever appended to — nothing already printed is rolled back.
pub open spec fn frame_ok(
    gv0: Seq<crate::model::RegV>,
    sv0: Seq<crate::model::RegV>,
    ov0: Seq<u8>,
    gv1: Seq<crate::model::RegV>,
    sv1: Seq<crate::model::RegV>,
    ov1: Seq<u8>,
) -> bool {
    &&& names_of(gv1) == names_of(gv0)
    &&& crate::model::unique_reg_names(gv0) ==> crate::model::unique_reg_names(gv1)
    &&& crate::model::unique_reg_names(sv0) ==> crate::model::unique_reg_names(sv1)
    &&& ov0.len() <= ov1.len()
    &&& ov1.subrange(0, ov0.len() as int) == ov0
}

/// A state preserves its own frame.
pub proof fn lemma_frame_same(
    gv: Seq<crate::model::RegV>,
    sv: Seq<crate::model::RegV>,
    ov: Seq<u8>,
)
    ensures
        frame_ok(gv, sv, ov, gv, sv, ov),
{
    assert(ov.subrange(0, ov.len() as int) =~= ov);
}

/// Frames compose.
pub proof fn lemma_frame_trans(
    gv0: Seq<crate::model::RegV>,
    sv0: Seq<crate::model::RegV>,
    ov0: Seq<u8>,
    gv1: Seq<crate::model::RegV>,
    sv1: Seq<crate::model::RegV>,
    ov1: Seq<u8>,
    gv2: Seq<crate::model::RegV>,
    sv2: Seq<crate::model::RegV>,
    ov2: Seq<u8>,
)
    requires
        frame_ok(gv0, sv0, ov0, gv1, sv1, ov1),
        frame_ok(gv1, sv1, ov1, gv2, sv2, ov2),
    ensures
        frame_ok(gv0, sv0, ov0, gv2, sv2, ov2),
{
    assert(ov2.subrange(0, ov0.len() as int) =~= ov2.subrange(0, ov1.len() as int).subrange(
        0,
        ov0.len() as int,
    ));
}

/// Appending to the output preserves every earlier prefix.
pub proof fn lemma_output_extend(ov0: Seq<u8>, tail: Seq<u8>)
    ensures
        (ov0 + tail).subrange(0, ov0.len() as int) == ov0,
        ov0.subrange(0, ov0.len() as int) == ov0,
{
    assert((ov0 + tail).subrange(0, ov0.len() as int) =~= ov0);
    assert(ov0.subrange(0, ov0.len() as int) =~= ov0);
}

/// Which branch the conditional opcode takes: the first instruction when
/// the condition's result is exactly the true sentinel, else the second.
pub fn select_branch(cond_res: i64) -> (then_branch: bool)
    ensures
        then_branch == (cond_res == TRUE),
{
    cond_res == TRUE
}

/// The branch the conditional opcode runs, among the indices of its two
/// branch instructions.
pub open spec fn chosen_branch(cond_res: i64, then_at: int, else_at: int) -> int {
    if cond_res == TRUE {
        then_at
    } else {
        else_at
    }
}

/// The conditional opcode runs exactly one of its two branches, whatever
/// the condition instruction's result: the first exactly when the result is
/// the true sentinel, the second exactly otherwise — never both, never
/// neither.
pub proof fn law_branch_exclusive(cond_res: i64, then_at: int, else_at: int)
    requires
        then_at != else_at,
    ensures
        chosen_branch(cond_res, then_at, else_at) == then_at <==> cond_res == TRUE,
        chosen_branch(cond_res, then_at, else_at) == else_at <==> cond_res != TRUE,
        chosen_branch(cond_res, then_at, else_at) == then_at || chosen_branch(
            cond_res,
            then_at,
            else_at,
        ) == else_at,
        !(chosen_branch(cond_res, then_at, else_at) == then_at && chosen_branch(
            cond_res,
            then_at,
            else_at,
        ) == else_at),
{
}


/// The error kinds evaluation can produce: resolution failures, name
/// collisions, a zero divisor, or the exhausted depth bound.  The
/// structural parse-time kinds never arise at run time.
pub open spec fn is_runtime_error(e: crate::interpreter::IllError) -> bool {
    ||| e matches crate::interpreter::IllError::NonExistentRegister(_, _)
    ||| e matches crate::interpreter::IllError::NonExistentInstruction(_, _)
    ||| e matches crate::interpreter::IllError::RegisterRedefinition(_, _, _)
    ||| e matches crate::interpreter::IllError::DivisionByZero(_)
    ||| e matches crate::interpreter::IllError::StackOverflow(_)
}

/// What executing one opcode guarantees: the evaluation frame, and the
/// exact per-opcode semantics of its mnemonic.  The control-flow opcodes
/// are constrained relationally here (their full call chains are stated on
/// the executor contracts themselves).
pub open spec fn op_exec_post(
    op: OpCodeV,
    iv: Seq<crate::model::InstV>,
    gv0: Seq<crate::model::RegV>,
    sv0: Seq<crate::model::RegV>,
    ov0: Seq<u8>,
    r: Result<(), crate::interpreter::AdvancedIllError>,
    gv1: Seq<crate::model::RegV>,
    sv1: Seq<crate::model::RegV>,
    ov1: Seq<u8>,
) -> bool {
    let k = op_kind_of(op.name);
    let args = op.arguments;
    &&& frame_ok(gv0, sv0, ov0, gv1, sv1, ov1)
    &&& (r matches Err(e) ==> is_runtime_error(e.error))
    &&& (k == OpKind::Make ==> make_post(args, gv0, sv0, r, sv1) && gv1 == gv0 && ov1 == ov0)
    &&& (is_cmp_kind(k) ==> cmp_post(k, args, gv0, sv0, r, sv1) && gv1 == gv0 && ov1 == ov0)
    &&& (k == OpKind::Modulo ==> modulo_post(args, gv0, sv0, r, sv1) && gv1 == gv0 && ov1 == ov0)
    &&& (k == OpKind::Move ==> move_post(args, gv0, sv0, r, gv1, sv1) && ov1 == ov0)
    &&& (k == OpKind::Accumulate ==> accumulate_post(args, gv0, sv0, r, gv1, sv1) && ov1 == ov0)
    &&& (k == OpKind::Show ==> show_post(args, gv0, sv0, ov0, r, ov1, false) && gv1 == gv0 && sv1
        == sv0)
    &&& (k == OpKind::ShowLine ==> show_post(args, gv0, sv0, ov0, r, ov1, true) && gv1 == gv0
        && sv1 == sv0)
    &&& (k == OpKind::Negate ==> negate_post(args, gv0, sv0, r, gv1, sv1) && ov1 == ov0)
    &&& (k == OpKind::Delete ==> delete_post(args, sv0, r, sv1) && gv1 == gv0 && ov1 == ov0)
    &&& (k == OpKind::Print ==> print_post(args, ov0, r, ov1, false) && gv1 == gv0 && sv1 == sv0)
    &&& (k == OpKind::PrintLine ==> print_post(args, ov0, r, ov1, true) && gv1 == gv0 && sv1
        == sv0)
    &&& (k == OpKind::Unknown ==> r is Ok && gv1 == gv0 && sv1 == sv0 && ov1 == ov0)
    &&& (k == OpKind::Invoke ==> {
        &&& (!crate::model::has_inst(iv, inst_name_of(args[0])) ==> (gv1 == gv0 && sv1 == sv0
            && ov1 == ov0 && (r matches Err(e) && (e.error matches
        crate::interpreter::IllError::NonExistentInstruction(_, n) && n@ == inst_name_of(
            args[0],
        )))))
        &&& (r is Ok ==> crate::model::has_inst(iv, inst_name_of(args[0])))
    })
    &&& (k == OpKind::InvokeBind ==> {
        let bind = text_of(args[1]);
        &&& (crate::model::has_reg(gv0, bind) ==> (gv1 == gv0 && sv1 == sv0 && ov1 == ov0 && (
        r matches Err(e) && (e.error matches
        crate::interpreter::IllError::RegisterRedefinition(_, n, h) && n@ == bind && (h matches
        Some(hh) && hh@ == register_hint())))))
        &&& ((!crate::model::has_reg(gv0, bind) && crate::model::has_reg(sv0, bind)) ==> (gv1
            == gv0 && sv1 == sv0 && ov1 == ov0 && (r matches Err(e) && (e.error matches
        crate::interpreter::IllError::RegisterRedefinition(_, n, h) && n@ == bind && (h matches
        Some(hh) && hh@ == variable_hint())))))
        &&& ((!crate::model::has_reg(gv0, bind) && !crate::model::has_reg(sv0, bind)
            && !crate::model::has_inst(iv, inst_name_of(args[0]))) ==> (gv1 == gv0 && sv1 == sv0
            && ov1 == ov0 && (r matches Err(e) && (e.error matches
        crate::interpreter::IllError::NonExistentInstruction(_, n) && n@ == inst_name_of(
            args[0],
        )))))
        &&& (r is Ok ==> {
            &&& crate::model::has_inst(iv, inst_name_of(args[0]))
            &&& sv1.len() > 0
            &&& sv1.last().name == bind
            &&& sv1.last().is_variable
            &&& !crate::model::has_reg(sv1.drop_last(), bind)
            &&& crate::model::has_reg(sv1.drop_last(), crate::interpreter::res_name())
            &&& sv1.last().value == crate::model::reg_val(
                sv1.drop_last(),
                crate::interpreter::res_name(),
            )
        })
    })
    &&& (k == OpKind::Branch ==> (r is Ok ==> crate::model::has_inst(iv, inst_name_of(args[0]))
        && crate::model::has_inst(iv, inst_name_of(args[1])) && crate::model::has_inst(
        iv,
        inst_name_of(args[2]),
    )))
    &&& (k == OpKind::ForLoop ==> {
        let var = text_of(args[0]);
        &&& (crate::model::has_reg(gv0, var) ==> (gv1 == gv0 && sv1 == sv0 && ov1 == ov0 && (
        r matches Err(e) && (e.error matches
        crate::interpreter::IllError::RegisterRedefinition(_, n, h) && n@ == var && (h matches
        Some(hh) && hh@ == register_hint())))))
        &&& ((!crate::model::has_reg(gv0, var) && crate::model::has_reg(sv0, var)) ==> (gv1
            == gv0 && sv1 == sv0 && ov1 == ov0 && (r matches Err(e) && (e.error matches
        crate::interpreter::IllError::RegisterRedefinition(_, n, h) && n@ == var && (h matches
        Some(hh) && hh@ == variable_hint())))))
        &&& ((!crate::model::has_reg(gv0, var) && !crate::model::has_reg(sv0, var)
            && !crate::model::has_inst(iv, inst_name_of(args[4]))) ==> (gv1 == gv0 && sv1 == sv0
            && ov1 == ov0 && (r matches Err(e) && (e.error matches
        crate::interpreter::IllError::NonExistentInstruction(_, n) && n@ == inst_name_of(
            args[4],
        )))))
        &&& (crate::model::unique_reg_names(sv0) ==> (r is Ok ==> !crate::model::has_reg(
            sv1,
            var,
        )))
    })
}

/// Running a list of opcodes in order: each step satisfies its opcode's
/// semantics from the state the previous step left; the first error aborts
/// the run, leaving the state of the failing step.
pub open spec fn run_codes_post(
    codes: Seq<OpCodeV>,
    iv: Seq<crate::model::InstV>,
    gv0: Seq<crate::model::RegV>,
    sv0: Seq<crate::model::RegV>,
    ov0: Seq<u8>,
    r: Result<(), crate::interpreter::AdvancedIllError>,
    gv1: Seq<crate::model::RegV>,
    sv1: Seq<crate::model::RegV>,
    ov1: Seq<u8>,
) -> bool
    decreases codes.len(),
{
    if codes.len() == 0 {
        &&& r is Ok
        &&& gv1 == gv0
        &&& sv1 == sv0
        &&& ov1 == ov0
    } else {
        exists|
            gm: Seq<crate::model::RegV>,
            sm: Seq<crate::model::RegV>,
            om: Seq<u8>,
            r0: Result<(), crate::interpreter::AdvancedIllError>,
        |
            {
                &&& #[trigger] op_exec_post(codes[0], iv, gv0, sv0, ov0, r0, gm, sm, om)
                &&& if r0 is Ok {
                    run_codes_post(codes.drop_first(), iv, gm, sm, om, r, gv1, sv1, ov1)
                } else {
                    r == r0 && gv1 == gm && sv1 == sm && ov1 == om
                }
            }
    }
}

/// Running one instruction through a shared scope: its opcodes run in
/// order with first-error-abort semantics, and on success the result is
/// the final value of the scope's `res` slot (its absence is itself an
/// error).
pub open spec fn invoke_post(
    iv: Seq<crate::model::InstV>,
    inst: crate::model::InstV,
    gv0: Seq<crate::model::RegV>,
    sv0: Seq<crate::model::RegV>,
    ov0: Seq<u8>,
    r: Result<i64, crate::interpreter::AdvancedIllError>,
    gv1: Seq<crate::model::RegV>,
    sv1: Seq<crate::model::RegV>,
    ov1: Seq<u8>,
) -> bool {
    exists|r0: Result<(), crate::interpreter::AdvancedIllError>|
        {
            &&& #[trigger] run_codes_post(inst.codes, iv, gv0, sv0, ov0, r0, gv1, sv1, ov1)
            &&& match r0 {
                Result::Err(e) => r == Err::<i64, crate::interpreter::AdvancedIllError>(e),
                Result::Ok(_) => if crate::model::has_reg(
                    sv1,
                    crate::interpreter::res_name(),
                ) {
                    r == Ok::<i64, crate::interpreter::AdvancedIllError>(
                        crate::model::reg_val(sv1, crate::interpreter::res_name()),
                    )
                } else {
                    r matches Err(e2) && (e2.error matches
                    crate::interpreter::IllError::NonExistentRegister(_, n) && n@
                        == crate::interpreter::res_name())
                },
            }
        }
}

/// Extending a successful run by one more executed opcode.
pub proof fn lemma_run_codes_snoc(
    codes: Seq<OpCodeV>,
    iv: Seq<crate::model::InstV>,
    gv0: Seq<crate::model::RegV>,
    sv0: Seq<crate::model::RegV>,
    ov0: Seq<u8>,
    gm: Seq<crate::model::RegV>,
    sm: Seq<crate::model::RegV>,
    om: Seq<u8>,
    op: OpCodeV,
    r1: Result<(), crate::interpreter::AdvancedIllError>,
    gv1: Seq<crate::model::RegV>,
    sv1: Seq<crate::model::RegV>,
    ov1: Seq<u8>,
)
    requires
        run_codes_post(
            codes,
            iv,
            gv0,
            sv0,
            ov0,
            Ok::<(), crate::interpreter::AdvancedIllError>(()),
            gm,
            sm,
            om,
        ),
        op_exec_post(op, iv, gm, sm, om, r1, gv1, sv1, ov1),
    ensures
        run_codes_post(codes.push(op), iv, gv0, sv0, ov0, r1, gv1, sv1, ov1),
    decreases codes.len(),
{
    let pushed = codes.push(op);
    if codes.len() == 0 {
        assert(pushed[0] == op);
        assert(pushed.drop_first() =~= Seq::<OpCodeV>::empty());
        assert(op_exec_post(pushed[0], iv, gv0, sv0, ov0, r1, gv1, sv1, ov1));
        if r1 is Ok {
            assert(run_codes_post(pushed.drop_first(), iv, gv1, sv1, ov1, r1, gv1, sv1, ov1));
        }
    } else {
        let (g_a, s_a, o_a, r_a): (
            Seq<crate::model::RegV>,
            Seq<crate::model::RegV>,
            Seq<u8>,
            Result<(), crate::interpreter::AdvancedIllError>,
        ) = choose|
            g_a: Seq<crate::model::RegV>,
            s_a: Seq<crate::model::RegV>,
            o_a: Seq<u8>,
            r_a: Result<(), crate::interpreter::AdvancedIllError>,
        |
            {
                &&& #[trigger] op_exec_post(codes[0], iv, gv0, sv0, ov0, r_a, g_a, s_a, o_a)
                &&& if r_a is Ok {
                    run_codes_post(codes.drop_first(), iv, g_a, s_a, o_a, Ok::<
                        (),
                        crate::interpreter::AdvancedIllError,
                    >(()), gm, sm, om)
                } else {
                    Ok::<(), crate::interpreter::AdvancedIllError>(()) == r_a && gm == g_a && sm
                        == s_a && om == o_a
                }
            };
        assert(r_a is Ok);
        lemma_run_codes_snoc(
            codes.drop_first(),
            iv,
            g_a,
            s_a,
            o_a,
            gm,
            sm,
            om,
            op,
            r1,
            gv1,
            sv1,
            ov1,
        );
        assert(pushed[0] == codes[0]);
        assert(pushed.drop_first() =~= codes.drop_first().push(op));
        assert(op_exec_post(pushed[0], iv, gv0, sv0, ov0, r_a, g_a, s_a, o_a));
    }
}


/// A failing step aborts the whole run: whatever opcodes would have
/// followed are never examined.
pub proof fn lemma_run_codes_abort(
    prefix: Seq<OpCodeV>,
    op: OpCodeV,
    tail: Seq<OpCodeV>,
    iv: Seq<crate::model::InstV>,
    gv0: Seq<crate::model::RegV>,
    sv0: Seq<crate::model::RegV>,
    ov0: Seq<u8>,
    gm: Seq<crate::model::RegV>,
    sm: Seq<crate::model::RegV>,
    om: Seq<u8>,
    r1: Result<(), crate::interpreter::AdvancedIllError>,
    gv1: Seq<crate::model::RegV>,
    sv1: Seq<crate::model::RegV>,
    ov1: Seq<u8>,
)
    requires
        run_codes_post(
            prefix,
            iv,
            gv0,
            sv0,
            ov0,
            Ok::<(), crate::interpreter::AdvancedIllError>(()),
            gm,
            sm,
            om,
        ),
        op_exec_post(op, iv, gm, sm, om, r1, gv1, sv1, ov1),
        !(r1 is Ok),
    ensures
        run_codes_post(prefix + seq![op] + tail, iv, gv0, sv0, ov0, r1, gv1, sv1, ov1),
    decreases prefix.len(),
{
    let whole = prefix + seq![op] + tail;
    if prefix.len() == 0 {
        assert(whole[0] == op);
        assert(op_exec_post(whole[0], iv, gv0, sv0, ov0, r1, gv1, sv1, ov1));
    } else {
        let (g_a, s_a, o_a, r_a): (
            Seq<crate::model::RegV>,
            Seq<crate::model::RegV>,
            Seq<u8>,
            Result<(), crate::interpreter::AdvancedIllError>,
        ) = choose|
            g_a: Seq<crate::model::RegV>,
            s_a: Seq<crate::model::RegV>,
            o_a: Seq<u8>,
            r_a: Result<(), crate::interpreter::AdvancedIllError>,
        |
            {
                &&& #[trigger] op_exec_post(prefix[0], iv, gv0, sv0, ov0, r_a, g_a, s_a, o_a)
                &&& if r_a is Ok {
                    run_codes_post(prefix.drop_first(), iv, g_a, s_a, o_a, Ok::<
                        (),
                        crate::interpreter::AdvancedIllError,
                    >(()), gm, sm, om)
                } else {
                    Ok::<(), crate::interpreter::AdvancedIllError>(()) == r_a && gm == g_a && sm
                        == s_a && om == o_a
                }
            };
        assert(r_a is Ok);
        lemma_run_codes_abort(
            prefix.drop_first(),
            op,
            tail,
            iv,
            g_a,
            s_a,
            o_a,
            gm,
            sm,
            om,
            r1,
            gv1,
            sv1,
            ov1,
        );
        assert(whole[0] == prefix[0]);
        assert(whole.drop_first() =~= prefix.drop_first() + seq![op] + tail);
        assert(op_exec_post(whole[0], iv, gv0, sv0, ov0, r_a, g_a, s_a, o_a));
    }
}

impl OpCode {
    /// Resolve a value operand against the registers and the local scope.
    /// Relied on by every opcode that takes a literal-or-reference operand.
    pub fn get_absolute_value(
        &self,
        file: &crate::interpreter::EnhancedFile,
        rh_err: ReadHead,
        ei: &ProbableValue,
        registers: &Vec<crate::interpreter::Register>,
        scope: &Vec<crate::interpreter::Register>,
    ) -> (r: Result<i64, crate::interpreter::AdvancedIllError>)
        ensures
            ({
                let res = resolve_operand(pv_view(*ei), registers.deep_view(), scope.deep_view());
                &&& (r matches Ok(v) ==> res == Some(v))
                &&& (r is Ok <==> res is Some)
                &&& (r matches Err(e) ==> res is None && (e.error matches
                crate::interpreter::IllError::NonExistentRegister(h, n) && h == rh_err && n@
                    == pv_view(*ei)->ProbableName_0) && e.head == Some(rh_err) && e.file@ == file@)
            }),
    {
        resolve_probable(ei, file, rh_err, registers, scope)
    }

    /// Execute one opcode invocation against the global registers and the
    /// enclosing call's local scope, recursing into sub-instructions for
    /// the control-flow opcodes; `fuel` bounds the call depth (each
    /// counting loop carries its own iteration budget), and exhausting
    /// either is a `StackOverflow` error.
    #[verifier::rlimit(100)]
    pub fn execute(
        &self,
        file: &crate::interpreter::EnhancedFile,
        registers: &mut Vec<crate::interpreter::Register>,
        insts: &Vec<crate::interpreter::Instruction>,
        scope: &mut Vec<crate::interpreter::Register>,
        output: &mut Vec<u8>,
        fuel: u64,
    ) -> (r: Result<(), crate::interpreter::AdvancedIllError>)
        requires
            op_wf(self@),
            insts_wf(insts.deep_view()),
        ensures
            op_exec_post(
                self@,
                insts.deep_view(),
                old(registers).deep_view(),
                old(scope).deep_view(),
                old(output)@,
                r,
                final(registers).deep_view(),
                final(scope).deep_view(),
                final(output)@,
            ),
            ({
                let k = op_kind_of(self@.name);
                let args = self@.arguments;
                let iv = insts.deep_view();
                let gv0 = old(registers).deep_view();
                let sv0 = old(scope).deep_view();
                let ov0 = old(output)@;
                let gv1 = final(registers).deep_view();
                let sv1 = final(scope).deep_view();
                let ov1 = final(output)@;
                &&& (k == OpKind::Invoke ==> (r is Ok ==> exists|v: i64|
                    invoke_post(
                        iv,
                        iv[crate::model::inst_idx(iv, inst_name_of(args[0]))],
                        gv0,
                        sv0,
                        ov0,
                        Ok::<i64, crate::interpreter::AdvancedIllError>(v),
                        gv1,
                        sv1,
                        ov1,
                    )))
                &&& (k == OpKind::InvokeBind ==> (r is Ok ==> exists|
                    v: i64,
                    gm: Seq<crate::model::RegV>,
                    sm: Seq<crate::model::RegV>,
                    om: Seq<u8>,
                |
                    {
                        &&& invoke_post(
                            iv,
                            iv[crate::model::inst_idx(iv, inst_name_of(args[0]))],
                            gv0,
                            sv0,
                            ov0,
                            Ok::<i64, crate::interpreter::AdvancedIllError>(v),
                            gm,
                            sm,
                            om,
                        )
                        &&& gv1 == gm
                        &&& ov1 == om
                        &&& sv1 == sm.push(
                            crate::model::RegV {
                                name: text_of(args[1]),
                                value: v,
                                is_variable: true,
                            },
                        )
                    }))
                &&& (k == OpKind::Branch ==> (r is Ok ==> exists|
                    v: i64,
                    v2: i64,
                    gm: Seq<crate::model::RegV>,
                    sm: Seq<crate::model::RegV>,
                    om: Seq<u8>,
                |
                    {
                        &&& invoke_post(
                            iv,
                            iv[crate::model::inst_idx(iv, inst_name_of(args[0]))],
                            gv0,
                            sv0,
                            ov0,
                            Ok::<i64, crate::interpreter::AdvancedIllError>(v),
                            gm,
                            sm,
                            om,
                        )
                        &&& invoke_post(
                            iv,
                            iv[crate::model::inst_idx(
                                iv,
                                if v == TRUE {
                                    inst_name_of(args[1])
                                } else {
                                    inst_name_of(args[2])
                                },
                            )],
                            gm,
                            sm,
                            om,
                            Ok::<i64, crate::interpreter::AdvancedIllError>(v2),
                            gv1,
                            sv1,
                            ov1,
                        )
                    }))
                &&& (k == OpKind::Invoke ==> (r matches Err(e) ==> (crate::model::has_inst(
                    iv,
                    inst_name_of(args[0]),
                ) ==> (e.error matches crate::interpreter::IllError::StackOverflow(_)
                    || invoke_post(
                    iv,
                    iv[crate::model::inst_idx(iv, inst_name_of(args[0]))],
                    gv0,
                    sv0,
                    ov0,
                    Err::<i64, crate::interpreter::AdvancedIllError>(e),
                    gv1,
                    sv1,
                    ov1,
                )))))
                &&& (k == OpKind::InvokeBind ==> (r matches Err(e) ==> ((!crate::model::has_reg(
                    gv0,
                    text_of(args[1]),
                ) && !crate::model::has_reg(sv0, text_of(args[1])) && crate::model::has_inst(
                    iv,
                    inst_name_of(args[0]),
                )) ==> (e.error matches crate::interpreter::IllError::StackOverflow(_)
                    || invoke_post(
                    iv,
                    iv[crate::model::inst_idx(iv, inst_name_of(args[0]))],
                    gv0,
                    sv0,
                    ov0,
                    Err::<i64, crate::interpreter::AdvancedIllError>(e),
                    gv1,
                    sv1,
                    ov1,
                ) || (exists|v: i64|
                    {
                        &&& #[trigger] invoke_post(
                            iv,
                            iv[crate::model::inst_idx(iv, inst_name_of(args[0]))],
                            gv0,
                            sv0,
                            ov0,
                            Ok::<i64, crate::interpreter::AdvancedIllError>(v),
                            gv1,
                            sv1,
                            ov1,
                        )
                        &&& crate::model::has_reg(sv1, text_of(args[1]))
                        &&& e.error matches crate::interpreter::IllError::RegisterRedefinition(
                            _,
                            n,
                            _,
                        ) && n@ == text_of(args[1])
                    })))))
                &&& (k == OpKind::Branch ==> (r matches Err(e) ==> (crate::model::has_inst(
                    iv,
                    inst_name_of(args[0]),
                ) ==> (e.error matches crate::interpreter::IllError::StackOverflow(_)
                    || invoke_post(
                    iv,
                    iv[crate::model::inst_idx(iv, inst_name_of(args[0]))],
                    gv0,
                    sv0,
                    ov0,
                    Err::<i64, crate::interpreter::AdvancedIllError>(e),
                    gv1,
                    sv1,
                    ov1,
                ) || (exists|v: i64|
                    {
                        &&& #[trigger] invoke_post(
                            iv,
                            iv[crate::model::inst_idx(iv, inst_name_of(args[0]))],
                            gv0,
                            sv0,
                            ov0,
                            Ok::<i64, crate::interpreter::AdvancedIllError>(v),
                            gv1,
                            sv1,
                            ov1,
                        )
                        &&& e.error matches crate::interpreter::IllError::NonExistentInstruction(
                            _,
                            n,
                        ) && (n@ == inst_name_of(args[1]) || n@ == inst_name_of(args[2]))
                    }) || (exists|
                    v: i64,
                    gm: Seq<crate::model::RegV>,
                    sm: Seq<crate::model::RegV>,
                    om: Seq<u8>,
                |
                    {
                        &&& #[trigger] invoke_post(
                            iv,
                            iv[crate::model::inst_idx(iv, inst_name_of(args[0]))],
                            gv0,
                            sv0,
                            ov0,
                            Ok::<i64, crate::interpreter::AdvancedIllError>(v),
                            gm,
                            sm,
                            om,
                        )
                        &&& invoke_post(
                            iv,
                            iv[crate::model::inst_idx(
                                iv,
                                if v == TRUE {
                                    inst_name_of(args[1])
                                } else {
                                    inst_name_of(args[2])
                                },
                            )],
                            gm,
                            sm,
                            om,
                            Err::<i64, crate::interpreter::AdvancedIllError>(e),
                            gv1,
                            sv1,
                            ov1,
                        )
                    })))))
                &&& (k == OpKind::Invoke ==> ((fuel >= 2 && crate::model::has_inst(
                    iv,
                    inst_name_of(args[0]),
                ) && iv[crate::model::inst_idx(iv, inst_name_of(args[0]))].codes.len() == 0
                    && crate::model::has_reg(sv0, crate::interpreter::res_name())) ==> r is Ok))
                &&& (k == OpKind::ForLoop ==> (r matches Err(e) ==> ((!crate::model::has_reg(
                    gv0,
                    text_of(args[0]),
                ) && !crate::model::has_reg(sv0, text_of(args[0])) && crate::model::has_inst(
                    iv,
                    inst_name_of(args[4]),
                )) ==> (e.error matches crate::interpreter::IllError::StackOverflow(_) || (
                e.error matches crate::interpreter::IllError::NonExistentRegister(_, n) && n@
                    == text_of(args[0])) || (exists|
                    gm: Seq<crate::model::RegV>,
                    sm: Seq<crate::model::RegV>,
                    om: Seq<u8>,
                |
                    #[trigger] invoke_post(
                        iv,
                        iv[crate::model::inst_idx(iv, inst_name_of(args[4]))],
                        gm,
                        sm,
                        om,
                        Err::<i64, crate::interpreter::AdvancedIllError>(e),
                        gv1,
                        sv1,
                        ov1,
                    ))))))
            }),
        decreases fuel, 1int,
    {
        let ghost gv0 = registers.deep_view();
        let ghost sv0 = scope.deep_view();
        let ghost ov0 = output@;
        let ghost iv = insts.deep_view();
        let rh_err: ReadHead = match &self.location {
            Some(r) => *r,
            None => crate::scan::ReadHead::new(),
        };
        let k = op_kind(&self.name);
        match k {
            OpKind::Make => {
                let r = op_make(&self.arguments, file, rh_err, registers, scope);
                proof {
                    lemma_output_extend(ov0, Seq::<u8>::empty());
                    if r is Ok && crate::model::unique_reg_names(sv0) {
                        if scope.deep_view() != sv0 {
                            crate::model::lemma_unique_push(sv0, scope.deep_view().last());
                        }
                    }
                }
                r
            },
            OpKind::Greater | OpKind::Less | OpKind::Equal | OpKind::GreaterEqual
                | OpKind::LessEqual => {
                let r = op_cmp(k, &self.arguments, file, rh_err, registers, scope);
                proof {
                    lemma_output_extend(ov0, Seq::<u8>::empty());
                    if r is Ok && crate::model::unique_reg_names(sv0) {
                        if scope.deep_view() != sv0 {
                            crate::model::lemma_unique_push(sv0, scope.deep_view().last());
                        }
                    }
                }
                r
            },
            OpKind::Modulo => {
                let r = op_modulo(&self.arguments, file, rh_err, registers, scope);
                proof {
                    lemma_output_extend(ov0, Seq::<u8>::empty());
                    if r is Ok && crate::model::unique_reg_names(sv0) {
                        if scope.deep_view() != sv0 {
                            crate::model::lemma_unique_push(sv0, scope.deep_view().last());
                        }
                    }
                }
                r
            },
            OpKind::Move => {
                let r = op_move(&self.arguments, file, rh_err, registers, scope);
                proof {
                    lemma_output_extend(ov0, Seq::<u8>::empty());
                    lemma_move_frame(self@.arguments, gv0, sv0, r, registers.deep_view(), scope.deep_view());
                }
                r
            },
            OpKind::Accumulate => {
                let r = op_accumulate(&self.arguments, file, rh_err, registers, scope);
                proof {
                    lemma_output_extend(ov0, Seq::<u8>::empty());
                    lemma_accumulate_frame(self@.arguments, gv0, sv0, r, registers.deep_view(), scope.deep_view());
                }
                r
            },
            OpKind::Show => {
                let r = op_show(&self.arguments, file, rh_err, registers, scope, output, false);
                proof {
                    lemma_show_frame(self@.arguments, gv0, sv0, ov0, r, output@, false);
                }
                r
            },
            OpKind::ShowLine => {
                let r = op_show(&self.arguments, file, rh_err, registers, scope, output, true);
                proof {
                    lemma_show_frame(self@.arguments, gv0, sv0, ov0, r, output@, true);
                }
                r
            },
            OpKind::Negate => {
                let r = op_negate(&self.arguments, file, rh_err, registers, scope);
                proof {
                    lemma_output_extend(ov0, Seq::<u8>::empty());
                    lemma_negate_frame(self@.arguments, gv0, sv0, r, registers.deep_view(), scope.deep_view());
                }
                r
            },
            OpKind::Delete => {
                let r = op_delete(&self.arguments, file, rh_err, scope);
                proof {
                    lemma_output_extend(ov0, Seq::<u8>::empty());
                    if crate::model::unique_reg_names(sv0) {
                        let dname = ref_name_of(self@.arguments[0]);
                        if crate::model::has_reg(sv0, dname) {
                            crate::model::lemma_find_reg_from_range(sv0, dname, 0);
                            crate::model::lemma_unique_remove(
                                sv0,
                                crate::model::reg_idx(sv0, dname),
                            );
                        }
                    }
                }
                r
            },
            OpKind::Print => {
                let r = op_print(&self.arguments, output, false);
                proof {
                    lemma_output_extend(
                        ov0,
                        text_of(self@.arguments[0]) + Seq::<u8>::empty(),
                    );
                    assert(output@ =~= ov0 + (text_of(self@.arguments[0]) + Seq::<u8>::empty()));
                    lemma_output_extend(ov0, text_of(self@.arguments[0]));
                }
                r
            },
            OpKind::PrintLine => {
                let r = op_print(&self.arguments, output, true);
                proof {
                    assert(output@ =~= ov0 + (text_of(self@.arguments[0]) + seq![10u8]));
                    lemma_output_extend(ov0, text_of(self@.arguments[0]) + seq![10u8]);
                }
                r
            },
            OpKind::Invoke => self.exec_invoke(file, rh_err, registers, insts, scope, output, fuel),
            OpKind::InvokeBind => self.exec_invoke_bind(
                file,
                rh_err,
                registers,
                insts,
                scope,
                output,
                fuel,
            ),
            OpKind::Branch => self.exec_branch(file, rh_err, registers, insts, scope, output, fuel),
            OpKind::ForLoop => self.exec_for(file, rh_err, registers, insts, scope, output, fuel),
            OpKind::Unknown => {
                proof {
                    lemma_frame_same(gv0, sv0, ov0);
                }
                Ok(())
            },
        }
    }
}

impl OpCode {
    /// Execute `do`: run a sub-instruction once for its side effects.
    fn exec_invoke(
        &self,
        file: &crate::interpreter::EnhancedFile,
        rh_err: ReadHead,
        registers: &mut Vec<crate::interpreter::Register>,
        insts: &Vec<crate::interpreter::Instruction>,
        scope: &mut Vec<crate::interpreter::Register>,
        output: &mut Vec<u8>,
        fuel: u64,
    ) -> (r: Result<(), crate::interpreter::AdvancedIllError>)
        requires
            op_wf(self@),
            op_kind_of(self@.name) == OpKind::Invoke,
            insts_wf(insts.deep_view()),
        ensures
            op_exec_post(
                self@,
                insts.deep_view(),
                old(registers).deep_view(),
                old(scope).deep_view(),
                old(output)@,
                r,
                final(registers).deep_view(),
                final(scope).deep_view(),
                final(output)@,
            ),
            r is Ok ==> exists|v: i64|
                invoke_post(
                    insts.deep_view(),
                    insts.deep_view()[crate::model::inst_idx(
                        insts.deep_view(),
                        inst_name_of(self@.arguments[0]),
                    )],
                    old(registers).deep_view(),
                    old(scope).deep_view(),
                    old(output)@,
                    Ok::<i64, crate::interpreter::AdvancedIllError>(v),
                    final(registers).deep_view(),
                    final(scope).deep_view(),
                    final(output)@,
                ),
            r matches Err(e) ==> (crate::model::has_inst(
                insts.deep_view(),
                inst_name_of(self@.arguments[0]),
            ) ==> (e.error matches crate::interpreter::IllError::StackOverflow(_) || invoke_post(
                insts.deep_view(),
                insts.deep_view()[crate::model::inst_idx(
                    insts.deep_view(),
                    inst_name_of(self@.arguments[0]),
                )],
                old(registers).deep_view(),
                old(scope).deep_view(),
                old(output)@,
                Err::<i64, crate::interpreter::AdvancedIllError>(e),
                final(registers).deep_view(),
                final(scope).deep_view(),
                final(output)@,
            ))),
            (fuel >= 2 && crate::model::has_inst(
                insts.deep_view(),
                inst_name_of(self@.arguments[0]),
            ) && insts.deep_view()[crate::model::inst_idx(
                insts.deep_view(),
                inst_name_of(self@.arguments[0]),
            )].codes.len() == 0 && crate::model::has_reg(
                old(scope).deep_view(),
                crate::interpreter::res_name(),
            )) ==> r is Ok,
        decreases fuel, 0int,
    {
        let ghost gv0 = registers.deep_view();
        let ghost sv0 = scope.deep_view();
        let ghost ov0 = output@;
        proof {
            lemma_shape(self@.arguments, OpKind::Invoke);
            assert(self@.arguments[0] == self.arguments@[0]@);
        }
        let inst_name = match &self.arguments[0] {
            ExpressionType::InstructionReference(n, _) => n,
            _ => {
                proof {
                    lemma_frame_same(gv0, sv0, ov0);
                }
                return Ok(());
            },
        };
        match crate::interpreter::find_instruction_index(insts, inst_name) {
            None => {
                proof {
                    lemma_frame_same(gv0, sv0, ov0);
                }
                let nm = crate::text::sub_vec(inst_name, 0, inst_name.len());
                proof {
                    assert(nm@ =~= inst_name@);
                }
                let err = crate::interpreter::IllError::NonExistentInstruction(rh_err, nm);
                Err(crate::interpreter::AdvancedIllError::new(
                    err,
                    Some(rh_err),
                    file.unsafe_clone(),
                ))
            },
            Some(zi) => {
                if fuel == 0 {
                    proof {
                        lemma_frame_same(gv0, sv0, ov0);
                    }
                    let err = crate::interpreter::IllError::StackOverflow(rh_err);
                    return Err(crate::interpreter::AdvancedIllError::new(
                        err,
                        Some(rh_err),
                        file.unsafe_clone(),
                    ));
                }
                proof {
                    assert(inst_codes_wf(insts.deep_view()[zi as int]));
                    assert(insts.deep_view()[zi as int] == insts@[zi as int]@);
                }
                let target = &insts[zi];
                let res = target.c_execute(file, registers, insts, scope, output, fuel - 1);
                match res {
                    Ok(v) => {
                        proof {
                            assert(inst_name_of(self@.arguments[0]) == inst_name@);
                            assert(zi as int == crate::model::inst_idx(
                                insts.deep_view(),
                                inst_name_of(self@.arguments[0]),
                            ));
                            assert(res == Ok::<i64, crate::interpreter::AdvancedIllError>(v));
                            assert(invoke_post(
                                insts.deep_view(),
                                insts.deep_view()[zi as int],
                                gv0,
                                sv0,
                                ov0,
                                Ok::<i64, crate::interpreter::AdvancedIllError>(v),
                                registers.deep_view(),
                                scope.deep_view(),
                                output@,
                            ));
                        }
                        Ok(())
                    },
                    Err(e) => {
                        proof {
                            assert(inst_name_of(self@.arguments[0]) == inst_name@);
                            assert(zi as int == crate::model::inst_idx(
                                insts.deep_view(),
                                inst_name_of(self@.arguments[0]),
                            ));
                            if fuel - 1 > 0 {
                                assert(invoke_post(
                                    insts.deep_view(),
                                    insts.deep_view()[zi as int],
                                    gv0,
                                    sv0,
                                    ov0,
                                    res,
                                    registers.deep_view(),
                                    scope.deep_view(),
                                    output@,
                                ));
                            }
                        }
                        Err(e)
                    },
                }
            },
        }
    }

    /// Execute `dor`: run a sub-instruction and bind its returned `res`
    /// value to a fresh local variable.
    fn exec_invoke_bind(
        &self,
        file: &crate::interpreter::EnhancedFile,
        rh_err: ReadHead,
        registers: &mut Vec<crate::interpreter::Register>,
        insts: &Vec<crate::interpreter::Instruction>,
        scope: &mut Vec<crate::interpreter::Register>,
        output: &mut Vec<u8>,
        fuel: u64,
    ) -> (r: Result<(), crate::interpreter::AdvancedIllError>)
        requires
            op_wf(self@),
            op_kind_of(self@.name) == OpKind::InvokeBind,
            insts_wf(insts.deep_view()),
        ensures
            op_exec_post(
                self@,
                insts.deep_view(),
                old(registers).deep_view(),
                old(scope).deep_view(),
                old(output)@,
                r,
                final(registers).deep_view(),
                final(scope).deep_view(),
                final(output)@,
            ),
            r is Ok ==> exists|
                v: i64,
                gm: Seq<crate::model::RegV>,
                sm: Seq<crate::model::RegV>,
                om: Seq<u8>,
            |
                {
                    &&& invoke_post(
                        insts.deep_view(),
                        insts.deep_view()[crate::model::inst_idx(
                            insts.deep_view(),
                            inst_name_of(self@.arguments[0]),
                        )],
                        old(registers).deep_view(),
                        old(scope).deep_view(),
                        old(output)@,
                        Ok::<i64, crate::interpreter::AdvancedIllError>(v),
                        gm,
                        sm,
                        om,
                    )
                    &&& final(registers).deep_view() == gm
                    &&& final(output)@ == om
                    &&& final(scope).deep_view() == sm.push(
                        crate::model::RegV {
                            name: text_of(self@.arguments[1]),
                            value: v,
                            is_variable: true,
                        },
                    )
                },
            r matches Err(e) ==> ((!crate::model::has_reg(
                old(registers).deep_view(),
                text_of(self@.arguments[1]),
            ) && !crate::model::has_reg(old(scope).deep_view(), text_of(self@.arguments[1]))
                && crate::model::has_inst(
                insts.deep_view(),
                inst_name_of(self@.arguments[0]),
            )) ==> (e.error matches crate::interpreter::IllError::StackOverflow(_) || invoke_post(
                insts.deep_view(),
                insts.deep_view()[crate::model::inst_idx(
                    insts.deep_view(),
                    inst_name_of(self@.arguments[0]),
                )],
                old(registers).deep_view(),
                old(scope).deep_view(),
                old(output)@,
                Err::<i64, crate::interpreter::AdvancedIllError>(e),
                final(registers).deep_view(),
                final(scope).deep_view(),
                final(output)@,
            ) || (exists|v: i64|
                {
                    &&& #[trigger] invoke_post(
                        insts.deep_view(),
                        insts.deep_view()[crate::model::inst_idx(
                            insts.deep_view(),
                            inst_name_of(self@.arguments[0]),
                        )],
                        old(registers).deep_view(),
                        old(scope).deep_view(),
                        old(output)@,
                        Ok::<i64, crate::interpreter::AdvancedIllError>(v),
                        final(registers).deep_view(),
                        final(scope).deep_view(),
                        final(output)@,
                    )
                    &&& crate::model::has_reg(
                        final(scope).deep_view(),
                        text_of(self@.arguments[1]),
                    )
                    &&& e.error matches crate::interpreter::IllError::RegisterRedefinition(
                        _,
                        n,
                        _,
                    ) && n@ == text_of(self@.arguments[1])
                }))),
        decreases fuel, 0int,
    {
        let ghost gv0 = registers.deep_view();
        let ghost sv0 = scope.deep_view();
        let ghost ov0 = output@;
        proof {
            lemma_shape(self@.arguments, OpKind::InvokeBind);
            assert(self@.arguments[0] == self.arguments@[0]@);
            assert(self@.arguments[1] == self.arguments@[1]@);
        }
        let inst_name = match &self.arguments[0] {
            ExpressionType::InstructionReference(n, _) => n,
            _ => {
                proof {
                    lemma_frame_same(gv0, sv0, ov0);
                }
                return Ok(());
            },
        };
        let identifier = match &self.arguments[1] {
            ExpressionType::StringLiteral(s) => s,
            _ => {
                proof {
                    lemma_frame_same(gv0, sv0, ov0);
                }
                return Ok(());
            },
        };
        proof {
            lemma_frame_same(gv0, sv0, ov0);
        }
        if crate::interpreter::register_exists_in(registers, identifier) {
            let nm = crate::text::sub_vec(identifier, 0, identifier.len());
            proof {
                assert(nm@ =~= identifier@);
            }
            let err = crate::interpreter::IllError::RegisterRedefinition(
                rh_err,
                nm,
                Some(register_hint_bytes()),
            );
            return Err(crate::interpreter::AdvancedIllError::new(
                err,
                Some(rh_err),
                file.unsafe_clone(),
            ));
        }
        if crate::interpreter::register_exists_in(scope, identifier) {
            let nm = crate::text::sub_vec(identifier, 0, identifier.len());
            proof {
                assert(nm@ =~= identifier@);
            }
            let err = crate::interpreter::IllError::RegisterRedefinition(
                rh_err,
                nm,
                Some(variable_hint_bytes()),
            );
            return Err(crate::interpreter::AdvancedIllError::new(
                err,
                Some(rh_err),
                file.unsafe_clone(),
            ));
        }
        let zi = match crate::interpreter::find_instruction_index(insts, inst_name) {
            Some(zi) => zi,
            None => {
                let nm = crate::text::sub_vec(inst_name, 0, inst_name.len());
                proof {
                    assert(nm@ =~= inst_name@);
                }
                let err = crate::interpreter::IllError::NonExistentInstruction(rh_err, nm);
                return Err(crate::interpreter::AdvancedIllError::new(
                    err,
                    Some(rh_err),
                    file.unsafe_clone(),
                ));
            },
        };
        if fuel == 0 {
            let err = crate::interpreter::IllError::StackOverflow(rh_err);
            return Err(crate::interpreter::AdvancedIllError::new(
                err,
                Some(rh_err),
                file.unsafe_clone(),
            ));
        }
        proof {
            assert(inst_codes_wf(insts.deep_view()[zi as int]));
            assert(insts.deep_view()[zi as int] == insts@[zi as int]@);
        }
        let target = &insts[zi];
        let res = target.c_execute(file, registers, insts, scope, output, fuel - 1);
        let ghost gv_m = registers.deep_view();
        let ghost sv_m = scope.deep_view();
        let ghost ov_m = output@;
        proof {
            assert(inst_name_of(self@.arguments[0]) == inst_name@);
            assert(text_of(self@.arguments[1]) == identifier@);
            assert(zi as int == crate::model::inst_idx(
                insts.deep_view(),
                inst_name_of(self@.arguments[0]),
            ));
        }
        let v = match res {
            Ok(v) => v,
            Err(e) => {
                proof {
                    if fuel - 1 > 0 {
                        assert(invoke_post(
                            insts.deep_view(),
                            insts.deep_view()[zi as int],
                            gv0,
                            sv0,
                            ov0,
                            res,
                            registers.deep_view(),
                            scope.deep_view(),
                            output@,
                        ));
                    }
                }
                return Err(e);
            },
        };
        // The body itself may have created the binding name meanwhile; a
        // second occurrence would be a redefinition, not an overwrite.
        if crate::interpreter::register_exists_in(scope, identifier) {
            proof {
                assert(res == Ok::<i64, crate::interpreter::AdvancedIllError>(v));
                assert(invoke_post(
                    insts.deep_view(),
                    insts.deep_view()[zi as int],
                    gv0,
                    sv0,
                    ov0,
                    Ok::<i64, crate::interpreter::AdvancedIllError>(v),
                    registers.deep_view(),
                    scope.deep_view(),
                    output@,
                ));
            }
            let nm = crate::text::sub_vec(identifier, 0, identifier.len());
            proof {
                assert(nm@ =~= identifier@);
            }
            let err = crate::interpreter::IllError::RegisterRedefinition(
                rh_err,
                nm,
                Some(variable_hint_bytes()),
            );
            return Err(crate::interpreter::AdvancedIllError::new(
                err,
                Some(rh_err),
                file.unsafe_clone(),
            ));
        }
        let ghost sv_mid = scope.deep_view();
        let nm = crate::text::sub_vec(identifier, 0, identifier.len());
        proof {
            assert(nm@ =~= identifier@);
        }
        let reg = crate::interpreter::make_register(nm, v, true);
        crate::interpreter::push_register(scope, reg);
        proof {
            let pushed = crate::model::RegV { name: identifier@, value: v, is_variable: true };
            assert(scope.deep_view() =~= sv_mid.push(pushed));
            assert(scope.deep_view().drop_last() =~= sv_mid);
            if crate::model::unique_reg_names(sv_mid) {
                crate::model::lemma_unique_push(sv_mid, pushed);
            }
            lemma_output_extend(ov0, Seq::<u8>::empty());
            lemma_frame_trans(
                gv0,
                sv0,
                ov0,
                gv0,
                sv_mid,
                ov0,
                registers.deep_view(),
                scope.deep_view(),
                output@,
            );
            assert(inst_name_of(self@.arguments[0]) == inst_name@);
            assert(text_of(self@.arguments[1]) == identifier@);
            assert(zi as int == crate::model::inst_idx(
                insts.deep_view(),
                inst_name_of(self@.arguments[0]),
            ));
            assert(invoke_post(
                insts.deep_view(),
                insts.deep_view()[zi as int],
                gv0,
                sv0,
                ov0,
                Ok::<i64, crate::interpreter::AdvancedIllError>(v),
                gv_m,
                sv_m,
                ov_m,
            ));
            assert(sv_mid == sv_m);
            assert(registers.deep_view() == gv_m);
            assert(output@ == ov_m);
        }
        Ok(())
    }

    /// Execute `if`: run the condition instruction, then exactly one of the
    /// two branch instructions, chosen by comparing the condition's `res`
    /// against the true sentinel.
    fn exec_branch(
        &self,
        file: &crate::interpreter::EnhancedFile,
        rh_err: ReadHead,
        registers: &mut Vec<crate::interpreter::Register>,
        insts: &Vec<crate::interpreter::Instruction>,
        scope: &mut Vec<crate::interpreter::Register>,
        output: &mut Vec<u8>,
        fuel: u64,
    ) -> (r: Result<(), crate::interpreter::AdvancedIllError>)
        requires
            op_wf(self@),
            op_kind_of(self@.name) == OpKind::Branch,
            insts_wf(insts.deep_view()),
        ensures
            op_exec_post(
                self@,
                insts.deep_view(),
                old(registers).deep_view(),
                old(scope).deep_view(),
                old(output)@,
                r,
                final(registers).deep_view(),
                final(scope).deep_view(),
                final(output)@,
            ),
            r is Ok ==> exists|
                v: i64,
                v2: i64,
                gm: Seq<crate::model::RegV>,
                sm: Seq<crate::model::RegV>,
                om: Seq<u8>,
            |
                {
                    &&& invoke_post(
                        insts.deep_view(),
                        insts.deep_view()[crate::model::inst_idx(
                            insts.deep_view(),
                            inst_name_of(self@.arguments[0]),
                        )],
                        old(registers).deep_view(),
                        old(scope).deep_view(),
                        old(output)@,
                        Ok::<i64, crate::interpreter::AdvancedIllError>(v),
                        gm,
                        sm,
                        om,
                    )
                    &&& invoke_post(
                        insts.deep_view(),
                        insts.deep_view()[crate::model::inst_idx(
                            insts.deep_view(),
                            if v == TRUE {
                                inst_name_of(self@.arguments[1])
                            } else {
                                inst_name_of(self@.arguments[2])
                            },
                        )],
                        gm,
                        sm,
                        om,
                        Ok::<i64, crate::interpreter::AdvancedIllError>(v2),
                        final(registers).deep_view(),
                        final(scope).deep_view(),
                        final(output)@,
                    )
                },
            r matches Err(e) ==> (!crate::model::has_inst(
                insts.deep_view(),
                inst_name_of(self@.arguments[0]),
            ) ==> (final(registers).deep_view() == old(registers).deep_view()
                && final(scope).deep_view() == old(scope).deep_view() && final(output)@ == old(
                output,
            )@ && (e.error matches crate::interpreter::IllError::NonExistentInstruction(_, n)
                && n@ == inst_name_of(self@.arguments[0])))),
            r matches Err(e) ==> (crate::model::has_inst(
                insts.deep_view(),
                inst_name_of(self@.arguments[0]),
            ) ==> (e.error matches crate::interpreter::IllError::StackOverflow(_) || invoke_post(
                insts.deep_view(),
                insts.deep_view()[crate::model::inst_idx(
                    insts.deep_view(),
                    inst_name_of(self@.arguments[0]),
                )],
                old(registers).deep_view(),
                old(scope).deep_view(),
                old(output)@,
                Err::<i64, crate::interpreter::AdvancedIllError>(e),
                final(registers).deep_view(),
                final(scope).deep_view(),
                final(output)@,
            ) || (exists|v: i64|
                {
                    &&& #[trigger] invoke_post(
                        insts.deep_view(),
                        insts.deep_view()[crate::model::inst_idx(
                            insts.deep_view(),
                            inst_name_of(self@.arguments[0]),
                        )],
                        old(registers).deep_view(),
                        old(scope).deep_view(),
                        old(output)@,
                        Ok::<i64, crate::interpreter::AdvancedIllError>(v),
                        final(registers).deep_view(),
                        final(scope).deep_view(),
                        final(output)@,
                    )
                    &&& e.error matches crate::interpreter::IllError::NonExistentInstruction(
                        _,
                        n,
                    ) && (n@ == inst_name_of(self@.arguments[1]) || n@ == inst_name_of(
                        self@.arguments[2],
                    ))
                }) || (exists|v: i64, gm: Seq<crate::model::RegV>, sm: Seq<crate::model::RegV>, om: Seq<u8>|
                {
                    &&& #[trigger] invoke_post(
                        insts.deep_view(),
                        insts.deep_view()[crate::model::inst_idx(
                            insts.deep_view(),
                            inst_name_of(self@.arguments[0]),
                        )],
                        old(registers).deep_view(),
                        old(scope).deep_view(),
                        old(output)@,
                        Ok::<i64, crate::interpreter::AdvancedIllError>(v),
                        gm,
                        sm,
                        om,
                    )
                    &&& invoke_post(
                        insts.deep_view(),
                        insts.deep_view()[crate::model::inst_idx(
                            insts.deep_view(),
                            if v == TRUE {
                                inst_name_of(self@.arguments[1])
                            } else {
                                inst_name_of(self@.arguments[2])
                            },
                        )],
                        gm,
                        sm,
                        om,
                        Err::<i64, crate::interpreter::AdvancedIllError>(e),
                        final(registers).deep_view(),
                        final(scope).deep_view(),
                        final(output)@,
                    )
                }))),
        decreases fuel, 0int,
    {
        let ghost gv0 = registers.deep_view();
        let ghost sv0 = scope.deep_view();
        let ghost ov0 = output@;
        proof {
            lemma_shape(self@.arguments, OpKind::Branch);
            assert(self@.arguments[0] == self.arguments@[0]@);
            assert(self@.arguments[1] == self.arguments@[1]@);
            assert(self@.arguments[2] == self.arguments@[2]@);
            lemma_frame_same(gv0, sv0, ov0);
        }
        let cond_name = match &self.arguments[0] {
            ExpressionType::InstructionReference(n, _) => n,
            _ => {
                return Ok(());
            },
        };
        let then_name = match &self.arguments[1] {
            ExpressionType::InstructionReference(n, _) => n,
            _ => {
                return Ok(());
            },
        };
        let else_name = match &self.arguments[2] {
            ExpressionType::InstructionReference(n, _) => n,
            _ => {
                return Ok(());
            },
        };
        let ci = match crate::interpreter::find_instruction_index(insts, cond_name) {
            Some(i) => i,
            None => {
                let nm = crate::text::sub_vec(cond_name, 0, cond_name.len());
                let err = crate::interpreter::IllError::NonExistentInstruction(rh_err, nm);
                return Err(crate::interpreter::AdvancedIllError::new(
                    err,
                    Some(rh_err),
                    file.unsafe_clone(),
                ));
            },
        };
        if fuel == 0 {
            let err = crate::interpreter::IllError::StackOverflow(rh_err);
            return Err(crate::interpreter::AdvancedIllError::new(
                err,
                Some(rh_err),
                file.unsafe_clone(),
            ));
        }
        proof {
            assert(inst_codes_wf(insts.deep_view()[ci as int]));
            assert(insts.deep_view()[ci as int] == insts@[ci as int]@);
        }
        proof {
            assert(inst_name_of(self@.arguments[0]) == cond_name@);
            assert(ci as int == crate::model::inst_idx(insts.deep_view(), cond_name@));
        }
        let cond_res = insts[ci].c_execute(file, registers, insts, scope, output, fuel - 1);
        let unr = match cond_res {
            Ok(v) => v,
            Err(e) => {
                proof {
                    if fuel - 1 > 0 {
                        assert(invoke_post(
                            insts.deep_view(),
                            insts.deep_view()[ci as int],
                            gv0,
                            sv0,
                            ov0,
                            cond_res,
                            registers.deep_view(),
                            scope.deep_view(),
                            output@,
                        ));
                    }
                }
                return Err(e);
            },
        };
        let ghost gv1 = registers.deep_view();
        let ghost sv1 = scope.deep_view();
        let ghost ov1 = output@;
        proof {
            assert(inst_name_of(self@.arguments[1]) == then_name@);
            assert(inst_name_of(self@.arguments[2]) == else_name@);
            assert(cond_res == Ok::<i64, crate::interpreter::AdvancedIllError>(unr));
            assert(invoke_post(
                insts.deep_view(),
                insts.deep_view()[ci as int],
                gv0,
                sv0,
                ov0,
                Ok::<i64, crate::interpreter::AdvancedIllError>(unr),
                registers.deep_view(),
                scope.deep_view(),
                output@,
            ));
        }
        let ti = match crate::interpreter::find_instruction_index(insts, then_name) {
            Some(i) => i,
            None => {
                let nm = crate::text::sub_vec(then_name, 0, then_name.len());
                proof {
                    assert(nm@ =~= then_name@);
                }
                let err = crate::interpreter::IllError::NonExistentInstruction(rh_err, nm);
                return Err(crate::interpreter::AdvancedIllError::new(
                    err,
                    Some(rh_err),
                    file.unsafe_clone(),
                ));
            },
        };
        let ei = match crate::interpreter::find_instruction_index(insts, else_name) {
            Some(i) => i,
            None => {
                let nm = crate::text::sub_vec(else_name, 0, else_name.len());
                proof {
                    assert(nm@ =~= else_name@);
                }
                let err = crate::interpreter::IllError::NonExistentInstruction(rh_err, nm);
                return Err(crate::interpreter::AdvancedIllError::new(
                    err,
                    Some(rh_err),
                    file.unsafe_clone(),
                ));
            },
        };
        let chosen = if select_branch(unr) {
            ti
        } else {
            ei
        };
        proof {
            assert(chosen as int == chosen_branch(unr, ti as int, ei as int));
            assert(inst_codes_wf(insts.deep_view()[chosen as int]));
            assert(insts.deep_view()[chosen as int] == insts@[chosen as int]@);
        }
        let branch_res = insts[chosen].c_execute(file, registers, insts, scope, output, fuel - 1);
        proof {
            lemma_frame_trans(
                gv0,
                sv0,
                ov0,
                gv1,
                sv1,
                ov1,
                registers.deep_view(),
                scope.deep_view(),
                output@,
            );
        }
        proof {
            assert(ti as int == crate::model::inst_idx(insts.deep_view(), then_name@));
            assert(ei as int == crate::model::inst_idx(insts.deep_view(), else_name@));
        }
        match branch_res {
            Ok(v2) => {
                proof {
                    assert(inst_name_of(self@.arguments[0]) == cond_name@);
                    assert(inst_name_of(self@.arguments[1]) == then_name@);
                    assert(inst_name_of(self@.arguments[2]) == else_name@);
                    assert(ci as int == crate::model::inst_idx(insts.deep_view(), cond_name@));
                    assert(ti as int == crate::model::inst_idx(insts.deep_view(), then_name@));
                    assert(ei as int == crate::model::inst_idx(insts.deep_view(), else_name@));
                    assert(cond_res == Ok::<i64, crate::interpreter::AdvancedIllError>(unr));
                    assert(invoke_post(
                        insts.deep_view(),
                        insts.deep_view()[ci as int],
                        gv0,
                        sv0,
                        ov0,
                        Ok::<i64, crate::interpreter::AdvancedIllError>(unr),
                        gv1,
                        sv1,
                        ov1,
                    ));
                    assert(branch_res == Ok::<i64, crate::interpreter::AdvancedIllError>(v2));
                    assert(invoke_post(
                        insts.deep_view(),
                        insts.deep_view()[chosen as int],
                        gv1,
                        sv1,
                        ov1,
                        Ok::<i64, crate::interpreter::AdvancedIllError>(v2),
                        registers.deep_view(),
                        scope.deep_view(),
                        output@,
                    ));
                }
                Ok(())
            },
            Err(e) => {
                proof {
                    if fuel - 1 > 0 {
                        assert(invoke_post(
                            insts.deep_view(),
                            insts.deep_view()[chosen as int],
                            gv1,
                            sv1,
                            ov1,
                            branch_res,
                            registers.deep_view(),
                            scope.deep_view(),
                            output@,
                        ));
                    }
                }
                Err(e)
            },
        }
    }

    /// Execute `for`: inject a counting variable, run the body instruction
    /// until the counter reaches the bound, then remove the variable.
    #[verifier::rlimit(100)]
    fn exec_for(
        &self,
        file: &crate::interpreter::EnhancedFile,
        rh_err: ReadHead,
        registers: &mut Vec<crate::interpreter::Register>,
        insts: &Vec<crate::interpreter::Instruction>,
        scope: &mut Vec<crate::interpreter::Register>,
        output: &mut Vec<u8>,
        fuel: u64,
    ) -> (r: Result<(), crate::interpreter::AdvancedIllError>)
        requires
            op_wf(self@),
            op_kind_of(self@.name) == OpKind::ForLoop,
            insts_wf(insts.deep_view()),
        ensures
            op_exec_post(
                self@,
                insts.deep_view(),
                old(registers).deep_view(),
                old(scope).deep_view(),
                old(output)@,
                r,
                final(registers).deep_view(),
                final(scope).deep_view(),
                final(output)@,
            ),
            r matches Err(e) ==> ((!crate::model::has_reg(
                old(registers).deep_view(),
                text_of(self@.arguments[0]),
            ) && !crate::model::has_reg(old(scope).deep_view(), text_of(self@.arguments[0]))
                && crate::model::has_inst(
                insts.deep_view(),
                inst_name_of(self@.arguments[4]),
            )) ==> (e.error matches crate::interpreter::IllError::StackOverflow(_) || (
            e.error matches crate::interpreter::IllError::NonExistentRegister(_, n) && n@
                == text_of(self@.arguments[0])) || (exists|
                gm: Seq<crate::model::RegV>,
                sm: Seq<crate::model::RegV>,
                om: Seq<u8>,
            |
                #[trigger] invoke_post(
                    insts.deep_view(),
                    insts.deep_view()[crate::model::inst_idx(
                        insts.deep_view(),
                        inst_name_of(self@.arguments[4]),
                    )],
                    gm,
                    sm,
                    om,
                    Err::<i64, crate::interpreter::AdvancedIllError>(e),
                    final(registers).deep_view(),
                    final(scope).deep_view(),
                    final(output)@,
                )))),
        decreases fuel, 0int,
    {
        let ghost gv0 = registers.deep_view();
        let ghost sv0 = scope.deep_view();
        let ghost ov0 = output@;
        proof {
            lemma_shape(self@.arguments, OpKind::ForLoop);
            assert(self@.arguments[0] == self.arguments@[0]@);
            assert(self@.arguments[1] == self.arguments@[1]@);
            assert(self@.arguments[2] == self.arguments@[2]@);
            assert(self@.arguments[3] == self.arguments@[3]@);
            assert(self@.arguments[4] == self.arguments@[4]@);
            lemma_frame_same(gv0, sv0, ov0);
        }
        let injected = match &self.arguments[0] {
            ExpressionType::StringLiteral(s) => s,
            _ => {
                return Ok(());
            },
        };
        let from = match &self.arguments[1] {
            ExpressionType::IntegerLiteral(v) => *v,
            _ => {
                return Ok(());
            },
        };
        let through = match &self.arguments[2] {
            ExpressionType::IntegerLiteral(v) => *v,
            _ => {
                return Ok(());
            },
        };
        let step = match &self.arguments[3] {
            ExpressionType::IntegerLiteral(v) => *v,
            _ => {
                return Ok(());
            },
        };
        let inst_name = match &self.arguments[4] {
            ExpressionType::InstructionReference(n, _) => n,
            _ => {
                return Ok(());
            },
        };
        if crate::interpreter::register_exists_in(registers, injected) {
            let nm = crate::text::sub_vec(injected, 0, injected.len());
            proof {
                assert(nm@ =~= injected@);
            }
            let err = crate::interpreter::IllError::RegisterRedefinition(
                rh_err,
                nm,
                Some(register_hint_bytes()),
            );
            return Err(crate::interpreter::AdvancedIllError::new(
                err,
                Some(rh_err),
                file.unsafe_clone(),
            ));
        }
        if crate::interpreter::register_exists_in(scope, injected) {
            let nm = crate::text::sub_vec(injected, 0, injected.len());
            proof {
                assert(nm@ =~= injected@);
            }
            let err = crate::interpreter::IllError::RegisterRedefinition(
                rh_err,
                nm,
                Some(variable_hint_bytes()),
            );
            return Err(crate::interpreter::AdvancedIllError::new(
                err,
                Some(rh_err),
                file.unsafe_clone(),
            ));
        }
        let bi = match crate::interpreter::find_instruction_index(insts, inst_name) {
            Some(i) => i,
            None => {
                let nm = crate::text::sub_vec(inst_name, 0, inst_name.len());
                proof {
                    assert(nm@ =~= inst_name@);
                }
                let err = crate::interpreter::IllError::NonExistentInstruction(rh_err, nm);
                return Err(crate::interpreter::AdvancedIllError::new(
                    err,
                    Some(rh_err),
                    file.unsafe_clone(),
                ));
            },
        };
        if fuel == 0 {
            proof {
                lemma_frame_same(gv0, sv0, ov0);
            }
            let err = crate::interpreter::IllError::StackOverflow(rh_err);
            return Err(crate::interpreter::AdvancedIllError::new(
                err,
                Some(rh_err),
                file.unsafe_clone(),
            ));
        }
        proof {
            assert(inst_name_of(self@.arguments[4]) == inst_name@);
        }
        let start = from;
        let ghost var_name = injected@;
        let nm = crate::text::sub_vec(injected, 0, injected.len());
        proof {
            assert(nm@ =~= injected@);
        }
        let reg = crate::interpreter::make_register(nm, start, true);
        crate::interpreter::push_register(scope, reg);
        proof {
            let pushed = crate::model::RegV { name: var_name, value: start, is_variable: true };
            assert(scope.deep_view() =~= sv0.push(pushed));
            if crate::model::unique_reg_names(sv0) {
                crate::model::lemma_unique_push(sv0, pushed);
            }
            assert(crate::model::has_reg(scope.deep_view(), var_name)) by {
                crate::model::lemma_find_reg_from_range(scope.deep_view(), var_name, 0);
                assert(scope.deep_view()[sv0.len() as int].name == var_name);
            }
        }
        let ghost sv_p = scope.deep_view();
        let mut val = start;
        let mut iter_left: u64 = LOOP_FUEL;
        loop
            invariant
                fuel >= 1,
                gv0 == old(registers).deep_view(),
                sv0 == old(scope).deep_view(),
                ov0 == old(output)@,
                var_name == text_of(self@.arguments[0]),
                injected@ == var_name,
                !crate::model::has_reg(gv0, var_name),
                !crate::model::has_reg(sv0, var_name),
                crate::model::has_inst(insts.deep_view(), inst_name_of(self@.arguments[4])),
                op_wf(self@),
                op_kind_of(self@.name) == OpKind::ForLoop,
                insts_wf(insts.deep_view()),
                0 <= bi < insts@.len(),
                bi as int == crate::model::inst_idx(
                    insts.deep_view(),
                    inst_name_of(self@.arguments[4]),
                ),
                insts.deep_view()[bi as int] == insts@[bi as int]@,
                frame_ok(
                    gv0,
                    sv_p,
                    ov0,
                    registers.deep_view(),
                    scope.deep_view(),
                    output@,
                ),
                crate::model::unique_reg_names(sv0) ==> crate::model::unique_reg_names(sv_p),
                crate::model::has_reg(scope.deep_view(), var_name),
            ensures
                frame_ok(
                    gv0,
                    sv_p,
                    ov0,
                    registers.deep_view(),
                    scope.deep_view(),
                    output@,
                ),
                crate::model::has_reg(scope.deep_view(), var_name),
                crate::model::unique_reg_names(sv0) ==> crate::model::unique_reg_names(sv_p),
            decreases iter_left,
        {
            // the loop runs while the counter has not passed the bound in
            // the chosen direction
            let cont = if from > through {
                val >= through
            } else {
                val <= through
            };
            if !cont {
                break;
            }
            if iter_left == 0 {
                let err = crate::interpreter::IllError::StackOverflow(rh_err);
                return Err(crate::interpreter::AdvancedIllError::new(
                    err,
                    Some(rh_err),
                    file.unsafe_clone(),
                ));
            }
            let ghost gv_a = registers.deep_view();
            let ghost sv_a = scope.deep_view();
            let ghost ov_a = output@;
            proof {
                assert(inst_codes_wf(insts.deep_view()[bi as int]));
            }
            let body_res = insts[bi].c_execute(file, registers, insts, scope, output, fuel - 1);
            match body_res {
                Ok(_) => {},
                Err(e) => {
                    proof {
                        lemma_frame_trans(
                            gv0,
                            sv_p,
                            ov0,
                            gv_a,
                            sv_a,
                            ov_a,
                            registers.deep_view(),
                            scope.deep_view(),
                            output@,
                        );
                        if fuel - 1 > 0 {
                            assert(invoke_post(
                                insts.deep_view(),
                                insts.deep_view()[bi as int],
                                gv_a,
                                sv_a,
                                ov_a,
                                body_res,
                                registers.deep_view(),
                                scope.deep_view(),
                                output@,
                            ));
                        }
                    }
                    return Err(e);
                },
            }
            proof {
                lemma_frame_trans(
                    gv0,
                    sv_p,
                    ov0,
                    gv_a,
                    sv_a,
                    ov_a,
                    registers.deep_view(),
                    scope.deep_view(),
                    output@,
                );
            }
            let i = match crate::interpreter::find_register_index(scope, injected) {
                Some(i) => i,
                None => {
                    let nm2 = crate::text::sub_vec(injected, 0, injected.len());
                    proof {
                        assert(nm2@ =~= injected@);
                    }
                    let err = crate::interpreter::IllError::NonExistentRegister(rh_err, nm2);
                    return Err(crate::interpreter::AdvancedIllError::new(
                        err,
                        Some(rh_err),
                        file.unsafe_clone(),
                    ));
                },
            };
            val = scope[i].value;
            let next = if from > through {
                val.wrapping_sub(step)
            } else {
                val.wrapping_add(step)
            };
            let ghost sv_b = scope.deep_view();
            proof {
                crate::model::lemma_find_reg_from_range(sv_b, var_name, 0);
            }
            crate::interpreter::set_register_value(scope, i, next);
            proof {
                crate::model::lemma_unique_update(
                    sv_b,
                    i as int,
                    crate::model::RegV { value: next, ..sv_b[i as int] },
                );
                assert(scope.deep_view()[i as int].name == var_name);
                assert forall|k: int| 0 <= k < i implies scope.deep_view()[k].name != var_name by {
                    assert(scope.deep_view()[k] == sv_b[k]);
                }
                crate::model::lemma_find_reg_from_is(scope.deep_view(), var_name, 0, i as int);
            }
            val = next;
            iter_left = iter_left - 1;
        }
        let i = match crate::interpreter::find_register_index(scope, injected) {
            Some(i) => i,
            None => {
                let nm2 = crate::text::sub_vec(injected, 0, injected.len());
                proof {
                    assert(nm2@ =~= injected@);
                }
                let err = crate::interpreter::IllError::NonExistentRegister(rh_err, nm2);
                return Err(crate::interpreter::AdvancedIllError::new(
                    err,
                    Some(rh_err),
                    file.unsafe_clone(),
                ));
            },
        };
        let ghost sv_end = scope.deep_view();
        crate::interpreter::remove_register(scope, i);
        proof {
            if crate::model::unique_reg_names(sv0) {
                crate::model::lemma_removed_gone(sv_end, var_name);
                crate::model::lemma_unique_remove(sv_end, i as int);
            }
            assert(names_of(sv_end.remove(i as int)) =~= names_of(sv_end).remove(i as int));
            lemma_frame_trans(
                gv0,
                sv_p,
                ov0,
                gv0,
                sv_end,
                ov0,
                gv0,
                scope.deep_view(),
                ov0,
            );
        }
        let ghost gv_f = registers.deep_view();
        let ghost sv_f = scope.deep_view();
        let ghost ov_f = output@;
        proof {
            lemma_for_final_frame(gv0, sv0, ov0, sv_p, sv_end, i as int, gv_f, sv_f, ov_f);
        }
        Ok(())
    }
}

/// Composing the frame of a finished counting loop back to the scope the
/// loop started from.
proof fn lemma_for_final_frame(
    gv0: Seq<crate::model::RegV>,
    sv0: Seq<crate::model::RegV>,
    ov0: Seq<u8>,
    sv_p: Seq<crate::model::RegV>,
    sv_end: Seq<crate::model::RegV>,
    i: int,
    gv_f: Seq<crate::model::RegV>,
    sv_f: Seq<crate::model::RegV>,
    ov_f: Seq<u8>,
)
    requires
        frame_ok(gv0, sv_p, ov0, gv_f, sv_end, ov_f),
        0 <= i < sv_end.len(),
        sv_f == sv_end.remove(i),
        crate::model::unique_reg_names(sv0) ==> crate::model::unique_reg_names(sv_p),
    ensures
        frame_ok(gv0, sv0, ov0, gv_f, sv_f, ov_f),
{
    if crate::model::unique_reg_names(sv0) {
        crate::model::lemma_unique_remove(sv_end, i);
    }
}

/// The frame facts of a completed `mov`.
proof fn lemma_move_frame(
    args: Seq<ExprV>,
    gv0: Seq<crate::model::RegV>,
    sv0: Seq<crate::model::RegV>,
    r: Result<(), crate::interpreter::AdvancedIllError>,
    gv1: Seq<crate::model::RegV>,
    sv1: Seq<crate::model::RegV>,
)
    requires
        move_post(args, gv0, sv0, r, gv1, sv1),
    ensures
        names_of(gv1) == names_of(gv0),
        crate::model::unique_reg_names(gv0) ==> crate::model::unique_reg_names(gv1),
        crate::model::unique_reg_names(sv0) ==> crate::model::unique_reg_names(sv1),
{
    let name = ref_name_of(args[1]);
    match resolve_operand(args[0], gv0, sv0) {
        None => {},
        Some(v) => {
            if crate::model::has_reg(sv0, name) {
                let i = crate::model::reg_idx(sv0, name);
                crate::model::lemma_find_reg_from_range(sv0, name, 0);
                crate::model::lemma_unique_update(
                    sv0,
                    i,
                    crate::model::RegV { value: v, ..sv0[i] },
                );
            } else if crate::model::has_reg(gv0, name) {
                let i = crate::model::reg_idx(gv0, name);
                crate::model::lemma_find_reg_from_range(gv0, name, 0);
                crate::model::lemma_unique_update(
                    gv0,
                    i,
                    crate::model::RegV { value: v, ..gv0[i] },
                );
            }
        },
    }
}

/// The frame facts of a completed `add`.
proof fn lemma_accumulate_frame(
    args: Seq<ExprV>,
    gv0: Seq<crate::model::RegV>,
    sv0: Seq<crate::model::RegV>,
    r: Result<(), crate::interpreter::AdvancedIllError>,
    gv1: Seq<crate::model::RegV>,
    sv1: Seq<crate::model::RegV>,
)
    requires
        accumulate_post(args, gv0, sv0, r, gv1, sv1),
    ensures
        names_of(gv1) == names_of(gv0),
        crate::model::unique_reg_names(gv0) ==> crate::model::unique_reg_names(gv1),
        crate::model::unique_reg_names(sv0) ==> crate::model::unique_reg_names(sv1),
{
    let name = ref_name_of(args[1]);
    match resolve_operand(args[0], gv0, sv0) {
        None => {},
        Some(v) => {
            if crate::model::has_reg(sv0, name) {
                let i = crate::model::reg_idx(sv0, name);
                crate::model::lemma_find_reg_from_range(sv0, name, 0);
                crate::model::lemma_unique_update(
                    sv0,
                    i,
                    crate::model::RegV { value: sv0[i].value.wrapping_add(v), ..sv0[i] },
                );
            } else if crate::model::has_reg(gv0, name) {
                let i = crate::model::reg_idx(gv0, name);
                crate::model::lemma_find_reg_from_range(gv0, name, 0);
                crate::model::lemma_unique_update(
                    gv0,
                    i,
                    crate::model::RegV { value: gv0[i].value.wrapping_add(v), ..gv0[i] },
                );
            }
        },
    }
}

/// The frame facts of a completed `neg`.
proof fn lemma_negate_frame(
    args: Seq<ExprV>,
    gv0: Seq<crate::model::RegV>,
    sv0: Seq<crate::model::RegV>,
    r: Result<(), crate::interpreter::AdvancedIllError>,
    gv1: Seq<crate::model::RegV>,
    sv1: Seq<crate::model::RegV>,
)
    requires
        negate_post(args, gv0, sv0, r, gv1, sv1),
    ensures
        names_of(gv1) == names_of(gv0),
        crate::model::unique_reg_names(gv0) ==> crate::model::unique_reg_names(gv1),
        crate::model::unique_reg_names(sv0) ==> crate::model::unique_reg_names(sv1),
{
    let name = ref_name_of(args[0]);
    if crate::model::has_reg(sv0, name) {
        let i = crate::model::reg_idx(sv0, name);
        let old_v = sv0[i].value;
        crate::model::lemma_find_reg_from_range(sv0, name, 0);
        crate::model::lemma_unique_update(
            sv0,
            i,
            crate::model::RegV {
                value: if old_v == TRUE {
                    FALSE
                } else {
                    TRUE
                },
                ..sv0[i]
            },
        );
    } else if crate::model::has_reg(gv0, name) {
        let i = crate::model::reg_idx(gv0, name);
        let old_v = gv0[i].value;
        crate::model::lemma_find_reg_from_range(gv0, name, 0);
        crate::model::lemma_unique_update(
            gv0,
            i,
            crate::model::RegV {
                value: if old_v == TRUE {
                    FALSE
                } else {
                    TRUE
                },
                ..gv0[i]
            },
        );
    }
}

/// The frame facts of a completed display opcode.
proof fn lemma_show_frame(
    args: Seq<ExprV>,
    gv: Seq<crate::model::RegV>,
    sv: Seq<crate::model::RegV>,
    ov0: Seq<u8>,
    r: Result<(), crate::interpreter::AdvancedIllError>,
    ov1: Seq<u8>,
    nl: bool,
)
    requires
        show_post(args, gv, sv, ov0, r, ov1, nl),
    ensures
        ov0.len() <= ov1.len(),
        ov1.subrange(0, ov0.len() as int) == ov0,
{
    let name = ref_name_of(args[0]);
    match crate::model::resolve_val(gv, sv, name) {
        None => {
            lemma_output_extend(ov0, Seq::<u8>::empty());
        },
        Some(v) => {
            lemma_output_extend(
                ov0,
                crate::text::dec_repr(v as int) + (if nl {
                    seq![10u8]
                } else {
                    Seq::<u8>::empty()
                }),
            );
            assert(ov1 =~= ov0 + (crate::text::dec_repr(v as int) + (if nl {
                seq![10u8]
            } else {
                Seq::<u8>::empty()
            })));
        },
    }
}

} // verus!
