//! The interpreter: registers, source files, errors, instructions, and the
//! two scan phases (register declarations, then instruction definitions)
//! followed by execution of the main instruction.

use vstd::prelude::*;
use crate::model::{
    has_inst, has_op, has_reg, inst_idx, lemma_find_inst_from_is, lemma_find_op_from_is,
    lemma_find_reg_from_is, lemma_find_reg_from_range, op_idx, reg_idx, reg_val,
    unique_inst_names, unique_reg_names, FileV, InstV, RegV,
};
use crate::opcodes::{ExpressionType, OpCode};
use crate::scan::{contains_byte, ReadHead};
use crate::text::{bytes_eq, sub_vec};

verus! {

/// Register-declaration sigil `+`.
pub const REGISTER_DEF: u8 = 43;

/// Declaration and statement terminator `;`.
pub const DEF_END: u8 = 59;

/// Instruction-definition sigil `$`; doubled, it marks the main instruction.
pub const INST_DEF: u8 = 36;

/// Parameter-list opener `(`.
pub const INST_PARAM_BEGIN: u8 = 40;

/// Parameter-list closer `)`.
pub const INST_PARAM_END: u8 = 41;

/// Instruction-body opener `{`.
pub const INST_CODES_BEGIN: u8 = 123;

/// Instruction-body closer `}`.
pub const INST_CODES_END: u8 = 125;

/// Line-comment sigil `>`.
pub const COMMENT_SINGLE_LINE: u8 = 62;

/// A named, mutable numeric storage cell.  Globals are declared up front;
/// locals ("variables") are created while an instruction runs.
#[derive(Debug)]
pub struct Register {
    pub identifier: Vec<u8>,
    pub value: i64,
    pub is_variable: bool,
}

impl View for Register {
    type V = RegV;

    open spec fn view(&self) -> RegV {
        RegV { name: self.identifier@, value: self.value, is_variable: self.is_variable }
    }
}

impl DeepView for Register {
    type V = RegV;

    open spec fn deep_view(&self) -> RegV {
        self@
    }
}

/// A source file loaded into memory: its display name and its full text.
#[derive(Debug)]
pub struct EnhancedFile {
    pub filename: Vec<u8>,
    pub content: Vec<u8>,
}

impl View for EnhancedFile {
    type V = FileV;

    open spec fn view(&self) -> FileV {
        FileV { filename: self.filename@, content: self.content@ }
    }
}

impl DeepView for EnhancedFile {
    type V = FileV;

    open spec fn deep_view(&self) -> FileV {
        self@
    }
}

impl EnhancedFile {
    /// An empty placeholder file, for errors that predate any file.
    pub fn empty() -> (r: EnhancedFile)
        ensures
            r@.filename == Seq::<u8>::empty(),
            r@.content == Seq::<u8>::empty(),
    {
        EnhancedFile { filename: Vec::new(), content: Vec::new() }
    }

    /// A copy of this file record.
    pub fn unsafe_clone(&self) -> (r: EnhancedFile)
        ensures
            r@ == self@,
    {
        let r = EnhancedFile {
            filename: sub_vec(&self.filename, 0, self.filename.len()),
            content: sub_vec(&self.content, 0, self.content.len()),
        };
        proof {
            assert(r.filename@ =~= self.filename@);
            assert(r.content@ =~= self.content@);
        }
        r
    }

    /// A copy of this file record; always succeeds for an in-memory file.
    pub fn try_clone(&self) -> (r: Option<EnhancedFile>)
        ensures
            r matches Some(f) && f@ == self@,
    {
        Some(self.unsafe_clone())
    }
}

/// Every way a program can fail: structural parse errors, operand
/// validation errors, and runtime resolution errors.
#[derive(Debug)]
pub enum IllError {
    /// A register or variable name was declared a second time; the optional
    /// text names the kind of holder that already owns the name.
    RegisterRedefinition(ReadHead, Vec<u8>, Option<Vec<u8>>),
    /// A source file holds no register declaration at all.
    NoRegistersFound(EnhancedFile),
    UnexpectedCharacter(ReadHead, u8, Option<Vec<u8>>),
    InstructionRedefinition(ReadHead, Vec<u8>),
    UnknownOpCode(ReadHead, Vec<u8>),
    InvalidOpCodeArguments(ReadHead, Vec<u8>),
    /// Wrong operand count: the expected and the received count.
    OpCodeArgumentMismatch(ReadHead, Vec<u8>, i32, i32),
    NoMainInstruction,
    /// An operand that cannot be read as the expected kind.
    OpCodeInvalidArgument(ReadHead, ExpressionType, Vec<u8>),
    OpCodeInvalidContainerReference(ReadHead, ExpressionType, Vec<u8>, Vec<u8>),
    /// A bare string-literal operand that also names an existing container.
    UnescapedStringLiteralIsContainer(ReadHead, Vec<u8>),
    NonExistentRegister(ReadHead, Vec<u8>),
    NonExistentInstruction(ReadHead, Vec<u8>),
    ImmutableRegister(ReadHead, Vec<u8>),
    /// The evaluator's call-depth bound was exhausted.
    StackOverflow(ReadHead),
    /// The modulo opcode was given a zero divisor.
    DivisionByZero(ReadHead),
}

/// Short category name of an error.
pub open spec fn err_name(e: IllError) -> Seq<char> {
    match e {
        IllError::RegisterRedefinition(..) => "Register Redefinition"@,
        IllError::NoRegistersFound(..) => "No Register Found"@,
        IllError::UnexpectedCharacter(..) => "Unexpected Character"@,
        IllError::InstructionRedefinition(..) => "Instruction Redefinition"@,
        IllError::UnknownOpCode(..) => "Unknown OpCode"@,
        IllError::InvalidOpCodeArguments(..) => "Invalid OpCode Instruction"@,
        IllError::OpCodeArgumentMismatch(..) => "OpCode Argument Length Mismatch"@,
        IllError::NoMainInstruction => "No Main Instruction"@,
        IllError::OpCodeInvalidArgument(..) => "Argument Mismatch"@,
        IllError::OpCodeInvalidContainerReference(..) => "Container Mismatch"@,
        IllError::UnescapedStringLiteralIsContainer(..) => "Unescaped String Literal Misinterpreted"@,
        IllError::NonExistentRegister(..) => "Non-Existent Register"@,
        IllError::NonExistentInstruction(..) => "Non-Existent Instruction"@,
        IllError::ImmutableRegister(..) => "The Register is immutable."@,
        IllError::StackOverflow(..) => "Stack Overflow"@,
        IllError::DivisionByZero(..) => "Division By Zero"@,
    }
}

/// One-line human-readable description of an error category.
pub open spec fn err_desc(e: IllError) -> Seq<char> {
    match e {
        IllError::RegisterRedefinition(..) => "A Register redefinition was attempted."@,
        IllError::NoRegistersFound(..) => "No Register definitions found."@,
        IllError::UnexpectedCharacter(..) => "Unexpected character found."@,
        IllError::InstructionRedefinition(..) => "A instruction redefinition was attempted."@,
        IllError::UnknownOpCode(..) => "An unknown OpCode was used."@,
        IllError::InvalidOpCodeArguments(..) => "An invalid instruction for an OpCode was found."@,
        IllError::OpCodeArgumentMismatch(..) => "OpCode has too few or many arguments."@,
        IllError::NoMainInstruction => "No Main Instruction was found."@,
        IllError::OpCodeInvalidArgument(..) => "Argument mismatch in OpCode."@,
        IllError::OpCodeInvalidContainerReference(..) => "Container mismatch in OpCode."@,
        IllError::UnescapedStringLiteralIsContainer(..) => "Expected String literal is also a container."@,
        IllError::NonExistentRegister(..) => "Register does not exist."@,
        IllError::NonExistentInstruction(..) => "Instruction does not exist."@,
        IllError::ImmutableRegister(..) => "Register cannot be mutated."@,
        IllError::StackOverflow(..) => "The evaluation recursed past the depth bound."@,
        IllError::DivisionByZero(..) => "A modulo by zero was attempted."@,
    }
}

impl IllError {
    /// Short category name of this error.
    pub fn name(&self) -> (r: String)
        ensures
            r@ == err_name(*self),
    {
        match self {
            IllError::RegisterRedefinition(..) => "Register Redefinition".to_owned(),
            IllError::NoRegistersFound(..) => "No Register Found".to_owned(),
            IllError::UnexpectedCharacter(..) => "Unexpected Character".to_owned(),
            IllError::InstructionRedefinition(..) => "Instruction Redefinition".to_owned(),
            IllError::UnknownOpCode(..) => "Unknown OpCode".to_owned(),
            IllError::InvalidOpCodeArguments(..) => "Invalid OpCode Instruction".to_owned(),
            IllError::OpCodeArgumentMismatch(..) => "OpCode Argument Length Mismatch".to_owned(),
            IllError::NoMainInstruction => "No Main Instruction".to_owned(),
            IllError::OpCodeInvalidArgument(..) => "Argument Mismatch".to_owned(),
            IllError::OpCodeInvalidContainerReference(..) => "Container Mismatch".to_owned(),
            IllError::UnescapedStringLiteralIsContainer(..) => "Unescaped String Literal Misinterpreted".to_owned(),
            IllError::NonExistentRegister(..) => "Non-Existent Register".to_owned(),
            IllError::NonExistentInstruction(..) => "Non-Existent Instruction".to_owned(),
            IllError::ImmutableRegister(..) => "The Register is immutable.".to_owned(),
            IllError::StackOverflow(..) => "Stack Overflow".to_owned(),
            IllError::DivisionByZero(..) => "Division By Zero".to_owned(),
        }
    }

    /// The human-readable description of this error category.
    pub fn get_actual_desc(&self) -> (r: String)
        ensures
            r@ == err_desc(*self),
    {
        match self {
            IllError::RegisterRedefinition(..) => "A Register redefinition was attempted."
                .to_owned(),
            IllError::NoRegistersFound(..) => "No Register definitions found.".to_owned(),
            IllError::UnexpectedCharacter(..) => "Unexpected character found.".to_owned(),
            IllError::InstructionRedefinition(..) => "A instruction redefinition was attempted."
                .to_owned(),
            IllError::UnknownOpCode(..) => "An unknown OpCode was used.".to_owned(),
            IllError::InvalidOpCodeArguments(..) => "An invalid instruction for an OpCode was found."
                .to_owned(),
            IllError::OpCodeArgumentMismatch(..) => "OpCode has too few or many arguments."
                .to_owned(),
            IllError::NoMainInstruction => "No Main Instruction was found.".to_owned(),
            IllError::OpCodeInvalidArgument(..) => "Argument mismatch in OpCode.".to_owned(),
            IllError::OpCodeInvalidContainerReference(..) => "Container mismatch in OpCode."
                .to_owned(),
            IllError::UnescapedStringLiteralIsContainer(..) => "Expected String literal is also a container."
                .to_owned(),
            IllError::NonExistentRegister(..) => "Register does not exist.".to_owned(),
            IllError::NonExistentInstruction(..) => "Instruction does not exist.".to_owned(),
            IllError::ImmutableRegister(..) => "Register cannot be mutated.".to_owned(),
            IllError::StackOverflow(..) => "The evaluation recursed past the depth bound."
                .to_owned(),
            IllError::DivisionByZero(..) => "A modulo by zero was attempted.".to_owned(),
        }
    }
}

/// An error together with the position it occurred at and the file it
/// occurred in, so the caller can render a source excerpt.
#[derive(Debug)]
pub struct AdvancedIllError {
    pub error: IllError,
    pub head: Option<ReadHead>,
    pub file: EnhancedFile,
}

impl AdvancedIllError {
    /// Wrap an error with its position and file.
    pub fn new(err: IllError, head: Option<ReadHead>, file: EnhancedFile) -> (r: AdvancedIllError)
        ensures
            r.error == err,
            r.head == head,
            r.file@ == file@,
    {
        AdvancedIllError { error: err, head, file }
    }

    /// The source line the error points at, when the error has a position
    /// and the position names a line of the file.
    pub fn get_error_portion(&self) -> (r: Option<Vec<u8>>)
        ensures
            match r {
                Some(line) => {
                    &&& self.head matches Some(h)
                    &&& 1 <= h.line <= crate::text::split_nl(self.spec_file_content()).len()
                    &&& line@ == crate::text::split_nl(self.spec_file_content())[h.line - 1]
                },
                None => self.head is None || (self.head matches Some(h) && !(1 <= h.line
                    <= crate::text::split_nl(self.spec_file_content()).len())),
            },
    {
        let h = match &self.head {
            Some(h) => *h,
            None => {
                return None;
            },
        };
        let text = sub_vec(&self.file.content, 0, self.file.content.len());
        proof {
            assert(text@ =~= self.file.content@);
        }
        let lines = crate::text::split_lines(text);
        proof {
            assert(crate::text::views(lines@).len() == lines@.len());
        }
        if h.line >= 1 && (h.line as usize) <= lines.len() {
            let idx = (h.line as usize) - 1;
            let line = sub_vec(&lines[idx], 0, lines[idx].len());
            proof {
                assert(crate::text::views(lines@)[idx as int] == lines@[idx as int]@);
                assert(line@ =~= lines@[idx as int]@);
            }
            Some(line)
        } else {
            None
        }
    }
}

impl AdvancedIllError {
    /// The content of the file this error points into.
    pub open spec fn spec_file_content(&self) -> Seq<u8> {
        self.file@.content
    }
}

// ------------------------------------------------------------------
// Register and instruction lookup
// ------------------------------------------------------------------

/// Index of the first register named `name`, if any.
pub fn find_register_index(regs: &Vec<Register>, name: &Vec<u8>) -> (r: Option<usize>)
    ensures
        match r {
            Some(k) => has_reg(regs.deep_view(), name@) && k == reg_idx(regs.deep_view(), name@),
            None => !has_reg(regs.deep_view(), name@),
        },
{
    let ghost rv = regs.deep_view();
    let mut i: usize = 0;
    while i < regs.len()
        invariant
            i <= regs@.len(),
            rv == regs.deep_view(),
            rv.len() == regs@.len(),
            forall|k: int| 0 <= k < i ==> rv[k].name != name@,
        decreases regs@.len() - i,
    {
        if bytes_eq(&regs[i].identifier, name) {
            proof {
                assert(rv[i as int].name == name@);
                lemma_find_reg_from_is(rv, name@, 0, i as int);
            }
            return Some(i);
        }
        proof {
            assert(rv[i as int] == regs@[i as int]@);
        }
        i = i + 1;
    }
    proof {
        lemma_find_reg_from_is(rv, name@, 0, rv.len() as int);
    }
    None
}

/// Whether a register named `name` exists in `regs`.
pub fn register_exists_in(regs: &Vec<Register>, name: &Vec<u8>) -> (r: bool)
    ensures
        r == has_reg(regs.deep_view(), name@),
{
    match find_register_index(regs, name) {
        Some(_) => true,
        None => false,
    }
}

/// Mutable access to one register of the table.
fn reg_at_mut(regs: &mut Vec<Register>, i: usize) -> (e: &mut Register)
    requires
        i < old(regs).len(),
    ensures
        *e == old(regs)@[i as int],
        final(regs)@ == old(regs)@.update(i as int, *final(e)),
{
    &mut regs[i]
}

/// Overwrite the value of the register at `i`, keeping its name and kind.
pub fn set_register_value(regs: &mut Vec<Register>, i: usize, v: i64)
    requires
        i < old(regs).len(),
    ensures
        final(regs).deep_view() == old(regs).deep_view().update(
            i as int,
            RegV { value: v, ..old(regs).deep_view()[i as int] },
        ),
        final(regs)@.len() == old(regs)@.len(),
{
    let ghost before = regs.deep_view();
    let e = reg_at_mut(regs, i);
    e.value = v;
    proof {
        assert(final(regs).deep_view() =~= before.update(i as int, RegV { value: v, ..before[i as int] }));
    }
}

/// Add `d` to the value of the register at `i` (wrapping on overflow),
/// keeping its name and kind.
pub fn add_register_value(regs: &mut Vec<Register>, i: usize, d: i64)
    requires
        i < old(regs).len(),
    ensures
        final(regs).deep_view() == old(regs).deep_view().update(
            i as int,
            RegV {
                value: old(regs).deep_view()[i as int].value.wrapping_add(d),
                ..old(regs).deep_view()[i as int]
            },
        ),
        final(regs)@.len() == old(regs)@.len(),
{
    let ghost before = regs.deep_view();
    let e = reg_at_mut(regs, i);
    e.value = e.value.wrapping_add(d);
    proof {
        assert(final(regs).deep_view() =~= before.update(
            i as int,
            RegV { value: before[i as int].value.wrapping_add(d), ..before[i as int] },
        ));
    }
}

/// Append a register to the table.
pub fn push_register(regs: &mut Vec<Register>, r: Register)
    ensures
        final(regs).deep_view() == old(regs).deep_view().push(r@),
        final(regs)@.len() == old(regs)@.len() + 1,
{
    let ghost before = regs.deep_view();
    let ghost rv = r@;
    regs.push(r);
    proof {
        assert(final(regs).deep_view() =~= before.push(rv));
    }
}

/// Remove the register at `i` from the table.
pub fn remove_register(regs: &mut Vec<Register>, i: usize)
    requires
        i < old(regs).len(),
    ensures
        final(regs).deep_view() == old(regs).deep_view().remove(i as int),
        final(regs)@.len() == old(regs)@.len() - 1,
{
    let ghost before = regs.deep_view();
    let _ = regs.remove(i);
    proof {
        assert(final(regs).deep_view() =~= before.remove(i as int));
    }
}

/// Create a fresh register record.
pub fn make_register(identifier: Vec<u8>, value: i64, is_variable: bool) -> (r: Register)
    ensures
        r@ == (RegV { name: identifier@, value, is_variable }),
{
    Register { identifier, value, is_variable }
}

/// The seeded implicit return slot of every local scope: `res`, value 0.
pub fn res_register() -> (r: Register)
    ensures
        r@ == (RegV { name: res_name(), value: 0, is_variable: true }),
{
    let r = Register { identifier: vec![114u8, 101u8, 115u8], value: 0, is_variable: true };
    proof {
        assert(r.identifier@ =~= res_name());
    }
    r
}

/// The name of the implicit return slot.
pub open spec fn res_name() -> Seq<u8> {
    seq![114u8, 101u8, 115u8]
}

// ------------------------------------------------------------------
// Instructions
// ------------------------------------------------------------------

/// One instruction definition: the language's only callable unit.
#[derive(Debug)]
pub struct Instruction {
    pub name: Vec<u8>,
    pub codes: Vec<OpCode>,
    pub scope: Vec<Register>,
    pub arguments: Vec<Vec<u8>>,
    pub is_main: bool,
}

impl View for Instruction {
    type V = InstV;

    open spec fn view(&self) -> InstV {
        InstV {
            name: self.name@,
            codes: self.codes.deep_view(),
            scope: self.scope.deep_view(),
            arguments: self.arguments.deep_view(),
            is_main: self.is_main,
        }
    }
}

impl DeepView for Instruction {
    type V = InstV;

    open spec fn deep_view(&self) -> InstV {
        self@
    }
}

impl Instruction {
    /// An empty instruction whose local scope holds only the seeded `res`.
    pub fn new_default() -> (r: Instruction)
        ensures
            r@.name == Seq::<u8>::empty(),
            r@.codes == Seq::<crate::model::OpCodeV>::empty(),
            r@.scope == seq![RegV { name: res_name(), value: 0, is_variable: true }],
            r@.arguments == Seq::<Seq<u8>>::empty(),
            r@.is_main == false,
    {
        let mut scope: Vec<Register> = Vec::new();
        scope.push(res_register());
        let r = Instruction {
            name: Vec::new(),
            codes: Vec::new(),
            scope,
            arguments: Vec::new(),
            is_main: false,
        };
        proof {
            assert(r@.codes =~= Seq::<crate::model::OpCodeV>::empty());
            assert(r@.scope =~= seq![RegV { name: res_name(), value: 0, is_variable: true }]);
            assert(r@.arguments =~= Seq::<Seq<u8>>::empty());
        }
        r
    }

    /// An instruction from its parts; the seeded `res` is appended to the
    /// given scope.
    pub fn new(
        name: Vec<u8>,
        codes: Vec<OpCode>,
        scope: Vec<Register>,
        arguments: Vec<Vec<u8>>,
        is_main: bool,
    ) -> (r: Instruction)
        ensures
            r@.name == name@,
            r@.codes == codes.deep_view(),
            r@.scope == scope.deep_view().push(
                RegV { name: res_name(), value: 0, is_variable: true },
            ),
            r@.arguments == arguments.deep_view(),
            r@.is_main == is_main,
    {
        let ghost old_scope = scope.deep_view();
        let mut scope = scope;
        scope.push(res_register());
        let r = Instruction { name, codes, scope, arguments, is_main };
        proof {
            assert(r@.scope =~= old_scope.push(
                RegV { name: res_name(), value: 0, is_variable: true },
            ));
        }
        r
    }

    /// The first register of this instruction's own scope named `name`.
    pub fn find_scoped_register(&self, name: &Vec<u8>) -> (r: Option<&Register>)
        ensures
            match r {
                Some(reg) => has_reg(self@.scope, name@) && reg@ == self@.scope[reg_idx(
                    self@.scope,
                    name@,
                )],
                None => !has_reg(self@.scope, name@),
            },
    {
        match find_register_index(&self.scope, name) {
            Some(i) => Some(&self.scope[i]),
            None => None,
        }
    }

    /// Whether this instruction's own scope holds a register named `name`.
    pub fn does_scoped_register_exist(&self, name: &Vec<u8>) -> (r: bool)
        ensures
            r == has_reg(self@.scope, name@),
    {
        match self.find_scoped_register(name) {
            Some(_) => true,
            None => false,
        }
    }
}

impl Instruction {
    /// Run this instruction's opcodes in order against the shared global
    /// registers and the caller's local scope, and return the final value
    /// of the scope's `res` slot.  `fuel` bounds the recursion depth.
    pub fn c_execute(
        &self,
        file: &EnhancedFile,
        registers: &mut Vec<Register>,
        insts: &Vec<Instruction>,
        scope: &mut Vec<Register>,
        output: &mut Vec<u8>,
        fuel: u64,
    ) -> (r: Result<i64, AdvancedIllError>)
        requires
            crate::opcodes::inst_codes_wf(self@),
            crate::opcodes::insts_wf(insts.deep_view()),
        ensures
            crate::opcodes::frame_ok(
                old(registers).deep_view(),
                old(scope).deep_view(),
                old(output)@,
                final(registers).deep_view(),
                final(scope).deep_view(),
                final(output)@,
            ),
            r matches Ok(v) ==> has_reg(final(scope).deep_view(), res_name()) && v == reg_val(
                final(scope).deep_view(),
                res_name(),
            ),
            r matches Err(e) ==> crate::opcodes::is_runtime_error(e.error),
            fuel == 0 ==> final(registers).deep_view() == old(registers).deep_view()
                && final(scope).deep_view() == old(scope).deep_view() && final(output)@ == old(
                output,
            )@ && (r matches Err(e) && e.error matches IllError::StackOverflow(_)),
            fuel > 0 ==> crate::opcodes::invoke_post(
                insts.deep_view(),
                self@,
                old(registers).deep_view(),
                old(scope).deep_view(),
                old(output)@,
                r,
                final(registers).deep_view(),
                final(scope).deep_view(),
                final(output)@,
            ),
            (fuel > 0 && self@.codes.len() == 0 && has_reg(old(scope).deep_view(), res_name()))
                ==> r == Ok::<i64, AdvancedIllError>(reg_val(old(scope).deep_view(), res_name())),
        decreases fuel, 2int,
    {
        let ghost gv0 = registers.deep_view();
        let ghost sv0 = scope.deep_view();
        let ghost ov0 = output@;
        let ghost iv = insts.deep_view();
        proof {
            crate::opcodes::lemma_frame_same(gv0, sv0, ov0);
        }
        if fuel == 0 {
            let err = IllError::StackOverflow(ReadHead::new());
            return Err(AdvancedIllError::new(err, None, file.unsafe_clone()));
        }
        proof {
            assert(self@.codes.subrange(0, 0) =~= Seq::<crate::model::OpCodeV>::empty());
        }
        let mut j: usize = 0;
        while j < self.codes.len()
            invariant
                j <= self.codes@.len(),
                fuel >= 1,
                gv0 == old(registers).deep_view(),
                sv0 == old(scope).deep_view(),
                ov0 == old(output)@,
                iv == insts.deep_view(),
                crate::opcodes::inst_codes_wf(self@),
                crate::opcodes::insts_wf(insts.deep_view()),
                crate::opcodes::frame_ok(
                    gv0,
                    sv0,
                    ov0,
                    registers.deep_view(),
                    scope.deep_view(),
                    output@,
                ),
                crate::opcodes::run_codes_post(
                    self@.codes.subrange(0, j as int),
                    iv,
                    gv0,
                    sv0,
                    ov0,
                    Ok::<(), AdvancedIllError>(()),
                    registers.deep_view(),
                    scope.deep_view(),
                    output@,
                ),
            decreases self.codes@.len() - j,
        {
            proof {
                assert(crate::opcodes::op_wf(self@.codes[j as int]));
                assert(self@.codes[j as int] == self.codes@[j as int]@);
            }
            let ghost gv_a = registers.deep_view();
            let ghost sv_a = scope.deep_view();
            let ghost ov_a = output@;
            let res = self.codes[j].execute(file, registers, insts, scope, output, fuel - 1);
            proof {
                crate::opcodes::lemma_frame_trans(
                    gv0,
                    sv0,
                    ov0,
                    gv_a,
                    sv_a,
                    ov_a,
                    registers.deep_view(),
                    scope.deep_view(),
                    output@,
                );
            }
            match res {
                Ok(u) => {
                    proof {
                        assert(u == ());
                        assert(res == Ok::<(), AdvancedIllError>(()));
                        crate::opcodes::lemma_run_codes_snoc(
                            self@.codes.subrange(0, j as int),
                            iv,
                            gv0,
                            sv0,
                            ov0,
                            gv_a,
                            sv_a,
                            ov_a,
                            self@.codes[j as int],
                            res,
                            registers.deep_view(),
                            scope.deep_view(),
                            output@,
                        );
                        assert(self@.codes.subrange(0, j + 1) =~= self@.codes.subrange(
                            0,
                            j as int,
                        ).push(self@.codes[j as int]));
                    }
                },
                Err(e) => {
                    proof {
                        crate::opcodes::lemma_run_codes_abort(
                            self@.codes.subrange(0, j as int),
                            self@.codes[j as int],
                            self@.codes.subrange(j + 1, self@.codes.len() as int),
                            iv,
                            gv0,
                            sv0,
                            ov0,
                            gv_a,
                            sv_a,
                            ov_a,
                            res,
                            registers.deep_view(),
                            scope.deep_view(),
                            output@,
                        );
                        assert(self@.codes.subrange(0, j as int) + seq![
                            self@.codes[j as int],
                        ] + self@.codes.subrange(j + 1, self@.codes.len() as int)
                            =~= self@.codes);
                    }
                    return Err(e);
                },
            }
            j = j + 1;
        }
        proof {
            assert(self@.codes.subrange(0, self@.codes.len() as int) =~= self@.codes);
        }
        let resname: Vec<u8> = vec![114u8, 101u8, 115u8];
        proof {
            assert(resname@ =~= res_name());
        }
        match find_register_index(scope, &resname) {
            Some(i) => Ok(scope[i].value),
            None => {
                let err = IllError::NonExistentRegister(ReadHead::new(), resname);
                Err(AdvancedIllError::new(err, None, file.unsafe_clone()))
            },
        }
    }

    /// Run this instruction as an entry point: a fresh local scope is
    /// seeded with `res` and the opcodes run in order against the shared
    /// global registers.
    pub fn execute(
        &self,
        file: &EnhancedFile,
        registers: &mut Vec<Register>,
        insts: &Vec<Instruction>,
        output: &mut Vec<u8>,
        fuel: u64,
    ) -> (r: Result<(), AdvancedIllError>)
        requires
            crate::opcodes::inst_codes_wf(self@),
            crate::opcodes::insts_wf(insts.deep_view()),
        ensures
            crate::opcodes::names_of(final(registers).deep_view()) == crate::opcodes::names_of(
                old(registers).deep_view(),
            ),
            unique_reg_names(old(registers).deep_view()) ==> unique_reg_names(
                final(registers).deep_view(),
            ),
            old(output)@.len() <= final(output)@.len(),
            final(output)@.subrange(0, old(output)@.len() as int) == old(output)@,
            fuel == 0 ==> final(registers).deep_view() == old(registers).deep_view()
                && final(output)@ == old(output)@ && (r matches Err(e) && e.error matches
            IllError::StackOverflow(_)),
            r matches Err(e) ==> crate::opcodes::is_runtime_error(e.error),
            r is Ok ==> exists|v: i64, svf: Seq<RegV>|
                crate::opcodes::invoke_post(
                    insts.deep_view(),
                    self@,
                    old(registers).deep_view(),
                    seq![RegV { name: res_name(), value: 0, is_variable: true }],
                    old(output)@,
                    Ok::<i64, AdvancedIllError>(v),
                    final(registers).deep_view(),
                    svf,
                    final(output)@,
                ),
            fuel > 0 ==> exists|rr: Result<i64, AdvancedIllError>, svf: Seq<RegV>|
                {
                    &&& #[trigger] crate::opcodes::invoke_post(
                        insts.deep_view(),
                        self@,
                        old(registers).deep_view(),
                        seq![RegV { name: res_name(), value: 0, is_variable: true }],
                        old(output)@,
                        rr,
                        final(registers).deep_view(),
                        svf,
                        final(output)@,
                    )
                    &&& (rr is Ok <==> r is Ok)
                    &&& (rr matches Err(e) ==> r == Err::<(), AdvancedIllError>(e))
                },
            (fuel > 0 && self@.codes.len() == 0) ==> r is Ok,
    {
        let mut scope: Vec<Register> = Vec::new();
        scope.push(res_register());
        proof {
            assert(scope.deep_view() =~= seq![
                RegV { name: res_name(), value: 0, is_variable: true },
            ]);
            lemma_find_reg_from_is(scope.deep_view(), res_name(), 0, 0);
            assert(has_reg(scope.deep_view(), res_name()));
        }
        match self.c_execute(file, registers, insts, &mut scope, output, fuel) {
            Ok(_) => Ok(()),
            Err(e) => Err(e),
        }
    }
}


/// Ghost skeleton of one instruction definition: the name, parameter list
/// and main marking the scanner reads, before statement validation.
pub ghost struct DefSkel {
    pub name: Seq<u8>,
    pub params: Seq<Seq<u8>>,
    pub is_main: bool,
}

/// The skeleton of an instruction record.
pub open spec fn skel_of(i: InstV) -> DefSkel {
    DefSkel { name: i.name, params: i.arguments, is_main: i.is_main }
}

/// The skeletons of a list of instructions.
pub open spec fn skels(iv: Seq<InstV>) -> Seq<DefSkel> {
    iv.map_values(|i: InstV| skel_of(i))
}

/// Whether one of the `ex` bytes occurs before the first `until` delimiter,
/// scanning from `from`; whitespace bytes never count.
pub open spec fn has_before(s: Seq<u8>, from: int, ex: Seq<u8>, until: Seq<u8>) -> bool {
    exists|k: int|
        from <= k < crate::scan::span_end(s, until, from, false) && !crate::scan::is_ws(s[k])
            && contains_byte(ex, s[k])
}

/// Position after the statements of an instruction body, scanning from `q`:
/// whitespace and comment lines are skipped, each `;`-terminated statement
/// is consumed, and the scan stops at the closing brace, at the end of the
/// file, or where no statement terminator remains before the closing brace.
pub open spec fn stmts_end(s: Seq<u8>, q: int) -> int
    decreases s.len() - q,
{
    if !(0 <= q < s.len()) {
        s.len() as int
    } else if s[q] == INST_CODES_END {
        q
    } else if crate::scan::is_ws(s[q]) {
        stmts_end(s, q + 1)
    } else if s[q] == COMMENT_SINGLE_LINE {
        let j = crate::scan::span_end(s, seq![crate::scan::NEWLINE], q + 1, false);
        proof {
            crate::scan::lemma_span_end_range(s, seq![crate::scan::NEWLINE], q + 1, false);
        }
        stmts_end(
            s,
            if j < s.len() {
                j + 1
            } else {
                s.len() as int
            },
        )
    } else if !has_before(s, q, seq![DEF_END], seq![INST_CODES_END]) {
        q
    } else {
        let j = crate::scan::span_end(s, seq![DEF_END], q, false);
        proof {
            crate::scan::lemma_span_end_range(s, seq![DEF_END], q, false);
        }
        stmts_end(
            s,
            if j < s.len() {
                j + 1
            } else {
                s.len() as int
            },
        )
    }
}

/// A body's statements never end before they start.
pub proof fn lemma_stmts_end_ge(s: Seq<u8>, q: int)
    requires
        0 <= q <= s.len(),
    ensures
        q <= stmts_end(s, q) <= s.len(),
    decreases s.len() - q,
{
    if 0 <= q < s.len() && s[q] != INST_CODES_END {
        if crate::scan::is_ws(s[q]) {
            lemma_stmts_end_ge(s, q + 1);
        } else if s[q] == COMMENT_SINGLE_LINE {
            let j = crate::scan::span_end(s, seq![crate::scan::NEWLINE], q + 1, false);
            crate::scan::lemma_span_end_range(s, seq![crate::scan::NEWLINE], q + 1, false);
            lemma_stmts_end_ge(
                s,
                if j < s.len() {
                    j + 1
                } else {
                    s.len() as int
                },
            );
        } else if has_before(s, q, seq![DEF_END], seq![INST_CODES_END]) {
            let j = crate::scan::span_end(s, seq![DEF_END], q, false);
            crate::scan::lemma_span_end_range(s, seq![DEF_END], q, false);
            lemma_stmts_end_ge(
                s,
                if j < s.len() {
                    j + 1
                } else {
                    s.len() as int
                },
            );
        }
    }
}

/// Position after a whole definition whose name starts at `q` (just past
/// the sigils): past the parameter list, the body opener and the body's
/// statements.  When the body opener is missing the scan stops at the
/// parameter list's end, where the scanner reports its error.
pub open spec fn def_end(s: Seq<u8>, q: int) -> int {
    let j1 = crate::scan::span_end(s, seq![INST_PARAM_BEGIN], q, false);
    let q1: int = if j1 < s.len() {
        j1 + 1
    } else {
        s.len() as int
    };
    let j2 = crate::scan::span_end(s, seq![INST_PARAM_END], q1, false);
    let q2: int = if j2 < s.len() {
        j2 + 1
    } else {
        s.len() as int
    };
    if !has_before(s, q2, seq![INST_CODES_BEGIN], seq![INST_CODES_END]) {
        q2
    } else {
        let j3 = crate::scan::span_end(s, seq![INST_CODES_BEGIN], q2, false);
        let q3: int = if j3 < s.len() {
            j3 + 1
        } else {
            s.len() as int
        };
        stmts_end(s, q3)
    }
}

/// A definition never ends before its name starts.
pub proof fn lemma_def_end_ge(s: Seq<u8>, q: int)
    requires
        0 <= q <= s.len(),
    ensures
        q <= def_end(s, q) <= s.len(),
{
    let j1 = crate::scan::span_end(s, seq![INST_PARAM_BEGIN], q, false);
    crate::scan::lemma_span_end_range(s, seq![INST_PARAM_BEGIN], q, false);
    let q1: int = if j1 < s.len() {
        j1 + 1
    } else {
        s.len() as int
    };
    let j2 = crate::scan::span_end(s, seq![INST_PARAM_END], q1, false);
    crate::scan::lemma_span_end_range(s, seq![INST_PARAM_END], q1, false);
    let q2: int = if j2 < s.len() {
        j2 + 1
    } else {
        s.len() as int
    };
    if has_before(s, q2, seq![INST_CODES_BEGIN], seq![INST_CODES_END]) {
        let j3 = crate::scan::span_end(s, seq![INST_CODES_BEGIN], q2, false);
        crate::scan::lemma_span_end_range(s, seq![INST_CODES_BEGIN], q2, false);
        let q3: int = if j3 < s.len() {
            j3 + 1
        } else {
            s.len() as int
        };
        lemma_stmts_end_ge(s, q3);
    }
}

/// The skeleton of the definition whose sigil stands at `p`: a second
/// sigil marks it main, the name runs to the parameter opener with its
/// whitespace stripped, and the parameters are the space-split of the raw
/// list.
pub open spec fn def_skel(s: Seq<u8>, p: int) -> DefSkel {
    let is_main = p + 1 < s.len() && s[p + 1] == INST_DEF;
    let q: int = if is_main {
        p + 2
    } else {
        p + 1
    };
    let j1 = crate::scan::span_end(s, seq![INST_PARAM_BEGIN], q, false);
    let q1: int = if j1 < s.len() {
        j1 + 1
    } else {
        s.len() as int
    };
    let j2 = crate::scan::span_end(s, seq![INST_PARAM_END], q1, false);
    DefSkel {
        name: crate::scan::strip_ws(s.subrange(q, j1)),
        params: crate::text::split_sp(s.subrange(q1, j2)),
        is_main,
    }
}

/// The start of a definition's name, just past its sigils.
pub open spec fn def_name_start(s: Seq<u8>, p: int) -> int {
    if p + 1 < s.len() && s[p + 1] == INST_DEF {
        p + 2
    } else {
        p + 1
    }
}

/// The definition skeletons the text holds from position `p` on, in
/// reading order; comment lines are skipped.
pub open spec fn defs_from(s: Seq<u8>, p: int) -> Seq<DefSkel>
    decreases s.len() - p,
{
    if !(0 <= p < s.len()) {
        Seq::empty()
    } else if s[p] == COMMENT_SINGLE_LINE {
        let j = crate::scan::span_end(s, seq![crate::scan::NEWLINE], p + 1, false);
        proof {
            crate::scan::lemma_span_end_range(s, seq![crate::scan::NEWLINE], p + 1, false);
        }
        defs_from(
            s,
            if j < s.len() {
                j + 1
            } else {
                s.len() as int
            },
        )
    } else if s[p] == INST_DEF {
        proof {
            lemma_def_end_ge(s, def_name_start(s, p));
        }
        seq![def_skel(s, p)] + defs_from(s, def_end(s, def_name_start(s, p)))
    } else {
        defs_from(s, p + 1)
    }
}

/// The definition skeletons of one source file.
pub open spec fn file_defs(f: FileV) -> Seq<DefSkel> {
    defs_from(f.content, 0)
}

/// The definition skeletons of the first `k` files, file by file.
pub open spec fn defs_upto(files: Seq<FileV>, k: int) -> Seq<DefSkel>
    decreases k,
{
    if k <= 0 {
        Seq::empty()
    } else {
        defs_upto(files, k - 1) + file_defs(files[k - 1])
    }
}

/// The definition skeletons of all files.
pub open spec fn all_defs(files: Seq<FileV>) -> Seq<DefSkel> {
    defs_upto(files, files.len() as int)
}

/// A sole instruction is marked main whatever its sigil.
pub open spec fn mark_sole_main(sk: Seq<DefSkel>) -> Seq<DefSkel> {
    if sk.len() >= 1 {
        sk.update(0, DefSkel { is_main: true, ..sk[0] })
    } else {
        sk
    }
}

/// Mutable access to one instruction of the program.
fn inst_at_mut(insts: &mut Vec<Instruction>, i: usize) -> (e: &mut Instruction)
    requires
        i < old(insts).len(),
    ensures
        *e == old(insts)@[i as int],
        final(insts)@ == old(insts)@.update(i as int, *final(e)),
{
    &mut insts[i]
}

/// Mark the instruction at `i` as the program's main entry point.
pub fn set_instruction_main(insts: &mut Vec<Instruction>, i: usize)
    requires
        i < old(insts).len(),
    ensures
        final(insts).deep_view() == old(insts).deep_view().update(
            i as int,
            InstV { is_main: true, ..old(insts).deep_view()[i as int] },
        ),
        final(insts)@.len() == old(insts)@.len(),
{
    let ghost before = insts.deep_view();
    let e = inst_at_mut(insts, i);
    e.is_main = true;
    proof {
        assert(final(insts).deep_view() =~= before.update(
            i as int,
            InstV { is_main: true, ..before[i as int] },
        ));
    }
}

/// Index of the first instruction named `name`, if any.
pub fn find_instruction_index(insts: &Vec<Instruction>, name: &Vec<u8>) -> (r: Option<usize>)
    ensures
        match r {
            Some(k) => has_inst(insts.deep_view(), name@) && k == inst_idx(
                insts.deep_view(),
                name@,
            ),
            None => !has_inst(insts.deep_view(), name@),
        },
{
    let ghost iv = insts.deep_view();
    let mut i: usize = 0;
    while i < insts.len()
        invariant
            i <= insts@.len(),
            iv == insts.deep_view(),
            iv.len() == insts@.len(),
            forall|k: int| 0 <= k < i ==> iv[k].name != name@,
        decreases insts@.len() - i,
    {
        if bytes_eq(&insts[i].name, name) {
            proof {
                assert(iv[i as int].name == name@);
                lemma_find_inst_from_is(iv, name@, 0, i as int);
            }
            return Some(i);
        }
        proof {
            assert(iv[i as int] == insts@[i as int]@);
        }
        i = i + 1;
    }
    proof {
        lemma_find_inst_from_is(iv, name@, 0, iv.len() as int);
    }
    None
}

// ------------------------------------------------------------------
// The interpreter
// ------------------------------------------------------------------

/// The interpreter: the loaded sources, the opcode catalog, and the program
/// state accumulated by the scan phases and mutated by execution.
pub struct Interpreter {
    pub debug: bool,
    pub quiet: bool,
    pub files: Vec<EnhancedFile>,
    pub preamble: Vec<EnhancedFile>,
    pub opcodes: Vec<OpCode>,
    pub registers: Vec<Register>,
    pub instructions: Vec<Instruction>,
    /// Everything the display and print opcodes emitted, in order.
    pub output: Vec<u8>,
    /// Recursion-depth and loop-length bound for one execution.
    pub fuel: u64,
}

impl Interpreter {
    /// A fresh interpreter over already-loaded sources and preamble files,
    /// with the given opcode catalog and no program state yet.
    pub fn new(
        debug: bool,
        quiet: bool,
        sources: Vec<EnhancedFile>,
        preamble: Vec<EnhancedFile>,
        opcodes: Vec<OpCode>,
    ) -> (r: Interpreter)
        ensures
            r.debug == debug,
            r.quiet == quiet,
            r.files.deep_view() == sources.deep_view(),
            r.preamble.deep_view() == preamble.deep_view(),
            r.opcodes.deep_view() == opcodes.deep_view(),
            r.registers.deep_view() == Seq::<RegV>::empty(),
            r.instructions.deep_view() == Seq::<InstV>::empty(),
            r.output@ == Seq::<u8>::empty(),
            r.fuel == EXEC_FUEL,
    {
        let r = Interpreter {
            debug,
            quiet,
            files: sources,
            preamble,
            opcodes,
            registers: Vec::new(),
            instructions: Vec::new(),
            output: Vec::new(),
            fuel: EXEC_FUEL,
        };
        proof {
            assert(r.registers.deep_view() =~= Seq::<RegV>::empty());
            assert(r.instructions.deep_view() =~= Seq::<InstV>::empty());
        }
        r
    }

    /// The first catalog entry named `name`.
    pub fn find_opcode(&self, name: &Vec<u8>) -> (r: Option<&OpCode>)
        ensures
            match r {
                Some(op) => has_op(self.opcodes.deep_view(), name@) && op@
                    == self.opcodes.deep_view()[op_idx(self.opcodes.deep_view(), name@)],
                None => !has_op(self.opcodes.deep_view(), name@),
            },
    {
        let ghost cv = self.opcodes.deep_view();
        let mut i: usize = 0;
        while i < self.opcodes.len()
            invariant
                i <= self.opcodes@.len(),
                cv == self.opcodes.deep_view(),
                cv.len() == self.opcodes@.len(),
                forall|k: int| 0 <= k < i ==> cv[k].name != name@,
            decreases self.opcodes@.len() - i,
        {
            if bytes_eq(&self.opcodes[i].name, name) {
                proof {
                    assert(cv[i as int].name == name@);
                    lemma_find_op_from_is(cv, name@, 0, i as int);
                }
                return Some(&self.opcodes[i]);
            }
            proof {
                assert(cv[i as int] == self.opcodes@[i as int]@);
            }
            i = i + 1;
        }
        proof {
            lemma_find_op_from_is(cv, name@, 0, cv.len() as int);
        }
        None
    }

    /// Whether the catalog holds an entry named `name`.
    pub fn does_opcode_exist(&self, name: &Vec<u8>) -> (r: bool)
        ensures
            r == has_op(self.opcodes.deep_view(), name@),
    {
        match self.find_opcode(name) {
            Some(_) => true,
            None => false,
        }
    }

    /// The first global register named `name`.
    pub fn find_register(&self, name: &Vec<u8>) -> (r: Option<&Register>)
        ensures
            match r {
                Some(reg) => has_reg(self.registers.deep_view(), name@) && reg@
                    == self.registers.deep_view()[reg_idx(self.registers.deep_view(), name@)],
                None => !has_reg(self.registers.deep_view(), name@),
            },
    {
        match find_register_index(&self.registers, name) {
            Some(i) => Some(&self.registers[i]),
            None => None,
        }
    }

    /// Whether a global register named `name` exists.
    pub fn does_register_exist(&self, name: &Vec<u8>) -> (r: bool)
        ensures
            r == has_reg(self.registers.deep_view(), name@),
    {
        match self.find_register(name) {
            Some(_) => true,
            None => false,
        }
    }

    /// The first instruction named `name`.
    pub fn find_instruction(&self, name: &Vec<u8>) -> (r: Option<&Instruction>)
        ensures
            match r {
                Some(inst) => has_inst(self.instructions.deep_view(), name@) && inst@
                    == self.instructions.deep_view()[inst_idx(
                    self.instructions.deep_view(),
                    name@,
                )],
                None => !has_inst(self.instructions.deep_view(), name@),
            },
    {
        match find_instruction_index(&self.instructions, name) {
            Some(i) => Some(&self.instructions[i]),
            None => None,
        }
    }

    /// Whether an instruction named `name` exists.
    pub fn does_instruction_exist(&self, name: &Vec<u8>) -> (r: bool)
        ensures
            r == has_inst(self.instructions.deep_view(), name@),
    {
        match self.find_instruction(name) {
            Some(_) => true,
            None => false,
        }
    }
}


/// Where a declaration group ends: reading `;`-terminated names from `p`,
/// the position of the newline that stops the group (or the end of the
/// file).
pub open spec fn decl_group_end(s: Seq<u8>, p: int) -> int
    decreases s.len() - p,
{
    if !(0 <= p < s.len()) {
        s.len() as int
    } else if s[p] == crate::scan::NEWLINE {
        p
    } else {
        let j = crate::scan::span_end(s, seq![DEF_END], p, false);
        proof {
            crate::scan::lemma_span_end_range(s, seq![DEF_END], p, false);
        }
        if j < s.len() {
            decl_group_end(s, j + 1)
        } else {
            s.len() as int
        }
    }
}

/// The names one declaration group declares, reading `;`-terminated names
/// from `p` until a newline or the end of the file; each name is the read
/// content with its whitespace stripped.
pub open spec fn decl_group_names(s: Seq<u8>, p: int) -> Seq<Seq<u8>>
    decreases s.len() - p,
{
    if !(0 <= p < s.len()) {
        Seq::empty()
    } else if s[p] == crate::scan::NEWLINE {
        Seq::empty()
    } else {
        let j = crate::scan::span_end(s, seq![DEF_END], p, false);
        proof {
            crate::scan::lemma_span_end_range(s, seq![DEF_END], p, false);
        }
        seq![crate::scan::strip_ws(s.subrange(p, j))] + (if j < s.len() {
            decl_group_names(s, j + 1)
        } else {
            Seq::empty()
        })
    }
}

/// A declaration group never ends before it starts.
pub proof fn lemma_decl_group_end_ge(s: Seq<u8>, p: int)
    requires
        0 <= p <= s.len(),
    ensures
        p <= decl_group_end(s, p) <= s.len(),
    decreases s.len() - p,
{
    if p < s.len() && s[p] != crate::scan::NEWLINE {
        let j = crate::scan::span_end(s, seq![DEF_END], p, false);
        crate::scan::lemma_span_end_range(s, seq![DEF_END], p, false);
        if j < s.len() {
            lemma_decl_group_end_ge(s, j + 1);
        }
    }
}

/// The register names the text declares from position `p` on: wherever a
/// declaration sigil stands, the names of its group, in reading order.
pub open spec fn decls_from(s: Seq<u8>, p: int) -> Seq<Seq<u8>>
    decreases s.len() - p,
{
    if !(0 <= p < s.len()) {
        Seq::empty()
    } else if !crate::scan::is_ws(s[p]) && s[p] == REGISTER_DEF {
        proof {
            lemma_decl_group_end_ge(s, p + 1);
        }
        decl_group_names(s, p + 1) + decls_from(s, decl_group_end(s, p + 1))
    } else {
        decls_from(s, p + 1)
    }
}

/// The register names a source file declares.
pub open spec fn file_decls(f: FileV) -> Seq<Seq<u8>> {
    decls_from(f.content, 0)
}

/// The register names the first `k` files declare, file by file.
pub open spec fn decls_upto(files: Seq<FileV>, k: int) -> Seq<Seq<u8>>
    decreases k,
{
    if k <= 0 {
        Seq::empty()
    } else {
        decls_upto(files, k - 1) + file_decls(files[k - 1])
    }
}

/// The register names all files declare, in declaration order.
pub open spec fn all_decls(files: Seq<FileV>) -> Seq<Seq<u8>> {
    decls_upto(files, files.len() as int)
}


/// The names declared by the first files stand unchanged at the start of
/// the whole declaration list.
pub proof fn lemma_decls_upto_prefix(files: Seq<FileV>, k1: int, k2: int)
    requires
        0 <= k1 <= k2,
    ensures
        decls_upto(files, k1).len() <= decls_upto(files, k2).len(),
        forall|i: int|
            0 <= i < decls_upto(files, k1).len() ==> #[trigger] decls_upto(files, k2)[i]
                == decls_upto(files, k1)[i],
    decreases k2 - k1,
{
    if k1 < k2 {
        lemma_decls_upto_prefix(files, k1, k2 - 1);
        assert(decls_upto(files, k2) == decls_upto(files, k2 - 1) + file_decls(files[k2 - 1]));
    }
}


/// During the preamble phase, the names declared so far stand unchanged at
/// the start of the whole program's declaration list.
pub proof fn lemma_combined_pre(pv: Seq<FileV>, fv: Seq<FileV>, k: int)
    requires
        0 <= k <= pv.len(),
    ensures
        decls_upto(pv, k).len() <= (all_decls(pv) + all_decls(fv)).len(),
        forall|i: int|
            0 <= i < decls_upto(pv, k).len() ==> #[trigger] (all_decls(pv) + all_decls(fv))[i]
                == decls_upto(pv, k)[i],
{
    lemma_decls_upto_prefix(pv, k, pv.len() as int);
}

/// During the main phase, the names declared so far stand unchanged at the
/// start of the whole program's declaration list.
pub proof fn lemma_combined_main(pv: Seq<FileV>, fv: Seq<FileV>, k: int)
    requires
        0 <= k <= fv.len(),
    ensures
        (all_decls(pv) + decls_upto(fv, k)).len() <= (all_decls(pv) + all_decls(fv)).len(),
        forall|i: int|
            0 <= i < (all_decls(pv) + decls_upto(fv, k)).len() ==> #[trigger] (all_decls(pv)
                + all_decls(fv))[i] == (all_decls(pv) + decls_upto(fv, k))[i],
{
    lemma_decls_upto_prefix(fv, k, fv.len() as int);
}

/// No name occurs twice in the list.
pub open spec fn distinct_names(ns: Seq<Seq<u8>>) -> bool {
    forall|i: int, j: int| 0 <= i < j < ns.len() ==> ns[i] != ns[j]
}

/// Every register of `s` is a declared global: value and kind as the
/// declaration phase creates them.
pub open spec fn all_declared_globals(s: Seq<RegV>) -> bool {
    forall|i: int|
        0 <= i < s.len() ==> (#[trigger] s[i]).value == 0 && s[i].is_variable == false
}

impl Interpreter {
    /// Phase one: scan the preamble files and then the main files for
    /// `+name;` register declarations and populate the global register
    /// table.  On success the table holds exactly the declared names, in
    /// declaration order, each with value 0; success comes exactly when
    /// every main file declares something and no name is declared twice
    /// anywhere.  Preamble files contribute declarations but need not hold
    /// any.  A main file without a single declaration sigil fails with
    /// `NoRegistersFound`; a name declared twice fails with
    /// `RegisterRedefinition` at its second occurrence.
    pub fn create_registers(&mut self) -> (r: Result<(), AdvancedIllError>)
        requires
            old(self).registers.deep_view() == Seq::<RegV>::empty(),
            forall|i: int|
                0 <= i < old(self).files@.len() ==> (#[trigger] old(self).files@[i]).content@.len()
                    <= crate::scan::MAX_SRC_LEN,
            forall|i: int|
                0 <= i < old(self).preamble@.len() ==> (#[trigger] old(self).preamble@[i]).content@.len()
                    <= crate::scan::MAX_SRC_LEN,
        ensures
            final(self).files@ == old(self).files@,
            final(self).preamble@ == old(self).preamble@,
            final(self).opcodes@ == old(self).opcodes@,
            final(self).instructions@ == old(self).instructions@,
            final(self).output@ == old(self).output@,
            final(self).debug == old(self).debug,
            final(self).quiet == old(self).quiet,
            unique_reg_names(final(self).registers.deep_view()),
            all_declared_globals(final(self).registers.deep_view()),
            r is Ok ==> crate::opcodes::names_of(final(self).registers.deep_view()) == all_decls(
                old(self).preamble.deep_view(),
            ) + all_decls(old(self).files.deep_view()),
            r is Ok <==> ((forall|i: int|
                0 <= i < old(self).files@.len() ==> contains_byte(
                    (#[trigger] old(self).files@[i])@.content,
                    REGISTER_DEF,
                )) && distinct_names(
                all_decls(old(self).preamble.deep_view()) + all_decls(
                    old(self).files.deep_view(),
                ),
            )),
            r matches Err(e) ==> (e.error matches IllError::RegisterRedefinition(_, n, _)
                ==> exists|i: int, j: int|
                0 <= i < j < (all_decls(old(self).preamble.deep_view()) + all_decls(
                    old(self).files.deep_view(),
                )).len() && #[trigger] (all_decls(old(self).preamble.deep_view()) + all_decls(
                    old(self).files.deep_view(),
                ))[i] == n@ && #[trigger] (all_decls(old(self).preamble.deep_view()) + all_decls(
                    old(self).files.deep_view(),
                ))[j] == n@),
            ((forall|i: int|
                0 <= i < old(self).files@.len() ==> contains_byte(
                    (#[trigger] old(self).files@[i])@.content,
                    REGISTER_DEF,
                )) && !distinct_names(
                all_decls(old(self).preamble.deep_view()) + all_decls(
                    old(self).files.deep_view(),
                ),
            )) ==> (r matches Err(e) && e.error matches IllError::RegisterRedefinition(_, _, _)),
            (old(self).files@.len() > 0 && (forall|i: int|
                0 <= i < old(self).preamble@.len() ==> !contains_byte(
                    (#[trigger] old(self).preamble@[i])@.content,
                    REGISTER_DEF,
                )) && (forall|i: int|
                0 <= i < old(self).files@.len() ==> !contains_byte(
                    (#[trigger] old(self).files@[i])@.content,
                    REGISTER_DEF,
                ))) ==> (r matches Err(e) && (e.error matches IllError::NoRegistersFound(f) && f@
                == old(self).files@[0]@)),
            ((forall|i: int|
                0 <= i < old(self).preamble@.len() ==> !contains_byte(
                    (#[trigger] old(self).preamble@[i])@.content,
                    REGISTER_DEF,
                )) && (forall|i: int|
                0 <= i < old(self).files@.len() ==> !contains_byte(
                    (#[trigger] old(self).files@[i])@.content,
                    REGISTER_DEF,
                ))) ==> final(self).registers@ == old(self).registers@,
            r matches Err(e) ==> (e.error matches IllError::NoRegistersFound(_) || e.error matches
                IllError::RegisterRedefinition(_, _, _)),
    {
        let ghost pv = old(self).preamble.deep_view();
        let ghost fv = old(self).files.deep_view();
        let ghost combined = all_decls(pv) + all_decls(fv);
        // preamble files contribute their declarations first; they are not
        // required to declare anything themselves
        let mut p: usize = 0;
        proof {
            assert(crate::opcodes::names_of(self.registers.deep_view()) =~= decls_upto(pv, 0));
        }
        while p < self.preamble.len()
            invariant
                p <= self.preamble@.len(),
                pv == self.preamble.deep_view(),
                fv == self.files.deep_view(),
                combined == all_decls(pv) + all_decls(fv),
                self.files@ == old(self).files@,
                self.preamble@ == old(self).preamble@,
                self.opcodes@ == old(self).opcodes@,
                self.instructions@ == old(self).instructions@,
                self.output@ == old(self).output@,
                self.debug == old(self).debug,
                self.quiet == old(self).quiet,
                forall|i: int|
                    0 <= i < self.preamble@.len() ==> (#[trigger] self.preamble@[i]).content@.len()
                        <= crate::scan::MAX_SRC_LEN,
                unique_reg_names(self.registers.deep_view()),
                all_declared_globals(self.registers.deep_view()),
                crate::opcodes::names_of(self.registers.deep_view()) == decls_upto(pv, p as int),
                (forall|j: int|
                    0 <= j < p ==> !contains_byte(
                        (#[trigger] self.preamble@[j])@.content,
                        REGISTER_DEF,
                    )) ==> self.registers@ == old(self).registers@,
            decreases self.preamble@.len() - p,
        {
            let len = self.preamble[p].content.len();
            let mut at: usize = 0;
            let mut head: ReadHead = ReadHead::new();
            let ghost content = self.preamble@[p as int].content@;
            let stop_def: Vec<u8> = vec![DEF_END];
            proof {
                assert(content == pv[p as int].content);
                assert(decls_upto(pv, p + 1) == decls_upto(pv, p as int) + file_decls(
                    pv[p as int],
                ));
                assert(crate::opcodes::names_of(self.registers.deep_view()) + decls_from(
                    content,
                    0,
                ) =~= decls_upto(pv, p + 1));
            }
            while at < len
                invariant
                    at <= len,
                    len == content.len(),
                    0 <= p < self.preamble@.len(),
                    pv == self.preamble.deep_view(),
                    fv == self.files.deep_view(),
                    combined == all_decls(pv) + all_decls(fv),
                    content == self.preamble@[p as int].content@,
                    content == pv[p as int].content,
                    content.len() <= crate::scan::MAX_SRC_LEN,
                    stop_def@ == seq![DEF_END],
                    1 <= head.line <= at + 1,
                    0 <= head.column <= at + 1,
                    self.files@ == old(self).files@,
                    self.preamble@ == old(self).preamble@,
                    self.opcodes@ == old(self).opcodes@,
                    self.instructions@ == old(self).instructions@,
                    self.output@ == old(self).output@,
                    self.debug == old(self).debug,
                    self.quiet == old(self).quiet,
                    forall|i: int|
                        0 <= i < self.preamble@.len() ==> (#[trigger] self.preamble@[i]).content@.len()
                            <= crate::scan::MAX_SRC_LEN,
                    unique_reg_names(self.registers.deep_view()),
                    all_declared_globals(self.registers.deep_view()),
                    crate::opcodes::names_of(self.registers.deep_view()) + decls_from(
                        content,
                        at as int,
                    ) == decls_upto(pv, p + 1),
                    ((forall|j: int|
                        0 <= j < p ==> !contains_byte(
                            (#[trigger] self.preamble@[j])@.content,
                            REGISTER_DEF,
                        )) && (forall|k: int| 0 <= k < at ==> content[k] != REGISTER_DEF))
                        ==> self.registers@ == old(self).registers@,
                decreases len - at,
            {
                let ghost xi = at as int;
                let x = self.preamble[p].content[at];
                at = at + 1;
                head.advance(x);
                if !crate::scan::is_ws_byte(x) {
                    if x == REGISTER_DEF {
                        proof {
                            assert(content[xi] == REGISTER_DEF);
                            assert(contains_byte(content, REGISTER_DEF));
                            lemma_decl_group_end_ge(content, xi + 1);
                            assert(decls_from(content, xi) == decl_group_names(content, xi + 1)
                                + decls_from(content, decl_group_end(content, xi + 1)));
                        }
                        let ghost ge = decl_group_end(content, xi + 1);
                        proof {
                            assert(crate::opcodes::names_of(self.registers.deep_view())
                                + decl_group_names(content, at as int) + decls_from(content, ge)
                                =~= crate::opcodes::names_of(self.registers.deep_view())
                                + decls_from(content, xi));
                        }
                        let ghost at_entry = at;
                        while at < len && self.preamble[p].content[at] != crate::scan::NEWLINE
                            invariant
                                at_entry <= at <= len,
                                len == content.len(),
                                0 <= p < self.preamble@.len(),
                                pv == self.preamble.deep_view(),
                                fv == self.files.deep_view(),
                                combined == all_decls(pv) + all_decls(fv),
                                content == self.preamble@[p as int].content@,
                                content == pv[p as int].content,
                                content.len() <= crate::scan::MAX_SRC_LEN,
                                stop_def@ == seq![DEF_END],
                                1 <= head.line <= at + 1,
                                0 <= head.column <= at + 1,
                                self.files@ == old(self).files@,
                                self.preamble@ == old(self).preamble@,
                                self.opcodes@ == old(self).opcodes@,
                                self.instructions@ == old(self).instructions@,
                                self.output@ == old(self).output@,
                                self.debug == old(self).debug,
                                self.quiet == old(self).quiet,
                                forall|i: int|
                                    0 <= i < self.preamble@.len() ==> (#[trigger] self.preamble@[i]).content@.len()
                                        <= crate::scan::MAX_SRC_LEN,
                                unique_reg_names(self.registers.deep_view()),
                                all_declared_globals(self.registers.deep_view()),
                                contains_byte(content, REGISTER_DEF),
                                ge == decl_group_end(content, at as int),
                                crate::opcodes::names_of(self.registers.deep_view())
                                    + decl_group_names(content, at as int) + decls_from(
                                    content,
                                    ge,
                                ) == decls_upto(pv, p + 1),
                            decreases len - at,
                        {
                            let ghost at0 = at as int;
                            let ghost names0 = crate::opcodes::names_of(
                                self.registers.deep_view(),
                            );
                            proof {
                                crate::scan::lemma_span_end_range(content, stop_def@, at0, false);
                            }
                            let ghost j0 = crate::scan::span_end(content, stop_def@, at0, false);
                            let data = crate::scan::read_until(
                                &self.preamble[p].content,
                                &mut at,
                                &stop_def,
                            );
                            let register_name = crate::scan::traverse_read(&mut head, data);
                            if at < len {
                                let d = self.preamble[p].content[at];
                                at = at + 1;
                                head.advance(d);
                            }
                            proof {
                                assert(decl_group_names(content, at0) == seq![
                                    crate::scan::strip_ws(content.subrange(at0, j0)),
                                ] + (if j0 < len {
                                    decl_group_names(content, j0 + 1)
                                } else {
                                    Seq::<Seq<u8>>::empty()
                                }));
                                assert(decl_group_end(content, at0) == (if j0 < len {
                                    decl_group_end(content, j0 + 1)
                                } else {
                                    len as int
                                }));
                            }
                            if register_exists_in(&self.registers, &register_name) {
                                proof {
                                    let regs = self.registers.deep_view();
                                    lemma_find_reg_from_range(regs, register_name@, 0);
                                    let i0 = reg_idx(regs, register_name@);
                                    let total = decls_upto(pv, p + 1);
                                    assert(names0[i0] == register_name@);
                                    assert(total[i0] == register_name@);
                                    assert(decl_group_names(content, at0)[0] == register_name@);
                                    assert(total[names0.len() as int] == register_name@);
                                    lemma_combined_pre(pv, fv, p + 1);
                                    assert(combined[i0] == register_name@);
                                    assert(combined[names0.len() as int] == register_name@);
                                    assert(0 <= i0 < names0.len() < combined.len());
                                    assert(combined == all_decls(old(self).preamble.deep_view())
                                        + all_decls(old(self).files.deep_view()));
                                    assert(exists|i: int, j: int|
                                        0 <= i < j < (all_decls(old(self).preamble.deep_view())
                                            + all_decls(old(self).files.deep_view())).len()
                                            && #[trigger] (all_decls(
                                            old(self).preamble.deep_view(),
                                        ) + all_decls(old(self).files.deep_view()))[i]
                                            == register_name@ && #[trigger] (all_decls(
                                            old(self).preamble.deep_view(),
                                        ) + all_decls(old(self).files.deep_view()))[j]
                                            == register_name@);
                                    assert(!distinct_names(combined));
                                    assert(contains_byte(
                                        old(self).preamble@[p as int]@.content,
                                        REGISTER_DEF,
                                    ));
                                }
                                let err = IllError::RegisterRedefinition(head, register_name, None);
                                let adv_err = AdvancedIllError::new(
                                    err,
                                    Some(head),
                                    self.preamble[p].unsafe_clone(),
                                );
                                return Err(adv_err);
                            }
                            let ghost before = self.registers.deep_view();
                            let reg = make_register(register_name, 0, false);
                            let ghost regv = reg@;
                            push_register(&mut self.registers, reg);
                            proof {
                                let now = self.registers.deep_view();
                                lemma_find_reg_from_range(before, regv.name, 0);
                                assert forall|i: int, j: int|
                                    0 <= i < j < now.len() implies now[i].name != now[j].name by {
                                    if j < before.len() {
                                        assert(before[i].name != before[j].name);
                                    } else {
                                        assert(now[j] == regv);
                                        assert(before[i].name != regv.name);
                                    }
                                }
                                assert(crate::opcodes::names_of(now) =~= names0.push(regv.name));
                                if j0 < len {
                                    assert(crate::opcodes::names_of(now) + decl_group_names(
                                        content,
                                        at as int,
                                    ) + decls_from(content, ge) =~= names0 + decl_group_names(
                                        content,
                                        at0,
                                    ) + decls_from(content, ge));
                                } else {
                                    assert(at as int == len as int);
                                    assert(decl_group_names(content, at as int)
                                        =~= Seq::<Seq<u8>>::empty());
                                    assert(crate::opcodes::names_of(now) + decl_group_names(
                                        content,
                                        at as int,
                                    ) + decls_from(content, ge) =~= names0 + decl_group_names(
                                        content,
                                        at0,
                                    ) + decls_from(content, ge));
                                }
                            }
                        }
                        proof {
                            assert(decl_group_names(content, at as int)
                                =~= Seq::<Seq<u8>>::empty());
                            if at < len {
                                assert(content[at as int] == crate::scan::NEWLINE);
                                assert(ge == at as int);
                            } else {
                                assert(ge == len as int);
                                assert(decls_from(content, at as int)
                                    =~= Seq::<Seq<u8>>::empty());
                            }
                            assert(crate::opcodes::names_of(self.registers.deep_view())
                                + decls_from(content, at as int) =~= crate::opcodes::names_of(
                                self.registers.deep_view(),
                            ) + decl_group_names(content, at as int) + decls_from(content, ge));
                        }
                    } else {
                        proof {
                            assert(decls_from(content, xi) == decls_from(content, xi + 1));
                        }
                    }
                } else {
                    proof {
                        assert(decls_from(content, xi) == decls_from(content, xi + 1));
                    }
                }
            }
            proof {
                assert(decls_from(content, at as int) =~= Seq::<Seq<u8>>::empty());
                assert(crate::opcodes::names_of(self.registers.deep_view()) =~= decls_upto(
                    pv,
                    p + 1,
                ));
            }
            p = p + 1;
        }
        proof {
            assert(decls_upto(pv, pv.len() as int) == all_decls(pv));
            assert(crate::opcodes::names_of(self.registers.deep_view()) + decls_upto(fv, 0)
                =~= all_decls(pv) + decls_upto(fv, 0));
            assert(all_decls(pv) + decls_upto(fv, 0) =~= all_decls(pv));
        }
        let mut f: usize = 0;
        while f < self.files.len()
            invariant
                f <= self.files@.len(),
                pv == self.preamble.deep_view(),
                fv == self.files.deep_view(),
                combined == all_decls(pv) + all_decls(fv),
                self.files@ == old(self).files@,
                self.preamble@ == old(self).preamble@,
                self.opcodes@ == old(self).opcodes@,
                self.instructions@ == old(self).instructions@,
                self.output@ == old(self).output@,
                self.debug == old(self).debug,
                self.quiet == old(self).quiet,
                forall|i: int|
                    0 <= i < self.files@.len() ==> (#[trigger] self.files@[i]).content@.len()
                        <= crate::scan::MAX_SRC_LEN,
                unique_reg_names(self.registers.deep_view()),
                all_declared_globals(self.registers.deep_view()),
                crate::opcodes::names_of(self.registers.deep_view()) == all_decls(pv)
                    + decls_upto(fv, f as int),
                forall|j: int|
                    0 <= j < f ==> contains_byte(
                        (#[trigger] self.files@[j])@.content,
                        REGISTER_DEF,
                    ),
                ((forall|j: int|
                    0 <= j < self.preamble@.len() ==> !contains_byte(
                        (#[trigger] self.preamble@[j])@.content,
                        REGISTER_DEF,
                    )) && (forall|j: int|
                    0 <= j < f ==> !contains_byte(
                        (#[trigger] self.files@[j])@.content,
                        REGISTER_DEF,
                    ))) ==> self.registers@ == old(self).registers@,
            decreases self.files@.len() - f,
        {
            let len = self.files[f].content.len();
            let mut at: usize = 0;
            let mut head: ReadHead = ReadHead::new();
            let mut has_found_registers: bool = false;
            let ghost content = self.files@[f as int].content@;
            let stop_def: Vec<u8> = vec![DEF_END];
            proof {
                assert(content == fv[f as int].content);
                assert(decls_upto(fv, f + 1) == decls_upto(fv, f as int) + file_decls(
                    fv[f as int],
                ));
                assert(crate::opcodes::names_of(self.registers.deep_view()) + decls_from(
                    content,
                    0,
                ) =~= all_decls(pv) + decls_upto(fv, f + 1));
            }
            while at < len
                invariant
                    at <= len,
                    len == content.len(),
                    0 <= f < self.files@.len(),
                    pv == self.preamble.deep_view(),
                    fv == self.files.deep_view(),
                    combined == all_decls(pv) + all_decls(fv),
                    content == self.files@[f as int].content@,
                    content == fv[f as int].content,
                    content.len() <= crate::scan::MAX_SRC_LEN,
                    stop_def@ == seq![DEF_END],
                    1 <= head.line <= at + 1,
                    0 <= head.column <= at + 1,
                    self.files@ == old(self).files@,
                    self.preamble@ == old(self).preamble@,
                    self.opcodes@ == old(self).opcodes@,
                    self.instructions@ == old(self).instructions@,
                    self.output@ == old(self).output@,
                    self.debug == old(self).debug,
                    self.quiet == old(self).quiet,
                    forall|i: int|
                        0 <= i < self.files@.len() ==> (#[trigger] self.files@[i]).content@.len()
                            <= crate::scan::MAX_SRC_LEN,
                    unique_reg_names(self.registers.deep_view()),
                    all_declared_globals(self.registers.deep_view()),
                    crate::opcodes::names_of(self.registers.deep_view()) + decls_from(
                        content,
                        at as int,
                    ) == all_decls(pv) + decls_upto(fv, f + 1),
                    forall|j: int|
                        0 <= j < f ==> contains_byte(
                            (#[trigger] self.files@[j])@.content,
                            REGISTER_DEF,
                        ),
                    ((forall|j: int|
                        0 <= j < self.preamble@.len() ==> !contains_byte(
                            (#[trigger] self.preamble@[j])@.content,
                            REGISTER_DEF,
                        )) && (forall|j: int|
                        0 <= j < f ==> !contains_byte(
                            (#[trigger] self.files@[j])@.content,
                            REGISTER_DEF,
                        )) && (forall|k: int| 0 <= k < at ==> content[k] != REGISTER_DEF))
                        ==> self.registers@ == old(self).registers@,
                    !has_found_registers ==> forall|k: int|
                        0 <= k < at ==> content[k] != REGISTER_DEF,
                    has_found_registers ==> contains_byte(content, REGISTER_DEF),
                decreases len - at,
            {
                let ghost xi = at as int;
                let x = self.files[f].content[at];
                at = at + 1;
                head.advance(x);
                if !crate::scan::is_ws_byte(x) {
                    if x == REGISTER_DEF {
                        has_found_registers = true;
                        proof {
                            assert(content[xi] == REGISTER_DEF);
                            assert(contains_byte(content, REGISTER_DEF));
                            lemma_decl_group_end_ge(content, xi + 1);
                            assert(decls_from(content, xi) == decl_group_names(content, xi + 1)
                                + decls_from(content, decl_group_end(content, xi + 1)));
                        }
                        let ghost ge = decl_group_end(content, xi + 1);
                        proof {
                            assert(crate::opcodes::names_of(self.registers.deep_view())
                                + decl_group_names(content, at as int) + decls_from(content, ge)
                                =~= crate::opcodes::names_of(self.registers.deep_view())
                                + decls_from(content, xi));
                        }
                        let ghost at_entry = at;
                        while at < len && self.files[f].content[at] != crate::scan::NEWLINE
                            invariant
                                at_entry <= at <= len,
                                len == content.len(),
                                0 <= f < self.files@.len(),
                                pv == self.preamble.deep_view(),
                                fv == self.files.deep_view(),
                                combined == all_decls(pv) + all_decls(fv),
                                content == self.files@[f as int].content@,
                                content == fv[f as int].content,
                                content.len() <= crate::scan::MAX_SRC_LEN,
                                stop_def@ == seq![DEF_END],
                                1 <= head.line <= at + 1,
                                0 <= head.column <= at + 1,
                                self.files@ == old(self).files@,
                                self.preamble@ == old(self).preamble@,
                                self.opcodes@ == old(self).opcodes@,
                                self.instructions@ == old(self).instructions@,
                                self.output@ == old(self).output@,
                                self.debug == old(self).debug,
                                self.quiet == old(self).quiet,
                                forall|i: int|
                                    0 <= i < self.files@.len() ==> (#[trigger] self.files@[i]).content@.len()
                                        <= crate::scan::MAX_SRC_LEN,
                                unique_reg_names(self.registers.deep_view()),
                                all_declared_globals(self.registers.deep_view()),
                                ge == decl_group_end(content, at as int),
                                crate::opcodes::names_of(self.registers.deep_view())
                                    + decl_group_names(content, at as int) + decls_from(
                                    content,
                                    ge,
                                ) == all_decls(pv) + decls_upto(fv, f + 1),
                                forall|j: int|
                                    0 <= j < f ==> contains_byte(
                                        (#[trigger] self.files@[j])@.content,
                                        REGISTER_DEF,
                                    ),
                                has_found_registers,
                                contains_byte(content, REGISTER_DEF),
                            decreases len - at,
                        {
                            let ghost at0 = at as int;
                            let ghost names0 = crate::opcodes::names_of(
                                self.registers.deep_view(),
                            );
                            proof {
                                crate::scan::lemma_span_end_range(content, stop_def@, at0, false);
                            }
                            let ghost j0 = crate::scan::span_end(content, stop_def@, at0, false);
                            let data = crate::scan::read_until(
                                &self.files[f].content,
                                &mut at,
                                &stop_def,
                            );
                            let register_name = crate::scan::traverse_read(&mut head, data);
                            if at < len {
                                let d = self.files[f].content[at];
                                at = at + 1;
                                head.advance(d);
                            }
                            proof {
                                assert(decl_group_names(content, at0) == seq![
                                    crate::scan::strip_ws(content.subrange(at0, j0)),
                                ] + (if j0 < len {
                                    decl_group_names(content, j0 + 1)
                                } else {
                                    Seq::<Seq<u8>>::empty()
                                }));
                                assert(decl_group_end(content, at0) == (if j0 < len {
                                    decl_group_end(content, j0 + 1)
                                } else {
                                    len as int
                                }));
                            }
                            if register_exists_in(&self.registers, &register_name) {
                                proof {
                                    assert(contains_byte(
                                        old(self).files@[f as int]@.content,
                                        REGISTER_DEF,
                                    ));
                                    let regs = self.registers.deep_view();
                                    lemma_find_reg_from_range(regs, register_name@, 0);
                                    let i0 = reg_idx(regs, register_name@);
                                    let total = all_decls(pv) + decls_upto(fv, f + 1);
                                    assert(names0[i0] == register_name@);
                                    assert(total[i0] == register_name@);
                                    assert(decl_group_names(content, at0)[0] == register_name@);
                                    assert(total[names0.len() as int] == register_name@);
                                    lemma_combined_main(pv, fv, f + 1);
                                    assert(combined[i0] == register_name@);
                                    assert(combined[names0.len() as int] == register_name@);
                                    assert(0 <= i0 < names0.len() < combined.len());
                                    assert(combined == all_decls(old(self).preamble.deep_view())
                                        + all_decls(old(self).files.deep_view()));
                                    assert(exists|i: int, j: int|
                                        0 <= i < j < (all_decls(old(self).preamble.deep_view())
                                            + all_decls(old(self).files.deep_view())).len()
                                            && #[trigger] (all_decls(
                                            old(self).preamble.deep_view(),
                                        ) + all_decls(old(self).files.deep_view()))[i]
                                            == register_name@ && #[trigger] (all_decls(
                                            old(self).preamble.deep_view(),
                                        ) + all_decls(old(self).files.deep_view()))[j]
                                            == register_name@);
                                    assert(!distinct_names(combined));
                                }
                                let err = IllError::RegisterRedefinition(head, register_name, None);
                                let adv_err = AdvancedIllError::new(
                                    err,
                                    Some(head),
                                    self.files[f].unsafe_clone(),
                                );
                                return Err(adv_err);
                            }
                            let ghost before = self.registers.deep_view();
                            let reg = make_register(register_name, 0, false);
                            let ghost regv = reg@;
                            push_register(&mut self.registers, reg);
                            proof {
                                let now = self.registers.deep_view();
                                lemma_find_reg_from_range(before, regv.name, 0);
                                assert forall|i: int, j: int|
                                    0 <= i < j < now.len() implies now[i].name != now[j].name by {
                                    if j < before.len() {
                                        assert(before[i].name != before[j].name);
                                    } else {
                                        assert(now[j] == regv);
                                        assert(before[i].name != regv.name);
                                    }
                                }
                                assert(crate::opcodes::names_of(now) =~= names0.push(regv.name));
                                if j0 < len {
                                    assert(crate::opcodes::names_of(now) + decl_group_names(
                                        content,
                                        at as int,
                                    ) + decls_from(content, ge) =~= names0 + decl_group_names(
                                        content,
                                        at0,
                                    ) + decls_from(content, ge));
                                } else {
                                    assert(at as int == len as int);
                                    assert(decl_group_names(content, at as int)
                                        =~= Seq::<Seq<u8>>::empty());
                                    assert(crate::opcodes::names_of(now) + decl_group_names(
                                        content,
                                        at as int,
                                    ) + decls_from(content, ge) =~= names0 + decl_group_names(
                                        content,
                                        at0,
                                    ) + decls_from(content, ge));
                                }
                            }
                        }
                        proof {
                            assert(decl_group_names(content, at as int)
                                =~= Seq::<Seq<u8>>::empty());
                            if at < len {
                                assert(content[at as int] == crate::scan::NEWLINE);
                                assert(ge == at as int);
                            } else {
                                assert(ge == len as int);
                                assert(decls_from(content, at as int)
                                    =~= Seq::<Seq<u8>>::empty());
                            }
                            assert(crate::opcodes::names_of(self.registers.deep_view())
                                + decls_from(content, at as int) =~= crate::opcodes::names_of(
                                self.registers.deep_view(),
                            ) + decl_group_names(content, at as int) + decls_from(content, ge));
                        }
                    } else {
                        proof {
                            assert(decls_from(content, xi) == decls_from(content, xi + 1));
                        }
                    }
                } else {
                    proof {
                        assert(decls_from(content, xi) == decls_from(content, xi + 1));
                    }
                }
            }
            if !has_found_registers {
                proof {
                    lemma_no_reg_def(content, at as int);
                    if f > 0 {
                        assert(contains_byte(self.files@[0]@.content, REGISTER_DEF));
                        assert(old(self).files@[0] == self.files@[0]);
                    }
                }
                let e_file = self.files[f].unsafe_clone();
                let file = self.files[f].unsafe_clone();
                let adv_err = AdvancedIllError::new(
                    IllError::NoRegistersFound(e_file),
                    Some(head),
                    file,
                );
                return Err(adv_err);
            }
            proof {
                assert(decls_from(content, at as int) =~= Seq::<Seq<u8>>::empty());
                assert(crate::opcodes::names_of(self.registers.deep_view()) =~= all_decls(pv)
                    + decls_upto(fv, f + 1));
            }
            f = f + 1;
        }
        proof {
            if old(self).files@.len() > 0 {
                assert(contains_byte(self.files@[0]@.content, REGISTER_DEF));
                assert(old(self).files@[0] == self.files@[0]);
            }
            assert(decls_upto(fv, fv.len() as int) == all_decls(fv));
            assert(crate::opcodes::names_of(self.registers.deep_view()) == combined);
            let regs = self.registers.deep_view();
            assert forall|i: int, j: int|
                0 <= i < j < combined.len() implies combined[i] != combined[j] by {
                assert(crate::opcodes::names_of(regs)[i] == regs[i].name);
                assert(crate::opcodes::names_of(regs)[j] == regs[j].name);
            }
        }
        Ok(())
    }
}

/// The position an error in a statement is reported at: the line the
/// statement started on, with the statement's length as the column.
pub open spec fn spec_err_pos(rh: ReadHead, code: Seq<u8>) -> ReadHead {
    ReadHead {
        line: (rh.line - crate::scan::count_nl(code)) as i32,
        column: code.len() as i32,
    }
}

/// Every builtin opcode expects at most five operands.
proof fn lemma_kind_sig_len(k: crate::opcodes::OpKind)
    ensures
        crate::opcodes::kind_sig(k).len() <= 5,
{
    match k {
        crate::opcodes::OpKind::Move => assert(crate::opcodes::kind_sig(k).len() <= 5),
        crate::opcodes::OpKind::Modulo => assert(crate::opcodes::kind_sig(k).len() <= 5),
        crate::opcodes::OpKind::Greater => assert(crate::opcodes::kind_sig(k).len() <= 5),
        crate::opcodes::OpKind::Less => assert(crate::opcodes::kind_sig(k).len() <= 5),
        crate::opcodes::OpKind::Equal => assert(crate::opcodes::kind_sig(k).len() <= 5),
        crate::opcodes::OpKind::GreaterEqual => assert(crate::opcodes::kind_sig(k).len() <= 5),
        crate::opcodes::OpKind::LessEqual => assert(crate::opcodes::kind_sig(k).len() <= 5),
        crate::opcodes::OpKind::Accumulate => assert(crate::opcodes::kind_sig(k).len() <= 5),
        crate::opcodes::OpKind::Make => assert(crate::opcodes::kind_sig(k).len() <= 5),
        crate::opcodes::OpKind::Show => assert(crate::opcodes::kind_sig(k).len() <= 5),
        crate::opcodes::OpKind::ShowLine => assert(crate::opcodes::kind_sig(k).len() <= 5),
        crate::opcodes::OpKind::Invoke => assert(crate::opcodes::kind_sig(k).len() <= 5),
        crate::opcodes::OpKind::InvokeBind => assert(crate::opcodes::kind_sig(k).len() <= 5),
        crate::opcodes::OpKind::Delete => assert(crate::opcodes::kind_sig(k).len() <= 5),
        crate::opcodes::OpKind::Print => assert(crate::opcodes::kind_sig(k).len() <= 5),
        crate::opcodes::OpKind::PrintLine => assert(crate::opcodes::kind_sig(k).len() <= 5),
        crate::opcodes::OpKind::Negate => assert(crate::opcodes::kind_sig(k).len() <= 5),
        crate::opcodes::OpKind::ForLoop => assert(crate::opcodes::kind_sig(k).len() <= 5),
        crate::opcodes::OpKind::Branch => assert(crate::opcodes::kind_sig(k).len() <= 5),
        crate::opcodes::OpKind::Unknown => assert(crate::opcodes::kind_sig(k).len() <= 5),
    }
}

impl Interpreter {
    /// Validate one raw statement: tokenize it, look the mnemonic up in the
    /// catalog, check the operand count, and convert each raw token to the
    /// operand kind the catalog expects, resolving literal-vs-reference
    /// ambiguity and checking instruction and register references.  Returns
    /// the typed opcode invocation, or the first validation error.
    ///
    /// A variable-reference operand is recorded unchecked: local variables
    /// do not exist until the instruction runs, so its absence is the
    /// runtime `NonExistentRegister` error of the opcode that reads it.
    #[verifier::rlimit(60)]
    pub fn parse_code(
        &self,
        file: &EnhancedFile,
        rh: ReadHead,
        inst: &Instruction,
        insts: &Vec<Instruction>,
        code: Vec<u8>,
    ) -> (r: Result<OpCode, AdvancedIllError>)
        requires
            code@.len() <= crate::scan::MAX_SRC_LEN,
            0 <= rh.line,
            0 <= rh.column,
            crate::opcodes::catalog_ok(self.opcodes.deep_view()),
        ensures
            ({
                let toks = crate::text::spec_tokens(code@);
                let gv = self.registers.deep_view();
                let sv = inst@.scope;
                let iv = insts.deep_view();
                &&& (r is Ok <==> (toks.len() > 0 && crate::opcodes::op_kind_of(toks[0])
                    != crate::opcodes::OpKind::Unknown && toks.len() - 1 == crate::opcodes::kind_sig(
                    crate::opcodes::op_kind_of(toks[0]),
                ).len() && crate::opcodes::args_convertible(
                    crate::opcodes::kind_sig(crate::opcodes::op_kind_of(toks[0])),
                    toks,
                    gv,
                    sv,
                    iv,
                )))
                &&& (r matches Ok(op) ==> {
                    let sig = crate::opcodes::kind_sig(crate::opcodes::op_kind_of(toks[0]));
                    &&& op@.name == toks[0]
                    &&& op@.location == Some(spec_err_pos(rh, code@))
                    &&& op@.arguments.len() == sig.len()
                    &&& forall|i: int|
                        0 <= i < sig.len() ==> crate::opcodes::arg_ok(
                            #[trigger] sig[i],
                            toks[i + 1],
                            op@.arguments[i],
                            gv,
                            sv,
                            iv,
                        )
                })
                &&& (r matches Err(e) ==> e.head == Some(spec_err_pos(rh, code@)) && e.file@
                    == file@ && (e.error matches IllError::UnknownOpCode(_, _) || e.error matches
                IllError::OpCodeArgumentMismatch(_, _, _, _) || e.error matches
                IllError::UnescapedStringLiteralIsContainer(_, _) || e.error matches
                IllError::OpCodeInvalidArgument(_, _, _) || e.error matches
                IllError::NonExistentInstruction(_, _) || e.error matches
                IllError::NonExistentRegister(_, _)))
                &&& ((toks.len() == 0 || crate::opcodes::op_kind_of(toks[0])
                    == crate::opcodes::OpKind::Unknown) ==> (r matches Err(e) && (e.error matches
                IllError::UnknownOpCode(_, n) && n@ == (if toks.len() > 0 {
                    toks[0]
                } else {
                    Seq::<u8>::empty()
                }))))
                &&& ((toks.len() > 0 && crate::opcodes::op_kind_of(toks[0])
                    != crate::opcodes::OpKind::Unknown && toks.len() - 1 != crate::opcodes::kind_sig(
                    crate::opcodes::op_kind_of(toks[0]),
                ).len()) ==> (r matches Err(e) && (e.error matches
                IllError::OpCodeArgumentMismatch(_, nm, expected, got) && nm@
                    == crate::text::strip_dquotes(toks[0]) && expected == crate::opcodes::kind_sig(
                    crate::opcodes::op_kind_of(toks[0]),
                ).len() && got == toks.len() - 1)))
                &&& ((toks.len() > 0 && crate::opcodes::op_kind_of(toks[0])
                    != crate::opcodes::OpKind::Unknown && toks.len() - 1 == crate::opcodes::kind_sig(
                    crate::opcodes::op_kind_of(toks[0]),
                ).len() && !crate::opcodes::args_convertible(
                    crate::opcodes::kind_sig(crate::opcodes::op_kind_of(toks[0])),
                    toks,
                    gv,
                    sv,
                    iv,
                )) ==> (r matches Err(e) && crate::opcodes::arg_error_matches(
                    crate::opcodes::kind_sig(crate::opcodes::op_kind_of(toks[0]))[
                        crate::opcodes::first_unconv(
                            crate::opcodes::kind_sig(crate::opcodes::op_kind_of(toks[0])),
                            toks,
                            gv,
                            sv,
                            iv,
                            0,
                        )
                    ],
                    toks[crate::opcodes::first_unconv(
                        crate::opcodes::kind_sig(crate::opcodes::op_kind_of(toks[0])),
                        toks,
                        gv,
                        sv,
                        iv,
                        0,
                    ) + 1],
                    e.error,
                    gv,
                    sv,
                    iv,
                )))
            }),
    {
        let ghost toks = crate::text::spec_tokens(code@);
        let ghost gv = self.registers.deep_view();
        let ghost sv = inst@.scope;
        let ghost iv = insts.deep_view();
        let nls = crate::scan::newlines(&code);
        proof {
            crate::scan::lemma_count_nl_bound(code@);
        }
        let error_rh = rh.new_by(-nls, -rh.column + code.len() as i32);
        proof {
            assert(error_rh == spec_err_pos(rh, code@));
            crate::text::lemma_tokens_count(code@, 0);
        }
        let tokens = crate::text::tokenize(&code);
        proof {
            assert(tokens@.len() == toks.len());
        }
        if tokens.len() == 0 {
            let err = IllError::UnknownOpCode(error_rh, Vec::new());
            return Err(AdvancedIllError::new(err, Some(error_rh), file.unsafe_clone()));
        }
        let code_name = sub_vec(&tokens[0], 0, tokens[0].len());
        proof {
            assert(crate::text::views(tokens@)[0] == tokens@[0]@);
            assert(code_name@ =~= toks[0]);
            crate::opcodes::lemma_catalog_lookup(self.opcodes.deep_view(), code_name@);
        }
        if !self.does_opcode_exist(&code_name) {
            let err = IllError::UnknownOpCode(error_rh, code_name);
            return Err(AdvancedIllError::new(err, Some(error_rh), file.unsafe_clone()));
        }
        let template = match self.find_opcode(&code_name) {
            Some(t) => t,
            None => {
                let err = IllError::UnknownOpCode(error_rh, code_name);
                return Err(AdvancedIllError::new(err, Some(error_rh), file.unsafe_clone()));
            },
        };
        let ghost kk = crate::opcodes::op_kind_of(toks[0]);
        let ghost sig = crate::opcodes::kind_sig(kk);
        proof {
            assert(template@.arguments.map_values(|x: crate::model::ExprV| crate::opcodes::arg_kind(
                x,
            )) == sig);
            assert(template@.arguments.len() == sig.len());
            lemma_kind_sig_len(kk);
        }
        let expected_len = template.arguments.len();
        if tokens.len() - 1 != expected_len {
            let sanitized = crate::text::remove_dquotes(&tokens[0]);
            let err = IllError::OpCodeArgumentMismatch(
                error_rh,
                sanitized,
                expected_len as i32,
                (tokens.len() - 1) as i32,
            );
            return Err(AdvancedIllError::new(err, Some(error_rh), file.unsafe_clone()));
        }
        let mut act_args: Vec<ExpressionType> = Vec::new();
        proof {
            assert(act_args.deep_view() =~= Seq::<crate::model::ExprV>::empty());
        }
        let mut i: usize = 0;
        while i < expected_len
            invariant
                i <= expected_len,
                toks == crate::text::spec_tokens(code@),
                gv == self.registers.deep_view(),
                sv == inst@.scope,
                iv == insts.deep_view(),
                crate::text::views(tokens@) == toks,
                tokens@.len() == toks.len(),
                toks.len() >= 1,
                kk == crate::opcodes::op_kind_of(toks[0]),
                kk != crate::opcodes::OpKind::Unknown,
                sig == crate::opcodes::kind_sig(kk),
                toks.len() - 1 == sig.len(),
                expected_len == sig.len(),
                template@.arguments.map_values(
                    |x: crate::model::ExprV| crate::opcodes::arg_kind(x),
                ) == sig,
                template@.arguments.len() == sig.len(),
                error_rh == spec_err_pos(rh, code@),
                act_args.deep_view().len() == i as int,
                forall|j: int|
                    0 <= j < i ==> crate::opcodes::arg_ok(
                        #[trigger] sig[j],
                        toks[j + 1],
                        act_args.deep_view()[j],
                        gv,
                        sv,
                        iv,
                    ),
                forall|j: int|
                    0 <= j < i ==> crate::opcodes::arg_convertible(
                        #[trigger] sig[j],
                        toks[j + 1],
                        gv,
                        sv,
                        iv,
                    ),
            decreases expected_len - i,
        {
            let expected = &template.arguments[i];
            let argument = sub_vec(&tokens[i + 1], 0, tokens[i + 1].len());
            proof {
                assert(crate::text::views(tokens@)[i + 1] == tokens@[i + 1]@);
                assert(argument@ =~= toks[i + 1]);
                assert(crate::opcodes::arg_kind(template@.arguments[i as int]) == sig[i as int]);
                assert(template@.arguments[i as int] == template.arguments@[i as int]@);
            }
            let ghost prev = act_args.deep_view();
            match expected {
                ExpressionType::ProbableLiteral(_) => {
                    match crate::text::parse_int(&argument) {
                        Some(v) => {
                            act_args.push(
                                ExpressionType::ProbableLiteral(
                                    crate::opcodes::ProbableValue::Value(v),
                                ),
                            );
                        },
                        None => {
                            act_args.push(
                                ExpressionType::ProbableLiteral(
                                    crate::opcodes::ProbableValue::Name(argument),
                                ),
                            );
                        },
                    }
                },
                ExpressionType::IntegerLiteral(_) => {
                    match crate::text::parse_int(&argument) {
                        Some(v) => {
                            act_args.push(ExpressionType::IntegerLiteral(v));
                        },
                        None => {
                            proof {
                                crate::opcodes::lemma_first_unconv_is(
                                    sig,
                                    toks,
                                    gv,
                                    sv,
                                    iv,
                                    0,
                                    i as int,
                                );
                            }
                            let err = IllError::OpCodeInvalidArgument(
                                error_rh,
                                crate::opcodes::literal(),
                                argument,
                            );
                            return Err(
                                AdvancedIllError::new(err, Some(error_rh), file.unsafe_clone()),
                            );
                        },
                    }
                },
                ExpressionType::StringLiteral(_) => {
                    let globally = self.does_register_exist(&argument);
                    let locally = inst.does_scoped_register_exist(&argument);
                    if globally || locally {
                        proof {
                            crate::opcodes::lemma_first_unconv_is(sig, toks, gv, sv, iv, 0, i as int);
                        }
                        let err = IllError::UnescapedStringLiteralIsContainer(error_rh, argument);
                        return Err(
                            AdvancedIllError::new(err, Some(error_rh), file.unsafe_clone()),
                        );
                    }
                    if crate::text::contains_digit(&argument) {
                        proof {
                            crate::opcodes::lemma_first_unconv_is(sig, toks, gv, sv, iv, 0, i as int);
                        }
                        let err = IllError::OpCodeInvalidArgument(
                            error_rh,
                            crate::opcodes::s_literal(),
                            argument,
                        );
                        return Err(
                            AdvancedIllError::new(err, Some(error_rh), file.unsafe_clone()),
                        );
                    }
                    let stripped = crate::text::remove_dquotes(&argument);
                    act_args.push(ExpressionType::StringLiteral(stripped));
                },
                ExpressionType::ContainerReference(_) => {
                    act_args.push(ExpressionType::ContainerReference(argument));
                },
                ExpressionType::RegisterReference(_) => {
                    if !self.does_register_exist(&argument) {
                        proof {
                            crate::opcodes::lemma_first_unconv_is(sig, toks, gv, sv, iv, 0, i as int);
                        }
                        let err = IllError::NonExistentRegister(error_rh, argument);
                        return Err(
                            AdvancedIllError::new(err, Some(error_rh), file.unsafe_clone()),
                        );
                    }
                    act_args.push(ExpressionType::RegisterReference(argument));
                },
                ExpressionType::VariableReference(_) => {
                    act_args.push(ExpressionType::VariableReference(argument));
                },
                ExpressionType::InstructionReference(_, _) => {
                    match find_instruction_index(insts, &argument) {
                        Some(zi) => {
                            let caps = crate::text::copy_params(&insts[zi].arguments);
                            proof {
                                assert(insts@[zi as int]@.arguments == iv[zi as int].arguments);
                            }
                            act_args.push(ExpressionType::InstructionReference(argument, caps));
                        },
                        None => {
                            proof {
                                crate::opcodes::lemma_first_unconv_is(
                                    sig,
                                    toks,
                                    gv,
                                    sv,
                                    iv,
                                    0,
                                    i as int,
                                );
                            }
                            let err = IllError::NonExistentInstruction(error_rh, argument);
                            return Err(
                                AdvancedIllError::new(err, Some(error_rh), file.unsafe_clone()),
                            );
                        },
                    }
                },
            }
            proof {
                assert(act_args.deep_view() =~= prev.push(act_args.deep_view()[i as int]));
                assert(crate::opcodes::arg_ok(
                    sig[i as int],
                    toks[i + 1],
                    act_args.deep_view()[i as int],
                    gv,
                    sv,
                    iv,
                ));
                crate::opcodes::lemma_arg_ok_convertible(
                    sig[i as int],
                    toks[i + 1],
                    act_args.deep_view()[i as int],
                    gv,
                    sv,
                    iv,
                );
            }
            i = i + 1;
        }
        let op = OpCode { name: code_name, arguments: act_args, location: Some(error_rh) };
        proof {
            assert forall|j: int| 0 <= j < sig.len() implies crate::opcodes::arg_convertible(
                #[trigger] sig[j],
                toks[j + 1],
                gv,
                sv,
                iv,
            ) by {
                crate::opcodes::lemma_arg_ok_convertible(
                    sig[j],
                    toks[j + 1],
                    op@.arguments[j],
                    gv,
                    sv,
                    iv,
                );
            }
        }
        Ok(op)
    }
}


/// Call-depth bound for one program execution, kept modest so that nested
/// instruction calls stay within the host's stack; loop lengths are
/// bounded separately and far more generously.
pub const EXEC_FUEL: u64 = 512;

impl Interpreter {
    /// Phase two: scan the preamble files (when `preamble` is true) or the
    /// main files for `$name(params){ statements }` instruction definitions,
    /// validating every statement against the catalog; comment lines are
    /// discarded outside and between statements.  On success the parsed
    /// definitions' names, parameter lists and main markings are exactly
    /// those the scanned text defines.  Then, for the main pass, execute
    /// the first main-marked instruction.  With no definitions at all the
    /// scan fails with `NoMainInstruction`; a single definition is
    /// implicitly main, whatever its sigil.
    #[verifier::rlimit(100)]
    pub fn scan_instructions(&mut self, preamble: bool) -> (r: Result<(), AdvancedIllError>)
        requires
            crate::opcodes::catalog_ok(old(self).opcodes.deep_view()),
            crate::opcodes::insts_wf(old(self).instructions.deep_view()),
            forall|i: int|
                0 <= i < old(self).files@.len() ==> (#[trigger] old(self).files@[i]).content@.len()
                    <= crate::scan::MAX_SRC_LEN,
            forall|i: int|
                0 <= i < old(self).preamble@.len() ==> (#[trigger] old(self).preamble@[i]).content@.len()
                    <= crate::scan::MAX_SRC_LEN,
        ensures
            final(self).files@ == old(self).files@,
            final(self).preamble@ == old(self).preamble@,
            final(self).opcodes@ == old(self).opcodes@,
            final(self).debug == old(self).debug,
            final(self).quiet == old(self).quiet,
            crate::opcodes::insts_wf(final(self).instructions.deep_view()),
            unique_inst_names(old(self).instructions.deep_view()) ==> unique_inst_names(
                final(self).instructions.deep_view(),
            ),
            preamble ==> final(self).registers@ == old(self).registers@ && final(self).output@
                == old(self).output@,
            crate::opcodes::names_of(final(self).registers.deep_view())
                == crate::opcodes::names_of(old(self).registers.deep_view()),
            unique_reg_names(old(self).registers.deep_view()) ==> unique_reg_names(
                final(self).registers.deep_view(),
            ),
            old(self).output@.len() <= final(self).output@.len(),
            final(self).output@.subrange(0, old(self).output@.len() as int) == old(self).output@,
            r is Ok ==> final(self).instructions@.len() >= 1,
            (r is Ok && !preamble && final(self).instructions.deep_view().len() == 1) ==> final(self).instructions.deep_view()[0].is_main,
            (old(self).instructions@.len() == 0 && preamble && (forall|i: int|
                0 <= i < old(self).preamble@.len() ==> !contains_byte(
                    (#[trigger] old(self).preamble@[i])@.content,
                    INST_DEF,
                ))) ==> (r matches Err(e) && e.error matches IllError::NoMainInstruction),
            (old(self).instructions@.len() == 0 && !preamble && (forall|i: int|
                0 <= i < old(self).files@.len() ==> !contains_byte(
                    (#[trigger] old(self).files@[i])@.content,
                    INST_DEF,
                ))) ==> (r matches Err(e) && e.error matches IllError::NoMainInstruction),
            (preamble && (forall|i: int|
                0 <= i < old(self).preamble@.len() ==> !contains_byte(
                    (#[trigger] old(self).preamble@[i])@.content,
                    INST_DEF,
                ))) ==> final(self).instructions@ == old(self).instructions@,
            (old(self).instructions@.len() == 0 && !preamble && (forall|i: int|
                0 <= i < old(self).files@.len() ==> !contains_byte(
                    (#[trigger] old(self).files@[i])@.content,
                    INST_DEF,
                ))) ==> final(self).instructions@ == old(self).instructions@,
            (preamble && old(self).instructions@.len() > 0 && (forall|i: int|
                0 <= i < old(self).preamble@.len() ==> !contains_byte(
                    (#[trigger] old(self).preamble@[i])@.content,
                    INST_DEF,
                ))) ==> r is Ok,
            r matches Err(e) ==> (e.error matches IllError::NoMainInstruction ==> (final(self).instructions@.len()
                == 0 || (!preamble && final(self).instructions.deep_view().len() >= 2 && forall|
                k: int,
            |
                0 <= k < final(self).instructions.deep_view().len() ==> !(#[trigger] final(self).instructions.deep_view()[k]).is_main))),
            r matches Err(e) ==> (e.error matches IllError::InstructionRedefinition(_, n)
                ==> has_inst(final(self).instructions.deep_view(), n@)),
            r is Ok ==> ({
                let base = skels(old(self).instructions.deep_view()) + (if preamble {
                    all_defs(old(self).preamble.deep_view())
                } else {
                    all_defs(old(self).files.deep_view())
                });
                skels(final(self).instructions.deep_view()) == (if !preamble && base.len() == 1 {
                    mark_sole_main(base)
                } else {
                    base
                })
            }),
            (!preamble && r is Ok) ==> exists|mi: int, v: i64, svf: Seq<RegV>|
                {
                    &&& 0 <= mi < final(self).instructions.deep_view().len()
                    &&& final(self).instructions.deep_view()[mi].is_main
                    &&& forall|k: int|
                        0 <= k < mi ==> !(#[trigger] final(self).instructions.deep_view()[k]).is_main
                    &&& #[trigger] crate::opcodes::invoke_post(
                        final(self).instructions.deep_view(),
                        final(self).instructions.deep_view()[mi],
                        old(self).registers.deep_view(),
                        seq![RegV { name: res_name(), value: 0, is_variable: true }],
                        old(self).output@,
                        Ok::<i64, AdvancedIllError>(v),
                        final(self).registers.deep_view(),
                        svf,
                        final(self).output@,
                    )
                },
    {
        let exec_fuel = self.fuel;
        let nfiles = if preamble {
            self.preamble.len()
        } else {
            self.files.len()
        };
        let ghost scanned = if preamble {
            old(self).preamble@
        } else {
            old(self).files@
        };
        let ghost sfv = if preamble {
            old(self).preamble.deep_view()
        } else {
            old(self).files.deep_view()
        };
        let ghost olds_sk = skels(old(self).instructions.deep_view());
        let stop_nl: Vec<u8> = vec![crate::scan::NEWLINE];
        let stop_paren: Vec<u8> = vec![INST_PARAM_BEGIN];
        let stop_cparen: Vec<u8> = vec![INST_PARAM_END];
        let stop_obrace: Vec<u8> = vec![INST_CODES_BEGIN];
        let stop_cbrace: Vec<u8> = vec![INST_CODES_END];
        let stop_semi: Vec<u8> = vec![DEF_END];
        let mut master_file: Option<EnhancedFile> = None;
        proof {
            assert(skels(self.instructions.deep_view()) + defs_upto(sfv, 0) =~= olds_sk);
            assert(skels(self.instructions.deep_view()) =~= olds_sk + defs_upto(sfv, 0));
            if preamble {
                assert(sfv == old(self).preamble.deep_view());
                assert(scanned == old(self).preamble@);
                assert(sfv.len() == old(self).preamble@.len());
            } else {
                assert(sfv == old(self).files.deep_view());
                assert(scanned == old(self).files@);
                assert(sfv.len() == old(self).files@.len());
            }
            assert(sfv.len() == scanned.len());
            assert forall|i: int| 0 <= i < scanned.len() implies #[trigger] sfv[i]
                == scanned[i]@ by {
                if preamble {
                    assert(sfv[i] == old(self).preamble@[i].deep_view());
                    assert(scanned[i] == old(self).preamble@[i]);
                } else {
                    assert(sfv[i] == old(self).files@[i].deep_view());
                    assert(scanned[i] == old(self).files@[i]);
                }
            }
        }
        let mut f: usize = 0;
        while f < nfiles
            invariant
                f <= nfiles,
                nfiles as int == scanned.len(),
                scanned == if preamble {
                    old(self).preamble@
                } else {
                    old(self).files@
                },
                self.files@ == old(self).files@,
                self.preamble@ == old(self).preamble@,
                self.opcodes@ == old(self).opcodes@,
                self.registers@ == old(self).registers@,
                self.output@ == old(self).output@,
                self.debug == old(self).debug,
                self.quiet == old(self).quiet,
                stop_nl@ == seq![crate::scan::NEWLINE],
                stop_paren@ == seq![INST_PARAM_BEGIN],
                stop_cparen@ == seq![INST_PARAM_END],
                stop_obrace@ == seq![INST_CODES_BEGIN],
                stop_cbrace@ == seq![INST_CODES_END],
                stop_semi@ == seq![DEF_END],
                crate::opcodes::catalog_ok(self.opcodes.deep_view()),
                crate::opcodes::insts_wf(self.instructions.deep_view()),
                unique_inst_names(old(self).instructions.deep_view()) ==> unique_inst_names(
                    self.instructions.deep_view(),
                ),
                forall|i: int|
                    0 <= i < scanned.len() ==> (#[trigger] scanned[i]).content@.len()
                        <= crate::scan::MAX_SRC_LEN,
                sfv.len() == scanned.len(),
                forall|i: int| 0 <= i < scanned.len() ==> #[trigger] sfv[i] == scanned[i]@,
                olds_sk == skels(old(self).instructions.deep_view()),
                skels(self.instructions.deep_view()) == olds_sk + defs_upto(sfv, f as int),
                (forall|j: int|
                    0 <= j < f ==> !contains_byte(
                        (#[trigger] scanned[j])@.content,
                        INST_DEF,
                    )) ==> self.instructions@ == old(self).instructions@,
            decreases nfiles - f,
        {
            let e_file = if preamble {
                self.preamble[f].unsafe_clone()
            } else {
                self.files[f].unsafe_clone()
            };
            let ghost content = e_file.content@;
            proof {
                assert(content == scanned[f as int].content@);
                assert(content == sfv[f as int].content);
                assert(defs_upto(sfv, f + 1) == defs_upto(sfv, f as int) + file_defs(
                    sfv[f as int],
                ));
                assert(skels(self.instructions.deep_view()) + defs_from(content, 0) =~= olds_sk
                    + defs_upto(sfv, f + 1));
            }
            let len = e_file.content.len();
            let mut at: usize = 0;
            let mut head: ReadHead = ReadHead::new();
            while at < len
                invariant
                    at <= len,
                    len == content.len(),
                    0 <= f < scanned.len(),
                    content == (#[trigger] scanned[f as int]).content@,
                    content == e_file.content@,
                    content.len() <= crate::scan::MAX_SRC_LEN,
                    1 <= head.line <= at + 1,
                    0 <= head.column <= at + 1,
                    scanned == if preamble {
                        old(self).preamble@
                    } else {
                        old(self).files@
                    },
                    self.files@ == old(self).files@,
                    self.preamble@ == old(self).preamble@,
                    self.opcodes@ == old(self).opcodes@,
                    self.registers@ == old(self).registers@,
                    self.output@ == old(self).output@,
                    self.debug == old(self).debug,
                    self.quiet == old(self).quiet,
                    stop_nl@ == seq![crate::scan::NEWLINE],
                    stop_paren@ == seq![INST_PARAM_BEGIN],
                    stop_cparen@ == seq![INST_PARAM_END],
                    stop_obrace@ == seq![INST_CODES_BEGIN],
                    stop_cbrace@ == seq![INST_CODES_END],
                    stop_semi@ == seq![DEF_END],
                    crate::opcodes::catalog_ok(self.opcodes.deep_view()),
                    crate::opcodes::insts_wf(self.instructions.deep_view()),
                    unique_inst_names(old(self).instructions.deep_view()) ==> unique_inst_names(
                        self.instructions.deep_view(),
                    ),
                    forall|i: int|
                        0 <= i < scanned.len() ==> (#[trigger] scanned[i]).content@.len()
                            <= crate::scan::MAX_SRC_LEN,
                    sfv.len() == scanned.len(),
                    forall|i: int| 0 <= i < scanned.len() ==> #[trigger] sfv[i] == scanned[i]@,
                    olds_sk == skels(old(self).instructions.deep_view()),
                    skels(self.instructions.deep_view()) + defs_from(content, at as int)
                        == olds_sk + defs_upto(sfv, f + 1),
                    ((forall|j: int|
                        0 <= j < f ==> !contains_byte(
                            (#[trigger] scanned[j])@.content,
                            INST_DEF,
                        )) && (forall|k: int| 0 <= k < at ==> content[k] != INST_DEF))
                        ==> self.instructions@ == old(self).instructions@,
                decreases len - at,
            {
                let ghost xi = at as int;
                let x = e_file.content[at];
                at = at + 1;
                head.advance(x);
                if x == COMMENT_SINGLE_LINE {
                    let ghost at0 = at as int;
                    proof {
                        crate::scan::lemma_span_end_range(content, stop_nl@, at0, false);
                        crate::scan::lemma_count_nl_bound(
                            content.subrange(
                                at0,
                                crate::scan::span_end(content, stop_nl@, at0, false),
                            ),
                        );
                    }
                    crate::scan::dump_until(&mut head, &e_file.content, &mut at, &stop_nl);
                    proof {
                        assert(defs_from(content, xi) == defs_from(content, at as int));
                    }
                } else if x == INST_DEF {
                    proof {
                        assert(content[xi] == INST_DEF);
                        assert(contains_byte(content, INST_DEF));
                    }
                    let ghost dsk = def_skel(content, xi);
                    let is_main_here = at < len && e_file.content[at] == INST_DEF;
                    if is_main_here {
                        master_file = Some(e_file.unsafe_clone());
                        // the second sigil only marks the instruction as
                        // main; the name starts after it
                        let d = e_file.content[at];
                        at = at + 1;
                        head.advance(d);
                    }
                    let ghost at0 = at as int;
                    proof {
                        assert(def_name_start(content, xi) == at0);
                        assert(dsk.is_main == is_main_here);
                        crate::scan::lemma_span_end_range(content, stop_paren@, at0, false);
                        crate::scan::lemma_strip_ws_len(
                            content.subrange(
                                at0,
                                crate::scan::span_end(content, stop_paren@, at0, false),
                            ),
                        );
                    }
                    let data = crate::scan::read_until(&e_file.content, &mut at, &stop_paren);
                    let inst_name = crate::scan::traverse_read(&mut head, data);
                    if at < len {
                        let d = e_file.content[at];
                        at = at + 1;
                        head.advance(d);
                    }
                    proof {
                        assert(inst_name@ == dsk.name);
                    }
                    let ghost at1 = at as int;
                    proof {
                        crate::scan::lemma_span_end_range(content, stop_cparen@, at1, false);
                    }
                    let data2 = crate::scan::read_until_spare_ws(
                        &e_file.content,
                        &mut at,
                        &stop_cparen,
                    );
                    let params_unsp = crate::scan::traverse_read(&mut head, data2);
                    if at < len {
                        let d = e_file.content[at];
                        at = at + 1;
                        head.advance(d);
                    }
                    let params = crate::text::split_params(params_unsp);
                    proof {
                        assert(params.deep_view() =~~= crate::text::views(params@));
                        assert(params.deep_view() == dsk.params);
                    }
                    if !crate::scan::any_exists_until(
                        &e_file.content,
                        at,
                        &stop_obrace,
                        &stop_cbrace,
                    ) {
                        let ch: u8 = if at < len {
                            e_file.content[at]
                        } else {
                            0
                        };
                        let err = IllError::UnexpectedCharacter(
                            head,
                            ch,
                            Some(", expecting instruction code beginning \"{\".".as_bytes_vec()),
                        );
                        return Err(AdvancedIllError::new(err, Some(head), e_file));
                    }
                    let ghost at2 = at as int;
                    proof {
                        crate::scan::lemma_span_end_range(content, stop_obrace@, at2, false);
                        crate::scan::lemma_count_nl_bound(
                            content.subrange(
                                at2,
                                crate::scan::span_end(content, stop_obrace@, at2, false),
                            ),
                        );
                    }
                    crate::scan::dump_until(&mut head, &e_file.content, &mut at, &stop_obrace);
                    let mut cur = Instruction::new_default();
                    cur.name = inst_name;
                    cur.arguments = params;
                    cur.is_main = is_main_here;
                    proof {
                        assert(cur@.codes =~= Seq::<crate::model::OpCodeV>::empty());
                        assert(has_before(
                            content,
                            at2,
                            seq![INST_CODES_BEGIN],
                            seq![INST_CODES_END],
                        ));
                        assert(def_end(content, at0) == stmts_end(content, at as int));
                    }
                    let ghost at_stmts = at as int;
                    let ghost se = stmts_end(content, at_stmts);
                    while at < len && e_file.content[at] != INST_CODES_END
                        invariant
                            at_stmts <= at <= len,
                            se == stmts_end(content, at as int),
                            cur.name@ == dsk.name,
                            cur@.arguments == dsk.params,
                            cur@.is_main == dsk.is_main,
                            cur.name@.len() <= crate::scan::MAX_SRC_LEN,
                            len == content.len(),
                            content == e_file.content@,
                            content.len() <= crate::scan::MAX_SRC_LEN,
                            scanned == if preamble {
                                old(self).preamble@
                            } else {
                                old(self).files@
                            },
                            0 <= f < scanned.len(),
                            content == scanned[f as int].content@,
                            contains_byte(content, INST_DEF),
                            1 <= head.line <= at + 1,
                            0 <= head.column <= at + 1,
                            self.files@ == old(self).files@,
                            self.preamble@ == old(self).preamble@,
                            self.opcodes@ == old(self).opcodes@,
                            self.registers@ == old(self).registers@,
                            self.output@ == old(self).output@,
                            self.debug == old(self).debug,
                            self.quiet == old(self).quiet,
                            stop_nl@ == seq![crate::scan::NEWLINE],
                            stop_cbrace@ == seq![INST_CODES_END],
                            stop_semi@ == seq![DEF_END],
                            crate::opcodes::catalog_ok(self.opcodes.deep_view()),
                            crate::opcodes::insts_wf(self.instructions.deep_view()),
                            unique_inst_names(old(self).instructions.deep_view())
                                ==> unique_inst_names(self.instructions.deep_view()),
                            forall|j: int|
                                0 <= j < cur@.codes.len() ==> crate::opcodes::op_wf(
                                    #[trigger] cur@.codes[j],
                                ),
                        ensures
                            at_stmts <= at <= len,
                            se == at as int,
                            cur.name@ == dsk.name,
                            cur@.arguments == dsk.params,
                            cur@.is_main == dsk.is_main,
                            cur.name@.len() <= crate::scan::MAX_SRC_LEN,
                            forall|j: int|
                                0 <= j < cur@.codes.len() ==> crate::opcodes::op_wf(
                                    #[trigger] cur@.codes[j],
                                ),
                        decreases len - at,
                    {
                        // between statements, whitespace is skipped and a
                        // comment sigil discards the rest of its line
                        let ghost sb = at as int;
                        let b = e_file.content[at];
                        if crate::scan::is_ws_byte(b) {
                            at = at + 1;
                            head.advance(b);
                            proof {
                                assert(stmts_end(content, sb) == stmts_end(content, at as int));
                            }
                            continue;
                        }
                        if b == COMMENT_SINGLE_LINE {
                            let ghost atc = at as int;
                            proof {
                                crate::scan::lemma_span_end_range(content, stop_nl@, atc, false);
                                crate::scan::lemma_count_nl_bound(
                                    content.subrange(
                                        atc,
                                        crate::scan::span_end(content, stop_nl@, atc, false),
                                    ),
                                );
                                crate::scan::lemma_span_end_range(
                                    content,
                                    stop_nl@,
                                    atc + 1,
                                    false,
                                );
                            }
                            crate::scan::dump_until(&mut head, &e_file.content, &mut at, &stop_nl);
                            proof {
                                assert(crate::scan::span_end(content, stop_nl@, sb, false)
                                    == crate::scan::span_end(content, stop_nl@, sb + 1, false));
                                assert(stmts_end(content, sb) == stmts_end(content, at as int));
                            }
                            continue;
                        }
                        if !crate::scan::any_exists_until(
                            &e_file.content,
                            at,
                            &stop_semi,
                            &stop_cbrace,
                        ) {
                            proof {
                                assert(stmts_end(content, sb) == sb);
                            }
                            break;
                        }
                        let ghost at3 = at as int;
                        proof {
                            crate::scan::lemma_span_end_range(content, stop_semi@, at3, false);
                            crate::scan::lemma_span_end_range(content, stop_cbrace@, at3, false);
                            let k = choose|k: int|
                                at3 <= k < crate::scan::span_end(
                                    content,
                                    stop_cbrace@,
                                    at3,
                                    false,
                                ) && !crate::scan::is_ws(content[k]) && contains_byte(
                                    stop_semi@,
                                    content[k],
                                );
                            assert(crate::scan::span_end(content, stop_semi@, at3, false) <= k);
                        }
                        let raw_data = crate::scan::read_until_spare_ws(
                            &e_file.content,
                            &mut at,
                            &stop_semi,
                        );
                        let raw = crate::scan::traverse_read(&mut head, raw_data);
                        if at < len {
                            let d = e_file.content[at];
                            at = at + 1;
                            head.advance(d);
                        }
                        proof {
                            assert(stmts_end(content, at3) == stmts_end(content, at as int));
                        }
                        let code = crate::text::trim_bytes(&raw);
                        let ghost code_v = code@;
                        let res = self.parse_code(&e_file, head, &cur, &self.instructions, code);
                        match res {
                            Err(e) => {
                                return Err(e);
                            },
                            Ok(op) => {
                                proof {
                                    crate::opcodes::lemma_parsed_op_wf(
                                        op@,
                                        crate::text::spec_tokens(code_v),
                                        self.registers.deep_view(),
                                        cur@.scope,
                                        self.instructions.deep_view(),
                                    );
                                }
                                let ghost codes_before = cur@.codes;
                                let ghost opv = op@;
                                cur.codes.push(op);
                                proof {
                                    assert(cur@.codes =~= codes_before.push(opv));
                                }
                            },
                        }
                    }
                    if self.does_instruction_exist(&cur.name) {
                        proof {
                            assert(cur.name@.len() <= crate::scan::MAX_SRC_LEN);
                        }
                        let nml = cur.name.len() as i32;
                        let h1 = head.new_by(0, -nml);
                        let h2 = h1.new_by(0, -nml);
                        let nm = sub_vec(&cur.name, 0, cur.name.len());
                        proof {
                            assert(nm@ =~= cur.name@);
                        }
                        let err = IllError::InstructionRedefinition(h2, nm);
                        return Err(AdvancedIllError::new(err, Some(h1), e_file));
                    }
                    let ghost insts_before = self.instructions.deep_view();
                    let ghost curv = cur@;
                    self.instructions.push(cur);
                    proof {
                        assert(self.instructions.deep_view() =~= insts_before.push(curv));
                        if unique_inst_names(old(self).instructions.deep_view()) {
                            crate::model::lemma_unique_inst_push(insts_before, curv);
                        }
                        assert forall|i: int|
                            0 <= i < self.instructions.deep_view().len() implies
                            crate::opcodes::inst_codes_wf(
                                #[trigger] self.instructions.deep_view()[i],
                            ) by {
                            if i < insts_before.len() {
                                assert(crate::opcodes::inst_codes_wf(insts_before[i]));
                            } else {
                                assert(self.instructions.deep_view()[i] == curv);
                            }
                        }
                        assert(skels(self.instructions.deep_view()) =~= skels(insts_before).push(
                            skel_of(curv),
                        ));
                        assert(skel_of(curv) == dsk);
                        assert(defs_from(content, xi) == seq![dsk] + defs_from(
                            content,
                            at as int,
                        ));
                        assert(skels(self.instructions.deep_view()) + defs_from(
                            content,
                            at as int,
                        ) =~= skels(insts_before) + defs_from(content, xi));
                    }
                } else {
                    proof {
                        assert(defs_from(content, xi) == defs_from(content, xi + 1));
                    }
                }
            }
            proof {
                assert(defs_from(content, at as int) =~= Seq::<DefSkel>::empty());
                assert(skels(self.instructions.deep_view()) =~= olds_sk + defs_upto(sfv, f + 1));
            }
            f = f + 1;
        }
        proof {
            assert(defs_upto(sfv, sfv.len() as int) == all_defs(sfv));
            assert(skels(self.instructions.deep_view()) == olds_sk + all_defs(sfv));
        }
        if self.instructions.len() == 0 {
            let errfile = if self.files.len() > 0 {
                self.files[0].unsafe_clone()
            } else {
                EnhancedFile::empty()
            };
            return Err(AdvancedIllError::new(IllError::NoMainInstruction, None, errfile));
        }
        proof {
            if old(self).instructions@.len() == 0 {
                if forall|i: int|
                    0 <= i < scanned.len() ==> !contains_byte(
                        (#[trigger] scanned[i])@.content,
                        INST_DEF,
                    ) {
                    assert(self.instructions@ == old(self).instructions@);
                    assert(false);
                }
            }
        }
        if !preamble && self.instructions.len() == 1 {
            let ghost before = self.instructions.deep_view();
            set_instruction_main(&mut self.instructions, 0);
            proof {
                assert(skels(self.instructions.deep_view()) =~= mark_sole_main(skels(before)));
                assert forall|i: int|
                    0 <= i < self.instructions.deep_view().len() implies
                    crate::opcodes::inst_codes_wf(
                        #[trigger] self.instructions.deep_view()[i],
                    ) by {
                    assert(crate::opcodes::inst_codes_wf(before[i]));
                    assert(self.instructions.deep_view()[i].codes == before[i].codes);
                }
                if unique_inst_names(old(self).instructions.deep_view()) {
                    assert forall|a: int, b: int|
                        0 <= a < b < self.instructions.deep_view().len() implies
                        self.instructions.deep_view()[a].name != self.instructions.deep_view()[b].name by {
                        assert(self.instructions.deep_view()[a].name == before[a].name);
                        assert(self.instructions.deep_view()[b].name == before[b].name);
                    }
                }
            }
            master_file = Some(
                if self.files.len() > 0 {
                    self.files[0].unsafe_clone()
                } else {
                    EnhancedFile::empty()
                },
            );
        }
        if !preamble {
            let mut mi: usize = 0;
            let mut found = false;
            while mi < self.instructions.len()
                invariant_except_break
                    !found,
                invariant
                    mi <= self.instructions@.len(),
                    forall|k: int|
                        0 <= k < mi ==> !(#[trigger] self.instructions.deep_view()[k]).is_main,
                ensures
                    found ==> mi < self.instructions@.len(),
                    found ==> self.instructions.deep_view()[mi as int].is_main,
                    !found ==> mi == self.instructions@.len(),
                    forall|k: int|
                        0 <= k < mi ==> !(#[trigger] self.instructions.deep_view()[k]).is_main,
                decreases self.instructions@.len() - mi,
            {
                if self.instructions[mi].is_main {
                    proof {
                        let ghost mii = mi as int;
                        assert(self.instructions.deep_view()[mii] == self.instructions@[mii]@);
                    }
                    found = true;
                    break;
                }
                proof {
                    let ghost mii = mi as int;
                    assert(self.instructions.deep_view()[mii] == self.instructions@[mii]@);
                }
                mi = mi + 1;
            }
            if !found {
                proof {
                    if self.instructions.deep_view().len() == 1 {
                        assert(self.instructions.deep_view()[0].is_main);
                    }
                    assert(self.instructions.deep_view().len() >= 2);
                }
                let errfile = if self.files.len() > 0 {
                    self.files[0].unsafe_clone()
                } else {
                    EnhancedFile::empty()
                };
                return Err(AdvancedIllError::new(IllError::NoMainInstruction, None, errfile));
            }
            let master = match master_file {
                Some(mf) => mf,
                None => if self.files.len() > 0 {
                    self.files[0].unsafe_clone()
                } else {
                    EnhancedFile::empty()
                },
            };
            proof {
                assert(crate::opcodes::inst_codes_wf(
                    self.instructions.deep_view()[mi as int],
                ));
                assert(self.instructions.deep_view()[mi as int]
                    == self.instructions@[mi as int]@);
            }
            let ghost regs_pre = self.registers.deep_view();
            let ghost out_pre = self.output@;
            let res = self.instructions[mi].execute(
                &master,
                &mut self.registers,
                &self.instructions,
                &mut self.output,
                exec_fuel,
            );
            match res {
                Err(e) => Err(e),
                Ok(_) => {
                    proof {
                        let iv = self.instructions.deep_view();
                        assert(iv[mi as int] == self.instructions@[mi as int]@);
                        assert(regs_pre =~= old(self).registers.deep_view());
                        let (v, svf): (i64, Seq<RegV>) = choose|v: i64, svf: Seq<RegV>|
                            crate::opcodes::invoke_post(
                                iv,
                                iv[mi as int],
                                regs_pre,
                                seq![RegV { name: res_name(), value: 0, is_variable: true }],
                                out_pre,
                                Ok::<i64, AdvancedIllError>(v),
                                self.registers.deep_view(),
                                svf,
                                self.output@,
                            );
                        assert(crate::opcodes::invoke_post(
                            iv,
                            iv[mi as int],
                            old(self).registers.deep_view(),
                            seq![RegV { name: res_name(), value: 0, is_variable: true }],
                            old(self).output@,
                            Ok::<i64, AdvancedIllError>(v),
                            self.registers.deep_view(),
                            svf,
                            self.output@,
                        ));
                    }
                    Ok(())
                },
            }
        } else {
            proof {
                crate::opcodes::lemma_frame_same(
                    self.registers.deep_view(),
                    Seq::<RegV>::empty(),
                    self.output@,
                );
                assert(skels(self.instructions.deep_view()) == olds_sk + all_defs(sfv));
            }
            Ok(())
        }
    }
}


impl Interpreter {
    /// Run the whole pipeline: scan the preamble files for definitions
    /// (their verdict only seeds the program context), build the global
    /// register table from the main files, scan the main files for
    /// definitions, and execute the main instruction.  Returns the first
    /// error, or `None` on success.
    pub fn begin_parsing(&mut self) -> (r: Option<AdvancedIllError>)
        requires
            crate::opcodes::catalog_ok(old(self).opcodes.deep_view()),
            old(self).instructions.deep_view() == Seq::<InstV>::empty(),
            old(self).registers.deep_view() == Seq::<RegV>::empty(),
            forall|i: int|
                0 <= i < old(self).files@.len() ==> (#[trigger] old(self).files@[i]).content@.len()
                    <= crate::scan::MAX_SRC_LEN,
            forall|i: int|
                0 <= i < old(self).preamble@.len() ==> (#[trigger] old(self).preamble@[i]).content@.len()
                    <= crate::scan::MAX_SRC_LEN,
        ensures
            final(self).files@ == old(self).files@,
            final(self).preamble@ == old(self).preamble@,
            final(self).opcodes@ == old(self).opcodes@,
            final(self).debug == old(self).debug,
            final(self).quiet == old(self).quiet,
            crate::opcodes::insts_wf(final(self).instructions.deep_view()),
            unique_inst_names(final(self).instructions.deep_view()),
            unique_reg_names(final(self).registers.deep_view()),
            (old(self).files@.len() > 0 && (forall|i: int|
                0 <= i < old(self).preamble@.len() ==> !contains_byte(
                    (#[trigger] old(self).preamble@[i])@.content,
                    REGISTER_DEF,
                )) && (forall|i: int|
                0 <= i < old(self).files@.len() ==> !contains_byte(
                    (#[trigger] old(self).files@[i])@.content,
                    REGISTER_DEF,
                ))) ==> (r matches Some(e) && (e.error matches IllError::NoRegistersFound(fl)
                && fl@ == old(self).files@[0]@)),
            ((forall|i: int|
                0 <= i < old(self).preamble@.len() ==> !contains_byte(
                    (#[trigger] old(self).preamble@[i])@.content,
                    INST_DEF,
                )) && (forall|i: int|
                0 <= i < old(self).files@.len() ==> !contains_byte(
                    (#[trigger] old(self).files@[i])@.content,
                    INST_DEF,
                ))) ==> (r matches Some(e) && (e.error matches IllError::NoMainInstruction
                || e.error matches IllError::NoRegistersFound(_) || e.error matches
            IllError::RegisterRedefinition(_, _, _))),
            ((forall|i: int|
                0 <= i < old(self).files@.len() ==> contains_byte(
                    (#[trigger] old(self).files@[i])@.content,
                    REGISTER_DEF,
                )) && distinct_names(
                all_decls(old(self).preamble.deep_view()) + all_decls(
                    old(self).files.deep_view(),
                ),
            ) && (forall|i: int|
                0 <= i < old(self).preamble@.len() ==> !contains_byte(
                    (#[trigger] old(self).preamble@[i])@.content,
                    INST_DEF,
                )) && (forall|i: int|
                0 <= i < old(self).files@.len() ==> !contains_byte(
                    (#[trigger] old(self).files@[i])@.content,
                    INST_DEF,
                ))) ==> (r matches Some(e) && e.error matches IllError::NoMainInstruction),
            r is None ==> final(self).instructions@.len() >= 1,
            (r is None && final(self).instructions.deep_view().len() == 1) ==> final(self).instructions.deep_view()[0].is_main,
            (old(self).files@.len() > 0 && (forall|i: int|
                0 <= i < old(self).preamble@.len() ==> !contains_byte(
                    (#[trigger] old(self).preamble@[i])@.content,
                    REGISTER_DEF,
                )) && (forall|i: int|
                0 <= i < old(self).files@.len() ==> !contains_byte(
                    (#[trigger] old(self).files@[i])@.content,
                    REGISTER_DEF,
                ))) ==> final(self).registers@ == old(self).registers@,
            r is None ==> (forall|i: int|
                0 <= i < old(self).files@.len() ==> contains_byte(
                    (#[trigger] old(self).files@[i])@.content,
                    REGISTER_DEF,
                )) && distinct_names(
                all_decls(old(self).preamble.deep_view()) + all_decls(
                    old(self).files.deep_view(),
                ),
            ),
            (r is None && (forall|i: int|
                0 <= i < old(self).preamble@.len() ==> !contains_byte(
                    (#[trigger] old(self).preamble@[i])@.content,
                    INST_DEF,
                ))) ==> skels(final(self).instructions.deep_view()) == ({
                let base = all_defs(old(self).files.deep_view());
                if base.len() == 1 {
                    mark_sole_main(base)
                } else {
                    base
                }
            }),
            r is None ==> exists|mi: int, v: i64, svf: Seq<RegV>, regs_mid: Seq<RegV>|
                {
                    &&& unique_reg_names(regs_mid)
                    &&& all_declared_globals(regs_mid)
                    &&& crate::opcodes::names_of(regs_mid) == all_decls(
                        old(self).preamble.deep_view(),
                    ) + all_decls(old(self).files.deep_view())
                    &&& 0 <= mi < final(self).instructions.deep_view().len()
                    &&& final(self).instructions.deep_view()[mi].is_main
                    &&& #[trigger] crate::opcodes::invoke_post(
                        final(self).instructions.deep_view(),
                        final(self).instructions.deep_view()[mi],
                        regs_mid,
                        seq![RegV { name: res_name(), value: 0, is_variable: true }],
                        old(self).output@,
                        Ok::<i64, AdvancedIllError>(v),
                        final(self).registers.deep_view(),
                        svf,
                        final(self).output@,
                    )
                },
    {
        let ghost no_def = (forall|i: int|
            0 <= i < old(self).preamble@.len() ==> !contains_byte(
                (#[trigger] old(self).preamble@[i])@.content,
                INST_DEF,
            )) && (forall|i: int|
            0 <= i < old(self).files@.len() ==> !contains_byte(
                (#[trigger] old(self).files@[i])@.content,
                INST_DEF,
            ));
        // The preamble scan only contributes definitions to the shared
        // context; its own verdict is not consulted.
        let _ = self.scan_instructions(true);
        proof {
            assert(old(self).instructions.deep_view().len() == 0);
            assert(old(self).instructions@.len() == 0);
            if no_def {
                assert forall|i: int| 0 <= i < self.preamble@.len() implies !contains_byte(
                    (#[trigger] self.preamble@[i])@.content,
                    INST_DEF,
                ) by {
                    assert(self.preamble@[i] == old(self).preamble@[i]);
                }
                assert(self.instructions@ == old(self).instructions@);
            }
        }
        match self.create_registers() {
            Err(e) => {
                return Some(e);
            },
            Ok(()) => {},
        }
        proof {
            if no_def {
                assert forall|i: int| 0 <= i < self.files@.len() implies !contains_byte(
                    (#[trigger] self.files@[i])@.content,
                    INST_DEF,
                ) by {
                    assert(self.files@[i] == old(self).files@[i]);
                }
                assert(self.instructions@.len() == 0);
            }
        }
        let ghost regs_mid = self.registers.deep_view();
        let ghost out_mid = self.output@;
        proof {
            assert(out_mid == old(self).output@);
            assert(self.files.deep_view() =~= old(self).files.deep_view());
            assert(self.preamble.deep_view() =~= old(self).preamble.deep_view());
            assert(crate::opcodes::names_of(regs_mid) == all_decls(
                old(self).preamble.deep_view(),
            ) + all_decls(old(self).files.deep_view()));
        }
        let ghost mid_sk = skels(self.instructions.deep_view());
        proof {
            if forall|i: int|
                0 <= i < old(self).preamble@.len() ==> !contains_byte(
                    (#[trigger] old(self).preamble@[i])@.content,
                    INST_DEF,
                ) {
                assert(self.instructions@ == old(self).instructions@);
                assert(self.instructions.deep_view() =~= Seq::<InstV>::empty());
                assert(mid_sk =~= Seq::<DefSkel>::empty());
            }
        }
        match self.scan_instructions(false) {
            Err(e) => Some(e),
            Ok(()) => {
                proof {
                    let (mi, v, svf): (int, i64, Seq<RegV>) = choose|
                        mi: int,
                        v: i64,
                        svf: Seq<RegV>,
                    |
                        {
                            &&& 0 <= mi < self.instructions.deep_view().len()
                            &&& self.instructions.deep_view()[mi].is_main
                            &&& forall|k: int|
                                0 <= k < mi ==> !(#[trigger] self.instructions.deep_view()[k]).is_main
                            &&& #[trigger] crate::opcodes::invoke_post(
                                self.instructions.deep_view(),
                                self.instructions.deep_view()[mi],
                                regs_mid,
                                seq![RegV { name: res_name(), value: 0, is_variable: true }],
                                out_mid,
                                Ok::<i64, AdvancedIllError>(v),
                                self.registers.deep_view(),
                                svf,
                                self.output@,
                            )
                        };
                    assert(crate::opcodes::invoke_post(
                        self.instructions.deep_view(),
                        self.instructions.deep_view()[mi],
                        regs_mid,
                        seq![RegV { name: res_name(), value: 0, is_variable: true }],
                        old(self).output@,
                        Ok::<i64, AdvancedIllError>(v),
                        self.registers.deep_view(),
                        svf,
                        self.output@,
                    ));
                    if forall|i: int|
                        0 <= i < old(self).preamble@.len() ==> !contains_byte(
                            (#[trigger] old(self).preamble@[i])@.content,
                            INST_DEF,
                        ) {
                        assert(self.files.deep_view() =~= old(self).files.deep_view());
                        assert(mid_sk + all_defs(old(self).files.deep_view()) =~= all_defs(
                            old(self).files.deep_view(),
                        ));
                    }
                }
                None
            },
        }
    }
}

/// A scan that saw no declaration sigil saw a file without one.
proof fn lemma_no_reg_def(content: Seq<u8>, at: int)
    requires
        at == content.len(),
        forall|k: int| 0 <= k < at ==> content[k] != REGISTER_DEF,
    ensures
        !contains_byte(content, REGISTER_DEF),
{
}

} // verus!
