//! The mathematical model of the interpreter's state: ghost views of
//! registers, operands, opcodes and instructions, and the lookup and
//! resolution functions the contracts are stated over.

use vstd::prelude::*;
use crate::scan::ReadHead;

verus! {

/// Ghost view of a register: its name, its value and whether it is a local
/// variable rather than a declared global register.
pub ghost struct RegV {
    pub name: Seq<u8>,
    pub value: i64,
    pub is_variable: bool,
}

/// Ghost view of a loaded source file.
pub ghost struct FileV {
    pub filename: Seq<u8>,
    pub content: Seq<u8>,
}

/// Ghost view of a typed operand.
pub ghost enum ExprV {
    IntegerLiteral(i64),
    ProbableValue(i64),
    ProbableName(Seq<u8>),
    StringLiteral(Seq<u8>),
    ContainerReference(Seq<u8>),
    RegisterReference(Seq<u8>),
    VariableReference(Seq<u8>),
    InstructionReference(Seq<u8>, Seq<Seq<u8>>),
}

/// Ghost view of one opcode invocation.
pub ghost struct OpCodeV {
    pub name: Seq<u8>,
    pub arguments: Seq<ExprV>,
    pub location: Option<ReadHead>,
}

/// Ghost view of one instruction definition.
pub ghost struct InstV {
    pub name: Seq<u8>,
    pub codes: Seq<OpCodeV>,
    pub scope: Seq<RegV>,
    pub arguments: Seq<Seq<u8>>,
    pub is_main: bool,
}

// ------------------------------------------------------------------
// Register lookup
// ------------------------------------------------------------------

/// Index of the first register at or after `i` named `name`, or the length
/// of `s` when there is none.
pub open spec fn find_reg_from(s: Seq<RegV>, name: Seq<u8>, i: int) -> int
    decreases s.len() - i,
{
    if 0 <= i < s.len() {
        if s[i].name == name {
            i
        } else {
            find_reg_from(s, name, i + 1)
        }
    } else {
        s.len() as int
    }
}

/// Index of the first register named `name`.
pub open spec fn reg_idx(s: Seq<RegV>, name: Seq<u8>) -> int {
    find_reg_from(s, name, 0)
}

/// Whether a register named `name` exists.
pub open spec fn has_reg(s: Seq<RegV>, name: Seq<u8>) -> bool {
    reg_idx(s, name) < s.len()
}

/// Value of the first register named `name`.
pub open spec fn reg_val(s: Seq<RegV>, name: Seq<u8>) -> i64 {
    s[reg_idx(s, name)].value
}

pub proof fn lemma_find_reg_from_range(s: Seq<RegV>, name: Seq<u8>, i: int)
    requires
        0 <= i <= s.len(),
    ensures
        i <= find_reg_from(s, name, i) <= s.len(),
        forall|k: int| i <= k < find_reg_from(s, name, i) ==> s[k].name != name,
        find_reg_from(s, name, i) < s.len() ==> s[find_reg_from(s, name, i)].name == name,
    decreases s.len() - i,
{
    if i < s.len() && s[i].name != name {
        lemma_find_reg_from_range(s, name, i + 1);
    }
}

pub proof fn lemma_find_reg_from_is(s: Seq<RegV>, name: Seq<u8>, i: int, j: int)
    requires
        0 <= i <= j <= s.len(),
        forall|k: int| i <= k < j ==> s[k].name != name,
        j < s.len() ==> s[j].name == name,
    ensures
        find_reg_from(s, name, i) == j,
    decreases j - i,
{
    if i < j {
        lemma_find_reg_from_is(s, name, i + 1, j);
    }
}

/// Name resolution at execution time: the local scope is searched first,
/// then the global registers.
pub open spec fn resolve_val(globals: Seq<RegV>, scope: Seq<RegV>, name: Seq<u8>) -> Option<i64> {
    if has_reg(scope, name) {
        Some(reg_val(scope, name))
    } else if has_reg(globals, name) {
        Some(reg_val(globals, name))
    } else {
        None
    }
}

/// Whether `name` resolves at all, in the local scope or globally.
pub open spec fn is_container(globals: Seq<RegV>, scope: Seq<RegV>, name: Seq<u8>) -> bool {
    has_reg(scope, name) || has_reg(globals, name)
}

/// No two registers share a name.
pub open spec fn unique_reg_names(s: Seq<RegV>) -> bool {
    forall|i: int, j: int| 0 <= i < j < s.len() ==> s[i].name != s[j].name
}

// ------------------------------------------------------------------
// Instruction lookup
// ------------------------------------------------------------------

/// Index of the first instruction at or after `i` named `name`, or the
/// length of `s` when there is none.
pub open spec fn find_inst_from(s: Seq<InstV>, name: Seq<u8>, i: int) -> int
    decreases s.len() - i,
{
    if 0 <= i < s.len() {
        if s[i].name == name {
            i
        } else {
            find_inst_from(s, name, i + 1)
        }
    } else {
        s.len() as int
    }
}

/// Index of the first instruction named `name`.
pub open spec fn inst_idx(s: Seq<InstV>, name: Seq<u8>) -> int {
    find_inst_from(s, name, 0)
}

/// Whether an instruction named `name` exists.
pub open spec fn has_inst(s: Seq<InstV>, name: Seq<u8>) -> bool {
    inst_idx(s, name) < s.len()
}

pub proof fn lemma_find_inst_from_range(s: Seq<InstV>, name: Seq<u8>, i: int)
    requires
        0 <= i <= s.len(),
    ensures
        i <= find_inst_from(s, name, i) <= s.len(),
        forall|k: int| i <= k < find_inst_from(s, name, i) ==> s[k].name != name,
        find_inst_from(s, name, i) < s.len() ==> s[find_inst_from(s, name, i)].name == name,
    decreases s.len() - i,
{
    if i < s.len() && s[i].name != name {
        lemma_find_inst_from_range(s, name, i + 1);
    }
}

/// No two instructions share a name.
pub open spec fn unique_inst_names(s: Seq<InstV>) -> bool {
    forall|i: int, j: int| 0 <= i < j < s.len() ==> s[i].name != s[j].name
}

/// Appending an instruction with a fresh name keeps the names unique.
pub proof fn lemma_unique_inst_push(s: Seq<InstV>, v: InstV)
    requires
        !has_inst(s, v.name),
        unique_inst_names(s),
    ensures
        unique_inst_names(s.push(v)),
{
    lemma_find_inst_from_range(s, v.name, 0);
    let t = s.push(v);
    assert forall|i: int, j: int| 0 <= i < j < t.len() implies t[i].name != t[j].name by {
        if j < s.len() {
            assert(s[i].name != s[j].name);
        } else {
            assert(t[j] == v);
            assert(s[i].name != v.name);
        }
    }
}

pub proof fn lemma_find_inst_from_is(s: Seq<InstV>, name: Seq<u8>, i: int, j: int)
    requires
        0 <= i <= j <= s.len(),
        forall|k: int| i <= k < j ==> s[k].name != name,
        j < s.len() ==> s[j].name == name,
    ensures
        find_inst_from(s, name, i) == j,
    decreases j - i,
{
    if i < j {
        lemma_find_inst_from_is(s, name, i + 1, j);
    }
}

/// Appending a fresh name keeps the names unique.
pub proof fn lemma_unique_push(s: Seq<RegV>, r: RegV)
    requires
        !has_reg(s, r.name),
        unique_reg_names(s),
    ensures
        unique_reg_names(s.push(r)),
{
    lemma_find_reg_from_range(s, r.name, 0);
    let t = s.push(r);
    assert forall|i: int, j: int| 0 <= i < j < t.len() implies t[i].name != t[j].name by {
        if j < s.len() {
            assert(s[i].name != s[j].name);
        } else {
            assert(t[j] == r);
            assert(s[i].name != r.name);
        }
    }
}

/// Replacing a register with one of the same name keeps the name list and
/// uniqueness.
pub proof fn lemma_unique_update(s: Seq<RegV>, i: int, r: RegV)
    requires
        0 <= i < s.len(),
        r.name == s[i].name,
    ensures
        unique_reg_names(s) ==> unique_reg_names(s.update(i, r)),
        s.update(i, r).map_values(|x: RegV| x.name) == s.map_values(|x: RegV| x.name),
{
    assert(s.update(i, r).map_values(|x: RegV| x.name) =~= s.map_values(|x: RegV| x.name));
    if unique_reg_names(s) {
        let t = s.update(i, r);
        assert forall|a: int, b: int| 0 <= a < b < t.len() implies t[a].name != t[b].name by {
            assert(t[a].name == s[a].name);
            assert(t[b].name == s[b].name);
        }
    }
}

/// Removing a register keeps the remaining names unique.
pub proof fn lemma_unique_remove(s: Seq<RegV>, i: int)
    requires
        0 <= i < s.len(),
        unique_reg_names(s),
    ensures
        unique_reg_names(s.remove(i)),
{
    let t = s.remove(i);
    assert forall|a: int, b: int| 0 <= a < b < t.len() implies t[a].name != t[b].name by {
        let a0: int = if a < i {
            a
        } else {
            a + 1
        };
        let b0: int = if b < i {
            b
        } else {
            b + 1
        };
        assert(t[a] == s[a0]);
        assert(t[b] == s[b0]);
    }
}

/// Removing the only register of a name removes the name.
pub proof fn lemma_removed_gone(s: Seq<RegV>, n: Seq<u8>)
    requires
        unique_reg_names(s),
        has_reg(s, n),
    ensures
        !has_reg(s.remove(reg_idx(s, n)), n),
{
    lemma_find_reg_from_range(s, n, 0);
    let i = reg_idx(s, n);
    let t = s.remove(i);
    assert forall|k: int| 0 <= k < t.len() implies t[k].name != n by {
        let k0: int = if k < i {
            k
        } else {
            k + 1
        };
        assert(t[k] == s[k0]);
        if k0 < i {
            assert(s[k0].name != n);
        } else {
            assert(s[i].name == n);
            assert(k0 > i);
            assert(s[k0].name != s[i].name);
        }
    }
    lemma_find_reg_from_is(t, n, 0, t.len() as int);
}

// ------------------------------------------------------------------
// Catalog lookup
// ------------------------------------------------------------------

/// Index of the first catalog entry at or after `i` named `name`, or the
/// length of `c` when there is none.
pub open spec fn find_op_from(c: Seq<OpCodeV>, name: Seq<u8>, i: int) -> int
    decreases c.len() - i,
{
    if 0 <= i < c.len() {
        if c[i].name == name {
            i
        } else {
            find_op_from(c, name, i + 1)
        }
    } else {
        c.len() as int
    }
}

/// Index of the first catalog entry named `name`.
pub open spec fn op_idx(c: Seq<OpCodeV>, name: Seq<u8>) -> int {
    find_op_from(c, name, 0)
}

/// Whether the catalog holds an entry named `name`.
pub open spec fn has_op(c: Seq<OpCodeV>, name: Seq<u8>) -> bool {
    op_idx(c, name) < c.len()
}

pub proof fn lemma_find_op_from_range(c: Seq<OpCodeV>, name: Seq<u8>, i: int)
    requires
        0 <= i <= c.len(),
    ensures
        i <= find_op_from(c, name, i) <= c.len(),
        forall|k: int| i <= k < find_op_from(c, name, i) ==> c[k].name != name,
        find_op_from(c, name, i) < c.len() ==> c[find_op_from(c, name, i)].name == name,
    decreases c.len() - i,
{
    if i < c.len() && c[i].name != name {
        lemma_find_op_from_range(c, name, i + 1);
    }
}

pub proof fn lemma_find_op_from_is(c: Seq<OpCodeV>, name: Seq<u8>, i: int, j: int)
    requires
        0 <= i <= j <= c.len(),
        forall|k: int| i <= k < j ==> c[k].name != name,
        j < c.len() ==> c[j].name == name,
    ensures
        find_op_from(c, name, i) == j,
    decreases j - i,
{
    if i < j {
        lemma_find_op_from_is(c, name, i + 1, j);
    }
}

} // verus!
