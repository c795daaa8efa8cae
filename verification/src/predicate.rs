//! Compiled predicates: a WHERE clause as stack bytecode over a typed value
//! stack, evaluated two-valued — a comparison on null or across types is
//! simply false, and nullability is asked with explicit null tests.

use vstd::prelude::*;
use crate::bitmap::rb_bytes_contain;
use vstd::string::StringExecFns;
use crate::wire::{spec_parse_u16, spec_parse_u64, le16, le64, parse_u16, parse_u64, parse_u8,
    parse_bytes, put_u16, put_u64, put_bytes};

verus! {

/// One VM instruction. Operands index the constants pool, name a column, or
/// give a forward byte offset.
#[derive(Debug, Clone, Copy, PartialEq, Eq, Structural)]
pub enum Instruction {
    /// Push the null value.
    PushNull,
    /// Push `true`.
    PushTrue,
    /// Push `false`.
    PushFalse,
    /// Push the constant at the given pool index, null if out of range.
    PushConst(u16),
    /// Push the named column of the new row.
    LoadColumn(u16),
    /// Push the named column of the old row.
    LoadOldColumn(u16),
    /// Pop two, push whether they are equal.
    Eq,
    /// Pop two, push whether they are comparable and unequal.
    Ne,
    /// Pop two, push whether the first is less.
    Lt,
    /// Pop two, push whether the first is less or equal.
    Le,
    /// Pop two, push whether the first is greater.
    Gt,
    /// Pop two, push whether the first is greater or equal.
    Ge,
    /// Pop two booleans, push their conjunction; non-booleans give false.
    And,
    /// Pop two booleans, push their disjunction; non-booleans give false.
    Or,
    /// Pop a boolean, push its negation; a non-boolean gives false.
    Not,
    /// Pop one, push whether it is null.
    IsNull,
    /// Pop one, push whether it is not null.
    IsNotNull,
    /// Pop an integer, push whether the constant set at the index holds it.
    In(u16),
    /// Pop high, low and a value; push whether low ≤ value ≤ high.
    Between,
    /// Pop a string, push whether it starts with the constant at the index.
    LikePrefix(u16),
    /// Pop; if it was exactly `false`, skip the given number of bytes.
    JumpIfFalse(u16),
    /// Skip the given number of bytes.
    Jump(u16),
    /// Halt with the top of the stack as the verdict.
    Return,
}

/// One constants-pool entry.
#[derive(Debug, Clone)]
pub enum Constant {
    /// A 64-bit signed integer.
    Integer(i64),
    /// A 64-bit float, carried as its IEEE 754 bit pattern.
    FloatBits(u64),
    /// A UTF-8 string, carried as bytes.
    Text(Vec<u8>),
    /// A small integer set for IN clauses.
    IntSet(Vec<i64>),
    /// A serialized compressed bitmap for large IN clauses.
    IntBitmap(Vec<u8>),
}

/// A runtime stack slot.
#[derive(Debug, Clone)]
pub enum Value {
    /// SQL null.
    Null,
    /// A boolean.
    Bool(bool),
    /// A 64-bit signed integer.
    Integer(i64),
    /// A 64-bit float, carried as its IEEE 754 bit pattern.
    FloatBits(u64),
    /// A UTF-8 string, carried as bytes.
    Text(Vec<u8>),
}

/// A stack slot at the specification level; strings are byte sequences.
pub enum AbstractValue {
    /// SQL null.
    Null,
    /// A boolean.
    Bool(bool),
    /// A 64-bit signed integer.
    Integer(i64),
    /// A 64-bit float, as bits.
    FloatBits(u64),
    /// A UTF-8 string, as bytes.
    Text(Seq<u8>),
}

/// What a runtime slot stands for.
pub open spec fn value_view(v: Value) -> AbstractValue {
    match v {
        Value::Null => AbstractValue::Null,
        Value::Bool(b) => AbstractValue::Bool(b),
        Value::Integer(i) => AbstractValue::Integer(i),
        Value::FloatBits(f) => AbstractValue::FloatBits(f),
        Value::Text(t) => AbstractValue::Text(t@),
    }
}

/// A whole stack, viewed slot by slot.
pub open spec fn stack_view(s: Seq<Value>) -> Seq<AbstractValue> {
    s.map_values(|v: Value| value_view(v))
}

/// A float's magnitude bits: everything but the sign.
pub open spec fn f64_mag(bits: u64) -> u64 {
    bits & 0x7FFF_FFFF_FFFF_FFFF
}

/// Whether the bit pattern is a NaN: exponent all ones and a non-zero
/// mantissa.
pub open spec fn f64_is_nan(bits: u64) -> bool {
    f64_mag(bits) > 0x7FF0_0000_0000_0000
}

/// IEEE 754 equality on bit patterns: NaN equals nothing, the two zeroes
/// equal each other.
pub open spec fn f64_eq_bits(a: u64, b: u64) -> bool {
    &&& !f64_is_nan(a)
    &&& !f64_is_nan(b)
    &&& (a == b || (f64_mag(a) == 0 && f64_mag(b) == 0))
}

/// IEEE 754 less-than on bit patterns: false on any NaN, the two zeroes are
/// equal, otherwise sign first and then magnitude.
pub open spec fn f64_lt_bits(a: u64, b: u64) -> bool {
    &&& !f64_is_nan(a)
    &&& !f64_is_nan(b)
    &&& !(f64_mag(a) == 0 && f64_mag(b) == 0)
    &&& {
        let a_neg = a >> 63 == 1;
        let b_neg = b >> 63 == 1;
        if a_neg && !b_neg {
            true
        } else if !a_neg && b_neg {
            false
        } else if !a_neg {
            a < b
        } else {
            a > b
        }
    }
}

/// Strict lexicographic order on byte strings.
pub open spec fn lex_lt(a: Seq<u8>, b: Seq<u8>) -> bool
    decreases a.len(),
{
    if b.len() == 0 {
        false
    } else if a.len() == 0 {
        true
    } else if a[0] < b[0] {
        true
    } else if a[0] > b[0] {
        false
    } else {
        lex_lt(a.drop_first(), b.drop_first())
    }
}

/// Two-valued equality: null never equals, neither do distinct kinds.
pub open spec fn eq_values(a: AbstractValue, b: AbstractValue) -> bool {
    match (a, b) {
        (AbstractValue::Bool(x), AbstractValue::Bool(y)) => x == y,
        (AbstractValue::Integer(x), AbstractValue::Integer(y)) => x == y,
        (AbstractValue::FloatBits(x), AbstractValue::FloatBits(y)) => f64_eq_bits(x, y),
        (AbstractValue::Text(x), AbstractValue::Text(y)) => x == y,
        _ => false,
    }
}

/// Two-valued less-than: null and cross-kind comparisons are false.
pub open spec fn lt_values(a: AbstractValue, b: AbstractValue) -> bool {
    match (a, b) {
        (AbstractValue::Integer(x), AbstractValue::Integer(y)) => x < y,
        (AbstractValue::FloatBits(x), AbstractValue::FloatBits(y)) => f64_lt_bits(x, y),
        (AbstractValue::Text(x), AbstractValue::Text(y)) => lex_lt(x, y),
        _ => false,
    }
}

/// Whether both operands are of one comparable, non-null kind.
pub open spec fn comparable(a: AbstractValue, b: AbstractValue) -> bool {
    match (a, b) {
        (AbstractValue::Bool(_), AbstractValue::Bool(_)) => true,
        (AbstractValue::Integer(_), AbstractValue::Integer(_)) => true,
        (AbstractValue::FloatBits(_), AbstractValue::FloatBits(_)) => true,
        (AbstractValue::Text(_), AbstractValue::Text(_)) => true,
        _ => false,
    }
}

/// The six comparison verdicts, all collapsing null and cross-kind operands
/// to false.
pub open spec fn compare_values(op: Instruction, a: AbstractValue, b: AbstractValue) -> bool {
    match op {
        Instruction::Eq => eq_values(a, b),
        Instruction::Ne => comparable(a, b) && !eq_values(a, b),
        Instruction::Lt => lt_values(a, b),
        Instruction::Le => lt_values(a, b) || eq_values(a, b),
        Instruction::Gt => lt_values(b, a),
        Instruction::Ge => lt_values(b, a) || eq_values(a, b),
        _ => false,
    }
}

/// The value a constants-pool slot pushes: sets push null.
pub open spec fn const_value(consts: Seq<Constant>, idx: u16) -> AbstractValue {
    if idx < consts.len() {
        match consts[idx as int] {
            Constant::Integer(i) => AbstractValue::Integer(i),
            Constant::FloatBits(f) => AbstractValue::FloatBits(f),
            Constant::Text(t) => AbstractValue::Text(t@),
            Constant::IntSet(_) => AbstractValue::Null,
            Constant::IntBitmap(_) => AbstractValue::Null,
        }
    } else {
        AbstractValue::Null
    }
}

/// Whether the IN constant at `idx` holds the integer `v`.
pub open spec fn in_set(consts: Seq<Constant>, idx: u16, v: i64) -> bool {
    if idx < consts.len() {
        match consts[idx as int] {
            Constant::IntSet(set) => set@.contains(v),
            Constant::IntBitmap(bytes) =>
                0 <= v <= u32::MAX && rb_bytes_contain(bytes@, v as u32),
            _ => false,
        }
    } else {
        false
    }
}

/// Scan a row's columns for `col`: `count` entries of column id, a tag byte
/// and a payload. A malformed entry or a missing column reads as null.
pub open spec fn spec_row_find(bytes: Seq<u8>, pos: int, count: int, col: u16) -> AbstractValue
    decreases count,
{
    if count <= 0 {
        AbstractValue::Null
    } else {
        match spec_parse_u16(bytes, pos) {
            None => AbstractValue::Null,
            Some((cid, p1)) => {
                if 0 <= p1 < bytes.len() {
                    let tag = bytes[p1];
                    let p2 = p1 + 1;
                    if tag == 0 {
                        if cid == col {
                            AbstractValue::Null
                        } else {
                            spec_row_find(bytes, p2, count - 1, col)
                        }
                    } else if tag == 1 || tag == 2 {
                        match spec_parse_u64(bytes, p2) {
                            None => AbstractValue::Null,
                            Some((u, p3)) => {
                                if cid == col {
                                    if tag == 1 {
                                        AbstractValue::Integer(u as i64)
                                    } else {
                                        AbstractValue::FloatBits(u)
                                    }
                                } else {
                                    spec_row_find(bytes, p3, count - 1, col)
                                }
                            }
                        }
                    } else if tag == 3 {
                        match spec_parse_u16(bytes, p2) {
                            None => AbstractValue::Null,
                            Some((n, p3)) => {
                                if p3 + n <= bytes.len() {
                                    if cid == col {
                                        AbstractValue::Text(bytes.subrange(p3, p3 + n))
                                    } else {
                                        spec_row_find(bytes, p3 + n, count - 1, col)
                                    }
                                } else {
                                    AbstractValue::Null
                                }
                            }
                        }
                    } else {
                        AbstractValue::Null
                    }
                } else {
                    AbstractValue::Null
                }
            }
        }
    }
}

/// What column `col` of a row decodes to; decoding trouble reads as null.
pub open spec fn spec_row_value(bytes: Seq<u8>, col: u16) -> AbstractValue {
    match spec_parse_u16(bytes, 0) {
        None => AbstractValue::Null,
        Some((count, p)) => spec_row_find(bytes, p, count as int, col),
    }
}

/// Column `col` of an optional row; an absent row reads as null.
pub open spec fn spec_load_column(row: Option<Seq<u8>>, col: u16) -> AbstractValue {
    match row {
        None => AbstractValue::Null,
        Some(bytes) => spec_row_value(bytes, col),
    }
}

/// The verdict when the program halts: the top of the stack if it is a
/// boolean, else false.
pub open spec fn verdict(stack: Seq<AbstractValue>) -> bool {
    if stack.len() > 0 {
        match stack.last() {
            AbstractValue::Bool(b) => b,
            _ => false,
        }
    } else {
        false
    }
}

/// A stack with its top `n` slots popped, as the machine pops: fewer than
/// `n` slots leaves it empty.
pub open spec fn popped(stack: Seq<AbstractValue>, n: int) -> Seq<AbstractValue> {
    if stack.len() >= n {
        stack.take(stack.len() - n)
    } else {
        Seq::empty()
    }
}

/// What one instruction does to the stack: the new stack, how many extra
/// bytes to skip past the next instruction, and whether the run halts.
pub open spec fn spec_step(
    inst: Instruction,
    consts: Seq<Constant>,
    old_row: Option<Seq<u8>>,
    new_row: Option<Seq<u8>>,
    stack: Seq<AbstractValue>,
) -> (Seq<AbstractValue>, int, bool) {
    match inst {
        Instruction::PushNull => (stack.push(AbstractValue::Null), 0, false),
        Instruction::PushTrue => (stack.push(AbstractValue::Bool(true)), 0, false),
        Instruction::PushFalse => (stack.push(AbstractValue::Bool(false)), 0, false),
        Instruction::PushConst(idx) => (stack.push(const_value(consts, idx)), 0, false),
        Instruction::LoadColumn(c) => (stack.push(spec_load_column(new_row, c)), 0, false),
        Instruction::LoadOldColumn(c) => (stack.push(spec_load_column(old_row, c)), 0, false),
        Instruction::Eq | Instruction::Ne | Instruction::Lt | Instruction::Le
            | Instruction::Gt | Instruction::Ge => {
            let result = stack.len() >= 2
                && compare_values(inst, stack[stack.len() - 2], stack[stack.len() - 1]);
            (popped(stack, 2).push(AbstractValue::Bool(result)), 0, false)
        }
        Instruction::And => {
            let result = stack.len() >= 2
                && match (stack[stack.len() - 2], stack[stack.len() - 1]) {
                    (AbstractValue::Bool(x), AbstractValue::Bool(y)) => x && y,
                    _ => false,
                };
            (popped(stack, 2).push(AbstractValue::Bool(result)), 0, false)
        }
        Instruction::Or => {
            let result = stack.len() >= 2
                && match (stack[stack.len() - 2], stack[stack.len() - 1]) {
                    (AbstractValue::Bool(x), AbstractValue::Bool(y)) => x || y,
                    _ => false,
                };
            (popped(stack, 2).push(AbstractValue::Bool(result)), 0, false)
        }
        Instruction::Not => {
            let result = stack.len() >= 1
                && match stack.last() {
                    AbstractValue::Bool(x) => !x,
                    _ => false,
                };
            (popped(stack, 1).push(AbstractValue::Bool(result)), 0, false)
        }
        Instruction::IsNull => {
            if stack.len() >= 1 {
                (popped(stack, 1).push(AbstractValue::Bool(stack.last() is Null)), 0, false)
            } else {
                (stack, 0, false)
            }
        }
        Instruction::IsNotNull => {
            if stack.len() >= 1 {
                (popped(stack, 1).push(AbstractValue::Bool(!(stack.last() is Null))), 0, false)
            } else {
                (stack, 0, false)
            }
        }
        Instruction::In(idx) => {
            if stack.len() >= 1 {
                let result = match stack.last() {
                    AbstractValue::Integer(v) => in_set(consts, idx, v),
                    _ => false,
                };
                (popped(stack, 1).push(AbstractValue::Bool(result)), 0, false)
            } else {
                (stack, 0, false)
            }
        }
        Instruction::Between => {
            let result = stack.len() >= 3 && {
                let high = stack[stack.len() - 1];
                let low = stack[stack.len() - 2];
                let v = stack[stack.len() - 3];
                !lt_values(v, low) && !lt_values(high, v)
            };
            (popped(stack, 3).push(AbstractValue::Bool(result)), 0, false)
        }
        Instruction::LikePrefix(idx) => {
            let result = stack.len() >= 1 && match stack.last() {
                AbstractValue::Text(t) => {
                    idx < consts.len() && match consts[idx as int] {
                        Constant::Text(prefix) => prefix@.len() <= t.len()
                            && t.take(prefix@.len() as int) == prefix@,
                        _ => false,
                    }
                }
                _ => false,
            };
            (popped(stack, 1).push(AbstractValue::Bool(result)), 0, false)
        }
        Instruction::JumpIfFalse(offset) => {
            let jump = stack.len() >= 1 && stack.last() == AbstractValue::Bool(false);
            (popped(stack, 1), if jump { offset as int } else { 0 }, false)
        }
        Instruction::Jump(offset) => (stack, offset as int, false),
        Instruction::Return => (stack, 0, true),
    }
}

/// One whole run of the machine from `pc` with the given stack: forward
/// jumps only, so each step moves `pc` strictly on and the run ends.
pub open spec fn spec_run(
    code: Seq<Instruction>,
    consts: Seq<Constant>,
    old_row: Option<Seq<u8>>,
    new_row: Option<Seq<u8>>,
    pc: int,
    stack: Seq<AbstractValue>,
) -> bool
    decreases (if pc < code.len() { code.len() - pc } else { 0int }),
{
    if pc < 0 || pc >= code.len() {
        verdict(stack)
    } else {
        let (stack2, skip, halt) = spec_step(code[pc], consts, old_row, new_row, stack);
        if halt || skip < 0 {
            verdict(stack)
        } else {
            spec_run(code, consts, old_row, new_row, pc + 1 + skip, stack2)
        }
    }
}

/// One unfolding of [`spec_run`] at an in-range program counter.
pub proof fn lemma_run_unfold(
    code: Seq<Instruction>,
    consts: Seq<Constant>,
    old_row: Option<Seq<u8>>,
    new_row: Option<Seq<u8>>,
    pc: int,
    stack: Seq<AbstractValue>,
)
    requires
        0 <= pc < code.len(),
    ensures
        spec_run(code, consts, old_row, new_row, pc, stack) == {
            let (stack2, skip, halt) = spec_step(code[pc], consts, old_row, new_row, stack);
            if halt || skip < 0 {
                verdict(stack)
            } else {
                spec_run(code, consts, old_row, new_row, pc + 1 + skip, stack2)
            }
        },
{
}

/// Past the end of the code — in particular at any clamped jump target — the
/// run is over and the verdict stands.
pub proof fn lemma_run_done(
    code: Seq<Instruction>,
    consts: Seq<Constant>,
    old_row: Option<Seq<u8>>,
    new_row: Option<Seq<u8>>,
    pc: int,
    stack: Seq<AbstractValue>,
)
    requires
        pc >= code.len(),
    ensures
        spec_run(code, consts, old_row, new_row, pc, stack) == verdict(stack),
{
}

/// Whether a predicate touching `referenced` must run for a write changing
/// `changed`: always when it references no column, else when some changed
/// column is referenced.
pub open spec fn cols_intersect(referenced: Seq<u16>, changed: Seq<u16>) -> bool {
    referenced.len() == 0 || exists|i: int| 0 <= i < changed.len()
        && referenced.contains(#[trigger] changed[i])
}


/// Whether the bit pattern is a NaN.
fn f64_nan(bits: u64) -> (r: bool)
    ensures
        r == f64_is_nan(bits),
{
    (bits & 0x7FFF_FFFF_FFFF_FFFF) > 0x7FF0_0000_0000_0000
}

/// IEEE 754 equality on bit patterns.
fn float_eq(a: u64, b: u64) -> (r: bool)
    ensures
        r == f64_eq_bits(a, b),
{
    !f64_nan(a) && !f64_nan(b)
        && (a == b || ((a & 0x7FFF_FFFF_FFFF_FFFF) == 0 && (b & 0x7FFF_FFFF_FFFF_FFFF) == 0))
}

/// IEEE 754 less-than on bit patterns.
fn float_lt(a: u64, b: u64) -> (r: bool)
    ensures
        r == f64_lt_bits(a, b),
{
    if f64_nan(a) || f64_nan(b) {
        return false;
    }
    if (a & 0x7FFF_FFFF_FFFF_FFFF) == 0 && (b & 0x7FFF_FFFF_FFFF_FFFF) == 0 {
        return false;
    }
    let a_neg = (a >> 63) == 1;
    let b_neg = (b >> 63) == 1;
    if a_neg && !b_neg {
        true
    } else if !a_neg && b_neg {
        false
    } else if !a_neg {
        a < b
    } else {
        a > b
    }
}

/// Whether two byte strings are equal.
pub(crate) fn bytes_equal(a: &Vec<u8>, b: &Vec<u8>) -> (r: bool)
    ensures
        r == (a@ == b@),
{
    if a.len() != b.len() {
        proof {
            assert(a@.len() != b@.len());
        }
        return false;
    }
    let mut i: usize = 0;
    while i < a.len()
        invariant
            i <= a@.len(),
            a@.len() == b@.len(),
            forall|k: int| 0 <= k < i ==> a@[k] == b@[k],
        decreases a@.len() - i,
    {
        if a[i] != b[i] {
            return false;
        }
        i = i + 1;
    }
    proof {
        assert(a@ =~= b@);
    }
    true
}

/// Strict lexicographic order on byte strings.
fn bytes_less(a: &Vec<u8>, b: &Vec<u8>) -> (r: bool)
    ensures
        r == lex_lt(a@, b@),
{
    proof {
        assert(a@.skip(0) =~= a@);
        assert(b@.skip(0) =~= b@);
    }
    let mut i: usize = 0;
    while i < a.len() && i < b.len()
        invariant
            i <= a@.len(),
            i <= b@.len(),
            lex_lt(a@, b@) == lex_lt(a@.skip(i as int), b@.skip(i as int)),
            forall|k: int| 0 <= k < i ==> a@[k] == b@[k],
        decreases a@.len() - i,
    {
        proof {
            assert(a@.skip(i as int)[0] == a@[i as int]);
            assert(b@.skip(i as int)[0] == b@[i as int]);
            assert(a@.skip(i as int).drop_first() =~= a@.skip(i + 1));
            assert(b@.skip(i as int).drop_first() =~= b@.skip(i + 1));
        }
        if a[i] < b[i] {
            return true;
        }
        if a[i] > b[i] {
            return false;
        }
        i = i + 1;
    }
    proof {
        assert(a@.skip(i as int).len() == a@.len() - i);
        assert(b@.skip(i as int).len() == b@.len() - i);
    }
    i >= a.len() && i < b.len()
}

/// Whether `s` starts with `prefix`.
fn bytes_starts_with(s: &Vec<u8>, prefix: &Vec<u8>) -> (r: bool)
    ensures
        r == (prefix@.len() <= s@.len() && s@.take(prefix@.len() as int) == prefix@),
{
    if prefix.len() > s.len() {
        return false;
    }
    let mut i: usize = 0;
    while i < prefix.len()
        invariant
            i <= prefix@.len(),
            prefix@.len() <= s@.len(),
            forall|k: int| 0 <= k < i ==> s@[k] == prefix@[k],
        decreases prefix@.len() - i,
    {
        if s[i] != prefix[i] {
            proof {
                assert(s@.take(prefix@.len() as int)[i as int] != prefix@[i as int]);
            }
            return false;
        }
        i = i + 1;
    }
    proof {
        assert(s@.take(prefix@.len() as int) =~= prefix@);
    }
    true
}

/// Two-valued equality on runtime slots.
fn values_equal(a: &Value, b: &Value) -> (r: bool)
    ensures
        r == eq_values(value_view(*a), value_view(*b)),
{
    match (a, b) {
        (Value::Bool(x), Value::Bool(y)) => *x == *y,
        (Value::Integer(x), Value::Integer(y)) => *x == *y,
        (Value::FloatBits(x), Value::FloatBits(y)) => float_eq(*x, *y),
        (Value::Text(x), Value::Text(y)) => bytes_equal(x, y),
        _ => false,
    }
}

/// Two-valued less-than on runtime slots.
fn values_less(a: &Value, b: &Value) -> (r: bool)
    ensures
        r == lt_values(value_view(*a), value_view(*b)),
{
    match (a, b) {
        (Value::Integer(x), Value::Integer(y)) => *x < *y,
        (Value::FloatBits(x), Value::FloatBits(y)) => float_lt(*x, *y),
        (Value::Text(x), Value::Text(y)) => bytes_less(x, y),
        _ => false,
    }
}

/// Whether both slots are of one comparable, non-null kind.
fn values_comparable(a: &Value, b: &Value) -> (r: bool)
    ensures
        r == comparable(value_view(*a), value_view(*b)),
{
    match (a, b) {
        (Value::Bool(_), Value::Bool(_)) => true,
        (Value::Integer(_), Value::Integer(_)) => true,
        (Value::FloatBits(_), Value::FloatBits(_)) => true,
        (Value::Text(_), Value::Text(_)) => true,
        _ => false,
    }
}

/// Read column `col` from an optional row; any decoding trouble reads as
/// null.
fn load_column(row: Option<&[u8]>, col: u16) -> (r: Value)
    ensures
        value_view(r) == spec_load_column(opt_row_view(row), col),
{
    let bytes = match row {
        Some(b) => b,
        None => {
            return Value::Null;
        }
    };
    let (count, start) = match parse_u16(bytes, 0) {
        Some(p) => p,
        None => {
            return Value::Null;
        }
    };
    let mut remaining: u16 = count;
    let mut pos: usize = start;
    while remaining > 0
        invariant
            opt_row_view(row) == Some(bytes@),
            spec_load_column(opt_row_view(row), col)
                == spec_row_find(bytes@, pos as int, remaining as int, col),
        decreases remaining,
    {
        proof {
            lemma_row_find_unfold(bytes@, pos as int, remaining as int, col);
        }
        let (cid, p1) = match parse_u16(bytes, pos) {
            Some(p) => p,
            None => {
                return Value::Null;
            }
        };
        let (tag, p2) = match parse_u8(bytes, p1) {
            Some(p) => p,
            None => {
                return Value::Null;
            }
        };
        if tag == 0 {
            if cid == col {
                return Value::Null;
            }
            pos = p2;
        } else if tag == 1 || tag == 2 {
            let (u, p3) = match parse_u64(bytes, p2) {
                Some(p) => p,
                None => {
                    return Value::Null;
                }
            };
            if cid == col {
                if tag == 1 {
                    return Value::Integer(#[verifier::truncate] (u as i64));
                }
                return Value::FloatBits(u);
            }
            pos = p3;
        } else if tag == 3 {
            let (n, p3) = match parse_u16(bytes, p2) {
                Some(p) => p,
                None => {
                    return Value::Null;
                }
            };
            if p3 <= bytes.len() && bytes.len() - p3 >= n as usize {
                if cid == col {
                    let (payload, _end) = match parse_bytes(bytes, p3, n as usize) {
                        Some(p) => p,
                        None => {
                            return Value::Null;
                        }
                    };
                    return Value::Text(payload);
                }
                pos = p3 + n as usize;
            } else {
                return Value::Null;
            }
        } else {
            return Value::Null;
        }
        remaining = remaining - 1;
    }
    Value::Null
}

/// One unfolding of [`spec_row_find`], with the recursive tail left folded.
pub open spec fn row_find_step(bytes: Seq<u8>, pos: int, count: int, col: u16) -> AbstractValue {
    match spec_parse_u16(bytes, pos) {
        None => AbstractValue::Null,
        Some((cid, p1)) => {
            if 0 <= p1 < bytes.len() {
                let tag = bytes[p1];
                let p2 = p1 + 1;
                if tag == 0 {
                    if cid == col {
                        AbstractValue::Null
                    } else {
                        spec_row_find(bytes, p2, count - 1, col)
                    }
                } else if tag == 1 || tag == 2 {
                    match spec_parse_u64(bytes, p2) {
                        None => AbstractValue::Null,
                        Some((u, p3)) => {
                            if cid == col {
                                if tag == 1 {
                                    AbstractValue::Integer(u as i64)
                                } else {
                                    AbstractValue::FloatBits(u)
                                }
                            } else {
                                spec_row_find(bytes, p3, count - 1, col)
                            }
                        }
                    }
                } else if tag == 3 {
                    match spec_parse_u16(bytes, p2) {
                        None => AbstractValue::Null,
                        Some((n, p3)) => {
                            if p3 + n <= bytes.len() {
                                if cid == col {
                                    AbstractValue::Text(bytes.subrange(p3, p3 + n))
                                } else {
                                    spec_row_find(bytes, p3 + n, count - 1, col)
                                }
                            } else {
                                AbstractValue::Null
                            }
                        }
                    }
                } else {
                    AbstractValue::Null
                }
            } else {
                AbstractValue::Null
            }
        }
    }
}

/// A positive-count scan is one step and then the folded tail.
pub proof fn lemma_row_find_unfold(bytes: Seq<u8>, pos: int, count: int, col: u16)
    requires
        count > 0,
    ensures
        spec_row_find(bytes, pos, count, col) == row_find_step(bytes, pos, count, col),
{
}

/// An optional row slice as an optional byte sequence.
pub open spec fn opt_row_view(row: Option<&[u8]>) -> Option<Seq<u8>> {
    match row {
        Some(b) => Some(b@),
        None => None,
    }
}

/// Viewing commutes with push.
proof fn lemma_view_push(s: Seq<Value>, v: Value)
    ensures
        stack_view(s.push(v)) == stack_view(s).push(value_view(v)),
{
    assert(stack_view(s.push(v)) =~= stack_view(s).push(value_view(v)));
}

/// Viewing commutes with truncation.
proof fn lemma_view_take(s: Seq<Value>, n: int)
    requires
        0 <= n <= s.len(),
    ensures
        stack_view(s.take(n)) == stack_view(s).take(n),
{
    assert(stack_view(s.take(n)) =~= stack_view(s).take(n));
}

/// The constant a pool index pushes.
fn const_at(consts: &Vec<Constant>, idx: u16) -> (r: Value)
    ensures
        value_view(r) == const_value(consts@, idx),
{
    if (idx as usize) < consts.len() {
        match &consts[idx as usize] {
            Constant::Integer(i) => Value::Integer(*i),
            Constant::FloatBits(f) => Value::FloatBits(*f),
            Constant::Text(t) => Value::Text(vstd::slice::slice_to_vec(t.as_slice())),
            Constant::IntSet(_) => Value::Null,
            Constant::IntBitmap(_) => Value::Null,
        }
    } else {
        Value::Null
    }
}

/// Whether a vector of integers holds `v`.
fn contains_i64(set: &Vec<i64>, v: i64) -> (r: bool)
    ensures
        r == set@.contains(v),
{
    let mut i: usize = 0;
    while i < set.len()
        invariant
            i <= set@.len(),
            forall|k: int| 0 <= k < i ==> set@[k] != v,
        decreases set@.len() - i,
    {
        if set[i] == v {
            return true;
        }
        i = i + 1;
    }
    false
}

/// Whether the IN constant at `idx` holds `v`.
fn in_check(consts: &Vec<Constant>, idx: u16, v: i64) -> (r: bool)
    ensures
        r == in_set(consts@, idx, v),
{
    if (idx as usize) < consts.len() {
        match &consts[idx as usize] {
            Constant::IntSet(set) => contains_i64(set, v),
            Constant::IntBitmap(bytes) => {
                if 0 <= v && v <= u32::MAX as i64 {
                    crate::bitmap::bitmap_bytes_contain(bytes.as_slice(), v as u32)
                } else {
                    false
                }
            }
            _ => false,
        }
    } else {
        false
    }
}

/// One of the six comparisons, two-valued.
fn compare_op(op: Instruction, a: &Value, b: &Value) -> (r: bool)
    ensures
        r == compare_values(op, value_view(*a), value_view(*b)),
{
    match op {
        Instruction::Eq => values_equal(a, b),
        Instruction::Ne => values_comparable(a, b) && !values_equal(a, b),
        Instruction::Lt => values_less(a, b),
        Instruction::Le => values_less(a, b) || values_equal(a, b),
        Instruction::Gt => values_less(b, a),
        Instruction::Ge => values_less(b, a) || values_equal(a, b),
        _ => false,
    }
}

/// The verdict once the program has halted.
fn verdict_of(stack: &Vec<Value>) -> (r: bool)
    ensures
        r == verdict(stack_view(stack@)),
{
    if stack.len() == 0 {
        return false;
    }
    match &stack[stack.len() - 1] {
        Value::Bool(b) => *b,
        _ => false,
    }
}

/// A WHERE clause compiled to bytecode, with the columns it reads and its
/// constants pool.
#[derive(Debug)]
pub struct CompiledPredicate {
    bytecode: Vec<Instruction>,
    referenced_columns: Vec<u16>,
    constants: Vec<Constant>,
}

impl CompiledPredicate {
    /// The instruction stream.
    pub closed spec fn spec_code(self) -> Seq<Instruction> {
        self.bytecode@
    }

    /// The ordered list of columns the predicate reads.
    pub closed spec fn spec_cols(self) -> Seq<u16> {
        self.referenced_columns@
    }

    /// The constants pool.
    pub closed spec fn spec_consts(self) -> Seq<Constant> {
        self.constants@
    }

    /// What evaluating the predicate against a pair of optional rows yields.
    pub open spec fn spec_matches(
        self,
        old_row: Option<Seq<u8>>,
        new_row: Option<Seq<u8>>,
    ) -> bool {
        spec_run(self.spec_code(), self.spec_consts(), old_row, new_row, 0, Seq::empty())
    }

    /// A predicate from its parts.
    pub fn new(
        bytecode: Vec<Instruction>,
        referenced_columns: Vec<u16>,
        constants: Vec<Constant>,
    ) -> (r: Self)
        ensures
            r.spec_code() == bytecode@,
            r.spec_cols() == referenced_columns@,
            r.spec_consts() == constants@,
    {
        CompiledPredicate { bytecode, referenced_columns, constants }
    }

    /// Whether the predicate must run for a write that changed the given
    /// columns: yes when it reads no column at all, else when some changed
    /// column is one it reads.
    pub fn columns_intersect(&self, changed_columns: &[u16]) -> (r: bool)
        ensures
            r == cols_intersect(self.spec_cols(), changed_columns@),
    {
        if self.referenced_columns.len() == 0 {
            return true;
        }
        let mut i: usize = 0;
        while i < changed_columns.len()
            invariant
                i <= changed_columns@.len(),
                forall|k: int| 0 <= k < i
                    ==> !self.spec_cols().contains(#[trigger] changed_columns@[k]),
            decreases changed_columns@.len() - i,
        {
            let c = changed_columns[i];
            let mut j: usize = 0;
            while j < self.referenced_columns.len()
                invariant
                    j <= self.spec_cols().len(),
                    i < changed_columns@.len(),
                    c == changed_columns@[i as int],
                    forall|k: int| 0 <= k < j ==> self.spec_cols()[k] != c,
                decreases self.spec_cols().len() - j,
            {
                if self.referenced_columns[j] == c {
                    proof {
                        assert(self.spec_cols()[j as int] == c);
                        assert(self.spec_cols().contains(changed_columns@[i as int]));
                    }
                    return true;
                }
                j = j + 1;
            }
            assert(!self.spec_cols().contains(changed_columns@[i as int]));
            i = i + 1;
        }
        false
    }

    /// Run the bytecode against the rows and return the verdict; empty
    /// bytecode is false, and no input makes evaluation fail.
    pub fn evaluate(&self, old_row: Option<&[u8]>, new_row: Option<&[u8]>) -> (r: bool)
        ensures
            r == self.spec_matches(opt_row_view(old_row), opt_row_view(new_row)),
    {
        let ghost code = self.spec_code();
        let ghost consts = self.spec_consts();
        let ghost orow = opt_row_view(old_row);
        let ghost nrow = opt_row_view(new_row);
        let mut stack: Vec<Value> = Vec::new();
        let mut pc: usize = 0;
        proof {
            assert(stack_view(stack@) =~= Seq::<AbstractValue>::empty());
        }
        while pc < self.bytecode.len()
            invariant
                code == self.spec_code(),
                consts == self.spec_consts(),
                orow == opt_row_view(old_row),
                nrow == opt_row_view(new_row),
                pc <= code.len(),
                spec_run(code, consts, orow, nrow, pc as int, stack_view(stack@))
                    == self.spec_matches(orow, nrow),
            decreases code.len() - pc,
        {
            proof {
                lemma_run_unfold(code, consts, orow, nrow, pc as int, stack_view(stack@));
            }
            let ghost pre = stack@;
            let inst = self.bytecode[pc];
            let next = pc + 1;
            match inst {
                Instruction::PushNull => {
                    stack.push(Value::Null);
                    proof {
                        lemma_view_push(pre, Value::Null);
                    }
                    pc = next;
                }
                Instruction::PushTrue => {
                    stack.push(Value::Bool(true));
                    proof {
                        lemma_view_push(pre, Value::Bool(true));
                    }
                    pc = next;
                }
                Instruction::PushFalse => {
                    stack.push(Value::Bool(false));
                    proof {
                        lemma_view_push(pre, Value::Bool(false));
                    }
                    pc = next;
                }
                Instruction::PushConst(idx) => {
                    let v = const_at(&self.constants, idx);
                    proof {
                        lemma_view_push(pre, v);
                    }
                    stack.push(v);
                    pc = next;
                }
                Instruction::LoadColumn(c) => {
                    let v = load_column(new_row, c);
                    proof {
                        lemma_view_push(pre, v);
                    }
                    stack.push(v);
                    pc = next;
                }
                Instruction::LoadOldColumn(c) => {
                    let v = load_column(old_row, c);
                    proof {
                        lemma_view_push(pre, v);
                    }
                    stack.push(v);
                    pc = next;
                }
                Instruction::Eq | Instruction::Ne | Instruction::Lt | Instruction::Le
                    | Instruction::Gt | Instruction::Ge => {
                    let result = if stack.len() >= 2 {
                        let b = stack.pop().unwrap();
                        let a = stack.pop().unwrap();
                        proof {
                            lemma_view_take(pre, pre.len() - 2);
                            assert(pre.take(pre.len() - 1).take(pre.len() - 2)
                                =~= pre.take(pre.len() - 2));
                        }
                        compare_op(inst, &a, &b)
                    } else {
                        if stack.len() == 1 {
                            stack.pop();
                        }
                        proof {
                            assert(stack_view(stack@) =~= Seq::<AbstractValue>::empty());
                        }
                        false
                    };
                    let ghost mid = stack@;
                    stack.push(Value::Bool(result));
                    proof {
                        lemma_view_push(mid, Value::Bool(result));
                    }
                    pc = next;
                }
                Instruction::And | Instruction::Or => {
                    let result = if stack.len() >= 2 {
                        let b = stack.pop().unwrap();
                        let a = stack.pop().unwrap();
                        proof {
                            lemma_view_take(pre, pre.len() - 2);
                            assert(pre.take(pre.len() - 1).take(pre.len() - 2)
                                =~= pre.take(pre.len() - 2));
                        }
                        match (&a, &b) {
                            (Value::Bool(x), Value::Bool(y)) => {
                                if matches!(inst, Instruction::And) {
                                    *x && *y
                                } else {
                                    *x || *y
                                }
                            }
                            _ => false,
                        }
                    } else {
                        if stack.len() == 1 {
                            stack.pop();
                        }
                        proof {
                            assert(stack_view(stack@) =~= Seq::<AbstractValue>::empty());
                        }
                        false
                    };
                    let ghost mid = stack@;
                    stack.push(Value::Bool(result));
                    proof {
                        lemma_view_push(mid, Value::Bool(result));
                    }
                    pc = next;
                }
                Instruction::Not => {
                    let result = if stack.len() >= 1 {
                        let a = stack.pop().unwrap();
                        proof {
                            lemma_view_take(pre, pre.len() - 1);
                        }
                        match &a {
                            Value::Bool(x) => !*x,
                            _ => false,
                        }
                    } else {
                        proof {
                            assert(stack_view(stack@) =~= Seq::<AbstractValue>::empty());
                        }
                        false
                    };
                    let ghost mid = stack@;
                    stack.push(Value::Bool(result));
                    proof {
                        lemma_view_push(mid, Value::Bool(result));
                    }
                    pc = next;
                }
                Instruction::IsNull | Instruction::IsNotNull => {
                    if stack.len() >= 1 {
                        let a = stack.pop().unwrap();
                        proof {
                            lemma_view_take(pre, pre.len() - 1);
                        }
                        let is_null = match &a {
                            Value::Null => true,
                            _ => false,
                        };
                        let result = if matches!(inst, Instruction::IsNull) {
                            is_null
                        } else {
                            !is_null
                        };
                        let ghost mid = stack@;
                        stack.push(Value::Bool(result));
                        proof {
                            lemma_view_push(mid, Value::Bool(result));
                        }
                    }
                    pc = next;
                }
                Instruction::In(idx) => {
                    if stack.len() >= 1 {
                        let a = stack.pop().unwrap();
                        proof {
                            lemma_view_take(pre, pre.len() - 1);
                        }
                        let result = match &a {
                            Value::Integer(v) => in_check(&self.constants, idx, *v),
                            _ => false,
                        };
                        let ghost mid = stack@;
                        stack.push(Value::Bool(result));
                        proof {
                            lemma_view_push(mid, Value::Bool(result));
                        }
                    }
                    pc = next;
                }
                Instruction::Between => {
                    let result = if stack.len() >= 3 {
                        let high = stack.pop().unwrap();
                        let low = stack.pop().unwrap();
                        let v = stack.pop().unwrap();
                        proof {
                            lemma_view_take(pre, pre.len() - 3);
                            assert(pre.take(pre.len() - 1).take(pre.len() - 2)
                                =~= pre.take(pre.len() - 2));
                            assert(pre.take(pre.len() - 2).take(pre.len() - 3)
                                =~= pre.take(pre.len() - 3));
                        }
                        !values_less(&v, &low) && !values_less(&high, &v)
                    } else {
                        stack.clear();
                        proof {
                            assert(stack_view(stack@) =~= Seq::<AbstractValue>::empty());
                        }
                        false
                    };
                    let ghost mid = stack@;
                    stack.push(Value::Bool(result));
                    proof {
                        lemma_view_push(mid, Value::Bool(result));
                    }
                    pc = next;
                }
                Instruction::LikePrefix(idx) => {
                    if stack.len() >= 1 {
                        let a = stack.pop().unwrap();
                        proof {
                            lemma_view_take(pre, pre.len() - 1);
                        }
                        let result = match &a {
                            Value::Text(t) => {
                                if (idx as usize) < self.constants.len() {
                                    match &self.constants[idx as usize] {
                                        Constant::Text(prefix) => bytes_starts_with(t, prefix),
                                        _ => false,
                                    }
                                } else {
                                    false
                                }
                            }
                            _ => false,
                        };
                        let ghost mid = stack@;
                        stack.push(Value::Bool(result));
                        proof {
                            lemma_view_push(mid, Value::Bool(result));
                        }
                    } else {
                        let ghost mid = stack@;
                        proof {
                            assert(stack_view(mid) =~= Seq::<AbstractValue>::empty());
                        }
                        stack.push(Value::Bool(false));
                        proof {
                            lemma_view_push(mid, Value::Bool(false));
                        }
                    }
                    pc = next;
                }
                Instruction::JumpIfFalse(offset) => {
                    let jump = if stack.len() >= 1 {
                        let top_false = match &stack[stack.len() - 1] {
                            Value::Bool(b) => !*b,
                            _ => false,
                        };
                        stack.pop();
                        proof {
                            lemma_view_take(pre, pre.len() - 1);
                        }
                        top_false
                    } else {
                        proof {
                            assert(stack_view(stack@) =~= Seq::<AbstractValue>::empty());
                        }
                        false
                    };
                    if jump {
                        if (offset as usize) <= self.bytecode.len() - next {
                            pc = next + offset as usize;
                        } else {
                            proof {
                                lemma_run_done(code, consts, orow, nrow,
                                    next + offset as int, stack_view(stack@));
                                lemma_run_done(code, consts, orow, nrow,
                                    code.len() as int, stack_view(stack@));
                            }
                            pc = self.bytecode.len();
                        }
                    } else {
                        pc = next;
                    }
                }
                Instruction::Jump(offset) => {
                    if (offset as usize) <= self.bytecode.len() - next {
                        pc = next + offset as usize;
                    } else {
                        proof {
                            lemma_run_done(code, consts, orow, nrow,
                                next + offset as int, stack_view(stack@));
                            lemma_run_done(code, consts, orow, nrow,
                                code.len() as int, stack_view(stack@));
                        }
                        pc = self.bytecode.len();
                    }
                }
                Instruction::Return => {
                    return verdict_of(&stack);
                }
            }
        }
        verdict_of(&stack)
    }
}

impl Default for CompiledPredicate {
    /// The never-matching predicate: empty bytecode evaluates to false.
    fn default() -> (r: Self)
        ensures
            r.spec_code() == Seq::<Instruction>::empty(),
            r.spec_cols() == Seq::<u16>::empty(),
            r.spec_consts() == Seq::<Constant>::empty(),
            forall|o: Option<Seq<u8>>, n: Option<Seq<u8>>| !#[trigger] r.spec_matches(o, n),
    {
        let r = CompiledPredicate {
            bytecode: Vec::new(),
            referenced_columns: Vec::new(),
            constants: Vec::new(),
        };
        proof {
            assert forall|o: Option<Seq<u8>>, n: Option<Seq<u8>>|
                !#[trigger] r.spec_matches(o, n) by {
                assert(!verdict(Seq::empty()));
            }
        }
        r
    }
}


/// A constants-pool entry at the specification level.
pub enum AbstractConstant {
    /// A 64-bit signed integer.
    Integer(i64),
    /// A 64-bit float, as bits.
    FloatBits(u64),
    /// A UTF-8 string, as bytes.
    Text(Seq<u8>),
    /// A small integer set.
    IntSet(Seq<i64>),
    /// A serialized compressed bitmap.
    IntBitmap(Seq<u8>),
}

/// What a pool entry stands for.
pub open spec fn const_view(c: Constant) -> AbstractConstant {
    match c {
        Constant::Integer(i) => AbstractConstant::Integer(i),
        Constant::FloatBits(f) => AbstractConstant::FloatBits(f),
        Constant::Text(t) => AbstractConstant::Text(t@),
        Constant::IntSet(v) => AbstractConstant::IntSet(v@),
        Constant::IntBitmap(b) => AbstractConstant::IntBitmap(b@),
    }
}

/// A whole pool, viewed entry by entry.
pub open spec fn consts_view(s: Seq<Constant>) -> Seq<AbstractConstant> {
    s.map_values(|c: Constant| const_view(c))
}

/// The wire form of one instruction: an opcode byte, then a 16-bit operand
/// where the instruction carries one.
pub open spec fn enc_inst(i: Instruction) -> Seq<u8> {
    match i {
        Instruction::PushNull => seq![0u8],
        Instruction::PushTrue => seq![1u8],
        Instruction::PushFalse => seq![2u8],
        Instruction::PushConst(x) => seq![3u8] + le16(x),
        Instruction::LoadColumn(x) => seq![4u8] + le16(x),
        Instruction::LoadOldColumn(x) => seq![5u8] + le16(x),
        Instruction::Eq => seq![6u8],
        Instruction::Ne => seq![7u8],
        Instruction::Lt => seq![8u8],
        Instruction::Le => seq![9u8],
        Instruction::Gt => seq![10u8],
        Instruction::Ge => seq![11u8],
        Instruction::And => seq![12u8],
        Instruction::Or => seq![13u8],
        Instruction::Not => seq![14u8],
        Instruction::IsNull => seq![15u8],
        Instruction::IsNotNull => seq![16u8],
        Instruction::In(x) => seq![17u8] + le16(x),
        Instruction::Between => seq![18u8],
        Instruction::LikePrefix(x) => seq![19u8] + le16(x),
        Instruction::JumpIfFalse(x) => seq![20u8] + le16(x),
        Instruction::Jump(x) => seq![21u8] + le16(x),
        Instruction::Return => seq![22u8],
    }
}

/// The wire form of an instruction stream.
pub open spec fn enc_code(code: Seq<Instruction>) -> Seq<u8>
    decreases code.len(),
{
    if code.len() == 0 {
        Seq::empty()
    } else {
        enc_inst(code.first()) + enc_code(code.drop_first())
    }
}

/// The wire form of the referenced-columns list.
pub open spec fn enc_cols(cols: Seq<u16>) -> Seq<u8>
    decreases cols.len(),
{
    if cols.len() == 0 {
        Seq::empty()
    } else {
        le16(cols.first()) + enc_cols(cols.drop_first())
    }
}

/// The wire form of a run of 64-bit integers.
pub open spec fn enc_i64s(vals: Seq<i64>) -> Seq<u8>
    decreases vals.len(),
{
    if vals.len() == 0 {
        Seq::empty()
    } else {
        le64(vals.first() as u64) + enc_i64s(vals.drop_first())
    }
}

/// The wire form of one pool entry: a tag byte, then the payload.
pub open spec fn enc_const(c: Constant) -> Seq<u8> {
    match c {
        Constant::Integer(i) => seq![1u8] + le64(i as u64),
        Constant::FloatBits(f) => seq![2u8] + le64(f),
        Constant::Text(t) => seq![3u8] + le16(t@.len() as u16) + t@,
        Constant::IntSet(v) => seq![4u8] + le16(v@.len() as u16) + enc_i64s(v@),
        Constant::IntBitmap(b) => seq![5u8] + le16(b@.len() as u16) + b@,
    }
}

/// The wire form of the constants pool.
pub open spec fn enc_consts(consts: Seq<Constant>) -> Seq<u8>
    decreases consts.len(),
{
    if consts.len() == 0 {
        Seq::empty()
    } else {
        enc_const(consts.first()) + enc_consts(consts.drop_first())
    }
}

/// The wire form of a whole predicate: a version byte, then each section
/// behind a 16-bit count.
pub open spec fn enc_predicate(
    code: Seq<Instruction>,
    cols: Seq<u16>,
    consts: Seq<Constant>,
) -> Seq<u8> {
    seq![1u8] + le16(code.len() as u16) + enc_code(code) + le16(cols.len() as u16)
        + enc_cols(cols) + le16(consts.len() as u16) + enc_consts(consts)
}

/// Whether one pool entry fits the wire format's 16-bit length fields.
pub open spec fn const_fits(c: Constant) -> bool {
    match c {
        Constant::Integer(_) => true,
        Constant::FloatBits(_) => true,
        Constant::Text(t) => t@.len() <= 65535,
        Constant::IntSet(v) => v@.len() <= 65535,
        Constant::IntBitmap(b) => b@.len() <= 65535,
    }
}

/// Appending an instruction extends the wire form at its end.
proof fn lemma_enc_code_push(code: Seq<Instruction>, i: Instruction)
    ensures
        enc_code(code.push(i)) == enc_code(code) + enc_inst(i),
    decreases code.len(),
{
    if code.len() == 0 {
        assert(code.push(i).drop_first() =~= code);
        assert(code.push(i).first() == i);
        assert(enc_code(code.push(i)) =~= enc_code(code) + enc_inst(i));
    } else {
        assert(code.push(i).first() == code.first());
        assert(code.push(i).drop_first() =~= code.drop_first().push(i));
        lemma_enc_code_push(code.drop_first(), i);
        assert(enc_code(code.push(i)) =~= enc_code(code) + enc_inst(i));
    }
}

/// Appending a column id extends the wire form at its end.
proof fn lemma_enc_cols_push(cols: Seq<u16>, c: u16)
    ensures
        enc_cols(cols.push(c)) == enc_cols(cols) + le16(c),
    decreases cols.len(),
{
    if cols.len() == 0 {
        assert(cols.push(c).drop_first() =~= cols);
        assert(cols.push(c).first() == c);
        assert(enc_cols(cols.push(c)) =~= enc_cols(cols) + le16(c));
    } else {
        assert(cols.push(c).first() == cols.first());
        assert(cols.push(c).drop_first() =~= cols.drop_first().push(c));
        lemma_enc_cols_push(cols.drop_first(), c);
        assert(enc_cols(cols.push(c)) =~= enc_cols(cols) + le16(c));
    }
}

/// Appending an integer extends the wire form at its end.
proof fn lemma_enc_i64s_push(vals: Seq<i64>, v: i64)
    ensures
        enc_i64s(vals.push(v)) == enc_i64s(vals) + le64(v as u64),
    decreases vals.len(),
{
    if vals.len() == 0 {
        assert(vals.push(v).drop_first() =~= vals);
        assert(vals.push(v).first() == v);
        assert(enc_i64s(vals.push(v)) =~= enc_i64s(vals) + le64(v as u64));
    } else {
        assert(vals.push(v).first() == vals.first());
        assert(vals.push(v).drop_first() =~= vals.drop_first().push(v));
        lemma_enc_i64s_push(vals.drop_first(), v);
        assert(enc_i64s(vals.push(v)) =~= enc_i64s(vals) + le64(v as u64));
    }
}

/// Appending a pool entry extends the wire form at its end.
proof fn lemma_enc_consts_push(consts: Seq<Constant>, c: Constant)
    ensures
        enc_consts(consts.push(c)) == enc_consts(consts) + enc_const(c),
    decreases consts.len(),
{
    if consts.len() == 0 {
        assert(consts.push(c).drop_first() =~= consts);
        assert(consts.push(c).first() == c);
        assert(enc_consts(consts.push(c)) =~= enc_consts(consts) + enc_const(c));
    } else {
        assert(consts.push(c).first() == consts.first());
        assert(consts.push(c).drop_first() =~= consts.drop_first().push(c));
        lemma_enc_consts_push(consts.drop_first(), c);
        assert(enc_consts(consts.push(c)) =~= enc_consts(consts) + enc_const(c));
    }
}

/// Write one instruction.
fn put_inst(buf: &mut Vec<u8>, i: Instruction)
    ensures
        final(buf)@ == old(buf)@ + enc_inst(i),
{
    let ghost b0 = buf@;
    match i {
        Instruction::PushNull => buf.push(0),
        Instruction::PushTrue => buf.push(1),
        Instruction::PushFalse => buf.push(2),
        Instruction::PushConst(x) => {
            buf.push(3);
            put_u16(buf, x);
        }
        Instruction::LoadColumn(x) => {
            buf.push(4);
            put_u16(buf, x);
        }
        Instruction::LoadOldColumn(x) => {
            buf.push(5);
            put_u16(buf, x);
        }
        Instruction::Eq => buf.push(6),
        Instruction::Ne => buf.push(7),
        Instruction::Lt => buf.push(8),
        Instruction::Le => buf.push(9),
        Instruction::Gt => buf.push(10),
        Instruction::Ge => buf.push(11),
        Instruction::And => buf.push(12),
        Instruction::Or => buf.push(13),
        Instruction::Not => buf.push(14),
        Instruction::IsNull => buf.push(15),
        Instruction::IsNotNull => buf.push(16),
        Instruction::In(x) => {
            buf.push(17);
            put_u16(buf, x);
        }
        Instruction::Between => buf.push(18),
        Instruction::LikePrefix(x) => {
            buf.push(19);
            put_u16(buf, x);
        }
        Instruction::JumpIfFalse(x) => {
            buf.push(20);
            put_u16(buf, x);
        }
        Instruction::Jump(x) => {
            buf.push(21);
            put_u16(buf, x);
        }
        Instruction::Return => buf.push(22),
    }
    proof {
        assert(buf@ =~= b0 + enc_inst(i));
    }
}

/// Write one pool entry.
fn put_const(buf: &mut Vec<u8>, c: &Constant)
    requires
        const_fits(*c),
    ensures
        final(buf)@ == old(buf)@ + enc_const(*c),
{
    let ghost b0 = buf@;
    match c {
        Constant::Integer(i) => {
            buf.push(1);
            put_u64(buf, #[verifier::truncate] (*i as u64));
        }
        Constant::FloatBits(f) => {
            buf.push(2);
            put_u64(buf, *f);
        }
        Constant::Text(t) => {
            buf.push(3);
            put_u16(buf, t.len() as u16);
            put_bytes(buf, t);
        }
        Constant::IntSet(v) => {
            buf.push(4);
            put_u16(buf, v.len() as u16);
            let mut i: usize = 0;
            while i < v.len()
                invariant
                    i <= v@.len(),
                    buf@ == b0 + seq![4u8] + le16(v@.len() as u16)
                        + enc_i64s(v@.subrange(0, i as int)),
                decreases v@.len() - i,
            {
                put_u64(buf, #[verifier::truncate] (v[i] as u64));
                proof {
                    lemma_enc_i64s_push(v@.subrange(0, i as int), v@[i as int]);
                    assert(v@.subrange(0, i + 1)
                        =~= v@.subrange(0, i as int).push(v@[i as int]));
                    assert(buf@ =~= b0 + seq![4u8] + le16(v@.len() as u16)
                        + enc_i64s(v@.subrange(0, i + 1)));
                }
                i = i + 1;
            }
            proof {
                assert(v@.subrange(0, v@.len() as int) =~= v@);
            }
        }
        Constant::IntBitmap(b) => {
            buf.push(5);
            put_u16(buf, b.len() as u16);
            put_bytes(buf, b);
        }
    }
    proof {
        assert(buf@ =~= b0 + enc_const(*c));
    }
}

/// Decode one instruction: an opcode byte and, for some opcodes, a 16-bit
/// operand. Unknown opcodes fail.
pub open spec fn dec_inst(bytes: Seq<u8>, pos: int) -> Option<(Instruction, int)> {
    if 0 <= pos < bytes.len() {
        let op = bytes[pos];
        if op == 0 {
            Some((Instruction::PushNull, pos + 1))
        } else if op == 1 {
            Some((Instruction::PushTrue, pos + 1))
        } else if op == 2 {
            Some((Instruction::PushFalse, pos + 1))
        } else if op == 3 || op == 4 || op == 5 || op == 17 || op == 19 || op == 20 || op == 21 {
            match spec_parse_u16(bytes, pos + 1) {
                Some((x, p)) => {
                    if op == 3 {
                        Some((Instruction::PushConst(x), p))
                    } else if op == 4 {
                        Some((Instruction::LoadColumn(x), p))
                    } else if op == 5 {
                        Some((Instruction::LoadOldColumn(x), p))
                    } else if op == 17 {
                        Some((Instruction::In(x), p))
                    } else if op == 19 {
                        Some((Instruction::LikePrefix(x), p))
                    } else if op == 20 {
                        Some((Instruction::JumpIfFalse(x), p))
                    } else {
                        Some((Instruction::Jump(x), p))
                    }
                }
                None => None,
            }
        } else if op == 6 {
            Some((Instruction::Eq, pos + 1))
        } else if op == 7 {
            Some((Instruction::Ne, pos + 1))
        } else if op == 8 {
            Some((Instruction::Lt, pos + 1))
        } else if op == 9 {
            Some((Instruction::Le, pos + 1))
        } else if op == 10 {
            Some((Instruction::Gt, pos + 1))
        } else if op == 11 {
            Some((Instruction::Ge, pos + 1))
        } else if op == 12 {
            Some((Instruction::And, pos + 1))
        } else if op == 13 {
            Some((Instruction::Or, pos + 1))
        } else if op == 14 {
            Some((Instruction::Not, pos + 1))
        } else if op == 15 {
            Some((Instruction::IsNull, pos + 1))
        } else if op == 16 {
            Some((Instruction::IsNotNull, pos + 1))
        } else if op == 18 {
            Some((Instruction::Between, pos + 1))
        } else if op == 22 {
            Some((Instruction::Return, pos + 1))
        } else {
            None
        }
    } else {
        None
    }
}

/// Decode `n` instructions in a row.
pub open spec fn dec_insts(bytes: Seq<u8>, pos: int, n: int) -> Option<(Seq<Instruction>, int)>
    decreases n,
{
    if n <= 0 {
        Some((Seq::empty(), pos))
    } else {
        match dec_inst(bytes, pos) {
            Some((i, p)) => match dec_insts(bytes, p, n - 1) {
                Some((rest, end)) => Some((seq![i] + rest, end)),
                None => None,
            },
            None => None,
        }
    }
}

/// Decode `n` 16-bit column ids.
pub open spec fn dec_cols(bytes: Seq<u8>, pos: int, n: int) -> Option<(Seq<u16>, int)>
    decreases n,
{
    if n <= 0 {
        Some((Seq::empty(), pos))
    } else {
        match spec_parse_u16(bytes, pos) {
            Some((c, p)) => match dec_cols(bytes, p, n - 1) {
                Some((rest, end)) => Some((seq![c] + rest, end)),
                None => None,
            },
            None => None,
        }
    }
}

/// Decode `n` 64-bit signed integers.
pub open spec fn dec_i64s(bytes: Seq<u8>, pos: int, n: int) -> Option<(Seq<i64>, int)>
    decreases n,
{
    if n <= 0 {
        Some((Seq::empty(), pos))
    } else {
        match spec_parse_u64(bytes, pos) {
            Some((u, p)) => match dec_i64s(bytes, p, n - 1) {
                Some((rest, end)) => Some((seq![u as i64] + rest, end)),
                None => None,
            },
            None => None,
        }
    }
}

/// Decode one pool entry: a tag byte and its payload. Unknown tags fail.
pub open spec fn dec_const(bytes: Seq<u8>, pos: int) -> Option<(AbstractConstant, int)> {
    if 0 <= pos < bytes.len() {
        let tag = bytes[pos];
        let p1 = pos + 1;
        if tag == 1 {
            match spec_parse_u64(bytes, p1) {
                Some((u, p)) => Some((AbstractConstant::Integer(u as i64), p)),
                None => None,
            }
        } else if tag == 2 {
            match spec_parse_u64(bytes, p1) {
                Some((u, p)) => Some((AbstractConstant::FloatBits(u), p)),
                None => None,
            }
        } else if tag == 3 || tag == 5 {
            match spec_parse_u16(bytes, p1) {
                Some((n, p)) => {
                    if p + n <= bytes.len() {
                        if tag == 3 {
                            Some((AbstractConstant::Text(bytes.subrange(p, p + n)), p + n))
                        } else {
                            Some((AbstractConstant::IntBitmap(bytes.subrange(p, p + n)), p + n))
                        }
                    } else {
                        None
                    }
                }
                None => None,
            }
        } else if tag == 4 {
            match spec_parse_u16(bytes, p1) {
                Some((n, p)) => match dec_i64s(bytes, p, n as int) {
                    Some((vals, end)) => Some((AbstractConstant::IntSet(vals), end)),
                    None => None,
                },
                None => None,
            }
        } else {
            None
        }
    } else {
        None
    }
}

/// Decode `n` pool entries in a row.
pub open spec fn dec_consts(bytes: Seq<u8>, pos: int, n: int) -> Option<(Seq<AbstractConstant>, int)>
    decreases n,
{
    if n <= 0 {
        Some((Seq::empty(), pos))
    } else {
        match dec_const(bytes, pos) {
            Some((c, p)) => match dec_consts(bytes, p, n - 1) {
                Some((rest, end)) => Some((seq![c] + rest, end)),
                None => None,
            },
            None => None,
        }
    }
}

/// Decode a whole predicate: version byte, then each section behind its
/// count, consuming the input exactly.
pub open spec fn spec_dec_predicate(
    bytes: Seq<u8>,
) -> Option<(Seq<Instruction>, Seq<u16>, Seq<AbstractConstant>)> {
    if bytes.len() >= 1 && bytes[0] == 1 {
        match spec_parse_u16(bytes, 1) {
            Some((n_code, p0)) => match dec_insts(bytes, p0, n_code as int) {
                Some((code, p1)) => match spec_parse_u16(bytes, p1) {
                    Some((n_cols, p2)) => match dec_cols(bytes, p2, n_cols as int) {
                        Some((cols, p3)) => match spec_parse_u16(bytes, p3) {
                            Some((n_consts, p4)) => match dec_consts(bytes, p4, n_consts as int) {
                                Some((consts, p5)) => {
                                    if p5 == bytes.len() {
                                        Some((code, cols, consts))
                                    } else {
                                        None
                                    }
                                }
                                None => None,
                            },
                            None => None,
                        },
                        None => None,
                    },
                    None => None,
                },
                None => None,
            },
            None => None,
        }
    } else {
        None
    }
}

/// One step of [`dec_insts`]: the head instruction, then the folded tail.
pub open spec fn dec_insts_step(bytes: Seq<u8>, pos: int, n: int) -> Option<(Seq<Instruction>, int)> {
    match dec_inst(bytes, pos) {
        Some((i, p)) => match dec_insts(bytes, p, n - 1) {
            Some((rest, end)) => Some((seq![i] + rest, end)),
            None => None,
        },
        None => None,
    }
}

/// A positive count decodes as one instruction and the folded tail.
proof fn lemma_dec_insts_unfold(bytes: Seq<u8>, pos: int, n: int)
    requires
        n > 0,
    ensures
        dec_insts(bytes, pos, n) == dec_insts_step(bytes, pos, n),
{
}

/// One step of [`dec_cols`]: the head column id, then the folded tail.
pub open spec fn dec_cols_step(bytes: Seq<u8>, pos: int, n: int) -> Option<(Seq<u16>, int)> {
    match spec_parse_u16(bytes, pos) {
        Some((c, p)) => match dec_cols(bytes, p, n - 1) {
            Some((rest, end)) => Some((seq![c] + rest, end)),
            None => None,
        },
        None => None,
    }
}

/// A positive count decodes as one column id and the folded tail.
proof fn lemma_dec_cols_unfold(bytes: Seq<u8>, pos: int, n: int)
    requires
        n > 0,
    ensures
        dec_cols(bytes, pos, n) == dec_cols_step(bytes, pos, n),
{
}

/// One step of [`dec_i64s`]: the head integer, then the folded tail.
pub open spec fn dec_i64s_step(bytes: Seq<u8>, pos: int, n: int) -> Option<(Seq<i64>, int)> {
    match spec_parse_u64(bytes, pos) {
        Some((u, p)) => match dec_i64s(bytes, p, n - 1) {
            Some((rest, end)) => Some((seq![u as i64] + rest, end)),
            None => None,
        },
        None => None,
    }
}

/// A positive count decodes as one integer and the folded tail.
proof fn lemma_dec_i64s_unfold(bytes: Seq<u8>, pos: int, n: int)
    requires
        n > 0,
    ensures
        dec_i64s(bytes, pos, n) == dec_i64s_step(bytes, pos, n),
{
}

/// One step of [`dec_consts`]: the head entry, then the folded tail.
pub open spec fn dec_consts_step(bytes: Seq<u8>, pos: int, n: int) -> Option<(Seq<AbstractConstant>, int)> {
    match dec_const(bytes, pos) {
        Some((c, p)) => match dec_consts(bytes, p, n - 1) {
            Some((rest, end)) => Some((seq![c] + rest, end)),
            None => None,
        },
        None => None,
    }
}

/// A positive count decodes as one entry and the folded tail.
proof fn lemma_dec_consts_unfold(bytes: Seq<u8>, pos: int, n: int)
    requires
        n > 0,
    ensures
        dec_consts(bytes, pos, n) == dec_consts_step(bytes, pos, n),
{
}


/// Read one instruction.
fn read_inst(bytes: &[u8], pos: usize) -> (r: Option<(Instruction, usize)>)
    ensures
        match r {
            Some((i, p)) => dec_inst(bytes@, pos as int) == Some((i, p as int)),
            None => dec_inst(bytes@, pos as int) is None,
        },
{
    let (op, p1) = match parse_u8(bytes, pos) {
        Some(t) => t,
        None => {
            return None;
        }
    };
    if op == 0 {
        Some((Instruction::PushNull, p1))
    } else if op == 1 {
        Some((Instruction::PushTrue, p1))
    } else if op == 2 {
        Some((Instruction::PushFalse, p1))
    } else if op == 3 || op == 4 || op == 5 || op == 17 || op == 19 || op == 20 || op == 21 {
        let (x, p2) = match parse_u16(bytes, p1) {
            Some(t) => t,
            None => {
                return None;
            }
        };
        if op == 3 {
            Some((Instruction::PushConst(x), p2))
        } else if op == 4 {
            Some((Instruction::LoadColumn(x), p2))
        } else if op == 5 {
            Some((Instruction::LoadOldColumn(x), p2))
        } else if op == 17 {
            Some((Instruction::In(x), p2))
        } else if op == 19 {
            Some((Instruction::LikePrefix(x), p2))
        } else if op == 20 {
            Some((Instruction::JumpIfFalse(x), p2))
        } else {
            Some((Instruction::Jump(x), p2))
        }
    } else if op == 6 {
        Some((Instruction::Eq, p1))
    } else if op == 7 {
        Some((Instruction::Ne, p1))
    } else if op == 8 {
        Some((Instruction::Lt, p1))
    } else if op == 9 {
        Some((Instruction::Le, p1))
    } else if op == 10 {
        Some((Instruction::Gt, p1))
    } else if op == 11 {
        Some((Instruction::Ge, p1))
    } else if op == 12 {
        Some((Instruction::And, p1))
    } else if op == 13 {
        Some((Instruction::Or, p1))
    } else if op == 14 {
        Some((Instruction::Not, p1))
    } else if op == 15 {
        Some((Instruction::IsNull, p1))
    } else if op == 16 {
        Some((Instruction::IsNotNull, p1))
    } else if op == 18 {
        Some((Instruction::Between, p1))
    } else if op == 22 {
        Some((Instruction::Return, p1))
    } else {
        None
    }
}

/// Read `n` instructions.
fn read_insts(bytes: &[u8], start: usize, n: u16) -> (r: Option<(Vec<Instruction>, usize)>)
    ensures
        match r {
            Some((v, end)) => dec_insts(bytes@, start as int, n as int)
                == Some((v@, end as int)),
            None => dec_insts(bytes@, start as int, n as int) is None,
        },
{
    let mut acc: Vec<Instruction> = Vec::new();
    let mut pos: usize = start;
    let mut i: u16 = 0;
    while i < n
        invariant
            i <= n,
            dec_insts(bytes@, start as int, n as int) == (match dec_insts(
                bytes@,
                pos as int,
                (n - i) as int,
            ) {
                Some((rest, end)) => Some((acc@ + rest, end)),
                None => None::<(Seq<Instruction>, int)>,
            }),
        decreases n - i,
    {
        proof {
            lemma_dec_insts_unfold(bytes@, pos as int, (n - i) as int);
        }
        let ghost tail = dec_insts(bytes@, pos as int, (n - i) as int);
        match read_inst(bytes, pos) {
            Some((item, p)) => {
                let ghost pre = acc@;
                acc.push(item);
                proof {
                    let after = dec_insts(bytes@, p as int, (n - i - 1) as int);
                    if after is Some {
                        assert(acc@ + after.unwrap().0 =~= pre + (seq![item] + after.unwrap().0));
                    }
                }
                pos = p;
                i = i + 1;
            }
            None => {
                return None;
            }
        }
    }
    proof {
        assert(acc@ + Seq::<Instruction>::empty() =~= acc@);
    }
    Some((acc, pos))
}

/// Read `n` column ids.
fn read_cols(bytes: &[u8], start: usize, n: u16) -> (r: Option<(Vec<u16>, usize)>)
    ensures
        match r {
            Some((v, end)) => dec_cols(bytes@, start as int, n as int)
                == Some((v@, end as int)),
            None => dec_cols(bytes@, start as int, n as int) is None,
        },
{
    let mut acc: Vec<u16> = Vec::new();
    let mut pos: usize = start;
    let mut i: u16 = 0;
    while i < n
        invariant
            i <= n,
            dec_cols(bytes@, start as int, n as int) == (match dec_cols(
                bytes@,
                pos as int,
                (n - i) as int,
            ) {
                Some((rest, end)) => Some((acc@ + rest, end)),
                None => None::<(Seq<u16>, int)>,
            }),
        decreases n - i,
    {
        proof {
            lemma_dec_cols_unfold(bytes@, pos as int, (n - i) as int);
        }
        match parse_u16(bytes, pos) {
            Some((c, p)) => {
                let ghost pre = acc@;
                acc.push(c);
                proof {
                    let after = dec_cols(bytes@, p as int, (n - i - 1) as int);
                    if after is Some {
                        assert(acc@ + after.unwrap().0 =~= pre + (seq![c] + after.unwrap().0));
                    }
                }
                pos = p;
                i = i + 1;
            }
            None => {
                return None;
            }
        }
    }
    proof {
        assert(acc@ + Seq::<u16>::empty() =~= acc@);
    }
    Some((acc, pos))
}

/// Read one pool entry.
fn read_const(bytes: &[u8], pos: usize) -> (r: Option<(Constant, usize)>)
    ensures
        match r {
            Some((c, p)) => dec_const(bytes@, pos as int) == Some((const_view(c), p as int))
                && const_fits(c),
            None => dec_const(bytes@, pos as int) is None,
        },
{
    let (tag, p1) = match parse_u8(bytes, pos) {
        Some(t) => t,
        None => {
            return None;
        }
    };
    if tag == 1 || tag == 2 {
        let (u, p) = match parse_u64(bytes, p1) {
            Some(t) => t,
            None => {
                return None;
            }
        };
        if tag == 1 {
            Some((Constant::Integer(#[verifier::truncate] (u as i64)), p))
        } else {
            Some((Constant::FloatBits(u), p))
        }
    } else if tag == 3 || tag == 5 {
        let (n, p) = match parse_u16(bytes, p1) {
            Some(t) => t,
            None => {
                return None;
            }
        };
        let (payload, end) = match parse_bytes(bytes, p, n as usize) {
            Some(t) => t,
            None => {
                return None;
            }
        };
        if tag == 3 {
            Some((Constant::Text(payload), end))
        } else {
            Some((Constant::IntBitmap(payload), end))
        }
    } else if tag == 4 {
        let (n, p0) = match parse_u16(bytes, p1) {
            Some(t) => t,
            None => {
                return None;
            }
        };
        match read_i64s(bytes, p0, n) {
            Some((vals, end)) => Some((Constant::IntSet(vals), end)),
            None => None,
        }
    } else {
        None
    }
}

/// Read `n` 64-bit signed integers.
fn read_i64s(bytes: &[u8], start: usize, n: u16) -> (r: Option<(Vec<i64>, usize)>)
    ensures
        match r {
            Some((v, end)) => dec_i64s(bytes@, start as int, n as int)
                == Some((v@, end as int)) && v@.len() == n,
            None => dec_i64s(bytes@, start as int, n as int) is None,
        },
{
    let mut vals: Vec<i64> = Vec::new();
    let mut pos: usize = start;
    let mut i: u16 = 0;
    while i < n
        invariant
            i <= n,
            vals@.len() == i,
            dec_i64s(bytes@, start as int, n as int) == (match dec_i64s(
                bytes@,
                pos as int,
                (n - i) as int,
            ) {
                Some((rest, end)) => Some((vals@ + rest, end)),
                None => None::<(Seq<i64>, int)>,
            }),
        decreases n - i,
    {
        proof {
            lemma_dec_i64s_unfold(bytes@, pos as int, (n - i) as int);
        }
        match parse_u64(bytes, pos) {
            Some((u, p2)) => {
                let ghost pre = vals@;
                vals.push(#[verifier::truncate] (u as i64));
                proof {
                    let after = dec_i64s(bytes@, p2 as int, (n - i - 1) as int);
                    if after is Some {
                        assert(vals@ + after.unwrap().0
                            =~= pre + (seq![(u as i64)] + after.unwrap().0));
                    }
                }
                pos = p2;
                i = i + 1;
            }
            None => {
                return None;
            }
        }
    }
    proof {
        assert(vals@ + Seq::<i64>::empty() =~= vals@);
    }
    Some((vals, pos))
}

/// Every entry fits the wire format's 16-bit length fields.
pub open spec fn fits_all(s: Seq<Constant>) -> bool {
    forall|k: int| 0 <= k < s.len() ==> const_fits(#[trigger] s[k])
}

/// Read `n` pool entries.
fn read_consts(bytes: &[u8], start: usize, n: u16) -> (r: Option<(Vec<Constant>, usize)>)
    ensures
        match r {
            Some((v, end)) => fits_all(v@) && dec_consts(bytes@, start as int, n as int)
                == Some((consts_view(v@), end as int)),
            None => dec_consts(bytes@, start as int, n as int) is None,
        },
{
    let mut acc: Vec<Constant> = Vec::new();
    let mut pos: usize = start;
    let mut i: u16 = 0;
    proof {
        assert(consts_view(acc@) =~= Seq::<AbstractConstant>::empty());
    }
    while i < n
        invariant
            i <= n,
            fits_all(acc@),
            dec_consts(bytes@, start as int, n as int) == (match dec_consts(
                bytes@,
                pos as int,
                (n - i) as int,
            ) {
                Some((rest, end)) => Some((consts_view(acc@) + rest, end)),
                None => None::<(Seq<AbstractConstant>, int)>,
            }),
        decreases n - i,
    {
        proof {
            lemma_dec_consts_unfold(bytes@, pos as int, (n - i) as int);
        }
        match read_const(bytes, pos) {
            Some((item, p)) => {
                let ghost pre = acc@;
                acc.push(item);
                proof {
                    assert(consts_view(acc@) =~= consts_view(pre).push(const_view(item)));
                    let after = dec_consts(bytes@, p as int, (n - i - 1) as int);
                    if after is Some {
                        assert(consts_view(acc@) + after.unwrap().0
                            =~= consts_view(pre) + (seq![const_view(item)] + after.unwrap().0));
                    }
                }
                pos = p;
                i = i + 1;
            }
            None => {
                return None;
            }
        }
    }
    proof {
        assert(consts_view(acc@) + Seq::<AbstractConstant>::empty() =~= consts_view(acc@));
    }
    Some((acc, pos))
}

impl CompiledPredicate {
    /// Whether every section fits the wire format's 16-bit count fields.
    pub open spec fn wf_wire(self) -> bool {
        &&& self.spec_code().len() <= 65535
        &&& self.spec_cols().len() <= 65535
        &&& self.spec_consts().len() <= 65535
        &&& fits_all(self.spec_consts())
    }

    /// Serialize to the stable binary format: a version byte, then the
    /// bytecode, referenced columns and constants pool, each behind a
    /// 16-bit count.
    pub fn serialize(&self) -> (r: Vec<u8>)
        requires
            self.wf_wire(),
        ensures
            r@ == enc_predicate(self.spec_code(), self.spec_cols(), self.spec_consts()),
    {
        let mut buf: Vec<u8> = Vec::new();
        buf.push(1);
        put_u16(&mut buf, self.bytecode.len() as u16);
        let ghost h0 = buf@;
        let mut i: usize = 0;
        while i < self.bytecode.len()
            invariant
                i <= self.spec_code().len(),
                h0 == buf0_spec(*self),
                buf@ == h0 + enc_code(self.spec_code().subrange(0, i as int)),
            decreases self.spec_code().len() - i,
        {
            put_inst(&mut buf, self.bytecode[i]);
            proof {
                lemma_enc_code_push(self.spec_code().subrange(0, i as int),
                    self.spec_code()[i as int]);
                assert(self.spec_code().subrange(0, i + 1)
                    =~= self.spec_code().subrange(0, i as int).push(self.spec_code()[i as int]));
                assert(buf@ =~= h0 + enc_code(self.spec_code().subrange(0, i + 1)));
            }
            i = i + 1;
        }
        proof {
            assert(self.spec_code().subrange(0, self.spec_code().len() as int)
                =~= self.spec_code());
        }
        put_u16(&mut buf, self.referenced_columns.len() as u16);
        let ghost h1 = buf@;
        let mut j: usize = 0;
        while j < self.referenced_columns.len()
            invariant
                j <= self.spec_cols().len(),
                buf@ == h1 + enc_cols(self.spec_cols().subrange(0, j as int)),
            decreases self.spec_cols().len() - j,
        {
            put_u16(&mut buf, self.referenced_columns[j]);
            proof {
                lemma_enc_cols_push(self.spec_cols().subrange(0, j as int),
                    self.spec_cols()[j as int]);
                assert(self.spec_cols().subrange(0, j + 1)
                    =~= self.spec_cols().subrange(0, j as int).push(self.spec_cols()[j as int]));
                assert(buf@ =~= h1 + enc_cols(self.spec_cols().subrange(0, j + 1)));
            }
            j = j + 1;
        }
        proof {
            assert(self.spec_cols().subrange(0, self.spec_cols().len() as int)
                =~= self.spec_cols());
        }
        put_u16(&mut buf, self.constants.len() as u16);
        let ghost h2 = buf@;
        let mut k: usize = 0;
        while k < self.constants.len()
            invariant
                k <= self.spec_consts().len(),
                fits_all(self.spec_consts()),
                buf@ == h2 + enc_consts(self.spec_consts().subrange(0, k as int)),
            decreases self.spec_consts().len() - k,
        {
            put_const(&mut buf, &self.constants[k]);
            proof {
                lemma_enc_consts_push(self.spec_consts().subrange(0, k as int),
                    self.spec_consts()[k as int]);
                assert(self.spec_consts().subrange(0, k + 1)
                    =~= self.spec_consts().subrange(0, k as int).push(
                        self.spec_consts()[k as int],
                    ));
                assert(buf@ =~= h2 + enc_consts(self.spec_consts().subrange(0, k + 1)));
            }
            k = k + 1;
        }
        proof {
            assert(self.spec_consts().subrange(0, self.spec_consts().len() as int)
                =~= self.spec_consts());
            assert(buf@ =~= enc_predicate(self.spec_code(), self.spec_cols(),
                self.spec_consts()));
        }
        buf
    }

    /// Parse the stable binary format; a wrong version, an unknown opcode
    /// or constant tag, or trailing bytes are parse errors, and nothing is
    /// built from them.
    pub fn deserialize(bytes: &[u8]) -> (r: Result<CompiledPredicate, String>)
        ensures
            match r {
                Ok(p) => spec_dec_predicate(bytes@) == Some(
                    (p.spec_code(), p.spec_cols(), consts_view(p.spec_consts())),
                ) && p.wf_wire(),
                Err(_) => spec_dec_predicate(bytes@) is None,
            },
    {
        let (version, pv) = match parse_u8(bytes, 0) {
            Some(t) => t,
            None => {
                return Err(error_text());
            }
        };
        if version != 1 {
            return Err(error_text());
        }
        let (n_code, p0) = match parse_u16(bytes, pv) {
            Some(t) => t,
            None => {
                return Err(error_text());
            }
        };
        let (code, p1) = match read_insts(bytes, p0, n_code) {
            Some(t) => t,
            None => {
                return Err(error_text());
            }
        };
        let (n_cols, p2) = match parse_u16(bytes, p1) {
            Some(t) => t,
            None => {
                return Err(error_text());
            }
        };
        let (cols, p3) = match read_cols(bytes, p2, n_cols) {
            Some(t) => t,
            None => {
                return Err(error_text());
            }
        };
        let (n_consts, p4) = match parse_u16(bytes, p3) {
            Some(t) => t,
            None => {
                return Err(error_text());
            }
        };
        let (consts, p5) = match read_consts(bytes, p4, n_consts) {
            Some(t) => t,
            None => {
                return Err(error_text());
            }
        };
        if p5 != bytes.len() {
            return Err(error_text());
        }
        proof {
            lemma_dec_len(bytes@, p0 as int, n_code as int, code@);
            lemma_dec_cols_len(bytes@, p2 as int, n_cols as int, cols@);
            lemma_dec_consts_len(bytes@, p4 as int, n_consts as int, consts@);
        }
        Ok(CompiledPredicate { bytecode: code, referenced_columns: cols, constants: consts })
    }
}

/// The message every predicate parse failure carries.
fn error_text() -> (r: String)
    ensures
        true,
{
    String::from_str("malformed predicate bytes")
}

/// The bytes a serialization starts with: version and bytecode count.
pub open spec fn buf0_spec(p: CompiledPredicate) -> Seq<u8> {
    seq![1u8] + le16(p.spec_code().len() as u16)
}

/// A decoded instruction list has exactly the asked-for length.
proof fn lemma_dec_len(bytes: Seq<u8>, pos: int, n: int, code: Seq<Instruction>)
    requires
        dec_insts(bytes, pos, n) matches Some((c, e)) && c == code,
    ensures
        code.len() == (if n >= 0 { n } else { 0 }),
    decreases n,
{
    if n > 0 {
        lemma_dec_insts_unfold(bytes, pos, n);
        match dec_inst(bytes, pos) {
            Some((i, p)) => {
                match dec_insts(bytes, p, n - 1) {
                    Some((rest, end)) => {
                        lemma_dec_len(bytes, p, n - 1, rest);
                    }
                    None => {}
                }
            }
            None => {}
        }
    }
}

/// A decoded column list has exactly the asked-for length.
proof fn lemma_dec_cols_len(bytes: Seq<u8>, pos: int, n: int, cols: Seq<u16>)
    requires
        dec_cols(bytes, pos, n) matches Some((c, e)) && c == cols,
    ensures
        cols.len() == (if n >= 0 { n } else { 0 }),
    decreases n,
{
    if n > 0 {
        lemma_dec_cols_unfold(bytes, pos, n);
        match spec_parse_u16(bytes, pos) {
            Some((c, p)) => {
                match dec_cols(bytes, p, n - 1) {
                    Some((rest, end)) => {
                        lemma_dec_cols_len(bytes, p, n - 1, rest);
                    }
                    None => {}
                }
            }
            None => {}
        }
    }
}

/// A decoded pool has exactly the asked-for length.
proof fn lemma_dec_consts_len(bytes: Seq<u8>, pos: int, n: int, consts: Seq<Constant>)
    requires
        dec_consts(bytes, pos, n) matches Some((c, e)) && c == consts_view(consts),
    ensures
        consts.len() == (if n >= 0 { n } else { 0 }),
{
    assert(consts_view(consts).len() == consts.len());
    lemma_dec_consts_len_seq(bytes, pos, n, consts_view(consts));
}

/// A decoded abstract pool has exactly the asked-for length.
proof fn lemma_dec_consts_len_seq(bytes: Seq<u8>, pos: int, n: int, consts: Seq<AbstractConstant>)
    requires
        dec_consts(bytes, pos, n) matches Some((c, e)) && c == consts,
    ensures
        consts.len() == (if n >= 0 { n } else { 0 }),
    decreases n,
{
    if n > 0 {
        lemma_dec_consts_unfold(bytes, pos, n);
        match dec_const(bytes, pos) {
            Some((c, p)) => {
                match dec_consts(bytes, p, n - 1) {
                    Some((rest, end)) => {
                        lemma_dec_consts_len_seq(bytes, p, n - 1, rest);
                    }
                    None => {}
                }
            }
            None => {}
        }
    }
}


/// Decoding an encoded instruction gives it back.
proof fn lemma_dec_inst_rt(bytes: Seq<u8>, pos: int, i: Instruction)
    requires
        0 <= pos,
        pos + enc_inst(i).len() <= bytes.len(),
        bytes.subrange(pos, pos + enc_inst(i).len()) == enc_inst(i),
    ensures
        dec_inst(bytes, pos) == Some((i, pos + enc_inst(i).len())),
{
    let e = enc_inst(i);
    assert(bytes[pos] == e[0]) by {
        assert(bytes.subrange(pos, pos + e.len())[0] == bytes[pos]);
    }
    match i {
        Instruction::PushConst(x) | Instruction::LoadColumn(x) | Instruction::LoadOldColumn(x)
            | Instruction::In(x) | Instruction::LikePrefix(x) | Instruction::JumpIfFalse(x)
            | Instruction::Jump(x) => {
            assert(e.len() == 3);
            assert(bytes.subrange(pos + 1, pos + 3) =~= le16(x)) by {
                assert forall|k: int| #![trigger bytes.subrange(pos + 1, pos + 3)[k]] 0 <= k < 2
                    implies bytes.subrange(pos + 1, pos + 3)[k] == le16(x)[k] by {
                    assert(bytes.subrange(pos, pos + 3)[k + 1] == bytes[pos + 1 + k]);
                    assert(e[k + 1] == le16(x)[k]);
                }
            }
            crate::wire::lemma_le16_round_trip(bytes, pos + 1, x);
        }
        _ => {}
    }
}

/// Decoding an encoded instruction stream gives it back.
proof fn lemma_dec_insts_rt(bytes: Seq<u8>, pos: int, code: Seq<Instruction>)
    requires
        0 <= pos,
        pos + enc_code(code).len() <= bytes.len(),
        bytes.subrange(pos, pos + enc_code(code).len()) == enc_code(code),
    ensures
        dec_insts(bytes, pos, code.len() as int)
            == Some((code, pos + enc_code(code).len())),
    decreases code.len(),
{
    if code.len() == 0 {
        assert(code =~= Seq::<Instruction>::empty());
    } else {
        let first = code.first();
        let tail = code.drop_first();
        let l1 = enc_inst(first).len() as int;
        let lt = enc_code(tail).len() as int;
        assert(enc_code(code) == enc_inst(first) + enc_code(tail));
        assert(bytes.subrange(pos, pos + l1) =~= enc_inst(first)) by {
            assert forall|k: int| #![trigger bytes.subrange(pos, pos + l1)[k]] 0 <= k < l1
                implies bytes.subrange(pos, pos + l1)[k] == enc_inst(first)[k] by {
                assert(bytes.subrange(pos, pos + l1 + lt)[k] == bytes[pos + k]);
            }
        }
        lemma_dec_inst_rt(bytes, pos, first);
        assert(bytes.subrange(pos + l1, pos + l1 + lt) =~= enc_code(tail)) by {
            assert forall|k: int| #![trigger bytes.subrange(pos + l1, pos + l1 + lt)[k]] 0 <= k < lt
                implies bytes.subrange(pos + l1, pos + l1 + lt)[k] == enc_code(tail)[k] by {
                assert(bytes.subrange(pos, pos + l1 + lt)[l1 + k] == bytes[pos + l1 + k]);
            }
        }
        lemma_dec_insts_rt(bytes, pos + l1, tail);
        lemma_dec_insts_unfold(bytes, pos, code.len() as int);
        assert(seq![first] + tail =~= code);
    }
}

/// Decoding an encoded column list gives it back.
proof fn lemma_dec_cols_rt(bytes: Seq<u8>, pos: int, cols: Seq<u16>)
    requires
        0 <= pos,
        pos + enc_cols(cols).len() <= bytes.len(),
        bytes.subrange(pos, pos + enc_cols(cols).len()) == enc_cols(cols),
    ensures
        dec_cols(bytes, pos, cols.len() as int)
            == Some((cols, pos + enc_cols(cols).len())),
    decreases cols.len(),
{
    if cols.len() == 0 {
        assert(cols =~= Seq::<u16>::empty());
    } else {
        let first = cols.first();
        let tail = cols.drop_first();
        let lt = enc_cols(tail).len() as int;
        assert(enc_cols(cols) == le16(first) + enc_cols(tail));
        assert(bytes.subrange(pos, pos + 2) =~= le16(first)) by {
            assert forall|k: int| #![trigger bytes.subrange(pos, pos + 2)[k]] 0 <= k < 2
                implies bytes.subrange(pos, pos + 2)[k] == le16(first)[k] by {
                assert(bytes.subrange(pos, pos + 2 + lt)[k] == bytes[pos + k]);
            }
        }
        crate::wire::lemma_le16_round_trip(bytes, pos, first);
        assert(bytes.subrange(pos + 2, pos + 2 + lt) =~= enc_cols(tail)) by {
            assert forall|k: int| #![trigger bytes.subrange(pos + 2, pos + 2 + lt)[k]] 0 <= k < lt
                implies bytes.subrange(pos + 2, pos + 2 + lt)[k] == enc_cols(tail)[k] by {
                assert(bytes.subrange(pos, pos + 2 + lt)[2 + k] == bytes[pos + 2 + k]);
            }
        }
        lemma_dec_cols_rt(bytes, pos + 2, tail);
        lemma_dec_cols_unfold(bytes, pos, cols.len() as int);
        assert(seq![first] + tail =~= cols);
    }
}

/// Decoding an encoded integer run gives it back.
proof fn lemma_dec_i64s_rt(bytes: Seq<u8>, pos: int, vals: Seq<i64>)
    requires
        0 <= pos,
        pos + enc_i64s(vals).len() <= bytes.len(),
        bytes.subrange(pos, pos + enc_i64s(vals).len()) == enc_i64s(vals),
    ensures
        dec_i64s(bytes, pos, vals.len() as int)
            == Some((vals, pos + enc_i64s(vals).len())),
    decreases vals.len(),
{
    if vals.len() == 0 {
        assert(vals =~= Seq::<i64>::empty());
    } else {
        let first = vals.first();
        let tail = vals.drop_first();
        let lt = enc_i64s(tail).len() as int;
        assert(enc_i64s(vals) == le64(first as u64) + enc_i64s(tail));
        assert(bytes.subrange(pos, pos + 8) =~= le64(first as u64)) by {
            assert forall|k: int| #![trigger bytes.subrange(pos, pos + 8)[k]] 0 <= k < 8
                implies bytes.subrange(pos, pos + 8)[k] == le64(first as u64)[k] by {
                assert(bytes.subrange(pos, pos + 8 + lt)[k] == bytes[pos + k]);
            }
        }
        crate::wire::lemma_le64_round_trip(bytes, pos, first as u64);
        assert(((first as u64) as i64) == first) by (bit_vector);
        assert(bytes.subrange(pos + 8, pos + 8 + lt) =~= enc_i64s(tail)) by {
            assert forall|k: int| #![trigger bytes.subrange(pos + 8, pos + 8 + lt)[k]] 0 <= k < lt
                implies bytes.subrange(pos + 8, pos + 8 + lt)[k] == enc_i64s(tail)[k] by {
                assert(bytes.subrange(pos, pos + 8 + lt)[8 + k] == bytes[pos + 8 + k]);
            }
        }
        lemma_dec_i64s_rt(bytes, pos + 8, tail);
        lemma_dec_i64s_unfold(bytes, pos, vals.len() as int);
        assert(seq![first] + tail =~= vals);
    }
}

/// Decoding an encoded pool entry gives it back.
proof fn lemma_dec_const_rt(bytes: Seq<u8>, pos: int, c: Constant)
    requires
        const_fits(c),
        0 <= pos,
        pos + enc_const(c).len() <= bytes.len(),
        bytes.subrange(pos, pos + enc_const(c).len()) == enc_const(c),
    ensures
        dec_const(bytes, pos) == Some((const_view(c), pos + enc_const(c).len())),
{
    let e = enc_const(c);
    assert(bytes[pos] == e[0]) by {
        assert(bytes.subrange(pos, pos + e.len())[0] == bytes[pos]);
    }
    match c {
        Constant::Integer(x) => {
            assert(bytes.subrange(pos + 1, pos + 9) =~= le64(x as u64)) by {
                assert forall|k: int| #![trigger bytes.subrange(pos + 1, pos + 9)[k]] 0 <= k < 8
                    implies bytes.subrange(pos + 1, pos + 9)[k] == le64(x as u64)[k] by {
                    assert(bytes.subrange(pos, pos + 9)[k + 1] == bytes[pos + 1 + k]);
                    assert(e[k + 1] == le64(x as u64)[k]);
                }
            }
            crate::wire::lemma_le64_round_trip(bytes, pos + 1, x as u64);
            assert(((x as u64) as i64) == x) by (bit_vector);
        }
        Constant::FloatBits(x) => {
            assert(bytes.subrange(pos + 1, pos + 9) =~= le64(x)) by {
                assert forall|k: int| #![trigger bytes.subrange(pos + 1, pos + 9)[k]] 0 <= k < 8
                    implies bytes.subrange(pos + 1, pos + 9)[k] == le64(x)[k] by {
                    assert(bytes.subrange(pos, pos + 9)[k + 1] == bytes[pos + 1 + k]);
                    assert(e[k + 1] == le64(x)[k]);
                }
            }
            crate::wire::lemma_le64_round_trip(bytes, pos + 1, x);
        }
        Constant::Text(t) => {
            let n = t@.len() as int;
            assert(bytes.subrange(pos + 1, pos + 3) =~= le16(t@.len() as u16)) by {
                assert forall|k: int| #![trigger bytes.subrange(pos + 1, pos + 3)[k]] 0 <= k < 2
                    implies bytes.subrange(pos + 1, pos + 3)[k] == le16(t@.len() as u16)[k] by {
                    assert(bytes.subrange(pos, pos + 3 + n)[k + 1] == bytes[pos + 1 + k]);
                    assert(e[k + 1] == le16(t@.len() as u16)[k]);
                }
            }
            crate::wire::lemma_le16_round_trip(bytes, pos + 1, t@.len() as u16);
            assert(bytes.subrange(pos + 3, pos + 3 + n) =~= t@) by {
                assert forall|k: int| #![trigger bytes.subrange(pos + 3, pos + 3 + n)[k]] 0 <= k < n
                    implies bytes.subrange(pos + 3, pos + 3 + n)[k] == t@[k] by {
                    assert(bytes.subrange(pos, pos + 3 + n)[3 + k] == bytes[pos + 3 + k]);
                    assert(e[3 + k] == t@[k]);
                }
            }
        }
        Constant::IntSet(v) => {
            let lv = enc_i64s(v@).len() as int;
            assert(bytes.subrange(pos + 1, pos + 3) =~= le16(v@.len() as u16)) by {
                assert forall|k: int| #![trigger bytes.subrange(pos + 1, pos + 3)[k]] 0 <= k < 2
                    implies bytes.subrange(pos + 1, pos + 3)[k] == le16(v@.len() as u16)[k] by {
                    assert(bytes.subrange(pos, pos + 3 + lv)[k + 1] == bytes[pos + 1 + k]);
                    assert(e[k + 1] == le16(v@.len() as u16)[k]);
                }
            }
            crate::wire::lemma_le16_round_trip(bytes, pos + 1, v@.len() as u16);
            assert(bytes.subrange(pos + 3, pos + 3 + lv) =~= enc_i64s(v@)) by {
                assert forall|k: int| #![trigger bytes.subrange(pos + 3, pos + 3 + lv)[k]] 0 <= k < lv
                    implies bytes.subrange(pos + 3, pos + 3 + lv)[k] == enc_i64s(v@)[k] by {
                    assert(bytes.subrange(pos, pos + 3 + lv)[3 + k] == bytes[pos + 3 + k]);
                    assert(e[3 + k] == enc_i64s(v@)[k]);
                }
            }
            lemma_dec_i64s_rt(bytes, pos + 3, v@);
        }
        Constant::IntBitmap(b) => {
            let n = b@.len() as int;
            assert(bytes.subrange(pos + 1, pos + 3) =~= le16(b@.len() as u16)) by {
                assert forall|k: int| #![trigger bytes.subrange(pos + 1, pos + 3)[k]] 0 <= k < 2
                    implies bytes.subrange(pos + 1, pos + 3)[k] == le16(b@.len() as u16)[k] by {
                    assert(bytes.subrange(pos, pos + 3 + n)[k + 1] == bytes[pos + 1 + k]);
                    assert(e[k + 1] == le16(b@.len() as u16)[k]);
                }
            }
            crate::wire::lemma_le16_round_trip(bytes, pos + 1, b@.len() as u16);
            assert(bytes.subrange(pos + 3, pos + 3 + n) =~= b@) by {
                assert forall|k: int| #![trigger bytes.subrange(pos + 3, pos + 3 + n)[k]] 0 <= k < n
                    implies bytes.subrange(pos + 3, pos + 3 + n)[k] == b@[k] by {
                    assert(bytes.subrange(pos, pos + 3 + n)[3 + k] == bytes[pos + 3 + k]);
                    assert(e[3 + k] == b@[k]);
                }
            }
        }
    }
}

/// Decoding an encoded pool gives it back.
proof fn lemma_dec_consts_rt(bytes: Seq<u8>, pos: int, consts: Seq<Constant>)
    requires
        fits_all(consts),
        0 <= pos,
        pos + enc_consts(consts).len() <= bytes.len(),
        bytes.subrange(pos, pos + enc_consts(consts).len()) == enc_consts(consts),
    ensures
        dec_consts(bytes, pos, consts.len() as int)
            == Some((consts_view(consts), pos + enc_consts(consts).len())),
    decreases consts.len(),
{
    if consts.len() == 0 {
        assert(consts_view(consts) =~= Seq::<AbstractConstant>::empty());
    } else {
        let first = consts.first();
        let tail = consts.drop_first();
        let l1 = enc_const(first).len() as int;
        let lt = enc_consts(tail).len() as int;
        assert(enc_consts(consts) == enc_const(first) + enc_consts(tail));
        assert(const_fits(first) && fits_all(tail)) by {
            assert(consts[0] == first);
            assert(forall|k: int| 0 <= k < tail.len() ==> tail[k] == consts[k + 1]);
        }
        assert(bytes.subrange(pos, pos + l1) =~= enc_const(first)) by {
            assert forall|k: int| #![trigger bytes.subrange(pos, pos + l1)[k]] 0 <= k < l1
                implies bytes.subrange(pos, pos + l1)[k] == enc_const(first)[k] by {
                assert(bytes.subrange(pos, pos + l1 + lt)[k] == bytes[pos + k]);
            }
        }
        lemma_dec_const_rt(bytes, pos, first);
        assert(bytes.subrange(pos + l1, pos + l1 + lt) =~= enc_consts(tail)) by {
            assert forall|k: int| #![trigger bytes.subrange(pos + l1, pos + l1 + lt)[k]] 0 <= k < lt
                implies bytes.subrange(pos + l1, pos + l1 + lt)[k] == enc_consts(tail)[k] by {
                assert(bytes.subrange(pos, pos + l1 + lt)[l1 + k] == bytes[pos + l1 + k]);
            }
        }
        lemma_dec_consts_rt(bytes, pos + l1, tail);
        lemma_dec_consts_unfold(bytes, pos, consts.len() as int);
        assert(seq![const_view(first)] + consts_view(tail) =~= consts_view(consts));
    }
}

/// Serializing a predicate and parsing the bytes back yields the same
/// predicate: the same bytecode, the same referenced columns, and the same
/// constants pool.
pub proof fn lemma_predicate_round_trip(code: Seq<Instruction>, cols: Seq<u16>, consts: Seq<Constant>)
    requires
        code.len() <= 65535,
        cols.len() <= 65535,
        consts.len() <= 65535,
        fits_all(consts),
    ensures
        spec_dec_predicate(enc_predicate(code, cols, consts))
            == Some((code, cols, consts_view(consts))),
{
    let bytes = enc_predicate(code, cols, consts);
    let e1 = enc_code(code);
    let e2 = enc_cols(cols);
    let e3 = enc_consts(consts);
    let o1 = 3 + e1.len() as int;
    let o2 = o1 + 2 + e2.len() as int;
    assert(bytes.len() == 7 + e1.len() + e2.len() + e3.len());
    assert(bytes[0] == 1);
    assert(bytes.subrange(1, 3) =~= le16(code.len() as u16));
    crate::wire::lemma_le16_round_trip(bytes, 1, code.len() as u16);
    assert(bytes.subrange(3, o1) =~= e1);
    lemma_dec_insts_rt(bytes, 3, code);
    assert(bytes.subrange(o1, o1 + 2) =~= le16(cols.len() as u16));
    crate::wire::lemma_le16_round_trip(bytes, o1, cols.len() as u16);
    assert(bytes.subrange(o1 + 2, o2) =~= e2);
    lemma_dec_cols_rt(bytes, o1 + 2, cols);
    assert(bytes.subrange(o2, o2 + 2) =~= le16(consts.len() as u16));
    crate::wire::lemma_le16_round_trip(bytes, o2, consts.len() as u16);
    assert(bytes.subrange(o2 + 2, o2 + 2 + e3.len()) =~= e3);
    lemma_dec_consts_rt(bytes, o2 + 2, consts);
}

} // verus!
