//! Filter expressions: the expression tree and its encoder.
//!
//! A tree is built once by the constructor functions below and then encoded,
//! as often as wanted, by `FilterExpression::pack`. Each node is one arm of
//! `ExpNode`, by the shape it takes on the wire. A tree built by hand can
//! still be malformed (a REGEX, CALL, BIN or BIN_TYPE operator in the generic
//! arm, a bare list literal, a map with a repeated key): `pack` checks the
//! whole tree first and refuses such a tree before writing anything. One
//! traversal serves both modes: with a `None` sink it only counts bytes, with
//! a buffer it writes them, and the contract of `pack` gives the same byte
//! sequence for both.
use vstd::prelude::*;
use vstd::utf8::encode_utf8;
use crate::msgpack::{
    Buffer, EncodeError, Value, PARTICLE_NULL, add_count, array_header, countable, emitted, header_fits, int_bytes,
    value_wf, lemma_emitted_chain, lemma_emitted_nothing, pack_array_begin, pack_integer,
    pack_raw_string, write_value, raw_string_bytes, value_bytes, value_fits,
};

verus! {

/// Value types that an expression can declare.
#[derive(Debug, Clone, Copy, PartialEq, Eq, Structural)]
pub enum ExpType {
    NIL,
    BOOL,
    INT,
    STRING,
    LIST,
    MAP,
    BLOB,
    FLOAT,
    GEO,
    HLL,
}

/// Wire code of a value type.
pub open spec fn type_code(t: ExpType) -> i64 {
    match t {
        ExpType::NIL => 0,
        ExpType::BOOL => 1,
        ExpType::INT => 2,
        ExpType::STRING => 3,
        ExpType::LIST => 4,
        ExpType::MAP => 5,
        ExpType::BLOB => 6,
        ExpType::FLOAT => 7,
        ExpType::GEO => 8,
        ExpType::HLL => 9,
    }
}

impl ExpType {
    /// Wire code of this value type.
    pub fn code(&self) -> (r: i64)
        ensures
            r == type_code(*self),
    {
        match self {
            ExpType::NIL => 0,
            ExpType::BOOL => 1,
            ExpType::INT => 2,
            ExpType::STRING => 3,
            ExpType::LIST => 4,
            ExpType::MAP => 5,
            ExpType::BLOB => 6,
            ExpType::FLOAT => 7,
            ExpType::GEO => 8,
            ExpType::HLL => 9,
        }
    }
}

/// Operators of the expression language.
#[derive(Debug, Clone, Copy, PartialEq, Eq, Structural)]
pub enum ExpOp {
    EQ,
    NE,
    GT,
    GE,
    LT,
    LE,
    Regex,
    Geo,
    And,
    Or,
    Not,
    DigestModulo,
    DeviceSize,
    LastUpdate,
    SinceUpdate,
    VoidTime,
    TTL,
    SetName,
    KeyExists,
    IsTombstone,
    Key,
    Bin,
    BinType,
    Quoted,
    Call,
}

/// Wire code of an operator.
pub open spec fn op_code(op: ExpOp) -> i64 {
    match op {
        ExpOp::EQ => 1,
        ExpOp::NE => 2,
        ExpOp::GT => 3,
        ExpOp::GE => 4,
        ExpOp::LT => 5,
        ExpOp::LE => 6,
        ExpOp::Regex => 7,
        ExpOp::Geo => 8,
        ExpOp::And => 16,
        ExpOp::Or => 17,
        ExpOp::Not => 18,
        ExpOp::DigestModulo => 64,
        ExpOp::DeviceSize => 65,
        ExpOp::LastUpdate => 66,
        ExpOp::SinceUpdate => 67,
        ExpOp::VoidTime => 68,
        ExpOp::TTL => 69,
        ExpOp::SetName => 70,
        ExpOp::KeyExists => 71,
        ExpOp::IsTombstone => 72,
        ExpOp::Key => 80,
        ExpOp::Bin => 81,
        ExpOp::BinType => 82,
        ExpOp::Quoted => 126,
        ExpOp::Call => 127,
    }
}

impl ExpOp {
    /// Wire code of this operator.
    pub fn code(&self) -> (r: i64)
        ensures
            r == op_code(*self),
    {
        match self {
            ExpOp::EQ => 1,
            ExpOp::NE => 2,
            ExpOp::GT => 3,
            ExpOp::GE => 4,
            ExpOp::LT => 5,
            ExpOp::LE => 6,
            ExpOp::Regex => 7,
            ExpOp::Geo => 8,
            ExpOp::And => 16,
            ExpOp::Or => 17,
            ExpOp::Not => 18,
            ExpOp::DigestModulo => 64,
            ExpOp::DeviceSize => 65,
            ExpOp::LastUpdate => 66,
            ExpOp::SinceUpdate => 67,
            ExpOp::VoidTime => 68,
            ExpOp::TTL => 69,
            ExpOp::SetName => 70,
            ExpOp::KeyExists => 71,
            ExpOp::IsTombstone => 72,
            ExpOp::Key => 80,
            ExpOp::Bin => 81,
            ExpOp::BinType => 82,
            ExpOp::Quoted => 126,
            ExpOp::Call => 127,
        }
    }
}

/// Flag that marks a module call as one that modifies its bin.
pub const MODIFY: i64 = 0x40;

/// Tag that opens a context block in a module call's arguments.
pub const CONTEXT_TAG: i64 = 0xff;

/// One step down into a nested list or map: how to select (`id`) and what
/// to select by (`value`).
#[derive(Debug)]
pub struct CdtContext {
    pub id: u8,
    pub value: Value,
}

/// One argument of a module call.
#[derive(Debug)]
pub enum ExpressionArgument {
    /// A literal value.
    Value(Value),
    /// A nested expression.
    FilterExpression(FilterExpression),
    /// A path into the nested collection that the call works on.
    Context(Vec<CdtContext>),
}

/// One node of an expression tree, by the shape it takes on the wire.
#[derive(Debug)]
pub enum ExpNode {
    /// An operator over child expressions: `[op, child, ...]`.
    Compound { op: ExpOp, children: Vec<FilterExpression> },
    /// A regular-expression match of a bin: `[REGEX, flags, pattern, bin]`.
    Regex { flags: i64, pattern: String, bin: Box<FilterExpression> },
    /// A module call with an argument list:
    /// `[CALL, module, op_flags, arguments, bin]`.
    Call {
        module: ExpType,
        op_flags: i64,
        arguments: Vec<ExpressionArgument>,
        bin: Box<FilterExpression>,
    },
    /// A module call whose one argument is a value:
    /// `[CALL, module, op_flags, value, bin]`.
    CallValue { module: ExpType, op_flags: i64, value: Value, bin: Box<FilterExpression> },
    /// A bin read as a declared type: `[BIN, type, name]`.
    Bin { exp_type: ExpType, name: String },
    /// The particle type of a bin: `[BIN_TYPE, name]`.
    BinType { name: String },
    /// Any other operator, with or without a value: `[op, value]` or `[op]`.
    Op { op: ExpOp, operand: Option<Value> },
    /// A bare value, written as itself.
    Literal { value: Value },
}

/// A filter expression: the root of an expression tree.
#[derive(Debug)]
pub struct FilterExpression {
    pub node: ExpNode,
}

/// The start of a module call: array header, operator, module and its flags.
pub open spec fn call_head(module: ExpType, op_flags: i64) -> Seq<u8> {
    array_header(5) + int_bytes(op_code(ExpOp::Call) as int) + int_bytes(type_code(module) as int)
        + int_bytes(op_flags as int)
}

/// Id and value of each step of a context path.
pub open spec fn steps_bytes(steps: Seq<CdtContext>) -> Seq<u8>
    decreases steps,
{
    if steps.len() == 0 {
        Seq::empty()
    } else {
        steps_bytes(steps.drop_last()) + int_bytes(steps.last().id as int) + value_bytes(
            steps.last().value,
        )
    }
}

/// The context block of a path: nothing for an empty path, else the array
/// `[CONTEXT_TAG, [id, value, id, value, ...]]` under a header of three.
pub open spec fn context_bytes(steps: Seq<CdtContext>) -> Seq<u8> {
    if steps.len() == 0 {
        Seq::empty()
    } else {
        array_header(3) + int_bytes(CONTEXT_TAG as int) + array_header(2 * steps.len())
            + steps_bytes(steps)
    }
}

/// The context blocks of the context arguments, in argument order.
pub open spec fn contexts_bytes(args: Seq<ExpressionArgument>) -> Seq<u8>
    decreases args,
{
    if args.len() == 0 {
        Seq::empty()
    } else {
        contexts_bytes(args.drop_last()) + match args.last() {
            ExpressionArgument::Context(steps) => context_bytes(steps@),
            _ => Seq::empty(),
        }
    }
}

/// Number of arguments that are values or expressions.
pub open spec fn counted(args: Seq<ExpressionArgument>) -> nat
    decreases args,
{
    if args.len() == 0 {
        0
    } else {
        counted(args.drop_last()) + match args.last() {
            ExpressionArgument::Context(_) => 0nat,
            _ => 1nat,
        }
    }
}

/// The wire form of an expression.
pub open spec fn exp_bytes(e: FilterExpression) -> Seq<u8>
    decreases e,
{
    match e.node {
        ExpNode::Compound { op, children } => array_header(children@.len() + 1) + int_bytes(
            op_code(op) as int,
        ) + exps_bytes(children@),
        ExpNode::Regex { flags, pattern, bin } => array_header(4) + int_bytes(
            op_code(ExpOp::Regex) as int,
        ) + int_bytes(flags as int) + raw_string_bytes(pattern@) + exp_bytes(*bin),
        ExpNode::Call { module, op_flags, arguments, bin } => call_head(module, op_flags)
            + contexts_bytes(arguments@) + array_header(counted(arguments@)) + args_bytes(
            arguments@,
        ) + exp_bytes(*bin),
        ExpNode::CallValue { module, op_flags, value, bin } => call_head(module, op_flags)
            + value_bytes(value) + exp_bytes(*bin),
        ExpNode::Bin { exp_type, name } => array_header(3) + int_bytes(op_code(ExpOp::Bin) as int)
            + int_bytes(type_code(exp_type) as int) + raw_string_bytes(name@),
        ExpNode::BinType { name } => array_header(2) + int_bytes(op_code(ExpOp::BinType) as int)
            + raw_string_bytes(name@),
        ExpNode::Op { op, operand } => match operand {
            Some(v) => array_header(2) + int_bytes(op_code(op) as int) + value_bytes(v),
            None => array_header(1) + int_bytes(op_code(op) as int),
        },
        ExpNode::Literal { value } => value_bytes(value),
    }
}

/// The wire forms of `exps`, one after another.
pub open spec fn exps_bytes(exps: Seq<FilterExpression>) -> Seq<u8>
    decreases exps,
{
    if exps.len() == 0 {
        Seq::empty()
    } else {
        exps_bytes(exps.drop_last()) + exp_bytes(exps.last())
    }
}

/// The value and expression arguments, in order; context arguments add nothing.
pub open spec fn args_bytes(args: Seq<ExpressionArgument>) -> Seq<u8>
    decreases args,
{
    if args.len() == 0 {
        Seq::empty()
    } else {
        args_bytes(args.drop_last()) + match args.last() {
            ExpressionArgument::Value(v) => value_bytes(v),
            ExpressionArgument::FilterExpression(x) => exp_bytes(x),
            ExpressionArgument::Context(_) => Seq::empty(),
        }
    }
}

/// Each step value of a context path fits its headers.
pub open spec fn steps_fit(steps: Seq<CdtContext>) -> bool
    decreases steps,
{
    steps.len() == 0 || (steps_fit(steps.drop_last()) && value_fits(steps.last().value))
}

/// The context block of a path can be written.
pub open spec fn context_fits(steps: Seq<CdtContext>) -> bool {
    steps.len() == 0 || (header_fits(2 * steps.len()) && steps_fit(steps))
}

/// The context blocks of all context arguments can be written.
pub open spec fn contexts_fit(args: Seq<ExpressionArgument>) -> bool
    decreases args,
{
    args.len() == 0 || (contexts_fit(args.drop_last()) && match args.last() {
        ExpressionArgument::Context(steps) => context_fits(steps@),
        _ => true,
    })
}

/// Every header that the wire form of `e` holds can hold its length.
pub open spec fn exp_fits(e: FilterExpression) -> bool
    decreases e,
{
    match e.node {
        ExpNode::Compound { op, children } => header_fits(children@.len() + 1) && exps_fit(
            children@,
        ),
        ExpNode::Regex { flags, pattern, bin } => header_fits(encode_utf8(pattern@).len())
            && exp_fits(*bin),
        ExpNode::Call { module, op_flags, arguments, bin } => contexts_fit(arguments@)
            && header_fits(counted(arguments@)) && args_fit(arguments@) && exp_fits(*bin),
        ExpNode::CallValue { module, op_flags, value, bin } => value_fits(value) && exp_fits(*bin),
        ExpNode::Bin { exp_type, name } => header_fits(encode_utf8(name@).len()),
        ExpNode::BinType { name } => header_fits(encode_utf8(name@).len()),
        ExpNode::Op { op, operand } => match operand {
            Some(v) => value_fits(v),
            None => true,
        },
        ExpNode::Literal { value } => value_fits(value),
    }
}

/// Each of `exps` fits its headers.
pub open spec fn exps_fit(exps: Seq<FilterExpression>) -> bool
    decreases exps,
{
    exps.len() == 0 || (exps_fit(exps.drop_last()) && exp_fits(exps.last()))
}

/// Each value and expression argument fits its headers.
pub open spec fn args_fit(args: Seq<ExpressionArgument>) -> bool
    decreases args,
{
    args.len() == 0 || (args_fit(args.drop_last()) && match args.last() {
        ExpressionArgument::Value(v) => value_fits(v),
        ExpressionArgument::FilterExpression(x) => exp_fits(x),
        ExpressionArgument::Context(_) => true,
    })
}

/// Operators written in the generic shape `[op]` or `[op, value]`; the
/// others need a shape of their own.
pub open spec fn is_generic_op(op: ExpOp) -> bool {
    !(op is Regex || op is Call || op is Bin || op is BinType)
}

/// Every step value of a context path is well formed.
pub open spec fn steps_wf(steps: Seq<CdtContext>) -> bool
    decreases steps,
{
    steps.len() == 0 || (steps_wf(steps.drop_last()) && value_wf(steps.last().value))
}

/// `e` is well formed: every operator node has the shape its operator
/// needs, no list stands bare as a literal, where it would read as an
/// operator, and no map repeats a key.
pub open spec fn exp_wf(e: FilterExpression) -> bool
    decreases e,
{
    match e.node {
        ExpNode::Compound { op, children } => exps_wf(children@),
        ExpNode::Regex { flags, pattern, bin } => exp_wf(*bin),
        ExpNode::Call { module, op_flags, arguments, bin } => args_wf(arguments@) && exp_wf(*bin),
        ExpNode::CallValue { module, op_flags, value, bin } => value_wf(value) && exp_wf(*bin),
        ExpNode::Bin { exp_type, name } => true,
        ExpNode::BinType { name } => true,
        ExpNode::Op { op, operand } => is_generic_op(op) && match operand {
            Some(v) => value_wf(v),
            None => true,
        },
        ExpNode::Literal { value } => !(value is List) && value_wf(value),
    }
}

/// Each of `exps` is well formed.
pub open spec fn exps_wf(exps: Seq<FilterExpression>) -> bool
    decreases exps,
{
    exps.len() == 0 || (exps_wf(exps.drop_last()) && exp_wf(exps.last()))
}

/// Each argument is well formed.
pub open spec fn args_wf(args: Seq<ExpressionArgument>) -> bool
    decreases args,
{
    args.len() == 0 || (args_wf(args.drop_last()) && match args.last() {
        ExpressionArgument::Value(v) => value_wf(v),
        ExpressionArgument::FilterExpression(x) => exp_wf(x),
        ExpressionArgument::Context(steps) => steps_wf(steps@),
    })
}

proof fn lemma_steps_prefix(steps: Seq<CdtContext>, i: int)
    requires
        0 <= i <= steps.len(),
    ensures
        steps_bytes(steps.take(i)).len() <= steps_bytes(steps).len(),
        steps_fit(steps) ==> steps_fit(steps.take(i)),
        steps_wf(steps) ==> steps_wf(steps.take(i)),
    decreases steps.len() - i,
{
    if i < steps.len() {
        lemma_steps_prefix(steps, i + 1);
        assert(steps.take(i + 1).drop_last() =~= steps.take(i));
    } else {
        assert(steps.take(i) =~= steps);
    }
}

proof fn lemma_exps_prefix(exps: Seq<FilterExpression>, i: int)
    requires
        0 <= i <= exps.len(),
    ensures
        exps_bytes(exps.take(i)).len() <= exps_bytes(exps).len(),
        exps_fit(exps) ==> exps_fit(exps.take(i)),
        exps_wf(exps) ==> exps_wf(exps.take(i)),
    decreases exps.len() - i,
{
    if i < exps.len() {
        lemma_exps_prefix(exps, i + 1);
        assert(exps.take(i + 1).drop_last() =~= exps.take(i));
    } else {
        assert(exps.take(i) =~= exps);
    }
}

proof fn lemma_args_prefix(args: Seq<ExpressionArgument>, i: int)
    requires
        0 <= i <= args.len(),
    ensures
        contexts_bytes(args.take(i)).len() <= contexts_bytes(args).len(),
        args_bytes(args.take(i)).len() <= args_bytes(args).len(),
        contexts_fit(args) ==> contexts_fit(args.take(i)),
        args_fit(args) ==> args_fit(args.take(i)),
        args_wf(args) ==> args_wf(args.take(i)),
    decreases args.len() - i,
{
    if i < args.len() {
        lemma_args_prefix(args, i + 1);
        assert(args.take(i + 1).drop_last() =~= args.take(i));
    } else {
        assert(args.take(i) =~= args);
    }
}

/// Writes the context block of a path, or counts its bytes when `buf` is
/// `None`: nothing at all for an empty path. A path whose step values repeat
/// a map key is refused before anything is written.
pub fn pack_context(buf: &mut Option<Buffer>, steps: &Vec<CdtContext>) -> (r: Result<
    usize,
    EncodeError,
>)
    ensures
        !steps_wf(steps@) ==> r == Err::<usize, EncodeError>(EncodeError::Malformed) && *final(buf)
            == *old(buf),
        steps_wf(steps@) && context_fits(steps@) && countable(context_bytes(steps@)) ==> r == Ok::<
            usize,
            EncodeError,
        >(context_bytes(steps@).len() as usize) && emitted(
            *old(buf),
            *final(buf),
            context_bytes(steps@),
        ),
        steps_wf(steps@) && !(context_fits(steps@) && countable(context_bytes(steps@))) ==> r
            == Err::<usize, EncodeError>(EncodeError::TooLong),
{
    if !steps_well_formed(steps) {
        return Err(EncodeError::Malformed);
    }
    write_context(buf, steps)
}

/// Whether every step value of a context path is well formed.
fn steps_well_formed(steps: &Vec<CdtContext>) -> (r: bool)
    ensures
        r == steps_wf(steps@),
{
    let mut i: usize = 0;
    while i < steps.len()
        invariant
            i <= steps@.len(),
            steps_wf(steps@.take(i as int)),
        decreases steps@.len() - i,
    {
        proof {
            lemma_steps_prefix(steps@, i + 1);
            assert(steps@.take(i + 1).drop_last() =~= steps@.take(i as int));
            assert(steps@.take(i + 1).last() == steps@[i as int]);
        }
        if !steps[i].value.is_well_formed() {
            return false;
        }
        i = i + 1;
    }
    proof {
        assert(steps@.take(i as int) =~= steps@);
    }
    true
}

/// Whether each of `exps` is well formed.
fn exps_well_formed(exps: &Vec<FilterExpression>) -> (r: bool)
    ensures
        r == exps_wf(exps@),
    decreases exps, 0nat,
{
    let mut i: usize = 0;
    while i < exps.len()
        invariant
            i <= exps@.len(),
            exps_wf(exps@.take(i as int)),
        decreases exps@.len() - i,
    {
        proof {
            lemma_exps_prefix(exps@, i + 1);
            assert(exps@.take(i + 1).drop_last() =~= exps@.take(i as int));
            assert(exps@.take(i + 1).last() == exps@[i as int]);
        }
        if !exps[i].is_well_formed() {
            return false;
        }
        i = i + 1;
    }
    proof {
        assert(exps@.take(i as int) =~= exps@);
    }
    true
}

/// Whether each argument of a module call is well formed.
fn args_well_formed(args: &Vec<ExpressionArgument>) -> (r: bool)
    ensures
        r == args_wf(args@),
    decreases args, 0nat,
{
    let mut i: usize = 0;
    while i < args.len()
        invariant
            i <= args@.len(),
            args_wf(args@.take(i as int)),
        decreases args@.len() - i,
    {
        proof {
            lemma_args_prefix(args@, i + 1);
            assert(args@.take(i + 1).drop_last() =~= args@.take(i as int));
            assert(args@.take(i + 1).last() == args@[i as int]);
        }
        let ok = match &args[i] {
            ExpressionArgument::Value(v) => v.is_well_formed(),
            ExpressionArgument::FilterExpression(x) => x.is_well_formed(),
            ExpressionArgument::Context(steps) => steps_well_formed(steps),
        };
        if !ok {
            return false;
        }
        i = i + 1;
    }
    proof {
        assert(args@.take(i as int) =~= args@);
    }
    true
}

fn write_context(buf: &mut Option<Buffer>, steps: &Vec<CdtContext>) -> (r: Result<
    usize,
    EncodeError,
>)
    ensures
        context_fits(steps@) && countable(context_bytes(steps@)) ==> r == Ok::<usize, EncodeError>(
            context_bytes(steps@).len() as usize,
        ) && emitted(*old(buf), *final(buf), context_bytes(steps@)),
        !(context_fits(steps@) && countable(context_bytes(steps@))) ==> r == Err::<
            usize,
            EncodeError,
        >(EncodeError::TooLong),
{
    if steps.len() == 0 {
        proof {
            lemma_emitted_nothing(*buf);
        }
        return Ok(0);
    }
    if steps.len() >= 0x8000_0000 {
        return Err(EncodeError::TooLong);
    }
    let ghost b0 = *buf;
    let h1 = match pack_array_begin(buf, 3) {
        Ok(h) => h,
        Err(e) => {
            return Err(e);
        },
    };
    let ghost b1 = *buf;
    let t = pack_integer(buf, CONTEXT_TAG);
    let ghost b2 = *buf;
    let h2 = match pack_array_begin(buf, 2 * steps.len()) {
        Ok(h) => h,
        Err(e) => {
            return Err(e);
        },
    };
    let ghost b3 = *buf;
    let ghost head = array_header(3) + int_bytes(CONTEXT_TAG as int) + array_header(
        2 * steps@.len(),
    );
    proof {
        lemma_emitted_chain(b0, b1, b2, array_header(3), int_bytes(CONTEXT_TAG as int));
        lemma_emitted_chain(
            b0,
            b2,
            b3,
            array_header(3) + int_bytes(CONTEXT_TAG as int),
            array_header(2 * steps@.len()),
        );
        lemma_emitted_nothing(b3);
    }
    let mut size: usize = h1 + t + h2;
    let mut i: usize = 0;
    while i < steps.len()
        invariant
            0 < steps@.len() < 0x8000_0000,
            i <= steps@.len(),
            context_bytes(steps@) == head + steps_bytes(steps@),
            steps_fit(steps@.take(i as int)),
            size == head.len() + steps_bytes(steps@.take(i as int)).len(),
            emitted(b0, b3, head),
            emitted(b3, *buf, steps_bytes(steps@.take(i as int))),
        decreases steps@.len() - i,
    {
        let ghost bi = *buf;
        let ghost st = steps@[i as int];
        proof {
            lemma_steps_prefix(steps@, i + 1);
            assert(steps@.take(i + 1).drop_last() =~= steps@.take(i as int));
            assert(steps@.take(i + 1).last() == st);
        }
        let k1 = pack_integer(buf, steps[i].id as i64);
        let ghost bk = *buf;
        let k2 = match write_value(buf, &steps[i].value) {
            Ok(k) => k,
            Err(e) => {
                return Err(e);
            },
        };
        proof {
            let pre = steps_bytes(steps@.take(i as int));
            lemma_emitted_chain(b3, bi, bk, pre, int_bytes(st.id as int));
            lemma_emitted_chain(b3, bk, *buf, pre + int_bytes(st.id as int), value_bytes(st.value));
        }
        size = match add_count(size, k1) {
            Ok(n) => n,
            Err(e) => {
                return Err(e);
            },
        };
        size = match add_count(size, k2) {
            Ok(n) => n,
            Err(e) => {
                return Err(e);
            },
        };
        i = i + 1;
    }
    proof {
        assert(steps@.take(i as int) =~= steps@);
        lemma_emitted_chain(b0, b3, *buf, head, steps_bytes(steps@));
    }
    Ok(size)
}

/// Writes an array header of `n` and then the operator code `code`.
fn pack_head(buf: &mut Option<Buffer>, n: usize, code: i64) -> (r: usize)
    requires
        n < 16,
    ensures
        r == (array_header(n as nat) + int_bytes(code as int)).len(),
        emitted(*old(buf), *final(buf), array_header(n as nat) + int_bytes(code as int)),
{
    let ghost b0 = *buf;
    let h = match pack_array_begin(buf, n) {
        Ok(h) => h,
        Err(_) => 0,
    };
    let ghost b1 = *buf;
    let c = pack_integer(buf, code);
    proof {
        lemma_emitted_chain(b0, b1, *buf, array_header(n as nat), int_bytes(code as int));
    }
    h + c
}

/// Writes the argument block of a module call: first the context block of
/// each context argument, then an array of the value and expression
/// arguments, which counts those alone.
fn pack_arguments(buf: &mut Option<Buffer>, args: &Vec<ExpressionArgument>) -> (r: Result<
    usize,
    EncodeError,
>)
    ensures
        contexts_fit(args@) && header_fits(counted(args@)) && args_fit(args@) && countable(
            contexts_bytes(args@) + array_header(counted(args@)) + args_bytes(args@),
        ) ==> r == Ok::<
            usize,
            EncodeError,
        >((contexts_bytes(args@) + array_header(counted(args@)) + args_bytes(args@)).len() as usize)
            && emitted(
            *old(buf),
            *final(buf),
            contexts_bytes(args@) + array_header(counted(args@)) + args_bytes(args@),
        ),
        !(contexts_fit(args@) && header_fits(counted(args@)) && args_fit(args@) && countable(
            contexts_bytes(args@) + array_header(counted(args@)) + args_bytes(args@),
        )) ==> r == Err::<
            usize,
            EncodeError,
        >(EncodeError::TooLong),
    decreases args, 0nat,
{
    let ghost b0 = *buf;
    proof {
        lemma_emitted_nothing(b0);
    }
    let mut size: usize = 0;
    let mut len: usize = 0;
    let mut i: usize = 0;
    while i < args.len()
        invariant
            i <= args@.len(),
            contexts_fit(args@.take(i as int)),
            len == counted(args@.take(i as int)),
            len <= i,
            size == contexts_bytes(args@.take(i as int)).len(),
            emitted(b0, *buf, contexts_bytes(args@.take(i as int))),
        decreases args@.len() - i,
    {
        let ghost bi = *buf;
        let ghost ai = args@[i as int];
        proof {
            lemma_args_prefix(args@, i + 1);
            assert(args@.take(i + 1).drop_last() =~= args@.take(i as int));
            assert(args@.take(i + 1).last() == ai);
        }
        match &args[i] {
            ExpressionArgument::Context(steps) => {
                let k = match write_context(buf, steps) {
                    Ok(k) => k,
                    Err(e) => {
                        return Err(e);
                    },
                };
                proof {
                    lemma_emitted_chain(
                        b0,
                        bi,
                        *buf,
                        contexts_bytes(args@.take(i as int)),
                        context_bytes(steps@),
                    );
                }
                size = match add_count(size, k) {
                    Ok(n) => n,
                    Err(e) => {
                        return Err(e);
                    },
                };
            },
            _ => {
                proof {
                    lemma_emitted_nothing(bi);
                    lemma_emitted_chain(
                        b0,
                        bi,
                        bi,
                        contexts_bytes(args@.take(i as int)),
                        Seq::empty(),
                    );
                }
                len = len + 1;
            },
        }
        i = i + 1;
    }
    proof {
        assert(args@.take(i as int) =~= args@);
    }
    let ghost b1 = *buf;
    let h = match pack_array_begin(buf, len) {
        Ok(h) => h,
        Err(e) => {
            return Err(e);
        },
    };
    let ghost b2 = *buf;
    proof {
        lemma_emitted_chain(b0, b1, b2, contexts_bytes(args@), array_header(len as nat));
        lemma_emitted_nothing(b2);
    }
    size = match add_count(size, h) {
        Ok(n) => n,
        Err(e) => {
            return Err(e);
        },
    };
    let ghost head = contexts_bytes(args@) + array_header(len as nat);
    let mut j: usize = 0;
    while j < args.len()
        invariant
            j <= args@.len(),
            len == counted(args@),
            head == contexts_bytes(args@) + array_header(len as nat),
            args_fit(args@.take(j as int)),
            size == head.len() + args_bytes(args@.take(j as int)).len(),
            emitted(b0, b2, head),
            emitted(b2, *buf, args_bytes(args@.take(j as int))),
        decreases args@.len() - j,
    {
        let ghost bj = *buf;
        let ghost aj = args@[j as int];
        proof {
            lemma_args_prefix(args@, j + 1);
            assert(args@.take(j + 1).drop_last() =~= args@.take(j as int));
            assert(args@.take(j + 1).last() == aj);
        }
        let k = match &args[j] {
            ExpressionArgument::Value(v) => match write_value(buf, v) {
                Ok(k) => k,
                Err(e) => {
                    return Err(e);
                },
            },
            ExpressionArgument::FilterExpression(x) => match x.write(buf) {
                Ok(k) => k,
                Err(e) => {
                    return Err(e);
                },
            },
            ExpressionArgument::Context(_) => {
                proof {
                    lemma_emitted_nothing(bj);
                }
                0
            },
        };
        proof {
            let part = match aj {
                ExpressionArgument::Value(v) => value_bytes(v),
                ExpressionArgument::FilterExpression(x) => exp_bytes(x),
                ExpressionArgument::Context(_) => Seq::empty(),
            };
            lemma_emitted_chain(b2, bj, *buf, args_bytes(args@.take(j as int)), part);
        }
        size = match add_count(size, k) {
            Ok(n) => n,
            Err(e) => {
                return Err(e);
            },
        };
        j = j + 1;
    }
    proof {
        assert(args@.take(j as int) =~= args@);
        lemma_emitted_chain(b0, b2, *buf, head, args_bytes(args@));
    }
    Ok(size)
}

/// Writes an operator over its children: `[op, child, ...]`.
fn pack_expression(buf: &mut Option<Buffer>, op: ExpOp, children: &Vec<FilterExpression>) -> (r:
    Result<usize, EncodeError>)
    ensures
        header_fits(children@.len() + 1) && exps_fit(children@) && countable(
            array_header(children@.len() + 1) + int_bytes(op_code(op) as int) + exps_bytes(children@),
        ) ==> r == Ok::<usize, EncodeError>(
            (array_header(children@.len() + 1) + int_bytes(op_code(op) as int) + exps_bytes(
                children@,
            )).len() as usize,
        ) && emitted(
            *old(buf),
            *final(buf),
            array_header(children@.len() + 1) + int_bytes(op_code(op) as int) + exps_bytes(
                children@,
            ),
        ),
        !(header_fits(children@.len() + 1) && exps_fit(children@) && countable(
            array_header(children@.len() + 1) + int_bytes(op_code(op) as int) + exps_bytes(children@),
        )) ==> r == Err::<
            usize,
            EncodeError,
        >(EncodeError::TooLong),
    decreases children, 0nat,
{
    if children.len() >= 0xffff_ffff {
        return Err(EncodeError::TooLong);
    }
    let ghost b0 = *buf;
    let h = match pack_array_begin(buf, children.len() + 1) {
        Ok(h) => h,
        Err(e) => {
            return Err(e);
        },
    };
    let ghost b1 = *buf;
    let c = pack_integer(buf, op.code());
    let ghost b2 = *buf;
    let ghost head = array_header(children@.len() + 1) + int_bytes(op_code(op) as int);
    proof {
        lemma_emitted_chain(b0, b1, b2, array_header(children@.len() + 1), int_bytes(op_code(op) as int));
        lemma_emitted_nothing(b2);
    }
    let mut size: usize = h + c;
    let mut i: usize = 0;
    while i < children.len()
        invariant
            i <= children@.len(),
            header_fits(children@.len() + 1),
            head == array_header(children@.len() + 1) + int_bytes(op_code(op) as int),
            exps_fit(children@.take(i as int)),
            size == head.len() + exps_bytes(children@.take(i as int)).len(),
            emitted(b0, b2, head),
            emitted(b2, *buf, exps_bytes(children@.take(i as int))),
        decreases children@.len() - i,
    {
        let ghost bi = *buf;
        let ghost ci = children@[i as int];
        proof {
            lemma_exps_prefix(children@, i + 1);
            assert(children@.take(i + 1).drop_last() =~= children@.take(i as int));
            assert(children@.take(i + 1).last() == ci);
        }
        let k = match children[i].write(buf) {
            Ok(k) => k,
            Err(e) => {
                return Err(e);
            },
        };
        proof {
            lemma_emitted_chain(b2, bi, *buf, exps_bytes(children@.take(i as int)), exp_bytes(ci));
        }
        size = match add_count(size, k) {
            Ok(n) => n,
            Err(e) => {
                return Err(e);
            },
        };
        i = i + 1;
    }
    proof {
        assert(children@.take(i as int) =~= children@);
        lemma_emitted_chain(b0, b2, *buf, head, exps_bytes(children@));
    }
    Ok(size)
}

/// What `pack` does: a malformed expression is refused with `Malformed`
/// and the sink is left as it was; a well-formed one is written as
/// `write_outcome` says.
pub open spec fn pack_outcome(
    e: FilterExpression,
    before: Option<Buffer>,
    r: Result<usize, EncodeError>,
    after: Option<Buffer>,
) -> bool {
    &&& !exp_wf(e) ==> r == Err::<usize, EncodeError>(EncodeError::Malformed) && after == before
    &&& exp_wf(e) ==> write_outcome(e, before, r, after)
}

/// What writing `e` does, well formed or not: where its headers all hold
/// their lengths and its byte count fits a `usize`, it returns that count
/// and the sink receives exactly `exp_bytes(e)`; otherwise it fails with
/// `TooLong`.
pub open spec fn write_outcome(
    e: FilterExpression,
    before: Option<Buffer>,
    r: Result<usize, EncodeError>,
    after: Option<Buffer>,
) -> bool {
    &&& exp_fits(e) && countable(exp_bytes(e)) ==> r == Ok::<usize, EncodeError>(
        exp_bytes(e).len() as usize,
    ) && emitted(before, after, exp_bytes(e))
    &&& !(exp_fits(e) && countable(exp_bytes(e))) ==> r == Err::<usize, EncodeError>(
        EncodeError::TooLong,
    )
}

impl FilterExpression {
    /// Writes this expression to `buf`, or only counts its bytes when `buf`
    /// is `None`, and returns the number of bytes. A malformed expression is
    /// refused before anything is written.
    pub fn pack(&self, buf: &mut Option<Buffer>) -> (r: Result<usize, EncodeError>)
        ensures
            pack_outcome(*self, *old(buf), r, *final(buf)),
    {
        if !self.is_well_formed() {
            return Err(EncodeError::Malformed);
        }
        self.write(buf)
    }

    /// Whether this expression is well formed.
    pub fn is_well_formed(&self) -> (r: bool)
        ensures
            r == exp_wf(*self),
        decreases self, 1nat,
    {
        match &self.node {
            ExpNode::Compound { op, children } => exps_well_formed(children),
            ExpNode::Regex { flags, pattern, bin } => bin.is_well_formed(),
            ExpNode::Call { module, op_flags, arguments, bin } => args_well_formed(arguments)
                && bin.is_well_formed(),
            ExpNode::CallValue { module, op_flags, value, bin } => value.is_well_formed()
                && bin.is_well_formed(),
            ExpNode::Bin { .. } => true,
            ExpNode::BinType { .. } => true,
            ExpNode::Op { op, operand } => {
                let generic = match op {
                    ExpOp::Regex | ExpOp::Call | ExpOp::Bin | ExpOp::BinType => false,
                    _ => true,
                };
                generic && match operand {
                    Some(v) => v.is_well_formed(),
                    None => true,
                }
            },
            ExpNode::Literal { value } => !matches!(value, Value::List(_)) && value.is_well_formed(),
        }
    }

    /// Writes this expression, well formed or not.
    fn write(&self, buf: &mut Option<Buffer>) -> (r: Result<usize, EncodeError>)
        ensures
            write_outcome(*self, *old(buf), r, *final(buf)),
        decreases self, 1nat,
    {
        match &self.node {
            ExpNode::Compound { op, children } => pack_expression(buf, *op, children),
            ExpNode::Literal { value } => write_value(buf, value),
            _ => self.pack_command(buf),
        }
    }

    /// Encodes this expression in two passes: a size probe, then a write into
    /// a buffer of exactly the size found.
    pub fn encode(&self) -> (r: Result<Vec<u8>, EncodeError>)
        ensures
            !exp_wf(*self) ==> r == Err::<Vec<u8>, EncodeError>(EncodeError::Malformed),
            exp_wf(*self) && exp_fits(*self) && countable(exp_bytes(*self)) ==> (r matches Ok(bytes)
                && bytes@ == exp_bytes(*self)),
            exp_wf(*self) && !(exp_fits(*self) && countable(exp_bytes(*self))) ==> r == Err::<
                Vec<u8>,
                EncodeError,
            >(EncodeError::TooLong),
    {
        let mut probe: Option<Buffer> = None;
        let size = match self.pack(&mut probe) {
            Ok(n) => n,
            Err(e) => {
                return Err(e);
            },
        };
        let mut out = Some(Buffer::with_capacity(size));
        if let Err(e) = self.pack(&mut out) {
            return Err(e);
        }
        match out {
            Some(b) => {
                proof {
                    assert(b@ =~= exp_bytes(*self));
                }
                Ok(b.to_vec())
            },
            None => unreached(),
        }
    }

    /// Writes a node that is neither compound nor a bare value.
    #[verifier::rlimit(50)]
    fn pack_command(&self, buf: &mut Option<Buffer>) -> (r: Result<usize, EncodeError>)
        requires
            !(self.node is Compound),
            !(self.node is Literal),
        ensures
            write_outcome(*self, *old(buf), r, *final(buf)),
        decreases self, 0nat,
    {
        let ghost b0 = *buf;
        match &self.node {
            ExpNode::Regex { flags, pattern, bin } => {
                let ghost head = array_header(4) + int_bytes(op_code(ExpOp::Regex) as int);
                let h = pack_head(buf, 4, ExpOp::Regex.code());
                let ghost b1 = *buf;
                let f = pack_integer(buf, *flags);
                let ghost b2 = *buf;
                let p = match pack_raw_string(buf, pattern.as_str()) {
                    Ok(p) => p,
                    Err(e) => {
                        return Err(e);
                    },
                };
                let ghost b3 = *buf;
                let b = match bin.write(buf) {
                    Ok(b) => b,
                    Err(e) => {
                        return Err(e);
                    },
                };
                proof {
                    lemma_emitted_chain(b0, b1, b2, head, int_bytes(*flags as int));
                    lemma_emitted_chain(
                        b0,
                        b2,
                        b3,
                        head + int_bytes(*flags as int),
                        raw_string_bytes(pattern@),
                    );
                    lemma_emitted_chain(
                        b0,
                        b3,
                        *buf,
                        head + int_bytes(*flags as int) + raw_string_bytes(pattern@),
                        exp_bytes(**bin),
                    );
                }
                let total = h + f;
                let total = match add_count(total, p) {
                    Ok(n) => n,
                    Err(e) => {
                        return Err(e);
                    },
                };
                let total = match add_count(total, b) {
                    Ok(n) => n,
                    Err(e) => {
                        return Err(e);
                    },
                };
                Ok(total)
            },
            ExpNode::Call { module, op_flags, arguments, bin } => {
                let ghost head = call_head(*module, *op_flags);
                let ghost block = contexts_bytes(arguments@) + array_header(counted(arguments@))
                    + args_bytes(arguments@);
                let h = Self::pack_call_head(buf, *module, *op_flags);
                let ghost b1 = *buf;
                let a = match pack_arguments(buf, arguments) {
                    Ok(a) => a,
                    Err(e) => {
                        return Err(e);
                    },
                };
                let ghost b2 = *buf;
                let b = match bin.write(buf) {
                    Ok(b) => b,
                    Err(e) => {
                        return Err(e);
                    },
                };
                proof {
                    lemma_emitted_chain(b0, b1, b2, head, block);
                    assert(head + block =~= head + contexts_bytes(arguments@) + array_header(
                        counted(arguments@),
                    ) + args_bytes(arguments@));
                    lemma_emitted_chain(b0, b2, *buf, head + block, exp_bytes(**bin));
                }
                let total = h;
                let total = match add_count(total, a) {
                    Ok(n) => n,
                    Err(e) => {
                        return Err(e);
                    },
                };
                let total = match add_count(total, b) {
                    Ok(n) => n,
                    Err(e) => {
                        return Err(e);
                    },
                };
                Ok(total)
            },
            ExpNode::CallValue { module, op_flags, value, bin } => {
                let ghost head = call_head(*module, *op_flags);
                let h = Self::pack_call_head(buf, *module, *op_flags);
                let ghost b1 = *buf;
                let v = match write_value(buf, value) {
                    Ok(v) => v,
                    Err(e) => {
                        return Err(e);
                    },
                };
                let ghost b2 = *buf;
                let b = match bin.write(buf) {
                    Ok(b) => b,
                    Err(e) => {
                        return Err(e);
                    },
                };
                proof {
                    lemma_emitted_chain(b0, b1, b2, head, value_bytes(*value));
                    lemma_emitted_chain(b0, b2, *buf, head + value_bytes(*value), exp_bytes(**bin));
                }
                let total = h;
                let total = match add_count(total, v) {
                    Ok(n) => n,
                    Err(e) => {
                        return Err(e);
                    },
                };
                let total = match add_count(total, b) {
                    Ok(n) => n,
                    Err(e) => {
                        return Err(e);
                    },
                };
                Ok(total)
            },
            ExpNode::Bin { exp_type, name } => {
                let ghost head = array_header(3) + int_bytes(op_code(ExpOp::Bin) as int);
                let h = pack_head(buf, 3, ExpOp::Bin.code());
                let ghost b1 = *buf;
                let t = pack_integer(buf, exp_type.code());
                let ghost b2 = *buf;
                let n = match pack_raw_string(buf, name.as_str()) {
                    Ok(n) => n,
                    Err(e) => {
                        return Err(e);
                    },
                };
                proof {
                    lemma_emitted_chain(b0, b1, b2, head, int_bytes(type_code(*exp_type) as int));
                    lemma_emitted_chain(
                        b0,
                        b2,
                        *buf,
                        head + int_bytes(type_code(*exp_type) as int),
                        raw_string_bytes(name@),
                    );
                }
                let total = h + t;
                let total = match add_count(total, n) {
                    Ok(n) => n,
                    Err(e) => {
                        return Err(e);
                    },
                };
                Ok(total)
            },
            ExpNode::BinType { name } => {
                let ghost head = array_header(2) + int_bytes(op_code(ExpOp::BinType) as int);
                let h = pack_head(buf, 2, ExpOp::BinType.code());
                let ghost b1 = *buf;
                let n = match pack_raw_string(buf, name.as_str()) {
                    Ok(n) => n,
                    Err(e) => {
                        return Err(e);
                    },
                };
                proof {
                    lemma_emitted_chain(b0, b1, *buf, head, raw_string_bytes(name@));
                }
                let total = h;
                let total = match add_count(total, n) {
                    Ok(n) => n,
                    Err(e) => {
                        return Err(e);
                    },
                };
                Ok(total)
            },
            ExpNode::Op { op, operand } => match operand {
                Some(v) => {
                    let ghost head = array_header(2) + int_bytes(op_code(*op) as int);
                    let h = pack_head(buf, 2, op.code());
                    let ghost b1 = *buf;
                    let n = match write_value(buf, v) {
                        Ok(n) => n,
                        Err(e) => {
                            return Err(e);
                        },
                    };
                    proof {
                        lemma_emitted_chain(b0, b1, *buf, head, value_bytes(*v));
                    }
                    add_count(h, n)
                },
                None => Ok(pack_head(buf, 1, op.code())),
            },
            ExpNode::Compound { .. } | ExpNode::Literal { .. } => unreached(),
        }
    }

    /// Writes the start of a module call.
    fn pack_call_head(buf: &mut Option<Buffer>, module: ExpType, op_flags: i64) -> (r: usize)
        ensures
            r == call_head(module, op_flags).len(),
            emitted(*old(buf), *final(buf), call_head(module, op_flags)),
    {
        let ghost b0 = *buf;
        let h = pack_head(buf, 5, ExpOp::Call.code());
        let ghost b1 = *buf;
        let m = pack_integer(buf, module.code());
        let ghost b2 = *buf;
        let f = pack_integer(buf, op_flags);
        proof {
            let head = array_header(5) + int_bytes(op_code(ExpOp::Call) as int);
            lemma_emitted_chain(b0, b1, b2, head, int_bytes(type_code(module) as int));
            lemma_emitted_chain(
                b0,
                b2,
                *buf,
                head + int_bytes(type_code(module) as int),
                int_bytes(op_flags as int),
            );
        }
        h + m + f
    }
}

/// `e` is the operator `op` over exactly `children`.
pub open spec fn is_compound(e: FilterExpression, op: ExpOp, children: Seq<FilterExpression>) -> bool {
    match e.node {
        ExpNode::Compound { op: o, children: c } => o == op && c@ == children,
        _ => false,
    }
}

/// The record key, of the given type.
pub fn key(exp_type: ExpType) -> (r: FilterExpression)
    ensures
        r == (FilterExpression { node: ExpNode::Op { op: ExpOp::Key, operand: Some(Value::Int(type_code(exp_type))) } }),
{
    FilterExpression { node: ExpNode::Op { op: ExpOp::Key, operand: Some(Value::Int(exp_type.code())) } }
}

/// Whether the record's key is stored with it.
pub fn key_exists() -> (r: FilterExpression)
    ensures
        r == (FilterExpression { node: ExpNode::Op { op: ExpOp::KeyExists, operand: None } }),
{
    FilterExpression { node: ExpNode::Op { op: ExpOp::KeyExists, operand: None } }
}

/// The 64-bit integer bin of the given name.
pub fn int_bin(name: String) -> (r: FilterExpression)
    ensures
        r == (FilterExpression { node: ExpNode::Bin { exp_type: ExpType::INT, name } }),
{
    FilterExpression { node: ExpNode::Bin { exp_type: ExpType::INT, name } }
}

/// The string bin of the given name.
pub fn string_bin(name: String) -> (r: FilterExpression)
    ensures
        r == (FilterExpression { node: ExpNode::Bin { exp_type: ExpType::STRING, name } }),
{
    FilterExpression { node: ExpNode::Bin { exp_type: ExpType::STRING, name } }
}

/// The blob bin of the given name.
pub fn blob_bin(name: String) -> (r: FilterExpression)
    ensures
        r == (FilterExpression { node: ExpNode::Bin { exp_type: ExpType::BLOB, name } }),
{
    FilterExpression { node: ExpNode::Bin { exp_type: ExpType::BLOB, name } }
}

/// The 64-bit float bin of the given name.
pub fn float_bin(name: String) -> (r: FilterExpression)
    ensures
        r == (FilterExpression { node: ExpNode::Bin { exp_type: ExpType::FLOAT, name } }),
{
    FilterExpression { node: ExpNode::Bin { exp_type: ExpType::FLOAT, name } }
}

/// The GeoJSON bin of the given name.
pub fn geo_bin(name: String) -> (r: FilterExpression)
    ensures
        r == (FilterExpression { node: ExpNode::Bin { exp_type: ExpType::GEO, name } }),
{
    FilterExpression { node: ExpNode::Bin { exp_type: ExpType::GEO, name } }
}

/// The list bin of the given name.
pub fn list_bin(name: String) -> (r: FilterExpression)
    ensures
        r == (FilterExpression { node: ExpNode::Bin { exp_type: ExpType::LIST, name } }),
{
    FilterExpression { node: ExpNode::Bin { exp_type: ExpType::LIST, name } }
}

/// The map bin of the given name.
pub fn map_bin(name: String) -> (r: FilterExpression)
    ensures
        r == (FilterExpression { node: ExpNode::Bin { exp_type: ExpType::MAP, name } }),
{
    FilterExpression { node: ExpNode::Bin { exp_type: ExpType::MAP, name } }
}

/// The HyperLogLog bin of the given name.
pub fn hll_bin(name: String) -> (r: FilterExpression)
    ensures
        r == (FilterExpression { node: ExpNode::Bin { exp_type: ExpType::HLL, name } }),
{
    FilterExpression { node: ExpNode::Bin { exp_type: ExpType::HLL, name } }
}

/// Whether the bin of the given name exists: its particle type is not null.
pub fn bin_exists(name: String) -> (r: FilterExpression)
    ensures
        is_compound(r, ExpOp::NE, seq![
            FilterExpression { node: ExpNode::BinType { name } },
            FilterExpression { node: ExpNode::Literal { value: Value::Int(PARTICLE_NULL) } },
        ]),
{
    ne(bin_type(name), int_val(PARTICLE_NULL))
}

/// The particle type of the bin of the given name, as an integer.
pub fn bin_type(name: String) -> (r: FilterExpression)
    ensures
        r == (FilterExpression { node: ExpNode::BinType { name } }),
{
    FilterExpression { node: ExpNode::BinType { name } }
}

/// The record's set name.
pub fn set_name() -> (r: FilterExpression)
    ensures
        r == (FilterExpression { node: ExpNode::Op { op: ExpOp::SetName, operand: None } }),
{
    FilterExpression { node: ExpNode::Op { op: ExpOp::SetName, operand: None } }
}

/// The record's size on disk; zero where the store keeps it in memory.
pub fn device_size() -> (r: FilterExpression)
    ensures
        r == (FilterExpression { node: ExpNode::Op { op: ExpOp::DeviceSize, operand: None } }),
{
    FilterExpression { node: ExpNode::Op { op: ExpOp::DeviceSize, operand: None } }
}

/// The record's last update time, in nanoseconds since the epoch.
pub fn last_update() -> (r: FilterExpression)
    ensures
        r == (FilterExpression { node: ExpNode::Op { op: ExpOp::LastUpdate, operand: None } }),
{
    FilterExpression { node: ExpNode::Op { op: ExpOp::LastUpdate, operand: None } }
}

/// Milliseconds since the record was last updated.
pub fn since_update() -> (r: FilterExpression)
    ensures
        r == (FilterExpression { node: ExpNode::Op { op: ExpOp::SinceUpdate, operand: None } }),
{
    FilterExpression { node: ExpNode::Op { op: ExpOp::SinceUpdate, operand: None } }
}

/// The record's expiration time, in nanoseconds since the epoch.
pub fn void_time() -> (r: FilterExpression)
    ensures
        r == (FilterExpression { node: ExpNode::Op { op: ExpOp::VoidTime, operand: None } }),
{
    FilterExpression { node: ExpNode::Op { op: ExpOp::VoidTime, operand: None } }
}

/// The record's time to live, in seconds.
pub fn ttl() -> (r: FilterExpression)
    ensures
        r == (FilterExpression { node: ExpNode::Op { op: ExpOp::TTL, operand: None } }),
{
    FilterExpression { node: ExpNode::Op { op: ExpOp::TTL, operand: None } }
}

/// Whether the record is a tombstone.
pub fn is_tombstone() -> (r: FilterExpression)
    ensures
        r == (FilterExpression { node: ExpNode::Op { op: ExpOp::IsTombstone, operand: None } }),
{
    FilterExpression { node: ExpNode::Op { op: ExpOp::IsTombstone, operand: None } }
}

/// The record's digest modulo `modulo`.
pub fn digest_modulo(modulo: i64) -> (r: FilterExpression)
    ensures
        r == (FilterExpression { node: ExpNode::Op { op: ExpOp::DigestModulo, operand: Some(Value::Int(modulo)) } }),
{
    FilterExpression { node: ExpNode::Op { op: ExpOp::DigestModulo, operand: Some(Value::Int(modulo)) } }
}

/// Whether the string bin `bin` matches the regular expression `regex`,
/// under the given flags.
pub fn regex_compare(regex: String, flags: i64, bin: FilterExpression) -> (r: FilterExpression)
    ensures
        r == (FilterExpression { node: ExpNode::Regex { flags, pattern: regex, bin: Box::new(bin) } }),
{
    FilterExpression { node: ExpNode::Regex { flags, pattern: regex, bin: Box::new(bin) } }
}

/// Whether two GeoJSON values relate spatially.
pub fn geo_compare(left: FilterExpression, right: FilterExpression) -> (r: FilterExpression)
    ensures
        is_compound(r, ExpOp::Geo, seq![left, right]),
{
    FilterExpression { node: ExpNode::Compound { op: ExpOp::Geo, children: vec![left, right] } }
}

/// A 64-bit integer value.
pub fn int_val(val: i64) -> (r: FilterExpression)
    ensures
        r == (FilterExpression { node: ExpNode::Literal { value: Value::Int(val) } }),
{
    FilterExpression { node: ExpNode::Literal { value: Value::Int(val) } }
}

/// A boolean value.
pub fn bool_val(val: bool) -> (r: FilterExpression)
    ensures
        r == (FilterExpression { node: ExpNode::Literal { value: Value::Bool(val) } }),
{
    FilterExpression { node: ExpNode::Literal { value: Value::Bool(val) } }
}

/// A string value.
pub fn string_val(val: String) -> (r: FilterExpression)
    ensures
        r == (FilterExpression { node: ExpNode::Literal { value: Value::String(val) } }),
{
    FilterExpression { node: ExpNode::Literal { value: Value::String(val) } }
}

/// A blob value.
pub fn blob_val(val: Vec<u8>) -> (r: FilterExpression)
    ensures
        r == (FilterExpression { node: ExpNode::Literal { value: Value::Blob(val) } }),
{
    FilterExpression { node: ExpNode::Literal { value: Value::Blob(val) } }
}

/// A list value, quoted so that it is not read as an operator.
pub fn list_val(val: Vec<Value>) -> (r: FilterExpression)
    ensures
        r == (FilterExpression { node: ExpNode::Op { op: ExpOp::Quoted, operand: Some(Value::List(val)) } }),
{
    FilterExpression { node: ExpNode::Op { op: ExpOp::Quoted, operand: Some(Value::List(val)) } }
}

/// A map value, from its entries.
pub fn map_val(val: Vec<(Value, Value)>) -> (r: FilterExpression)
    ensures
        r == (FilterExpression { node: ExpNode::Literal { value: Value::Dictionary(val) } }),
{
    FilterExpression { node: ExpNode::Literal { value: Value::Dictionary(val) } }
}

/// A GeoJSON value.
pub fn geo_val(val: String) -> (r: FilterExpression)
    ensures
        r == (FilterExpression { node: ExpNode::Literal { value: Value::GeoJSON(val) } }),
{
    FilterExpression { node: ExpNode::Literal { value: Value::GeoJSON(val) } }
}

/// The nil value.
pub fn nil() -> (r: FilterExpression)
    ensures
        r == (FilterExpression { node: ExpNode::Literal { value: Value::Nil } }),
{
    FilterExpression { node: ExpNode::Literal { value: Value::Nil } }
}

/// Logical negation.
pub fn not(exp: FilterExpression) -> (r: FilterExpression)
    ensures
        is_compound(r, ExpOp::Not, seq![exp]),
{
    let children = vec![exp];
    assert(children@ =~= seq![exp]);
    FilterExpression { node: ExpNode::Compound { op: ExpOp::Not, children } }
}

/// Logical conjunction of any number of expressions.
pub fn and(exps: Vec<FilterExpression>) -> (r: FilterExpression)
    ensures
        is_compound(r, ExpOp::And, exps@),
{
    FilterExpression { node: ExpNode::Compound { op: ExpOp::And, children: exps } }
}

/// Logical disjunction of any number of expressions.
pub fn or(exps: Vec<FilterExpression>) -> (r: FilterExpression)
    ensures
        is_compound(r, ExpOp::Or, exps@),
{
    FilterExpression { node: ExpNode::Compound { op: ExpOp::Or, children: exps } }
}

/// The comparison `left == right`.
pub fn eq(left: FilterExpression, right: FilterExpression) -> (r: FilterExpression)
    ensures
        is_compound(r, ExpOp::EQ, seq![left, right]),
{
    FilterExpression { node: ExpNode::Compound { op: ExpOp::EQ, children: vec![left, right] } }
}

/// The comparison `left != right`.
pub fn ne(left: FilterExpression, right: FilterExpression) -> (r: FilterExpression)
    ensures
        is_compound(r, ExpOp::NE, seq![left, right]),
{
    FilterExpression { node: ExpNode::Compound { op: ExpOp::NE, children: vec![left, right] } }
}

/// The comparison `left > right`.
pub fn gt(left: FilterExpression, right: FilterExpression) -> (r: FilterExpression)
    ensures
        is_compound(r, ExpOp::GT, seq![left, right]),
{
    FilterExpression { node: ExpNode::Compound { op: ExpOp::GT, children: vec![left, right] } }
}

/// The comparison `left >= right`.
pub fn ge(left: FilterExpression, right: FilterExpression) -> (r: FilterExpression)
    ensures
        is_compound(r, ExpOp::GE, seq![left, right]),
{
    FilterExpression { node: ExpNode::Compound { op: ExpOp::GE, children: vec![left, right] } }
}

/// The comparison `left < right`.
pub fn lt(left: FilterExpression, right: FilterExpression) -> (r: FilterExpression)
    ensures
        is_compound(r, ExpOp::LT, seq![left, right]),
{
    FilterExpression { node: ExpNode::Compound { op: ExpOp::LT, children: vec![left, right] } }
}

/// The comparison `left <= right`.
pub fn le(left: FilterExpression, right: FilterExpression) -> (r: FilterExpression)
    ensures
        is_compound(r, ExpOp::LE, seq![left, right]),
{
    FilterExpression { node: ExpNode::Compound { op: ExpOp::LE, children: vec![left, right] } }
}

/// A module call on `bin` with an argument list; context arguments name the
/// nested element that the call works on.
pub fn module_call(
    module: ExpType,
    op_flags: i64,
    arguments: Vec<ExpressionArgument>,
    bin: FilterExpression,
) -> (r: FilterExpression)
    ensures
        r == (FilterExpression {
            node: ExpNode::Call { module, op_flags, arguments, bin: Box::new(bin) },
        }),
{
    FilterExpression { node: ExpNode::Call { module, op_flags, arguments, bin: Box::new(bin) } }
}

/// A module call on `bin` whose one argument is `value`.
pub fn module_call_value(module: ExpType, op_flags: i64, value: Value, bin: FilterExpression) -> (r:
    FilterExpression)
    ensures
        r == (FilterExpression {
            node: ExpNode::CallValue { module, op_flags, value, bin: Box::new(bin) },
        }),
{
    FilterExpression { node: ExpNode::CallValue { module, op_flags, value, bin: Box::new(bin) } }
}

/// The byte opens an array.
pub open spec fn is_array_start(b: u8) -> bool {
    (0x90 <= b <= 0x9f) || b == 0xdc || b == 0xdd
}

/// A size probe and a write of the same expression agree: both calls of
/// `pack` return the same result, and the count a probe returns is the
/// number of bytes that the write appends, which are `exp_bytes(e)`.
pub proof fn lemma_probe_matches_write(
    e: FilterExpression,
    probe: Result<usize, EncodeError>,
    probed: Option<Buffer>,
    write: Result<usize, EncodeError>,
    before: Buffer,
    after: Option<Buffer>,
)
    requires
        pack_outcome(e, None, probe, probed),
        pack_outcome(e, Some(before), write, after),
    ensures
        probe == write,
        probe is Ok ==> probed is None && after is Some,
        probe is Ok ==> after->0@.len() == before@.len() + probe->Ok_0,
        probe is Ok ==> after->0@.subrange(before@.len() as int, after->0@.len() as int) == exp_bytes(
            e,
        ),
{
    if probe is Ok {
        let a = after->0;
        assert(a@.subrange(before@.len() as int, a@.len() as int) =~= exp_bytes(e));
    }
}

/// Encoding is deterministic: two writes of one expression into two empty
/// buffers return the same result and, when they succeed, leave the same
/// bytes in both.
pub proof fn lemma_encoding_deterministic(
    e: FilterExpression,
    first: Result<usize, EncodeError>,
    first_before: Buffer,
    first_after: Option<Buffer>,
    second: Result<usize, EncodeError>,
    second_before: Buffer,
    second_after: Option<Buffer>,
)
    requires
        first_before@.len() == 0,
        second_before@.len() == 0,
        pack_outcome(e, Some(first_before), first, first_after),
        pack_outcome(e, Some(second_before), second, second_after),
    ensures
        first == second,
        first is Ok ==> first_after->0@ == second_after->0@,
{
    if first is Ok {
        assert(first_after->0@ =~= exp_bytes(e));
        assert(second_after->0@ =~= exp_bytes(e));
    }
}

/// A list value is written quoted: an array of two whose first element is
/// the QUOTED code, and the list after it.
pub proof fn lemma_list_literal_quoted(items: Vec<Value>)
    ensures
        exp_bytes(
            FilterExpression {
                node: ExpNode::Op { op: ExpOp::Quoted, operand: Some(Value::List(items)) },
            },
        ) == seq![0x92u8, 0x7eu8] + value_bytes(Value::List(items)),
{
    assert(array_header(2) + int_bytes(126) =~= seq![0x92u8, 0x7eu8]);
}

/// A literal that is not a list is written as its value alone, and no array
/// header leads it.
pub proof fn lemma_scalar_literal_bare(v: Value)
    requires
        !(v is List),
    ensures
        exp_bytes(FilterExpression { node: ExpNode::Literal { value: v } }) == value_bytes(v),
        value_bytes(v).len() > 0,
        !is_array_start(value_bytes(v)[0]),
{
}

/// An operator over `n` children is written as an array of `n + 1`
/// elements: the operator code, then each child in order.
pub proof fn lemma_compound_arity(e: FilterExpression, op: ExpOp, children: Seq<FilterExpression>)
    requires
        is_compound(e, op, children),
    ensures
        exp_bytes(e) == array_header(children.len() + 1) + int_bytes(op_code(op) as int)
            + exps_bytes(children),
{
}

/// An empty context path, wherever it stands among a module call's
/// arguments, adds no bytes and is not counted as an argument.
pub proof fn lemma_empty_context_omitted(
    before: Seq<ExpressionArgument>,
    after: Seq<ExpressionArgument>,
    path: Vec<CdtContext>,
)
    requires
        path@.len() == 0,
    ensures
        contexts_bytes(before.push(ExpressionArgument::Context(path)) + after) == contexts_bytes(
            before + after,
        ),
        counted(before.push(ExpressionArgument::Context(path)) + after) == counted(before + after),
        args_bytes(before.push(ExpressionArgument::Context(path)) + after) == args_bytes(
            before + after,
        ),
        contexts_fit(before.push(ExpressionArgument::Context(path)) + after) == contexts_fit(
            before + after,
        ),
        args_fit(before.push(ExpressionArgument::Context(path)) + after) == args_fit(
            before + after,
        ),
        args_wf(before.push(ExpressionArgument::Context(path)) + after) == args_wf(before + after),
    decreases after.len(),
{
    let with = before.push(ExpressionArgument::Context(path)) + after;
    if after.len() == 0 {
        assert(with.drop_last() =~= before);
        assert(before + after =~= before);
        assert(contexts_bytes(before) + Seq::<u8>::empty() =~= contexts_bytes(before));
        assert(args_bytes(before) + Seq::<u8>::empty() =~= args_bytes(before));
    } else {
        let shorter = after.drop_last();
        lemma_empty_context_omitted(before, shorter, path);
        assert(with.drop_last() =~= before.push(ExpressionArgument::Context(path)) + shorter);
        assert((before + after).drop_last() =~= before + shorter);
        assert(with.last() == after.last());
        assert((before + after).last() == after.last());
    }
}

/// A module call written with an empty context path among its arguments,
/// wherever it stands, is the same call as one without it: the same bytes,
/// the same argument count, and the same outcome of `pack`.
pub proof fn lemma_empty_context_call(
    with_path: FilterExpression,
    without_path: FilterExpression,
    before: Seq<ExpressionArgument>,
    after: Seq<ExpressionArgument>,
    path: Vec<CdtContext>,
)
    requires
        path@.len() == 0,
        with_path.node is Call,
        without_path.node is Call,
        with_path.node->Call_module == without_path.node->Call_module,
        with_path.node->Call_op_flags == without_path.node->Call_op_flags,
        with_path.node->Call_bin == without_path.node->Call_bin,
        with_path.node->Call_arguments@ == before.push(ExpressionArgument::Context(path)) + after,
        without_path.node->Call_arguments@ == before + after,
    ensures
        exp_bytes(with_path) == exp_bytes(without_path),
        exp_fits(with_path) == exp_fits(without_path),
        exp_wf(with_path) == exp_wf(without_path),
        counted(with_path.node->Call_arguments@) == counted(without_path.node->Call_arguments@),
        forall|before_sink: Option<Buffer>, r: Result<usize, EncodeError>, after_sink: Option<Buffer>|
            pack_outcome(with_path, before_sink, r, after_sink) == pack_outcome(
                without_path,
                before_sink,
                r,
                after_sink,
            ),
{
    lemma_empty_context_omitted(before, after, path);
}

/// A list held bare as a literal would read as an operator array, so such a
/// node is malformed and `pack` refuses it.
pub proof fn lemma_bare_list_rejected(items: Vec<Value>)
    ensures
        !exp_wf(FilterExpression { node: ExpNode::Literal { value: Value::List(items) } }),
{
}

/// REGEX, CALL, BIN and BIN_TYPE need shapes of their own: a generic node
/// with one of them is malformed and `pack` refuses it.
pub proof fn lemma_special_ops_not_generic(op: ExpOp, operand: Option<Value>)
    requires
        !is_generic_op(op),
    ensures
        !exp_wf(FilterExpression { node: ExpNode::Op { op, operand } }),
{
}

} // verus!
