//! The expression tree produced by the parser and the evaluator that
//! resolves it into concrete rolled values.

use vstd::multiset::Multiset;
use vstd::prelude::*;

verus! {

/// An arithmetic operator. `Sub` treats the first operand as the base and
/// subtracts the rest; `Add` and `Mul` fold all operands.
#[derive(Debug, PartialEq, Eq, Structural, Clone, Copy)]
pub enum Operation {
    Add,
    Sub,
    Mul,
}

impl Operation {
    /// Binding strength of the operator: `Mul` binds tighter than `Add`/`Sub`.
    pub open spec fn spec_precedence(self) -> u32 {
        match self {
            Operation::Add => 1,
            Operation::Sub => 1,
            Operation::Mul => 2,
        }
    }

    pub fn precedence(&self) -> (p: u32)
        ensures
            p == self.spec_precedence(),
    {
        match self {
            Operation::Add => 1,
            Operation::Sub => 1,
            Operation::Mul => 2,
        }
    }
}

/// A flattened n-ary operation node: `1 + 2 + 3` is one `Op` with three
/// arguments, not two nested binary additions.
#[derive(Debug, PartialEq, Eq)]
pub struct Op {
    pub operation: Operation,
    pub arguments: Vec<Exp>,
}

/// A parsed-but-not-evaluated expression.
#[derive(Debug, PartialEq, Eq)]
pub enum Exp {
    Const(i32),
    Roll(Box<Roll>),
    Op(Op),
}

/// Which of the sorted rolled values a roll retains when summing.
#[derive(Debug, PartialEq, Eq)]
pub enum Keep {
    Lowest(Exp),
    Highest(Exp),
    All,
}

/// A dice roll whose die count and side count are themselves expressions.
#[derive(Debug, PartialEq, Eq)]
pub struct Roll {
    pub dice: Exp,
    pub sides: Exp,
    pub keep: Keep,
}

/// The mathematical model of an `Exp`: the same tree with `Seq` in place of
/// `Vec` and unbounded integers in place of `i32`.
pub enum ExpModel {
    Const(int),
    Roll(Box<RollModel>),
    Op(OpModel),
}

pub struct OpModel {
    pub operation: Operation,
    pub arguments: Seq<ExpModel>,
}

pub enum KeepModel {
    Lowest(Box<ExpModel>),
    Highest(Box<ExpModel>),
    All,
}

pub struct RollModel {
    pub dice: ExpModel,
    pub sides: ExpModel,
    pub keep: KeepModel,
}

impl Exp {
    /// The model of this expression tree.
    pub open spec fn model(self) -> ExpModel
        decreases self, 1int,
    {
        match self {
            Exp::Const(n) => ExpModel::Const(n as int),
            Exp::Roll(r) => ExpModel::Roll(
                Box::new(
                    RollModel {
                        dice: r.dice.model(),
                        sides: r.sides.model(),
                        keep: r.keep.model(),
                    },
                ),
            ),
            Exp::Op(op) => ExpModel::Op(
                OpModel { operation: op.operation, arguments: Exp::model_seq(op.arguments@) },
            ),
        }
    }

    /// The models of a sequence of expressions, in order.
    pub open spec fn model_seq(s: Seq<Exp>) -> Seq<ExpModel>
        decreases s, 0int,
    {
        if s.len() == 0 {
            Seq::empty()
        } else {
            Exp::model_seq(s.drop_last()).push(s.last().model())
        }
    }
}

impl Keep {
    pub open spec fn model(self) -> KeepModel
        decreases self, 1int,
    {
        match self {
            Keep::Lowest(e) => KeepModel::Lowest(Box::new(e.model())),
            Keep::Highest(e) => KeepModel::Highest(Box::new(e.model())),
            Keep::All => KeepModel::All,
        }
    }
}

/// An evaluated expression, structurally parallel to `Exp`: literal values,
/// rolled dice with full provenance, and combined operator results.
#[derive(Debug, PartialEq, Eq)]
pub enum Value {
    Const(i32),
    Rolled(Rolled),
    Op { op: Operation, values: Vec<Value> },
}

/// The outcome of one dice roll: the evaluated die count and side count,
/// plus the partitioned rolled values.
#[derive(Debug, PartialEq, Eq)]
pub struct Rolled {
    pub dice: Box<Value>,
    pub sides: Box<Value>,
    pub kept: Box<Kept>,
}

/// Which partition of a roll is kept, carrying the clamped keep count.
#[derive(Debug, PartialEq, Eq)]
pub enum KeptRule {
    All,
    Lowest(Value),
    Highest(Value),
}

/// The two partitions of the sorted roll results. Exactly one partition is
/// the kept one per the rule; the other is retained for rendering.
#[derive(Debug, PartialEq, Eq)]
pub struct Kept {
    pub keep: KeptRule,
    pub retained: Value,
    pub lowest: Vec<i32>,
    pub highest: Vec<i32>,
}

/// The absolute value of an `i32`, as an unbounded integer.
pub open spec fn abs_int(v: i32) -> int {
    if v >= 0 {
        v as int
    } else {
        -(v as int)
    }
}

/// The evaluated die count as used by the roller: negative counts roll
/// nothing.
pub open spec fn dice_count(dval: i32) -> int {
    if dval > 0 {
        dval as int
    } else {
        0
    }
}

/// A requested keep count clamped to the number of dice actually rolled.
pub open spec fn clamp_count(requested: i32, d: int) -> int {
    if requested < 0 {
        0
    } else if requested as int > d {
        d
    } else {
        requested as int
    }
}

/// What a single die face may read when the die has `s` sides (`s` is the
/// absolute side count, so it may reach `i32::MAX + 1`). A zero-sided die
/// always reads `0`; otherwise the face is one-indexed, and the one
/// unrepresentable face wraps to `i32::MIN`.
pub open spec fn face_ok(face: i32, s: int) -> bool {
    if s == 0 {
        face == 0
    } else if s <= i32::MAX {
        1 <= face <= s
    } else {
        face == i32::MIN || 1 <= face
    }
}

pub open spec fn all_faces_ok(fs: Seq<i32>, s: int) -> bool {
    forall|i: int| 0 <= i < fs.len() ==> face_ok(fs[i], s)
}

/// The sequence is sorted in ascending order.
pub open spec fn sorted(s: Seq<i32>) -> bool {
    forall|i: int, j: int| 0 <= i <= j < s.len() ==> s[i] <= s[j]
}

/// The sum of a sequence, folded left with `i32` wrapping addition.
pub open spec fn wrap_sum(s: Seq<i32>) -> i32
    decreases s.len(),
{
    if s.len() == 0 {
        0
    } else {
        wrap_sum(s.drop_last()).wrapping_add(s.last())
    }
}

/// The product of a sequence, folded left with `i32` wrapping
/// multiplication.
pub open spec fn wrap_prod(s: Seq<i32>) -> i32
    decreases s.len(),
{
    if s.len() == 0 {
        1
    } else {
        wrap_prod(s.drop_last()).wrapping_mul(s.last())
    }
}

/// The first element minus all the others, with `i32` wrapping subtraction.
pub open spec fn wrap_sub_chain(s: Seq<i32>) -> i32
    decreases s.len(),
{
    if s.len() == 0 {
        0
    } else if s.len() == 1 {
        s[0]
    } else {
        wrap_sub_chain(s.drop_last()).wrapping_sub(s.last())
    }
}

/// How an operator combines the numeric values of its operands.
pub open spec fn combine(op: Operation, vals: Seq<i32>) -> i32 {
    match op {
        Operation::Add => wrap_sum(vals),
        Operation::Sub => wrap_sub_chain(vals),
        Operation::Mul => wrap_prod(vals),
    }
}

impl Kept {
    /// The numeric value of a roll: the sum of whichever partition the rule
    /// designates as kept.
    pub open spec fn spec_val(self) -> i32 {
        match self.keep {
            KeptRule::Lowest(_) => wrap_sum(self.lowest@),
            _ => wrap_sum(self.highest@),
        }
    }

    /// Bookkeeping invariant of a roll outcome, given the evaluated die
    /// count and side count: the two partitions split the sorted faces, each
    /// face is in range, and the kept partition has the clamped length the
    /// rule asked for.
    pub open spec fn wf(self, dval: i32, sval: i32) -> bool
        decreases self, 2int,
    {
        let d = dice_count(dval);
        let s = abs_int(sval);
        &&& self.lowest@.len() + self.highest@.len() == d
        &&& sorted(self.lowest@ + self.highest@)
        &&& all_faces_ok(self.lowest@ + self.highest@, s)
        &&& self.retained.wf()
        &&& match self.keep {
            KeptRule::All => self.lowest@.len() == 0 && self.retained == Value::Const(d as i32),
            KeptRule::Lowest(nv) => nv == Value::Const(
                clamp_count(self.retained.spec_value(), d) as i32,
            ) && self.lowest@.len() == clamp_count(self.retained.spec_value(), d),
            KeptRule::Highest(nv) => nv == Value::Const(
                clamp_count(self.retained.spec_value(), d) as i32,
            ) && self.highest@.len() == clamp_count(self.retained.spec_value(), d),
        }
    }
}

impl Rolled {
    /// The numeric value of the roll outcome.
    pub open spec fn spec_val(self) -> i32 {
        self.kept.spec_val()
    }
}

impl Value {
    /// The numeric value of an evaluated tree: literals stand for
    /// themselves, rolls for the sum of their kept partition, operator nodes
    /// for the wrapping combination of their operands.
    pub open spec fn spec_value(self) -> i32
        decreases self, 1int,
    {
        match self {
            Value::Const(v) => v,
            Value::Rolled(r) => r.kept.spec_val(),
            Value::Op { op, values } => combine(op, Value::spec_value_seq(values@)),
        }
    }

    /// The numeric values of a sequence of evaluated trees, in order.
    pub open spec fn spec_value_seq(s: Seq<Value>) -> Seq<i32>
        decreases s, 0int,
    {
        if s.len() == 0 {
            Seq::empty()
        } else {
            Value::spec_value_seq(s.drop_last()).push(s.last().spec_value())
        }
    }

    /// Well-formedness of an evaluated tree: operator nodes are non-empty
    /// and every roll outcome satisfies its bookkeeping invariant.
    pub open spec fn wf(self) -> bool
        decreases self, 1int,
    {
        match self {
            Value::Const(_) => true,
            Value::Rolled(r) => {
                &&& r.dice.wf()
                &&& r.sides.wf()
                &&& r.kept.wf(r.dice.spec_value(), r.sides.spec_value())
            },
            Value::Op { op, values } => values@.len() >= 1 && Value::all_wf(values@),
        }
    }

    pub open spec fn all_wf(s: Seq<Value>) -> bool
        decreases s, 0int,
    {
        if s.len() == 0 {
            true
        } else {
            Value::all_wf(s.drop_last()) && s.last().wf()
        }
    }
}

pub proof fn lemma_all_wf_index(s: Seq<Value>)
    requires
        Value::all_wf(s),
    ensures
        forall|i: int| 0 <= i < s.len() ==> (#[trigger] s[i]).wf(),
    decreases s.len(),
{
    if s.len() > 0 {
        lemma_all_wf_index(s.drop_last());
        assert forall|i: int| 0 <= i < s.len() implies (#[trigger] s[i]).wf() by {
            if i < s.len() - 1 {
                assert(s[i] == s.drop_last()[i]);
            } else {
                assert(s[i] == s.last());
            }
        }
    }
}

pub proof fn lemma_value_seq_index(s: Seq<Value>)
    ensures
        Value::spec_value_seq(s).len() == s.len(),
        forall|i: int|
            0 <= i < s.len() ==> Value::spec_value_seq(s)[i] == (#[trigger] s[i]).spec_value(),
    decreases s.len(),
{
    if s.len() > 0 {
        lemma_value_seq_index(s.drop_last());
        assert forall|i: int|
            0 <= i < s.len() implies Value::spec_value_seq(s)[i] == (
        #[trigger] s[i]).spec_value() by {
            if i < s.len() - 1 {
                assert(s[i] == s.drop_last()[i]);
                assert(Value::spec_value_seq(s)[i] == Value::spec_value_seq(s.drop_last())[i]);
            } else {
                assert(s[i] == s.last());
            }
        }
    }
}

proof fn lemma_wrap_sum_step(s: Seq<i32>, i: int)
    requires
        0 <= i < s.len(),
    ensures
        wrap_sum(s.take(i + 1)) == wrap_sum(s.take(i)).wrapping_add(s[i]),
{
    assert(s.take(i + 1).drop_last() =~= s.take(i));
    assert(s.take(i + 1).last() == s[i]);
}

proof fn lemma_wrap_prod_step(s: Seq<i32>, i: int)
    requires
        0 <= i < s.len(),
    ensures
        wrap_prod(s.take(i + 1)) == wrap_prod(s.take(i)).wrapping_mul(s[i]),
{
    assert(s.take(i + 1).drop_last() =~= s.take(i));
    assert(s.take(i + 1).last() == s[i]);
}

proof fn lemma_wrap_sub_chain_step(s: Seq<i32>, i: int)
    requires
        1 <= i < s.len(),
    ensures
        wrap_sub_chain(s.take(i + 1)) == wrap_sub_chain(s.take(i)).wrapping_sub(s[i]),
{
    assert(s.take(i + 1).drop_last() =~= s.take(i));
    assert(s.take(i + 1).last() == s[i]);
}

/// The wrapping sum of a vector of faces.
fn wrap_sum_vec(v: &Vec<i32>) -> (s: i32)
    ensures
        s == wrap_sum(v@),
{
    let mut acc: i32 = 0;
    let mut i: usize = 0;
    while i < v.len()
        invariant
            0 <= i <= v.len(),
            acc == wrap_sum(v@.take(i as int)),
        decreases v.len() - i,
    {
        proof {
            lemma_wrap_sum_step(v@, i as int);
        }
        acc = acc.wrapping_add(v[i]);
        i = i + 1;
    }
    proof {
        assert(v@.take(v@.len() as int) =~= v@);
    }
    acc
}

impl Kept {
    /// The numeric value of the roll: the sum of the partition designated
    /// as kept by the rule.
    pub fn val(&self) -> (v: i32)
        ensures
            v == self.spec_val(),
    {
        let to_sum = match &self.keep {
            KeptRule::Lowest(_) => &self.lowest,
            _ => &self.highest,
        };
        wrap_sum_vec(to_sum)
    }
}

impl Rolled {
    /// The numeric value of the roll outcome.
    pub fn val(&self) -> (v: i32)
        ensures
            v == self.spec_val(),
    {
        self.kept.val()
    }
}

impl Value {
    /// Collapse an evaluated tree to its final integer.
    #[verifier::loop_isolation(false)]
    pub fn value(&self) -> (v: i32)
        requires
            self.wf(),
        ensures
            v == self.spec_value(),
        decreases *self,
    {
        match self {
            Value::Const(val) => *val,
            Value::Rolled(rolled) => rolled.val(),
            Value::Op { op, values } => {
                proof {
                    lemma_all_wf_index(values@);
                    lemma_value_seq_index(values@);
                }
                let ghost vals = Value::spec_value_seq(values@);
                match op {
                    Operation::Add => {
                        let mut acc: i32 = 0;
                        let mut i: usize = 0;
                        while i < values.len()
                            invariant
                                0 <= i <= values.len(),
                                vals == Value::spec_value_seq(values@),
                                vals.len() == values@.len(),
                                forall|j: int|
                                    0 <= j < values@.len() ==> (#[trigger] values@[j]).wf() && vals[j]
                                        == values@[j].spec_value(),
                                acc == wrap_sum(vals.take(i as int)),
                            decreases values.len() - i,
                        {
                            proof {
                                lemma_wrap_sum_step(vals, i as int);
                                assert(decreases_to!(*self => values@[i as int]));
                            }
                            acc = acc.wrapping_add(values[i].value());
                            i = i + 1;
                        }
                        proof {
                            assert(vals.take(vals.len() as int) =~= vals);
                        }
                        acc
                    },
                    Operation::Mul => {
                        let mut acc: i32 = 1;
                        let mut i: usize = 0;
                        while i < values.len()
                            invariant
                                0 <= i <= values.len(),
                                vals == Value::spec_value_seq(values@),
                                vals.len() == values@.len(),
                                forall|j: int|
                                    0 <= j < values@.len() ==> (#[trigger] values@[j]).wf() && vals[j]
                                        == values@[j].spec_value(),
                                acc == wrap_prod(vals.take(i as int)),
                            decreases values.len() - i,
                        {
                            proof {
                                lemma_wrap_prod_step(vals, i as int);
                                assert(decreases_to!(*self => values@[i as int]));
                            }
                            acc = acc.wrapping_mul(values[i].value());
                            i = i + 1;
                        }
                        proof {
                            assert(vals.take(vals.len() as int) =~= vals);
                        }
                        acc
                    },
                    Operation::Sub => {
                        let mut acc: i32 = values[0].value();
                        let mut i: usize = 1;
                        proof {
                            assert(vals.take(1) =~= seq![vals[0]]);
                        }
                        while i < values.len()
                            invariant
                                1 <= i <= values.len(),
                                vals == Value::spec_value_seq(values@),
                                vals.len() == values@.len(),
                                values@.len() >= 1,
                                forall|j: int|
                                    0 <= j < values@.len() ==> (#[trigger] values@[j]).wf() && vals[j]
                                        == values@[j].spec_value(),
                                acc == wrap_sub_chain(vals.take(i as int)),
                            decreases values.len() - i,
                        {
                            proof {
                                lemma_wrap_sub_chain_step(vals, i as int);
                                assert(decreases_to!(*self => values@[i as int]));
                            }
                            acc = acc.wrapping_sub(values[i].value());
                            i = i + 1;
                        }
                        proof {
                            assert(vals.take(vals.len() as int) =~= vals);
                        }
                        acc
                    },
                }
            },
        }
    }

    /// Binding strength of the node when rendered: operator nodes bind as
    /// their operator, everything else is atomic.
    pub open spec fn spec_precedence(self) -> u32 {
        match self {
            Value::Op { op, .. } => op.spec_precedence(),
            _ => 100,
        }
    }

    pub fn precedence(&self) -> (p: u32)
        ensures
            p == self.spec_precedence(),
    {
        match self {
            Value::Op { op, .. } => op.precedence(),
            _ => 100,
        }
    }
}

impl Exp {
    /// Wrap a roll description into an expression node.
    pub fn roll(roll: Roll) -> (e: Exp)
        ensures
            e == Exp::Roll(Box::new(roll)),
    {
        Exp::Roll(Box::new(roll))
    }

    /// An n-ary addition node over the given operands.
    pub fn add(vec: Vec<Exp>) -> (e: Exp)
        ensures
            e == Exp::Op(Op { operation: Operation::Add, arguments: vec }),
    {
        Exp::Op(Op { operation: Operation::Add, arguments: vec })
    }

    /// An n-ary subtraction node over the given operands.
    pub fn sub(vec: Vec<Exp>) -> (e: Exp)
        ensures
            e == Exp::Op(Op { operation: Operation::Sub, arguments: vec }),
    {
        Exp::Op(Op { operation: Operation::Sub, arguments: vec })
    }

    /// An n-ary multiplication node over the given operands.
    pub fn mul(vec: Vec<Exp>) -> (e: Exp)
        ensures
            e == Exp::Op(Op { operation: Operation::Mul, arguments: vec }),
    {
        Exp::Op(Op { operation: Operation::Mul, arguments: vec })
    }
}

impl Exp {
    /// Well-formedness of an expression tree: every operator node has at
    /// least one operand. The builder establishes this; the evaluator
    /// requires it.
    pub open spec fn wf(self) -> bool
        decreases self, 1int,
    {
        match self {
            Exp::Const(_) => true,
            Exp::Roll(r) => r.dice.wf() && r.sides.wf() && r.keep.wf(),
            Exp::Op(op) => op.arguments@.len() >= 1 && Exp::all_wf(op.arguments@),
        }
    }

    pub open spec fn all_wf(s: Seq<Exp>) -> bool
        decreases s, 0int,
    {
        if s.len() == 0 {
            true
        } else {
            Exp::all_wf(s.drop_last()) && s.last().wf()
        }
    }
}

impl Keep {
    pub open spec fn wf(self) -> bool
        decreases self, 2int,
    {
        match self {
            Keep::Lowest(e) => e.wf(),
            Keep::Highest(e) => e.wf(),
            Keep::All => true,
        }
    }
}

pub proof fn lemma_exp_all_wf_index(s: Seq<Exp>)
    requires
        Exp::all_wf(s),
    ensures
        forall|i: int| 0 <= i < s.len() ==> (#[trigger] s[i]).wf(),
    decreases s.len(),
{
    if s.len() > 0 {
        lemma_exp_all_wf_index(s.drop_last());
        assert forall|i: int| 0 <= i < s.len() implies (#[trigger] s[i]).wf() by {
            if i < s.len() - 1 {
                assert(s[i] == s.drop_last()[i]);
            } else {
                assert(s[i] == s.last());
            }
        }
    }
}

pub proof fn lemma_exp_all_wf_equiv(s: Seq<Exp>)
    ensures
        Exp::all_wf(s) <==> (forall|i: int| 0 <= i < s.len() ==> (#[trigger] s[i]).wf()),
    decreases s.len(),
{
    if s.len() > 0 {
        lemma_exp_all_wf_equiv(s.drop_last());
        if forall|i: int| 0 <= i < s.len() ==> (#[trigger] s[i]).wf() {
            assert forall|i: int| 0 <= i < s.drop_last().len() implies (
            #[trigger] s.drop_last()[i]).wf() by {
                assert(s.drop_last()[i] == s[i]);
            }
            assert(s.last().wf());
        }
        if Exp::all_wf(s) {
            lemma_exp_all_wf_index(s);
        }
    }
}

pub proof fn lemma_model_seq_index(s: Seq<Exp>)
    ensures
        Exp::model_seq(s).len() == s.len(),
        forall|i: int| 0 <= i < s.len() ==> Exp::model_seq(s)[i] == (#[trigger] s[i]).model(),
    decreases s.len(),
{
    if s.len() > 0 {
        lemma_model_seq_index(s.drop_last());
        assert forall|i: int|
            0 <= i < s.len() implies Exp::model_seq(s)[i] == (#[trigger] s[i]).model() by {
            if i < s.len() - 1 {
                assert(s[i] == s.drop_last()[i]);
                assert(Exp::model_seq(s)[i] == Exp::model_seq(s.drop_last())[i]);
            } else {
                assert(s[i] == s.last());
            }
        }
    }
}

/// How the keep rule of a roll request corresponds to the recorded rule of
/// its outcome: the rule kind matches, and for `Highest`/`Lowest` the
/// recorded requested count is the evaluation of the count expression.
pub open spec fn kept_shape(k: Keep, out: Kept) -> bool
    decreases k, 2int,
{
    match (k, out.keep) {
        (Keep::All, KeptRule::All) => true,
        (Keep::Highest(ce), KeptRule::Highest(_)) => eval_shape(ce, out.retained),
        (Keep::Lowest(ce), KeptRule::Lowest(_)) => eval_shape(ce, out.retained),
        _ => false,
    }
}

/// How a roll request corresponds to its outcome.
pub open spec fn roll_shape(r: Roll, out: Rolled) -> bool
    decreases r, 2int,
{
    &&& eval_shape(r.sides, *out.sides)
    &&& eval_shape(r.dice, *out.dice)
    &&& kept_shape(r.keep, *out.kept)
}

/// How an expression corresponds to an evaluated tree: constants carry
/// over, operator nodes evaluate operand by operand in order, and rolls
/// correspond per `roll_shape`. The rolled faces themselves are only
/// constrained by well-formedness, since they come from the roll source.
pub open spec fn eval_shape(e: Exp, v: Value) -> bool
    decreases e, 1int,
{
    match (e, v) {
        (Exp::Const(n), Value::Const(m)) => m == n,
        (Exp::Roll(r), Value::Rolled(out)) => roll_shape(*r, out),
        (Exp::Op(op), Value::Op { op: vop, values }) => vop == op.operation && eval_shape_seq(
            op.arguments@,
            values@,
        ),
        _ => false,
    }
}

pub open spec fn eval_shape_seq(es: Seq<Exp>, vs: Seq<Value>) -> bool
    decreases es, 0int,
{
    &&& es.len() == vs.len()
    &&& if es.len() == 0 {
        true
    } else {
        eval_shape_seq(es.drop_last(), vs.drop_last()) && eval_shape(es.last(), vs.last())
    }
}

/// The absolute value of the evaluated side count; the sign of a side
/// count is irrelevant to die geometry.
fn abs_u32(v: i32) -> (r: u32)
    ensures
        r as int == abs_int(v),
{
    if v >= 0 {
        v as u32
    } else {
        (-(v as i64)) as u32
    }
}

/// The face shown by one die with `s` sides for the raw draw `raw`: the
/// residue `raw % s`, with residue zero wrapped around to the maximum face
/// because dice are one-indexed.
pub open spec fn face_value(s: u32, raw: u32) -> i32
    recommends
        0 < s <= 0x8000_0000u32,
{
    let r = (raw as int) % (s as int);
    if r == 0 {
        if s <= i32::MAX as u32 {
            s as i32
        } else {
            i32::MIN
        }
    } else {
        r as i32
    }
}

/// Store a face in `[1, s]` (with `s` up to `i32::MAX + 1`) as an `i32`;
/// the one unrepresentable face wraps to `i32::MIN`.
fn face_to_i32(r: u32) -> (f: i32)
    requires
        1 <= r <= 0x8000_0000u32,
    ensures
        r <= i32::MAX as u32 ==> f == r as i32,
        r > i32::MAX as u32 ==> f == i32::MIN,
{
    if r <= 0x7fff_ffffu32 {
        r as i32
    } else {
        i32::MIN
    }
}

/// Roll `d` dice with `s` sides (the absolute side count) and collect the
/// face values in draw order. A zero-sided die always shows `0`; otherwise
/// each face is the next draw reduced per `face_value`.
fn roll_faces<R: crate::rng::RollSource>(d: usize, s: u32, rng: &mut R) -> (faces: Vec<i32>)
    requires
        s <= 0x8000_0000u32,
    ensures
        faces@.len() == d,
        all_faces_ok(faces@, s as int),
        s == 0 ==> *final(rng) == *old(rng),
        s > 0 && old(rng).future().len() >= d ==> final(rng).future() == old(rng).future().skip(
            d as int,
        ) && forall|i: int| 0 <= i < d ==> faces@[i] == face_value(s, old(rng).future()[i]),
{
    let mut faces: Vec<i32> = Vec::new();
    let mut i: usize = 0;
    while i < d
        invariant
            0 <= i <= d,
            s <= 0x8000_0000u32,
            faces@.len() == i,
            all_faces_ok(faces@, s as int),
            s == 0 ==> *rng == *old(rng),
            s > 0 && old(rng).future().len() >= d ==> rng.future() == old(rng).future().skip(
                i as int,
            ) && forall|j: int| 0 <= j < i ==> faces@[j] == face_value(s, old(rng).future()[j]),
        decreases d - i,
    {
        if s == 0 {
            faces.push(0);
        } else {
            let ghost pre = rng.future();
            let raw = rng.next_u32();
            let mut r: u32 = raw % s;
            if r == 0 {
                r = s;
            }
            let f = face_to_i32(r);
            proof {
                if old(rng).future().len() >= d {
                    assert(pre == old(rng).future().skip(i as int));
                    assert(pre.len() > 0);
                    assert(raw == old(rng).future()[i as int]);
                    assert(rng.future() =~= old(rng).future().skip(i as int + 1));
                    assert(f == face_value(s, raw));
                }
                assert(face_ok(f, s as int));
            }
            faces.push(f);
        }
        i = i + 1;
    }
    faces
}

/// Sort the rolled faces ascending: the result is a sorted permutation of
/// the input.
fn sort_faces(v: &mut Vec<i32>)
    ensures
        final(v)@.len() == old(v)@.len(),
        sorted(final(v)@),
        final(v)@.to_multiset() == old(v)@.to_multiset(),
{
    broadcast use vstd::seq_lib::group_to_multiset_ensures;

    let mut rest: Vec<i32> = Vec::new();
    core::mem::swap(v, &mut rest);
    let ghost orig = rest@;
    proof {
        assert(v@.to_multiset().add(rest@.to_multiset()) =~= orig.to_multiset());
    }
    while rest.len() > 0
        invariant
            v@.to_multiset().add(rest@.to_multiset()) =~= orig.to_multiset(),
            v@.len() + rest@.len() == orig.len(),
            sorted(v@),
            forall|a: int, b: int|
                0 <= a < v@.len() && 0 <= b < rest@.len() ==> v@[a] <= rest@[b],
        decreases rest.len(),
    {
        let mut m: usize = 0;
        let mut k: usize = 1;
        while k < rest.len()
            invariant
                0 <= m < k <= rest.len(),
                forall|j: int| 0 <= j < k ==> rest@[m as int] <= rest@[j],
            decreases rest.len() - k,
        {
            if rest[k] < rest[m] {
                m = k;
            }
            k = k + 1;
        }
        let ghost pre_rest = rest@;
        let ghost pre_v = v@;
        let x = rest.remove(m);
        v.push(x);
        proof {
            broadcast use vstd::seq_lib::group_to_multiset_ensures;
            broadcast use vstd::multiset::group_multiset_axioms;

            assert(pre_rest[m as int] == x);
            assert(pre_rest.contains(x));
            assert(rest@.to_multiset() =~= pre_rest.to_multiset().remove(x));
            assert(v@.to_multiset() =~= pre_v.to_multiset().insert(x));
            assert(pre_rest.to_multiset().count(x) > 0);
            assert(v@.to_multiset().add(rest@.to_multiset()) =~= orig.to_multiset());
        }
    }
    proof {
        broadcast use vstd::seq_lib::group_to_multiset_ensures;
        broadcast use vstd::multiset::group_multiset_axioms;

        assert(rest@.to_multiset() =~= Multiset::empty());
        assert(v@.to_multiset() =~= v@.to_multiset().add(rest@.to_multiset()));
    }
}

proof fn lemma_faces_ok_transfer(a: Seq<i32>, b: Seq<i32>, s: int)
    requires
        a.to_multiset() == b.to_multiset(),
        all_faces_ok(a, s),
    ensures
        all_faces_ok(b, s),
{
    broadcast use vstd::seq_lib::group_to_multiset_ensures;

    assert forall|i: int| 0 <= i < b.len() implies face_ok(b[i], s) by {
        assert(b.contains(b[i]));
        assert(a.to_multiset().count(b[i]) > 0);
        assert(a.contains(b[i]));
        let j = choose|j: int| 0 <= j < a.len() && a[j] == b[i];
        assert(face_ok(a[j], s));
    }
}

impl Keep {
    /// Split the sorted faces into the `lowest` and `highest` partitions
    /// per this rule, evaluating the requested keep count (which may draw
    /// from the roll source) and clamping it to the number of faces.
    fn retain<R: crate::rng::RollSource>(&self, elements: Vec<i32>, rng: &mut R) -> (kept: Kept)
        requires
            self.wf(),
            elements@.len() <= i32::MAX,
        ensures
            kept.lowest@ + kept.highest@ == elements@,
            kept.retained.wf(),
            kept_shape(*self, kept),
            match kept.keep {
                KeptRule::All => kept.lowest@.len() == 0 && kept.retained == Value::Const(
                    elements@.len() as i32,
                ),
                KeptRule::Lowest(nv) => nv == Value::Const(
                    clamp_count(kept.retained.spec_value(), elements@.len() as int) as i32,
                ) && kept.lowest@.len() == clamp_count(
                    kept.retained.spec_value(),
                    elements@.len() as int,
                ),
                KeptRule::Highest(nv) => nv == Value::Const(
                    clamp_count(kept.retained.spec_value(), elements@.len() as int) as i32,
                ) && kept.highest@.len() == clamp_count(
                    kept.retained.spec_value(),
                    elements@.len() as int,
                ),
            },
            match kept.keep {
                KeptRule::All => kept.highest@ == elements@,
                KeptRule::Lowest(_) => kept.lowest@ == elements@.take(
                    clamp_count(kept.retained.spec_value(), elements@.len() as int),
                ) && kept.highest@ == elements@.skip(
                    clamp_count(kept.retained.spec_value(), elements@.len() as int),
                ),
                KeptRule::Highest(_) => kept.lowest@ == elements@.take(
                    elements@.len() - clamp_count(
                        kept.retained.spec_value(),
                        elements@.len() as int,
                    ),
                ) && kept.highest@ == elements@.skip(
                    elements@.len() - clamp_count(
                        kept.retained.spec_value(),
                        elements@.len() as int,
                    ),
                ),
            },
            match *self {
                Keep::All => *final(rng) == *old(rng),
                Keep::Highest(ce) => crate::replay::eval_num(ce, old(rng).future()).1 <= old(
                    rng,
                ).future().len() ==> ({
                    &&& crate::replay::eval_rel(ce, old(rng).future(), kept.retained)
                    &&& kept.retained.spec_value() == crate::replay::eval_num(
                        ce,
                        old(rng).future(),
                    ).0
                    &&& final(rng).future() == crate::replay::skip_draws(
                        old(rng).future(),
                        crate::replay::eval_num(ce, old(rng).future()).1,
                    )
                }),
                Keep::Lowest(ce) => crate::replay::eval_num(ce, old(rng).future()).1 <= old(
                    rng,
                ).future().len() ==> ({
                    &&& crate::replay::eval_rel(ce, old(rng).future(), kept.retained)
                    &&& kept.retained.spec_value() == crate::replay::eval_num(
                        ce,
                        old(rng).future(),
                    ).0
                    &&& final(rng).future() == crate::replay::skip_draws(
                        old(rng).future(),
                        crate::replay::eval_num(ce, old(rng).future()).1,
                    )
                }),
            },
        decreases *self, 1int,
    {
        let retained = match self {
            Keep::Lowest(exp) => exp.evaluate(rng),
            Keep::Highest(exp) => exp.evaluate(rng),
            Keep::All => {
                let len = elements.len();
                let kept = Kept {
                    keep: KeptRule::All,
                    retained: Value::Const(len as i32),
                    lowest: Vec::new(),
                    highest: elements,
                };
                proof {
                    assert(kept.lowest@ + kept.highest@ =~= kept.highest@);
                }
                return kept;
            },
        };
        let rv = retained.value();
        let nn: usize = if rv > 0 {
            rv as usize
        } else {
            0
        };
        let n: usize = if nn < elements.len() {
            nn
        } else {
            elements.len()
        };
        proof {
            assert(n as int == clamp_count(rv, elements@.len() as int));
        }
        let index: usize = match self {
            Keep::Lowest(_) => n,
            _ => elements.len() - n,
        };
        let mut lowest = elements;
        let ghost whole = lowest@;
        let highest = lowest.split_off(index);
        proof {
            assert(lowest@ =~= whole.take(index as int));
            assert(highest@ =~= whole.skip(index as int));
            assert(lowest@ + highest@ =~= whole);
        }
        let keep = match self {
            Keep::Lowest(_) => KeptRule::Lowest(Value::Const(n as i32)),
            _ => KeptRule::Highest(Value::Const(n as i32)),
        };
        Kept { keep, retained, lowest, highest }
    }
}

impl Roll {
    /// Evaluate this roll request: sides first, then dice, then the faces,
    /// then the keep split, in that order.
    fn val<R: crate::rng::RollSource>(&self, rng: &mut R) -> (out: Rolled)
        requires
            self.dice.wf(),
            self.sides.wf(),
            self.keep.wf(),
        ensures
            roll_shape(*self, out),
            out.dice.wf(),
            out.sides.wf(),
            out.kept.wf(out.dice.spec_value(), out.sides.spec_value()),
            crate::replay::roll_num(*self, old(rng).future()).1 <= old(rng).future().len() ==> ({
                &&& crate::replay::roll_rel(*self, old(rng).future(), out)
                &&& out.kept.spec_val() == crate::replay::roll_num(*self, old(rng).future()).0
                &&& final(rng).future() == crate::replay::skip_draws(
                    old(rng).future(),
                    crate::replay::roll_num(*self, old(rng).future()).1,
                )
            }),
        decreases *self, 2int,
    {
        let ghost f = rng.future();
        let ghost u1 = crate::replay::eval_num(self.sides, f).1;
        let ghost f1 = crate::replay::skip_draws(f, u1);
        let ghost u2 = crate::replay::eval_num(self.dice, f1).1;
        let ghost f2 = crate::replay::skip_draws(f1, u2);
        let ghost sg = abs_int(crate::replay::eval_num(self.sides, f).0);
        let ghost dg = dice_count(crate::replay::eval_num(self.dice, f1).0);
        let ghost fug: nat = if sg == 0 {
            0
        } else {
            dg as nat
        };
        let ghost f3 = crate::replay::skip_draws(f2, fug);
        let ghost u3: nat = crate::replay::keep_used(self.keep, f3);
        let ghost total: nat = (u1 + u2 + fug + u3) as nat;
        let ghost enough = total <= f.len();
        proof {
            assert(crate::replay::roll_num(*self, f).1 == total);
        }
        let sides = self.sides.evaluate(rng);
        proof {
            if enough {
                assert(crate::replay::eval_num(self.sides, f).1 <= f.len());
                assert(rng.future() == f1);
                assert(f1.len() == f.len() - u1);
            }
        }
        let s: u32 = abs_u32(sides.value());
        let dice = self.dice.evaluate(rng);
        proof {
            if enough {
                assert(crate::replay::eval_num(self.dice, f1).1 <= f1.len());
                assert(rng.future() == f2);
                assert(f2.len() == f.len() - u1 - u2);
                assert(s as int == sg);
            }
        }
        let dv: i32 = dice.value();
        let d: usize = if dv > 0 {
            dv as usize
        } else {
            0
        };
        let ghost pre_faces_future = rng.future();
        let mut faces = roll_faces(d, s, rng);
        let ghost unsorted = faces@;
        proof {
            if enough {
                assert(d as int == dg);
                if s == 0 {
                    assert(unsorted =~= crate::replay::roll_seq(sg, dg, f2));
                    assert(rng.future() == f3) by {
                        crate::replay::lemma_skip_draws_zero(f2);
                    }
                } else {
                    assert(f2.len() >= d);
                    assert(unsorted =~= crate::replay::roll_seq(sg, dg, f2)) by {
                        assert forall|i: int| 0 <= i < dg implies unsorted[i]
                            == crate::replay::roll_seq(sg, dg, f2)[i] by {
                            assert(unsorted[i] == face_value(s, f2[i]));
                            assert(crate::replay::draw(f2, i) == f2[i]);
                        }
                    }
                    assert(rng.future() == f3);
                }
            }
        }
        sort_faces(&mut faces);
        proof {
            lemma_faces_ok_transfer(unsorted, faces@, s as int);
            if enough {
                crate::replay::lemma_sort_faces_spec(crate::replay::roll_seq(sg, dg, f2));
                crate::replay::lemma_sorted_faces_unique(
                    faces@,
                    crate::replay::sort_faces_spec(crate::replay::roll_seq(sg, dg, f2)),
                );
                assert(faces@ == crate::replay::sort_faces_spec(
                    crate::replay::roll_seq(sg, dg, f2),
                ));
            }
        }
        let ghost sorted_faces = faces@;
        let kept = self.keep.retain(faces, rng);
        let out = Rolled { dice: Box::new(dice), sides: Box::new(sides), kept: Box::new(kept) };
        proof {
            assert(sorted(out.kept.lowest@ + out.kept.highest@));
            assert(all_faces_ok(out.kept.lowest@ + out.kept.highest@, abs_int(
                out.sides.spec_value(),
            )));
            assert(out.kept.wf(out.dice.spec_value(), out.sides.spec_value()));
            if enough {
                assert(f3.len() == f.len() - u1 - u2 - fug);
                assert(u3 <= f3.len());
                let sorted_spec = crate::replay::sort_faces_spec(
                    crate::replay::roll_seq(sg, dg, f2),
                );
                assert(sorted_faces == sorted_spec);
                assert(sorted_spec.len() == dg) by {
                    crate::replay::lemma_sort_faces_spec(crate::replay::roll_seq(sg, dg, f2));
                }
                assert(crate::replay::eval_rel(self.sides, f, *out.sides));
                assert(crate::replay::eval_rel(self.dice, f1, *out.dice));
                match &self.keep {
                    Keep::All => {
                        assert(out.kept.keep is All);
                        assert(out.kept.retained == Value::Const(dg as i32));
                        assert(out.kept.lowest@ =~= Seq::<i32>::empty());
                        assert(out.kept.highest@ == sorted_spec);
                    },
                    Keep::Highest(ce) => {
                        let n = clamp_count(crate::replay::eval_num(*ce, f3).0, dg);
                        assert(crate::replay::eval_rel(*ce, f3, out.kept.retained));
                        assert(out.kept.retained.spec_value() == crate::replay::eval_num(
                            *ce,
                            f3,
                        ).0);
                        assert(out.kept.keep == KeptRule::Highest(Value::Const(n as i32)));
                        assert(out.kept.lowest@ == sorted_spec.take(dg - n));
                        assert(out.kept.highest@ == sorted_spec.skip(dg - n));
                    },
                    Keep::Lowest(ce) => {
                        let n = clamp_count(crate::replay::eval_num(*ce, f3).0, dg);
                        assert(crate::replay::eval_rel(*ce, f3, out.kept.retained));
                        assert(out.kept.retained.spec_value() == crate::replay::eval_num(
                            *ce,
                            f3,
                        ).0);
                        assert(out.kept.keep == KeptRule::Lowest(Value::Const(n as i32)));
                        assert(out.kept.lowest@ == sorted_spec.take(n));
                        assert(out.kept.highest@ == sorted_spec.skip(n));
                    },
                }
                assert(crate::replay::roll_rel(*self, f, out));
                assert(out.kept.spec_val() == crate::replay::roll_num(*self, f).0);
                crate::replay::lemma_skip_draws_add(f, u1, u2);
                crate::replay::lemma_skip_draws_add(f, (u1 + u2) as nat, fug);
                crate::replay::lemma_skip_draws_add(f, (u1 + u2 + fug) as nat, u3);
                assert(rng.future() == crate::replay::skip_draws(f, total));
            }
        }
        out
    }
}

impl Op {
    /// Evaluate each operand left to right (order matters because each may
    /// draw from the shared roll source) and collect the results.
    fn value<R: crate::rng::RollSource>(&self, rng: &mut R) -> (v: Value)
        requires
            self.arguments@.len() >= 1,
            Exp::all_wf(self.arguments@),
        ensures
            v.wf(),
            (match v {
                Value::Op { op, values } => op == self.operation && eval_shape_seq(
                    self.arguments@,
                    values@,
                ),
                _ => false,
            }),
            crate::replay::eval_nums(self.arguments@, old(rng).future()).1 <= old(
                rng,
            ).future().len() ==> ({
                &&& (match v {
                    Value::Op { values, .. } => crate::replay::eval_rel_seq(
                        self.arguments@,
                        old(rng).future(),
                        values@,
                    ) && Value::spec_value_seq(values@) == crate::replay::eval_nums(
                        self.arguments@,
                        old(rng).future(),
                    ).0,
                    _ => false,
                })
                &&& final(rng).future() == crate::replay::skip_draws(
                    old(rng).future(),
                    crate::replay::eval_nums(self.arguments@, old(rng).future()).1,
                )
            }),
        decreases *self, 2int,
    {
        proof {
            lemma_exp_all_wf_index(self.arguments@);
        }
        let ghost f = rng.future();
        let ghost args = self.arguments@;
        let ghost enough = crate::replay::eval_nums(args, f).1 <= f.len();
        let mut values: Vec<Value> = Vec::new();
        let mut i: usize = 0;
        proof {
            assert(args.take(0) =~= Seq::<Exp>::empty());
            crate::replay::lemma_skip_draws_zero(f);
            assert(crate::replay::eval_rel_seq(Seq::<Exp>::empty(), f, values@));
        }
        #[verifier::loop_isolation(false)]
        while i < self.arguments.len()
            invariant
                0 <= i <= self.arguments@.len(),
                values@.len() == i,
                Value::all_wf(values@),
                eval_shape_seq(self.arguments@.take(i as int), values@),
                enough ==> rng.future() == crate::replay::skip_draws(
                    f,
                    crate::replay::eval_nums(args.take(i as int), f).1,
                ),
                enough ==> crate::replay::eval_rel_seq(args.take(i as int), f, values@),
                enough ==> Value::spec_value_seq(values@) == crate::replay::eval_nums(
                    args.take(i as int),
                    f,
                ).0,
            decreases self.arguments@.len() - i,
        {
            proof {
                assert(decreases_to!(*self => self.arguments@[i as int]));
                if enough {
                    assert(args.take(i as int + 1) =~= args.take(i as int).push(
                        args[i as int],
                    ));
                    crate::replay::lemma_eval_nums_snoc(args.take(i as int), f, args[i as int]);
                    crate::replay::lemma_eval_nums_prefix_bound(args, f, i as int);
                    crate::replay::lemma_eval_nums_prefix_bound(args, f, i as int + 1);
                }
            }
            let ghost pre = values@;
            let ghost ui = crate::replay::eval_nums(args.take(i as int), f).1;
            let ghost cur = crate::replay::skip_draws(f, ui);
            let v = self.arguments[i].evaluate(rng);
            values.push(v);
            proof {
                assert(values@.drop_last() =~= pre);
                assert(self.arguments@.take(i as int + 1).drop_last() =~= self.arguments@.take(
                    i as int,
                ));
                if enough {
                    let du = crate::replay::eval_num(args[i as int], cur).1;
                    assert(cur.len() == f.len() - ui);
                    assert(du <= cur.len());
                    assert(crate::replay::eval_rel(args[i as int], cur, v));
                    crate::replay::lemma_skip_draws_add(f, ui, du);
                    crate::replay::lemma_eval_rel_seq_snoc(
                        args.take(i as int),
                        f,
                        pre,
                        args[i as int],
                        v,
                    );
                }
            }
            i = i + 1;
        }
        proof {
            assert(self.arguments@.take(self.arguments@.len() as int) =~= self.arguments@);
        }
        Value::Op { op: self.operation, values }
    }
}

impl Operation {
    /// A fresh binary node combining two expressions under this operator.
    pub fn to_exp(&self, lhs: Exp, rhs: Exp) -> (e: Exp)
        ensures
            (e matches Exp::Op(op) && op.operation == *self && op.arguments@ == seq![lhs, rhs]),
    {
        let mut args: Vec<Exp> = Vec::new();
        args.push(lhs);
        args.push(rhs);
        proof {
            assert(args@ =~= seq![lhs, rhs]);
        }
        Exp::Op(Op { operation: *self, arguments: args })
    }
}

impl Op {
    /// Prepend an operand in place: the repeated-operator merge that keeps
    /// chains of one operator flat.
    pub fn push_front(&mut self, exp: Exp)
        ensures
            final(self).operation == old(self).operation,
            final(self).arguments@ == old(self).arguments@.insert(0, exp),
    {
        self.arguments.insert(0, exp);
    }

    /// Append an operand in place.
    pub fn push_back(&mut self, exp: Exp)
        ensures
            final(self).operation == old(self).operation,
            final(self).arguments@ == old(self).arguments@.push(exp),
    {
        self.arguments.push(exp);
    }
}

impl Roll {
    /// A roll that keeps every rolled value.
    pub fn simple(dice: Exp, sides: Exp) -> (r: Roll)
        ensures
            r == (Roll { dice, sides, keep: Keep::All }),
    {
        Roll { dice, sides, keep: Keep::All }
    }

    /// A roll that keeps the highest `highest` values.
    pub fn keep_highest(dice: Exp, sides: Exp, highest: Exp) -> (r: Roll)
        ensures
            r == (Roll { dice, sides, keep: Keep::Highest(highest) }),
    {
        Roll { dice, sides, keep: Keep::Highest(highest) }
    }

    /// A roll that keeps the lowest `lowest` values.
    pub fn keep_lowest(dice: Exp, sides: Exp, lowest: Exp) -> (r: Roll)
        ensures
            r == (Roll { dice, sides, keep: Keep::Lowest(lowest) }),
    {
        Roll { dice, sides, keep: Keep::Lowest(lowest) }
    }
}

impl Default for Exp {
    /// The default expression is the literal zero.
    fn default() -> (e: Exp)
        ensures
            e == Exp::Const(0i32),
    {
        Exp::Const(0)
    }
}

impl Exp {
    /// Evaluate the expression with the given roll source, producing a
    /// structurally parallel, well-formed value tree. When the source's
    /// known draws cover the whole evaluation, the result is exactly the
    /// replay of the expression against those draws.
    pub fn evaluate<R: crate::rng::RollSource>(&self, rng: &mut R) -> (v: Value)
        requires
            self.wf(),
        ensures
            v.wf(),
            eval_shape(*self, v),
            crate::replay::eval_num(*self, old(rng).future()).1 <= old(rng).future().len() ==> ({
                &&& crate::replay::eval_rel(*self, old(rng).future(), v)
                &&& v.spec_value() == crate::replay::eval_num(*self, old(rng).future()).0
                &&& final(rng).future() == crate::replay::skip_draws(
                    old(rng).future(),
                    crate::replay::eval_num(*self, old(rng).future()).1,
                )
            }),
        decreases *self, 3int,
    {
        let ghost f = rng.future();
        match self {
            Exp::Const(value) => {
                proof {
                    crate::replay::lemma_skip_draws_zero(f);
                }
                Value::Const(*value)
            },
            Exp::Roll(roll) => {
                let out = roll.val(rng);
                proof {
                    assert(crate::replay::eval_num(*self, f) == crate::replay::roll_num(
                        **roll,
                        f,
                    ));
                }
                Value::Rolled(out)
            },
            Exp::Op(op) => {
                let v = op.value(rng);
                proof {
                    assert(crate::replay::eval_num(*self, f).1 == crate::replay::eval_nums(
                        op.arguments@,
                        f,
                    ).1);
                }
                v
            },
        }
    }
}

impl Kept {
    /// How many faces the rule designates as kept.
    pub open spec fn kept_len(self) -> int {
        match self.keep {
            KeptRule::Lowest(_) => self.lowest@.len() as int,
            _ => self.highest@.len() as int,
        }
    }
}

proof fn lemma_wrap_sum_zeros(s: Seq<i32>)
    requires
        forall|i: int| 0 <= i < s.len() ==> s[i] == 0,
    ensures
        wrap_sum(s) == 0,
    decreases s.len(),
{
    if s.len() > 0 {
        lemma_wrap_sum_zeros(s.drop_last());
    }
}

/// Law: however bizarre the requested keep count, the number of faces a
/// well-formed roll outcome keeps is clamped to `[0, d]` where `d` is the
/// evaluated dice count, and the two partitions together hold exactly the
/// `d` rolled faces.
pub proof fn lemma_keep_count_clamped(out: Rolled)
    requires
        Value::Rolled(out).wf(),
    ensures
        out.kept.lowest@.len() + out.kept.highest@.len() == dice_count(out.dice.spec_value()),
        0 <= out.kept.kept_len() <= dice_count(out.dice.spec_value()),
{
    assert(Value::Rolled(out).wf());
    assert(out.kept.wf(out.dice.spec_value(), out.sides.spec_value()));
}

/// Law: a roll whose side count evaluates to zero shows a zero on every
/// rolled die, and its numeric value is zero, whatever the dice count.
pub proof fn lemma_zero_sided_roll(out: Rolled)
    requires
        Value::Rolled(out).wf(),
        out.sides.spec_value() == 0,
    ensures
        forall|i: int| 0 <= i < out.kept.lowest@.len() ==> out.kept.lowest@[i] == 0,
        forall|i: int| 0 <= i < out.kept.highest@.len() ==> out.kept.highest@[i] == 0,
        Value::Rolled(out).spec_value() == 0,
{
    let faces = out.kept.lowest@ + out.kept.highest@;
    assert(out.kept.wf(out.dice.spec_value(), out.sides.spec_value()));
    assert(all_faces_ok(faces, 0));
    assert forall|i: int| 0 <= i < out.kept.lowest@.len() implies out.kept.lowest@[i] == 0 by {
        assert(faces[i] == out.kept.lowest@[i]);
        assert(face_ok(faces[i], 0));
    }
    assert forall|i: int| 0 <= i < out.kept.highest@.len() implies out.kept.highest@[i] == 0 by {
        assert(faces[out.kept.lowest@.len() + i] == out.kept.highest@[i]);
        assert(face_ok(faces[out.kept.lowest@.len() + i], 0));
    }
    lemma_wrap_sum_zeros(out.kept.lowest@);
    lemma_wrap_sum_zeros(out.kept.highest@);
}

} // verus!
