//! The deterministic replay model of evaluation: what `Exp::evaluate`
//! yields, and how many draws it consumes, when the roll source's coming
//! draws are known. Whenever a source's `future()` covers the whole
//! evaluation, the value tree is a function of the expression and those
//! draws alone.

use crate::eval::abs_int;
use crate::eval::clamp_count;
use crate::eval::combine;
use crate::eval::dice_count;
use crate::eval::face_value;
use crate::eval::Exp;
use crate::eval::Keep;
use crate::eval::KeptRule;
use crate::eval::Roll;
use crate::eval::Rolled;
use crate::eval::Value;
use vstd::prelude::*;
use vstd::relations::sorted_by;
use vstd::relations::total_ordering;

verus! {

/// The draw at index `i` of a known draw sequence; indices past the end
/// never arise when the sequence covers the evaluation.
pub open spec fn draw(f: Seq<u32>, i: int) -> u32 {
    if 0 <= i < f.len() {
        f[i]
    } else {
        0
    }
}

/// The draws left after consuming `n`: empty once the sequence runs out.
pub open spec fn skip_draws(f: Seq<u32>, n: nat) -> Seq<u32> {
    if n <= f.len() {
        f.skip(n as int)
    } else {
        Seq::empty()
    }
}

pub proof fn lemma_skip_draws_zero(f: Seq<u32>)
    ensures
        skip_draws(f, 0) == f,
{
    assert(skip_draws(f, 0) =~= f);
}

pub proof fn lemma_skip_draws_add(f: Seq<u32>, a: nat, b: nat)
    ensures
        skip_draws(skip_draws(f, a), b) == skip_draws(f, (a + b) as nat),
{
    if a <= f.len() {
        if a + b <= f.len() {
            assert(skip_draws(skip_draws(f, a), b) =~= skip_draws(f, (a + b) as nat));
        } else {
            assert(skip_draws(skip_draws(f, a), b) =~= Seq::<u32>::empty());
            assert(skip_draws(f, (a + b) as nat) =~= Seq::<u32>::empty());
        }
    } else {
        assert(skip_draws(f, a) =~= Seq::<u32>::empty());
        assert(skip_draws(skip_draws(f, a), b) =~= Seq::<u32>::empty());
        assert(skip_draws(f, (a + b) as nat) =~= Seq::<u32>::empty());
    }
}

/// The faces in draw order for `d` dice with `s` sides, rolled against the
/// draws of `f`.
pub open spec fn roll_seq(s: int, d: int, f: Seq<u32>) -> Seq<i32> {
    if s == 0 {
        Seq::new(d as nat, |i: int| 0i32)
    } else {
        Seq::new(d as nat, |i: int| face_value(s as u32, draw(f, i)))
    }
}

/// The faces sorted ascending.
pub open spec fn sort_faces_spec(s: Seq<i32>) -> Seq<i32> {
    s.sort_by(|x: i32, y: i32| x <= y)
}

pub proof fn lemma_sort_faces_spec(s: Seq<i32>)
    ensures
        crate::eval::sorted(sort_faces_spec(s)),
        s.to_multiset() == sort_faces_spec(s).to_multiset(),
        sort_faces_spec(s).len() == s.len(),
{
    broadcast use vstd::seq_lib::group_to_multiset_ensures;

    let leq = |x: i32, y: i32| x <= y;
    assert(total_ordering(leq)) by {
        assert forall|x: i32| #[trigger] leq(x, x) by {}
    }
    s.lemma_sort_by_ensures(leq);
    let r = sort_faces_spec(s);
    assert forall|i: int, j: int| 0 <= i <= j < r.len() implies r[i] <= r[j] by {
        if i < j {
            assert(leq(r[i], r[j]));
        }
    }
    assert(s.to_multiset().len() == s.len());
    assert(r.to_multiset().len() == r.len());
}

/// A sorted permutation is unique: anything sorted with the same faces is
/// the sorted sequence itself.
pub proof fn lemma_sorted_faces_unique(a: Seq<i32>, b: Seq<i32>)
    requires
        crate::eval::sorted(a),
        crate::eval::sorted(b),
        a.to_multiset() == b.to_multiset(),
    ensures
        a == b,
{
    let leq = |x: i32, y: i32| x <= y;
    assert(total_ordering(leq)) by {
        assert forall|x: i32| #[trigger] leq(x, x) by {}
    }
    assert forall|i: int, j: int| 0 <= i < j < a.len() implies #[trigger] leq(a[i], a[j]) by {
        assert(a[i] <= a[j]);
    }
    assert forall|i: int, j: int| 0 <= i < j < b.len() implies #[trigger] leq(b[i], b[j]) by {
        assert(b[i] <= b[j]);
    }
    vstd::seq_lib::lemma_sorted_unique(a, b, leq);
}

/// The numeric outcome of evaluating `e` against the draws `f`, and the
/// number of draws consumed.
pub open spec fn eval_num(e: Exp, f: Seq<u32>) -> (i32, nat)
    decreases e, 2int,
{
    match e {
        Exp::Const(n) => (n, 0),
        Exp::Op(op) => {
            let (vals, used) = eval_nums(op.arguments@, f);
            (combine(op.operation, vals), used)
        },
        Exp::Roll(r) => roll_num(*r, f),
    }
}

/// The numeric outcomes of a sequence of expressions evaluated left to
/// right, each consuming draws after those of the ones before it.
pub open spec fn eval_nums(es: Seq<Exp>, f: Seq<u32>) -> (Seq<i32>, nat)
    decreases es, 1int,
{
    if es.len() == 0 {
        (Seq::empty(), 0)
    } else {
        let (v0, u0) = eval_num(es[0], f);
        let (rest, ur) = eval_nums(es.drop_first(), skip_draws(f, u0));
        (seq![v0] + rest, (u0 + ur) as nat)
    }
}

/// The numeric outcome of a roll: sides first, then dice, then one draw
/// per die (none for a zero-sided die), then the keep count.
pub open spec fn roll_num(r: Roll, f: Seq<u32>) -> (i32, nat)
    decreases r, 1int,
{
    let (sv, u1) = eval_num(r.sides, f);
    let f1 = skip_draws(f, u1);
    let (dv, u2) = eval_num(r.dice, f1);
    let f2 = skip_draws(f1, u2);
    let s = abs_int(sv);
    let d = dice_count(dv);
    let fu: nat = if s == 0 {
        0
    } else {
        d as nat
    };
    let f3 = skip_draws(f2, fu);
    let sorted_faces = sort_faces_spec(roll_seq(s, d, f2));
    match r.keep {
        Keep::All => (crate::eval::wrap_sum(sorted_faces), (u1 + u2 + fu) as nat),
        Keep::Highest(ce) => {
            let (kv, u3) = eval_num(ce, f3);
            let n = clamp_count(kv, d);
            (crate::eval::wrap_sum(sorted_faces.skip(d - n)), (u1 + u2 + fu + u3) as nat)
        },
        Keep::Lowest(ce) => {
            let (kv, u3) = eval_num(ce, f3);
            let n = clamp_count(kv, d);
            (crate::eval::wrap_sum(sorted_faces.take(n)), (u1 + u2 + fu + u3) as nat)
        },
    }
}

/// The draws consumed by evaluating a keep rule's count expression.
pub open spec fn keep_used(k: Keep, f: Seq<u32>) -> nat {
    match k {
        Keep::All => 0,
        Keep::Highest(ce) => eval_num(ce, f).1,
        Keep::Lowest(ce) => eval_num(ce, f).1,
    }
}

/// How an evaluated tree corresponds to the replay of its expression
/// against the draws `f`: every constant, operator result, rolled face and
/// kept partition is pinned.
pub open spec fn eval_rel(e: Exp, f: Seq<u32>, v: Value) -> bool
    decreases e, 2int,
{
    match (e, v) {
        (Exp::Const(n), Value::Const(m)) => m == n,
        (Exp::Op(op), Value::Op { op: vop, values }) => vop == op.operation && eval_rel_seq(
            op.arguments@,
            f,
            values@,
        ),
        (Exp::Roll(r), Value::Rolled(out)) => roll_rel(*r, f, out),
        _ => false,
    }
}

pub open spec fn eval_rel_seq(es: Seq<Exp>, f: Seq<u32>, vs: Seq<Value>) -> bool
    decreases es, 1int,
{
    &&& es.len() == vs.len()
    &&& if es.len() == 0 {
        true
    } else {
        eval_rel(es[0], f, vs[0]) && eval_rel_seq(
            es.drop_first(),
            skip_draws(f, eval_num(es[0], f).1),
            vs.drop_first(),
        )
    }
}

pub open spec fn roll_rel(r: Roll, f: Seq<u32>, out: Rolled) -> bool
    decreases r, 1int,
{
    let (sv, u1) = eval_num(r.sides, f);
    let f1 = skip_draws(f, u1);
    let (dv, u2) = eval_num(r.dice, f1);
    let f2 = skip_draws(f1, u2);
    let s = abs_int(sv);
    let d = dice_count(dv);
    let fu: nat = if s == 0 {
        0
    } else {
        d as nat
    };
    let f3 = skip_draws(f2, fu);
    let sorted_faces = sort_faces_spec(roll_seq(s, d, f2));
    &&& eval_rel(r.sides, f, *out.sides)
    &&& eval_rel(r.dice, f1, *out.dice)
    &&& match r.keep {
        Keep::All => out.kept.keep is All && out.kept.retained == Value::Const(d as i32)
            && out.kept.lowest@ == Seq::<i32>::empty() && out.kept.highest@ == sorted_faces,
        Keep::Highest(ce) => {
            let n = clamp_count(eval_num(ce, f3).0, d);
            &&& eval_rel(ce, f3, out.kept.retained)
            &&& out.kept.keep == KeptRule::Highest(Value::Const(n as i32))
            &&& out.kept.lowest@ == sorted_faces.take(d - n)
            &&& out.kept.highest@ == sorted_faces.skip(d - n)
        },
        Keep::Lowest(ce) => {
            let n = clamp_count(eval_num(ce, f3).0, d);
            &&& eval_rel(ce, f3, out.kept.retained)
            &&& out.kept.keep == KeptRule::Lowest(Value::Const(n as i32))
            &&& out.kept.lowest@ == sorted_faces.take(n)
            &&& out.kept.highest@ == sorted_faces.skip(n)
        },
    }
}

/// Appending one expression to an evaluated run extends its outcomes and
/// draw count at the end.
pub proof fn lemma_eval_nums_snoc(es: Seq<Exp>, f: Seq<u32>, e2: Exp)
    ensures
        ({
            let (vals, used) = eval_nums(es, f);
            let (v2, u2) = eval_num(e2, skip_draws(f, used));
            eval_nums(es.push(e2), f) == (vals.push(v2), (used + u2) as nat)
        }),
    decreases es.len(),
{
    let (vals, used) = eval_nums(es, f);
    let (v2, u2) = eval_num(e2, skip_draws(f, used));
    if es.len() == 0 {
        assert(es.push(e2)[0] == e2);
        assert(es.push(e2).drop_first() =~= Seq::<Exp>::empty());
        lemma_skip_draws_zero(f);
        assert(eval_nums(Seq::<Exp>::empty(), skip_draws(f, u2)) == (
            Seq::<i32>::empty(),
            0nat,
        ));
        assert(eval_nums(es.push(e2), f).0 =~= vals.push(v2));
    } else {
        let (v0, u0) = eval_num(es[0], f);
        let fr = skip_draws(f, u0);
        let (rest, ur) = eval_nums(es.drop_first(), fr);
        lemma_eval_nums_snoc(es.drop_first(), fr, e2);
        assert(es.push(e2)[0] == es[0]);
        assert(es.push(e2).drop_first() =~= es.drop_first().push(e2));
        lemma_skip_draws_add(f, u0, ur);
        assert(skip_draws(fr, ur) == skip_draws(f, used));
        assert(eval_nums(es.push(e2), f).0 =~= vals.push(v2));
        assert(eval_nums(es.push(e2), f).1 == (used + u2) as nat);
    }
}

/// The same, for the correspondence relation.
pub proof fn lemma_eval_rel_seq_snoc(es: Seq<Exp>, f: Seq<u32>, vs: Seq<Value>, e2: Exp, v2: Value)
    requires
        eval_rel_seq(es, f, vs),
        eval_rel(e2, skip_draws(f, eval_nums(es, f).1), v2),
    ensures
        eval_rel_seq(es.push(e2), f, vs.push(v2)),
    decreases es.len(),
{
    if es.len() == 0 {
        assert(es.push(e2)[0] == e2);
        assert(vs.push(v2)[0] == v2);
        lemma_skip_draws_zero(f);
        assert(es.push(e2).drop_first() =~= Seq::<Exp>::empty());
        assert(vs.push(v2).drop_first() =~= Seq::<Value>::empty());
        assert(eval_rel_seq(
            Seq::<Exp>::empty(),
            skip_draws(f, eval_num(e2, f).1),
            Seq::<Value>::empty(),
        ));
    } else {
        let (v0, u0) = eval_num(es[0], f);
        let fr = skip_draws(f, u0);
        let (rest, ur) = eval_nums(es.drop_first(), fr);
        lemma_skip_draws_add(f, u0, ur);
        lemma_eval_rel_seq_snoc(es.drop_first(), fr, vs.drop_first(), e2, v2);
        assert(es.push(e2)[0] == es[0]);
        assert(vs.push(v2)[0] == vs[0]);
        assert(es.push(e2).drop_first() =~= es.drop_first().push(e2));
        assert(vs.push(v2).drop_first() =~= vs.drop_first().push(v2));
    }
}

/// Any value tree that replays an expression against the draws `f` carries
/// the replay's numeric outcome.
pub proof fn lemma_replay_value(e: Exp, f: Seq<u32>, v: Value)
    requires
        eval_rel(e, f, v),
    ensures
        v.spec_value() == eval_num(e, f).0,
    decreases e, 2int,
{
    match (e, v) {
        (Exp::Const(n), Value::Const(m)) => {},
        (Exp::Op(op), Value::Op { op: vop, values }) => {
            lemma_replay_values(op.arguments@, f, values@);
        },
        (Exp::Roll(r), Value::Rolled(out)) => {
            let (sv, u1) = eval_num(r.sides, f);
            let f1 = skip_draws(f, u1);
            let (dv, u2) = eval_num(r.dice, f1);
            let f2 = skip_draws(f1, u2);
            let s = abs_int(sv);
            let d = dice_count(dv);
            let fu: nat = if s == 0 {
                0
            } else {
                d as nat
            };
            let f3 = skip_draws(f2, fu);
            let sorted_faces = sort_faces_spec(roll_seq(s, d, f2));
            match r.keep {
                Keep::All => {
                    assert(out.kept.spec_val() == crate::eval::wrap_sum(sorted_faces));
                },
                Keep::Highest(ce) => {
                    let n = clamp_count(eval_num(ce, f3).0, d);
                    assert(out.kept.spec_val() == crate::eval::wrap_sum(sorted_faces.skip(d - n)));
                },
                Keep::Lowest(ce) => {
                    let n = clamp_count(eval_num(ce, f3).0, d);
                    assert(out.kept.spec_val() == crate::eval::wrap_sum(sorted_faces.take(n)));
                },
            }
        },
        _ => {},
    }
}

pub proof fn lemma_replay_values(es: Seq<Exp>, f: Seq<u32>, vs: Seq<Value>)
    requires
        eval_rel_seq(es, f, vs),
    ensures
        Value::spec_value_seq(vs) == eval_nums(es, f).0,
    decreases es, 1int,
{
    if es.len() == 0 {
        assert(vs =~= Seq::<Value>::empty());
        assert(Value::spec_value_seq(vs) =~= eval_nums(es, f).0);
    } else {
        let (v0, u0) = eval_num(es[0], f);
        lemma_replay_value(es[0], f, vs[0]);
        lemma_replay_values(es.drop_first(), skip_draws(f, u0), vs.drop_first());
        crate::eval::lemma_value_seq_index(vs);
        crate::eval::lemma_value_seq_index(vs.drop_first());
        assert(Value::spec_value_seq(vs) =~= eval_nums(es, f).0) by {
            assert forall|i: int| 0 <= i < vs.len() implies Value::spec_value_seq(vs)[i]
                == eval_nums(es, f).0[i] by {
                if i == 0 {
                    assert(eval_nums(es, f).0[0] == v0);
                } else {
                    assert(eval_nums(es, f).0[i] == eval_nums(
                        es.drop_first(),
                        skip_draws(f, u0),
                    ).0[i - 1]);
                    assert(Value::spec_value_seq(vs.drop_first())[i - 1] == vs.drop_first()[i
                        - 1].spec_value());
                    assert(vs.drop_first()[i - 1] == vs[i]);
                }
            }
        }
    }
}

/// Law: evaluation is deterministic given a fixed sequence of draws. Two
/// value trees that replay the same expression against the same draws
/// carry the same numeric value.
pub proof fn lemma_replay_deterministic(e: Exp, f: Seq<u32>, v1: Value, v2: Value)
    requires
        eval_rel(e, f, v1),
        eval_rel(e, f, v2),
    ensures
        v1.spec_value() == v2.spec_value(),
{
    lemma_replay_value(e, f, v1);
    lemma_replay_value(e, f, v2);
}

/// A longer prefix of a run never consumes fewer draws.
pub proof fn lemma_eval_nums_prefix_bound(es: Seq<Exp>, f: Seq<u32>, i: int)
    requires
        0 <= i <= es.len(),
    ensures
        eval_nums(es.take(i), f).1 <= eval_nums(es, f).1,
    decreases es.len() - i,
{
    if i == es.len() {
        assert(es.take(i) =~= es);
    } else {
        assert(es.take(i + 1) =~= es.take(i).push(es[i]));
        lemma_eval_nums_snoc(es.take(i), f, es[i]);
        lemma_eval_nums_prefix_bound(es, f, i + 1);
    }
}

} // verus!
