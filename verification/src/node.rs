//! Search states for the numbers round: an immutable node records the
//! operation that produced it, its operand stack and its pool of unused
//! tiles, and is linked to its parent through shared ownership.

use vstd::prelude::*;
use vstd::string::StringExecFns;

use std::rc::Rc;

verus! {

/// One of the four binary arithmetic operators.
#[derive(Clone, Copy, PartialEq, Eq, Structural, Debug)]
pub enum Operator {
    Add,
    Subtract,
    Multiply,
    Divide,
}

/// What turned a parent state into a child: a tile was pushed, or the
/// top two stack values were combined with an operator.
#[derive(Clone, Copy, PartialEq, Eq, Structural, Debug)]
pub enum Operation {
    Push(i32),
    Pop(Operator),
}

/// The record behind one search state. `stack` holds the partial
/// evaluation in postfix order; `numbers` holds the tiles not yet used,
/// in input order. The root carries `Push(0)` as a sentinel operation.
pub struct NodeData {
    pub parent: Option<Node>,
    pub op: Operation,
    pub stack: Vec<i32>,
    pub numbers: Vec<i32>,
}

/// A search state: a shared handle on an immutable `NodeData`, so that
/// many children alive in the frontier can share one ancestor.
pub struct Node(pub Rc<NodeData>);

/// Every value of the sequence is non-negative.
pub open spec fn all_nonneg(s: Seq<i32>) -> bool {
    forall|i: int| 0 <= i < s.len() ==> s[i] >= 0
}

/// Product of `v + 1` over the values of the sequence. Combining or
/// pushing never increases the weight of stack and pool taken together,
/// which bounds every intermediate result the search can compute.
pub open spec fn weight(s: Seq<i32>) -> int
    decreases s.len(),
{
    if s.len() == 0 {
        1
    } else {
        weight(s.drop_last()) * (s.last() + 1)
    }
}

/// The machine-level bound under which a state's arithmetic cannot
/// overflow `i32`: all values non-negative, and the joint weight of
/// stack and pool at most `i32::MAX`.
pub open spec fn state_ok(stack: Seq<i32>, pool: Seq<i32>) -> bool {
    &&& all_nonneg(stack)
    &&& all_nonneg(pool)
    &&& weight(stack) * weight(pool) <= i32::MAX as int
}

/// The observable content of one state: its operation, stack and pool.
pub struct Frame {
    pub op: Operation,
    pub stack: Seq<i32>,
    pub pool: Seq<i32>,
}

/// The record a handle points at.
pub open spec fn node_data(n: &Node) -> NodeData {
    *n.0
}

/// The frame of a state.
pub open spec fn frame_of(n: NodeData) -> Frame {
    Frame { op: n.op, stack: n.stack@, pool: n.numbers@ }
}

/// The frames from the root down to this state, in order.
pub open spec fn frames(n: NodeData) -> Seq<Frame>
    decreases n,
{
    match n.parent {
        Option::None => seq![frame_of(n)],
        Option::Some(p) => frames(*p.0).push(frame_of(n)),
    }
}

/// The root record this state descends from.
pub open spec fn root_data(n: NodeData) -> NodeData
    decreases n,
{
    match n.parent {
        Option::None => n,
        Option::Some(p) => root_data(*p.0),
    }
}

/// How many combine steps lie on the path from the root to this state.
pub open spec fn pops_in(n: NodeData) -> nat
    decreases n,
{
    match n.parent {
        Option::None => 0,
        Option::Some(p) => pops_in(*p.0) + if n.op matches Operation::Pop(_) {
            1nat
        } else {
            0nat
        },
    }
}

/// The combine children of a state with stack `stack` and pool `pool`,
/// in the fixed emission order Add, Subtract, Multiply, Divide, each
/// present exactly when its rule allows it.
pub open spec fn combine_frames(stack: Seq<i32>, pool: Seq<i32>) -> Seq<Frame>
    recommends
        stack.len() >= 2,
{
    let left = stack[stack.len() - 2] as int;
    let right = stack[stack.len() - 1] as int;
    let base = stack.take(stack.len() - 2);
    (if left <= right {
        seq![Frame { op: Operation::Pop(Operator::Add), stack: base.push((left + right) as i32), pool: pool }]
    } else {
        Seq::<Frame>::empty()
    }) + (if left - right >= 0 {
        seq![Frame { op: Operation::Pop(Operator::Subtract), stack: base.push((left - right) as i32), pool: pool }]
    } else {
        Seq::<Frame>::empty()
    }) + (if left <= right {
        seq![Frame { op: Operation::Pop(Operator::Multiply), stack: base.push((left * right) as i32), pool: pool }]
    } else {
        Seq::<Frame>::empty()
    }) + (if right != 0 && left % right == 0 {
        seq![Frame { op: Operation::Pop(Operator::Divide), stack: base.push((left / right) as i32), pool: pool }]
    } else {
        Seq::<Frame>::empty()
    })
}

/// The push children: one per pool position, in pool order.
pub open spec fn push_frames(stack: Seq<i32>, pool: Seq<i32>) -> Seq<Frame> {
    Seq::new(
        pool.len(),
        |i: int| Frame { op: Operation::Push(pool[i]), stack: stack.push(pool[i]), pool: pool.remove(i) },
    )
}

/// All legal children of a state, combine children first, then push
/// children. This order decides which state wins ties in the search.
pub open spec fn child_frames(stack: Seq<i32>, pool: Seq<i32>) -> Seq<Frame> {
    (if stack.len() >= 2 {
        combine_frames(stack, pool)
    } else {
        Seq::<Frame>::empty()
    }) + push_frames(stack, pool)
}

/// The state was built by the root constructor or by expansion of a
/// state that itself was: each link carries one legal child frame.
pub open spec fn lineage_ok(n: NodeData) -> bool
    decreases n,
{
    match n.parent {
        Option::None => n.stack@.len() == 0,
        Option::Some(p) => {
            &&& lineage_ok(*p.0)
            &&& child_frames((*p.0).stack@, (*p.0).numbers@).contains(frame_of(n))
        },
    }
}

/// The operations that built a state, root's sentinel excluded, oldest
/// first: the operation entries of every frame of the lineage but the
/// first.
pub open spec fn trace_ops(l: Seq<Frame>) -> Seq<Operation> {
    Seq::new((l.len() - 1) as nat, |i: int| l[i + 1].op)
}

/// The display character of one decimal digit.
pub open spec fn digit_char(d: int) -> char {
    if d == 0 {
        '0'
    } else if d == 1 {
        '1'
    } else if d == 2 {
        '2'
    } else if d == 3 {
        '3'
    } else if d == 4 {
        '4'
    } else if d == 5 {
        '5'
    } else if d == 6 {
        '6'
    } else if d == 7 {
        '7'
    } else if d == 8 {
        '8'
    } else {
        '9'
    }
}

/// The decimal rendering of a non-negative number, most significant
/// digit first.
pub open spec fn dec_rep(n: int) -> Seq<char>
    recommends
        n >= 0,
    decreases n,
{
    if n <= 9 {
        seq![digit_char(n)]
    } else {
        dec_rep(n / 10).push(digit_char(n % 10))
    }
}

/// The display character of an operator.
pub open spec fn symbol_char(o: Operator) -> char {
    match o {
        Operator::Add => '+',
        Operator::Subtract => '-',
        Operator::Multiply => '*',
        Operator::Divide => '/',
    }
}

/// The display token of an operation: the pushed tile value in decimal,
/// or the operator's symbol.
pub open spec fn token_of(op: Operation) -> Seq<char> {
    match op {
        Operation::Push(n) => dec_rep(n as int),
        Operation::Pop(o) => seq![symbol_char(o)],
    }
}

/// The textual trace of a lineage: the tokens of the frames after the
/// root, separated by single spaces; the root contributes nothing.
pub open spec fn trace_of(l: Seq<Frame>) -> Seq<char>
    decreases l.len(),
{
    if l.len() <= 1 {
        Seq::<char>::empty()
    } else if l.len() == 2 {
        token_of(l.last().op)
    } else {
        trace_of(l.drop_last()) + seq![' '] + token_of(l.last().op)
    }
}

/// Every pushed value recorded after the root frame is non-negative.
pub open spec fn ops_nonneg(l: Seq<Frame>) -> bool {
    forall|i: int|
        1 <= i < l.len() ==> ((#[trigger] l[i].op) matches Operation::Push(n) ==> n >= 0)
}

/// The frames of a sequence of states, index by index.
pub open spec fn frames_seq(q: Seq<Node>) -> Seq<Frame> {
    Seq::new(q.len(), |k: int| frame_of(*q[k].0))
}

/// A lineage is never empty, ends at the state's own frame and starts
/// at the root's.
pub proof fn lemma_frames_last(n: &NodeData)
    ensures
        frames(*n).len() >= 1,
        (n.parent is Some) <==> frames(*n).len() >= 2,
        frames(*n).last() == frame_of(*n),
        frames(*n)[0] == frame_of(root_data(*n)),
    decreases *n,
{
    match &n.parent {
        Option::None => {},
        Option::Some(p) => {
            lemma_frames_last(&p.0);
        },
    }
}

pub proof fn lemma_all_nonneg_prefix(s: Seq<i32>, n: int)
    requires
        all_nonneg(s),
        0 <= n <= s.len(),
    ensures
        all_nonneg(s.take(n)),
{
    assert forall|i: int| 0 <= i < s.take(n).len() implies s.take(n)[i] >= 0 by {
        assert(s.take(n)[i] == s[i]);
    }
}

pub proof fn lemma_weight_nonneg(s: Seq<i32>)
    requires
        all_nonneg(s),
    ensures
        weight(s) >= 1,
    decreases s.len(),
{
    if s.len() > 0 {
        assert(s.drop_last() =~= s.take(s.len() - 1));
        lemma_all_nonneg_prefix(s, s.len() - 1);
        lemma_weight_nonneg(s.drop_last());
        assert(s.last() >= 0);
        assert(weight(s.drop_last()) * (s.last() + 1) >= 1) by (nonlinear_arith)
            requires
                weight(s.drop_last()) >= 1,
                s.last() >= 0,
        ;
    }
}

/// The weight of a stack of at least two values factors into the weight
/// of the part below the top two and the contributions of those two.
pub proof fn lemma_weight_top2(s: Seq<i32>)
    requires
        s.len() >= 2,
    ensures
        weight(s) == weight(s.take(s.len() - 2)) * (s[s.len() - 2] + 1) * (s[s.len() - 1] + 1),
{
    assert(s.drop_last() =~= s.take(s.len() - 1));
    assert(s.take(s.len() - 1).drop_last() =~= s.take(s.len() - 2));
    assert(s.take(s.len() - 1).last() == s[s.len() - 2]);
    assert(weight(s) == weight(s.take(s.len() - 1)) * (s[s.len() - 1] + 1));
    assert(weight(s.take(s.len() - 1)) == weight(s.take(s.len() - 2)) * (s[s.len() - 2] + 1));
    assert((weight(s.take(s.len() - 2)) * (s[s.len() - 2] + 1)) * (s[s.len() - 1] + 1) == weight(
        s.take(s.len() - 2),
    ) * (s[s.len() - 2] + 1) * (s[s.len() - 1] + 1));
}

/// Removing one value divides the weight by that value's contribution.
pub proof fn lemma_weight_remove(s: Seq<i32>, i: int)
    requires
        0 <= i < s.len(),
    ensures
        weight(s.remove(i)) * (s[i] + 1) == weight(s),
    decreases s.len(),
{
    if i == s.len() - 1 {
        assert(s.remove(i) =~= s.drop_last());
    } else {
        let d = s.drop_last();
        assert(s.remove(i).drop_last() =~= d.remove(i));
        assert(s.remove(i).last() == s.last());
        lemma_weight_remove(d, i);
        assert(s.remove(i).len() > 0);
        assert(weight(s.remove(i)) == weight(d.remove(i)) * (s.last() + 1));
        assert(d[i] == s[i]);
        assert((weight(d.remove(i)) * (s.last() + 1)) * (s[i] + 1) == weight(d) * (s.last() + 1))
            by (nonlinear_arith)
            requires
                weight(d.remove(i)) * (s[i] + 1) == weight(d),
        ;
        assert(weight(s) == weight(d) * (s.last() + 1));
    }
}

/// Under `state_ok`, the top two stack values can be combined by any of
/// the four operators without leaving `i32`.
pub proof fn lemma_combine_bounds(stack: Seq<i32>, pool: Seq<i32>)
    requires
        state_ok(stack, pool),
        stack.len() >= 2,
    ensures
        ({
            let l = stack[stack.len() - 2] as int;
            let r = stack[stack.len() - 1] as int;
            &&& l >= 0
            &&& r >= 0
            &&& (l + 1) * (r + 1) <= i32::MAX as int
            &&& l + r <= i32::MAX as int
            &&& l * r <= i32::MAX as int
            &&& weight(stack) == weight(stack.take(stack.len() - 2)) * (l + 1) * (r + 1)
            &&& weight(stack.take(stack.len() - 2)) >= 1
            &&& weight(pool) >= 1
        }),
{
    let l = stack[stack.len() - 2] as int;
    let r = stack[stack.len() - 1] as int;
    let base = stack.take(stack.len() - 2);
    assert(l >= 0);
    assert(r >= 0);
    lemma_weight_top2(stack);
    lemma_all_nonneg_prefix(stack, stack.len() - 2);
    lemma_weight_nonneg(base);
    lemma_weight_nonneg(pool);
    assert((l + 1) * (r + 1) >= 1) by (nonlinear_arith)
        requires
            l >= 0,
            r >= 0,
    ;
    assert((l + 1) * (r + 1) <= weight(stack)) by (nonlinear_arith)
        requires
            weight(base) >= 1,
            l >= 0,
            r >= 0,
            weight(stack) == weight(base) * (l + 1) * (r + 1),
    ;
    assert(weight(stack) <= i32::MAX as int) by (nonlinear_arith)
        requires
            weight(stack) * weight(pool) <= i32::MAX as int,
            weight(pool) >= 1,
            weight(stack) >= (l + 1) * (r + 1),
            (l + 1) * (r + 1) >= 1,
    ;
    assert(l + r <= (l + 1) * (r + 1) - 1 && l * r <= (l + 1) * (r + 1) - 1) by (nonlinear_arith)
        requires
            l >= 0,
            r >= 0,
    ;
}

/// Every child frame of a `state_ok` state is itself `state_ok`, its
/// pool is no larger, and one unit of the stack-plus-two-pools budget
/// is spent; at most four combine children and one push child per pool
/// entry exist.
pub proof fn lemma_child_frames_ok(stack: Seq<i32>, pool: Seq<i32>)
    requires
        state_ok(stack, pool),
    ensures
        child_frames(stack, pool).len() <= 4 + pool.len(),
        forall|k: int| 0 <= k < child_frames(stack, pool).len() ==> {
            let f = #[trigger] child_frames(stack, pool)[k];
            &&& state_ok(f.stack, f.pool)
            &&& f.pool.len() <= pool.len()
            &&& f.stack.len() + 2 * f.pool.len() + 1 == stack.len() + 2 * pool.len()
        },
{
    let cf = child_frames(stack, pool);
    let pf = push_frames(stack, pool);
    if stack.len() >= 2 {
        lemma_combine_bounds(stack, pool);
    }
    assert forall|k: int| #![trigger child_frames(stack, pool)[k]] 0 <= k < cf.len() implies {
        let f = child_frames(stack, pool)[k];
        &&& state_ok(f.stack, f.pool)
        &&& f.pool.len() <= pool.len()
        &&& f.stack.len() + 2 * f.pool.len() + 1 == stack.len() + 2 * pool.len()
    } by {
        let f = cf[k];
        let cmb = if stack.len() >= 2 {
            combine_frames(stack, pool)
        } else {
            Seq::<Frame>::empty()
        };
        if k < cmb.len() {
            let l = stack[stack.len() - 2] as int;
            let r = stack[stack.len() - 1] as int;
            let base = stack.take(stack.len() - 2);
            lemma_all_nonneg_prefix(stack, stack.len() - 2);
            let fadd = (Frame {
                op: Operation::Pop(Operator::Add),
                stack: base.push((l + r) as i32),
                pool: pool,
            });
            let fsub = (Frame {
                op: Operation::Pop(Operator::Subtract),
                stack: base.push((l - r) as i32),
                pool: pool,
            });
            let fmul = (Frame {
                op: Operation::Pop(Operator::Multiply),
                stack: base.push((l * r) as i32),
                pool: pool,
            });
            let fdiv = (Frame {
                op: Operation::Pop(Operator::Divide),
                stack: base.push((l / r) as i32),
                pool: pool,
            });
            assert((l <= r && f == fadd) || (l - r >= 0 && f == fsub) || (l <= r && f == fmul) || (
            r != 0 && l % r == 0 && f == fdiv));
            let v = f.stack.last() as int;
            // Whichever operator produced the child, its value lies in
            // [0, (l + 1) * (r + 1) - 1] and the frame stacks it on `base`.
            if f == fadd {
                assert(l + r <= i32::MAX as int);
                assert(v == l + r);
                assert(v + 1 <= (l + 1) * (r + 1)) by (nonlinear_arith)
                    requires
                        l >= 0,
                        r >= 0,
                        v == l + r,
                ;
            } else if f == fsub {
                assert(l - r >= 0 && l <= i32::MAX as int);
                assert(v == l - r);
                assert(v + 1 <= (l + 1) * (r + 1)) by (nonlinear_arith)
                    requires
                        l >= 0,
                        r >= 0,
                        v == l - r,
                        v >= 0,
                ;
            } else if f == fmul {
                assert(l * r <= i32::MAX as int);
                assert(l * r >= 0) by (nonlinear_arith)
                    requires
                        l >= 0,
                        r >= 0,
                ;
                assert(v == l * r);
                assert(v + 1 <= (l + 1) * (r + 1)) by (nonlinear_arith)
                    requires
                        l >= 0,
                        r >= 0,
                        v == l * r,
                ;
            } else {
                assert(r != 0 && l % r == 0 && f == fdiv);
                vstd::arithmetic::div_mod::lemma_fundamental_div_mod(l, r);
                assert(l == r * (l / r));
                assert(l / r >= 0 && l / r <= l) by (nonlinear_arith)
                    requires
                        l >= 0,
                        r >= 1,
                        l == r * (l / r),
                ;
                assert(v == l / r);
                assert(v + 1 <= (l + 1) * (r + 1)) by (nonlinear_arith)
                    requires
                        l >= 0,
                        r >= 0,
                        v <= l,
                        v >= 0,
                ;
            }
            assert(0 <= v && v + 1 <= (l + 1) * (r + 1) && f.stack =~= base.push(v as i32));
            assert(f.pool == pool);
            assert(f.stack.len() == stack.len() - 1);
            assert(f.stack.drop_last() =~= base);
            assert(weight(f.stack) == weight(base) * (v + 1));
            assert(all_nonneg(f.stack)) by {
                assert forall|i: int| 0 <= i < f.stack.len() implies f.stack[i] >= 0 by {
                    if i < base.len() {
                        assert(f.stack[i] == base[i]);
                    } else {
                        assert(f.stack[i] == v as i32);
                    }
                }
            }
            lemma_weight_nonneg(base);
            lemma_weight_nonneg(pool);
            assert(weight(base) * (v + 1) * weight(pool) <= i32::MAX as int) by (nonlinear_arith)
                requires
                    weight(base) >= 1,
                    weight(pool) >= 1,
                    0 <= v,
                    v + 1 <= (l + 1) * (r + 1),
                    weight(stack) == weight(base) * (l + 1) * (r + 1),
                    weight(stack) * weight(pool) <= i32::MAX as int,
            ;
        } else {
            let j = k - cmb.len();
            assert(f == pf[j]);
            let x = pool[j] as int;
            assert(x >= 0);
            assert(f.stack =~= stack.push(pool[j]));
            assert(f.pool =~= pool.remove(j));
            assert(f.stack.drop_last() =~= stack);
            assert(weight(f.stack) == weight(stack) * (x + 1));
            lemma_weight_remove(pool, j);
            assert(all_nonneg(f.stack)) by {
                assert forall|i: int| 0 <= i < f.stack.len() implies f.stack[i] >= 0 by {
                    if i < stack.len() {
                        assert(f.stack[i] == stack[i]);
                    }
                }
            }
            assert(all_nonneg(f.pool)) by {
                assert forall|i: int| 0 <= i < f.pool.len() implies f.pool[i] >= 0 by {
                    if i < j {
                        assert(f.pool[i] == pool[i]);
                    } else {
                        assert(f.pool[i] == pool[i + 1]);
                    }
                }
            }
            assert((weight(stack) * (x + 1)) * weight(pool.remove(j)) <= i32::MAX as int)
                by (nonlinear_arith)
                requires
                    weight(pool.remove(j)) * (x + 1) == weight(pool),
                    weight(stack) * weight(pool) <= i32::MAX as int,
    ;
        }
    }
}

/// A combine child keeps the pool and shortens the stack by one; a push
/// child lengthens the stack by one and shortens the pool by one.
pub proof fn lemma_child_frame_shape(stack: Seq<i32>, pool: Seq<i32>, k: int)
    requires
        0 <= k < child_frames(stack, pool).len(),
    ensures
        ({
            let f = child_frames(stack, pool)[k];
            &&& (f.op matches Operation::Pop(_)) ==> stack.len() >= 2 && f.stack.len() == stack.len() - 1 && f.pool == pool
            &&& (f.op matches Operation::Push(_)) ==> f.stack.len() == stack.len() + 1 && f.pool.len() == pool.len() - 1
        }),
{
    let cmb = if stack.len() >= 2 {
        combine_frames(stack, pool)
    } else {
        Seq::<Frame>::empty()
    };
    let f = child_frames(stack, pool)[k];
    if k < cmb.len() {
        assert(f.stack.len() == stack.len() - 1 && f.pool == pool && (f.op matches Operation::Pop(
            _,
        )));
    } else {
        assert(f == push_frames(stack, pool)[k - cmb.len()]);
    }
}

/// Law: along any lineage, each push keeps the stack-plus-pool total
/// and each combine spends one unit of it, so stack length plus pool
/// length plus the number of combines equals the root's tile count.
pub proof fn lemma_budget(n: &NodeData)
    requires
        lineage_ok(*n),
    ensures
        n.stack@.len() + n.numbers@.len() + pops_in(*n) == root_data(*n).numbers@.len(),
    decreases *n,
{
    match &n.parent {
        Option::None => {},
        Option::Some(p) => {
            lemma_budget(&p.0);
            let cf = child_frames((*p.0).stack@, (*p.0).numbers@);
            let k = choose|k: int| 0 <= k < cf.len() && cf[k] == frame_of(*n);
            lemma_child_frame_shape((*p.0).stack@, (*p.0).numbers@, k);
        },
    }
}

/// Law: a state reached from the root by pushes alone satisfies
/// `len(pool) + len(stack) == len(tiles)`; a lineage that contains a
/// combine spends budget and does not.
pub proof fn lemma_push_only_budget(n: &NodeData)
    requires
        lineage_ok(*n),
        pops_in(*n) == 0,
    ensures
        n.stack@.len() + n.numbers@.len() == root_data(*n).numbers@.len(),
{
    lemma_budget(n);
}

/// Law: every state reachable from a root whose tiles satisfy the
/// arithmetic bound is itself within the bound, and in particular every
/// value ever present on its stack (and in its pool) is non-negative.
pub proof fn lemma_reachable_state_ok(n: &NodeData)
    requires
        lineage_ok(*n),
        state_ok(Seq::<i32>::empty(), root_data(*n).numbers@),
    ensures
        state_ok(n.stack@, n.numbers@),
        all_nonneg(n.stack@),
    decreases *n,
{
    match &n.parent {
        Option::None => {
            assert(n.stack@ =~= Seq::<i32>::empty());
        },
        Option::Some(p) => {
            lemma_reachable_state_ok(&p.0);
            lemma_child_frames_ok((*p.0).stack@, (*p.0).numbers@);
            let cf = child_frames((*p.0).stack@, (*p.0).numbers@);
            let k = choose|k: int| 0 <= k < cf.len() && cf[k] == frame_of(*n);
            assert(state_ok(cf[k].stack, cf[k].pool));
        },
    }
}

/// Law: the generator prunes exactly as stated. A Divide child exists
/// only with a non-zero divisor and zero remainder and carries the
/// quotient; a Subtract child only with a non-negative result, which it
/// carries; Add and Multiply children only in canonical operand order
/// `left <= right`, so no commutative pair appears in both orders.
pub proof fn lemma_expand_pruning(stack: Seq<i32>, pool: Seq<i32>, k: int)
    requires
        all_nonneg(stack),
        0 <= k < child_frames(stack, pool).len(),
    ensures
        ({
            let f = child_frames(stack, pool)[k];
            let l = stack[stack.len() - 2] as int;
            let r = stack[stack.len() - 1] as int;
            &&& f.op == Operation::Pop(Operator::Divide) ==> stack.len() >= 2 && r != 0 && l % r
                == 0 && f.stack.last() as int == l / r && f.stack.last() >= 0
            &&& f.op == Operation::Pop(Operator::Subtract) ==> stack.len() >= 2 && l - r >= 0
                && f.stack.last() as int == l - r && f.stack.last() >= 0
            &&& f.op == Operation::Pop(Operator::Add) ==> stack.len() >= 2 && l <= r
            &&& f.op == Operation::Pop(Operator::Multiply) ==> stack.len() >= 2 && l <= r
        }),
{
    let cmb = if stack.len() >= 2 {
        combine_frames(stack, pool)
    } else {
        Seq::<Frame>::empty()
    };
    let f = child_frames(stack, pool)[k];
    if k < cmb.len() {
        let l = stack[stack.len() - 2] as int;
        let r = stack[stack.len() - 1] as int;
        let base = stack.take(stack.len() - 2);
        assert(l >= 0 && r >= 0);
        if f.op == Operation::Pop(Operator::Subtract) {
            assert(f.stack == base.push((l - r) as i32) && l - r >= 0);
            assert(f.stack.last() == (l - r) as i32);
        }
        if f.op == Operation::Pop(Operator::Divide) {
            assert(f.stack == base.push((l / r) as i32) && r != 0 && l % r == 0);
            vstd::arithmetic::div_mod::lemma_fundamental_div_mod(l, r);
            assert(l == r * (l / r));
            assert(l / r >= 0 && l / r <= l) by (nonlinear_arith)
                requires
                    l >= 0,
                    r >= 1,
                    l == r * (l / r),
            ;
            assert(f.stack.last() == (l / r) as i32);
        }
    } else {
        assert(f == push_frames(stack, pool)[k - cmb.len()]);
    }
}

fn append_digit(s: &mut String, d: i32)
    requires
        0 <= d <= 9,
    ensures
        final(s)@ == old(s)@ + seq![digit_char(d as int)],
{
    proof {
        reveal_strlit("0");
        reveal_strlit("1");
        reveal_strlit("2");
        reveal_strlit("3");
        reveal_strlit("4");
        reveal_strlit("5");
        reveal_strlit("6");
        reveal_strlit("7");
        reveal_strlit("8");
        reveal_strlit("9");
    }
    if d == 0 {
        s.append("0");
    } else if d == 1 {
        s.append("1");
    } else if d == 2 {
        s.append("2");
    } else if d == 3 {
        s.append("3");
    } else if d == 4 {
        s.append("4");
    } else if d == 5 {
        s.append("5");
    } else if d == 6 {
        s.append("6");
    } else if d == 7 {
        s.append("7");
    } else if d == 8 {
        s.append("8");
    } else {
        s.append("9");
    }
}

fn append_decimal(s: &mut String, n: i32)
    requires
        n >= 0,
    ensures
        final(s)@ == old(s)@ + dec_rep(n as int),
    decreases n,
{
    if n <= 9 {
        append_digit(s, n);
    } else {
        append_decimal(s, n / 10);
        append_digit(s, n % 10);
        proof {
            assert(s@ =~= old(s)@ + dec_rep(n as int));
        }
    }
}

fn copy_values(v: &Vec<i32>) -> (r: Vec<i32>)
    ensures
        r@ == v@,
{
    let mut r: Vec<i32> = Vec::new();
    let mut i: usize = 0;
    while i < v.len()
        invariant
            i <= v@.len(),
            r@ == v@.take(i as int),
        decreases v@.len() - i,
    {
        r.push(v[i]);
        i += 1;
        proof {
            assert(v@.take(i as int) =~= v@.take(i as int - 1).push(v@[i as int - 1]));
        }
    }
    proof {
        assert(v@.take(v@.len() as int) =~= v@);
    }
    r
}

impl Operator {
    /// The display symbol of the operator.
    pub fn symbol(&self) -> (r: &'static str)
        ensures
            r@ == seq![symbol_char(*self)],
    {
        proof {
            reveal_strlit("+");
            reveal_strlit("-");
            reveal_strlit("*");
            reveal_strlit("/");
        }
        match self {
            Operator::Add => "+",
            Operator::Subtract => "-",
            Operator::Multiply => "*",
            Operator::Divide => "/",
        }
    }
}

impl Node {
    /// The initial state: empty stack, the full tile pool, no parent.
    pub fn new(numbers: Vec<i32>) -> (r: Node)
        ensures
            (*r.0).parent is None,
            (*r.0).op == Operation::Push(0i32),
            (*r.0).stack@ == Seq::<i32>::empty(),
            (*r.0).numbers@ == numbers@,
            lineage_ok(*r.0),
    {
        let r = Node(
            Rc::new(
                NodeData {
                    parent: Option::None,
                    op: Operation::Push(0),
                    stack: Vec::new(),
                    numbers,
                },
            ),
        );
        r
    }

    /// A second handle on the same state.
    pub fn duplicate(&self) -> (r: Node)
        ensures
            r == *self,
    {
        Node(self.0.clone())
    }

    /// The state holds one completed value.
    pub fn has_value(&self) -> (r: bool)
        ensures
            r == ((*self.0).stack@.len() == 1),
    {
        self.0.stack.len() == 1
    }

    /// The completed value; only a state with exactly one stack entry
    /// has one.
    pub fn value(&self) -> (r: i32)
        requires
            (*self.0).stack@.len() == 1,
        ensures
            r == (*self.0).stack@[0],
    {
        self.0.stack[0]
    }

    /// The child that pushes the tile at `number_index`: the tile moves
    /// from the pool to the top of the stack.
    pub fn push(&self, number_index: usize) -> (r: Node)
        requires
            number_index < (*self.0).numbers@.len(),
        ensures
            (*r.0).parent == Option::Some(*self),
            (*r.0).op == Operation::Push((*self.0).numbers@[number_index as int]),
            (*r.0).stack@ == (*self.0).stack@.push((*self.0).numbers@[number_index as int]),
            (*r.0).numbers@ == (*self.0).numbers@.remove(number_index as int),
    {
        let mut numbers = copy_values(&self.0.numbers);
        let number = numbers.remove(number_index);
        let mut stack = copy_values(&self.0.stack);
        stack.push(number);
        Node(
            Rc::new(
                NodeData {
                    parent: Option::Some(Node(self.0.clone())),
                    op: Operation::Push(number),
                    stack,
                    numbers,
                },
            ),
        )
    }

    /// The child that replaces the top two stack values: `stack` is the
    /// stack below them and `result` the computed value; the pool is
    /// unchanged.
    pub fn pop(&self, operator: Operator, stack: &Vec<i32>, result: i32) -> (r: Node)
        ensures
            (*r.0).parent == Option::Some(*self),
            (*r.0).op == Operation::Pop(operator),
            (*r.0).stack@ == stack@.push(result),
            (*r.0).numbers@ == (*self.0).numbers@,
    {
        let mut new_stack = copy_values(stack);
        new_stack.push(result);
        Node(
            Rc::new(
                NodeData {
                    parent: Option::Some(Node(self.0.clone())),
                    op: Operation::Pop(operator),
                    stack: new_stack,
                    numbers: copy_values(&self.0.numbers),
                },
            ),
        )
    }

    /// The textual-trace skeleton: the operations that built this state,
    /// from the root's first step down to this state's own operation.
    pub fn ops(&self) -> (r: Vec<Operation>)
        ensures
            r@ == trace_ops(frames(*self.0)),
        decreases *self.0,
    {
        match &self.0.parent {
            Option::None => {
                let r: Vec<Operation> = Vec::new();
                proof {
                    assert(r@ =~= trace_ops(frames(*self.0)));
                }
                r
            },
            Option::Some(p) => {
                let mut r = p.ops();
                r.push(self.0.op);
                proof {
                    assert(frames(*self.0) == frames(*p.0).push(frame_of(*self.0)));
                    assert(r@ =~= trace_ops(frames(*self.0)));
                }
                r
            },
        }
    }

    /// The textual trace of this state: the tokens of the operations
    /// that built it, space-separated, the root contributing nothing.
    pub fn trace(&self) -> (r: String)
        requires
            ops_nonneg(frames(*self.0)),
        ensures
            r@ == trace_of(frames(*self.0)),
        decreases *self.0,
    {
        proof {
            reveal_strlit(" ");
        }
        match &self.0.parent {
            Option::None => {
                let r = String::new();
                proof {
                    assert(r@ =~= trace_of(frames(*self.0)));
                }
                r
            },
            Option::Some(p) => {
                proof {
                    assert(frames(*self.0) == frames(*p.0).push(frame_of(*self.0)));
                    assert(frames(*p.0) =~= frames(*self.0).drop_last());
                    lemma_frames_last(&p.0);
                    assert(ops_nonneg(frames(*p.0))) by {
                        assert forall|i: int|
                            1 <= i < frames(*p.0).len() implies ((#[trigger] frames(
                            *p.0,
                        )[i].op) matches Operation::Push(n) ==> n >= 0) by {
                            assert(frames(*p.0)[i] == frames(*self.0)[i]);
                        }
                    }
                }
                let mut r = p.trace();
                if p.0.parent.is_some() {
                    r.append(" ");
                }
                match self.0.op {
                    Operation::Push(n) => {
                        proof {
                            assert(frames(*self.0).last().op == Operation::Push(n));
                            assert(n >= 0);
                        }
                        append_decimal(&mut r, n);
                    },
                    Operation::Pop(o) => {
                        r.append(o.symbol());
                    },
                }
                proof {
                    assert(r@ =~= trace_of(frames(*self.0)));
                }
                r
            },
        }
    }

    /// All legal children in emission order: combine children first
    /// (Add, Subtract, Multiply, Divide, each under its pruning rule),
    /// then one push child per pool position.
    pub fn expand(&self) -> (r: Vec<Node>)
        requires
            state_ok((*self.0).stack@, (*self.0).numbers@),
        ensures
            frames_seq(r@) == child_frames((*self.0).stack@, (*self.0).numbers@),
            r@.len() == child_frames((*self.0).stack@, (*self.0).numbers@).len(),
            forall|k: int|
                0 <= k < r@.len() ==> (*(#[trigger] r@[k]).0).parent == Option::Some(*self),
    {
        let ghost s = (*self.0).stack@;
        let ghost p = (*self.0).numbers@;
        let ghost cmb = if s.len() >= 2 {
            combine_frames(s, p)
        } else {
            Seq::<Frame>::empty()
        };
        let mut children: Vec<Node> = Vec::new();

        if self.0.stack.len() >= 2 {
            let slen = self.0.stack.len();
            let right = self.0.stack[slen - 1];
            let left = self.0.stack[slen - 2];
            let mut base = copy_values(&self.0.stack);
            base.pop();
            base.pop();
            proof {
                assert(base@ =~= s.take(s.len() - 2));
                lemma_combine_bounds(s, p);
            }
            let ghost l = left as int;
            let ghost rr = right as int;
            let ghost bb = s.take(s.len() - 2);
            let ghost fadd = (Frame {
                op: Operation::Pop(Operator::Add),
                stack: bb.push((l + rr) as i32),
                pool: p,
            });
            let ghost fsub = (Frame {
                op: Operation::Pop(Operator::Subtract),
                stack: bb.push((l - rr) as i32),
                pool: p,
            });
            let ghost fmul = (Frame {
                op: Operation::Pop(Operator::Multiply),
                stack: bb.push((l * rr) as i32),
                pool: p,
            });
            let ghost fdiv = (Frame {
                op: Operation::Pop(Operator::Divide),
                stack: bb.push((l / rr) as i32),
                pool: p,
            });

            if left <= right {
                children.push(self.pop(Operator::Add, &base, left + right));
            }
            proof {
                assert(frames_seq(children@) =~= (if l <= rr {
                    seq![fadd]
                } else {
                    Seq::<Frame>::empty()
                }));
                assert(forall|k: int|
                    0 <= k < children@.len() ==> (*(#[trigger] children@[k]).0).parent
                        == Option::Some(*self));
            }
            if left - right >= 0 {
                children.push(self.pop(Operator::Subtract, &base, left - right));
            }
            proof {
                assert(frames_seq(children@) =~= (if l <= rr {
                    seq![fadd]
                } else {
                    Seq::<Frame>::empty()
                }) + (if l - rr >= 0 {
                    seq![fsub]
                } else {
                    Seq::<Frame>::empty()
                }));
                assert(forall|k: int|
                    0 <= k < children@.len() ==> (*(#[trigger] children@[k]).0).parent
                        == Option::Some(*self));
            }
            if left <= right {
                children.push(self.pop(Operator::Multiply, &base, left * right));
            }
            proof {
                assert(frames_seq(children@) =~= (if l <= rr {
                    seq![fadd]
                } else {
                    Seq::<Frame>::empty()
                }) + (if l - rr >= 0 {
                    seq![fsub]
                } else {
                    Seq::<Frame>::empty()
                }) + (if l <= rr {
                    seq![fmul]
                } else {
                    Seq::<Frame>::empty()
                }));
                assert(forall|k: int|
                    0 <= k < children@.len() ==> (*(#[trigger] children@[k]).0).parent
                        == Option::Some(*self));
            }
            if right != 0 && left % right == 0 {
                children.push(self.pop(Operator::Divide, &base, left / right));
            }
            proof {
                assert(frames_seq(children@) =~= (if l <= rr {
                    seq![fadd]
                } else {
                    Seq::<Frame>::empty()
                }) + (if l - rr >= 0 {
                    seq![fsub]
                } else {
                    Seq::<Frame>::empty()
                }) + (if l <= rr {
                    seq![fmul]
                } else {
                    Seq::<Frame>::empty()
                }) + (if rr != 0 && l % rr == 0 {
                    seq![fdiv]
                } else {
                    Seq::<Frame>::empty()
                }));
                assert(frames_seq(children@) =~= cmb);
                assert(forall|k: int|
                    0 <= k < children@.len() ==> (*(#[trigger] children@[k]).0).parent
                        == Option::Some(*self));
            }
        }
        proof {
            assert(frames_seq(children@) =~= cmb);
        }

        let n = self.0.numbers.len();
        let mut i: usize = 0;
        while i < n
            invariant
                n == p.len(),
                i <= n,
                s == (*self.0).stack@,
                p == (*self.0).numbers@,
                cmb == (if s.len() >= 2 {
                    combine_frames(s, p)
                } else {
                    Seq::<Frame>::empty()
                }),
                children@.len() == cmb.len() + i,
                frames_seq(children@) == cmb + push_frames(s, p).take(i as int),
                forall|k: int|
                    0 <= k < children@.len() ==> (*(#[trigger] children@[k]).0).parent
                        == Option::Some(*self),
            decreases n - i,
        {
            let ghost prev = children@;
            children.push(self.push(i));
            i += 1;
            proof {
                let j = i as int - 1;
                assert(frame_of(*children@[children@.len() - 1].0) == push_frames(s, p)[j]);
                assert(frames_seq(children@) =~= frames_seq(prev).push(push_frames(s, p)[j]));
                assert(push_frames(s, p).take(j + 1) =~= push_frames(s, p).take(j).push(
                    push_frames(s, p)[j],
                ));
                assert(cmb + push_frames(s, p).take(j + 1) =~= (cmb + push_frames(s, p).take(
                    j,
                )).push(push_frames(s, p)[j]));
                assert(frames_seq(children@) =~= cmb + push_frames(s, p).take(i as int));
            }
        }
        proof {
            assert(push_frames(s, p).take(p.len() as int) =~= push_frames(s, p));
            assert(frames_seq(children@) =~= child_frames(s, p));
        }
        children
    }
}

} // verus!
