//! The breadth-first search driver: a first-in-first-out frontier of
//! states, a best-so-far value, and two counters. The whole run is
//! modelled by a deterministic step function over ghost configurations,
//! and `solve` promises that its result and counters are exactly those
//! of a finished run of that model.

use vstd::prelude::*;

use std::collections::VecDeque;

use crate::node::child_frames;
use crate::node::frame_of;
use crate::node::frames;
use crate::node::frames_seq;
use crate::node::lemma_child_frames_ok;
use crate::node::lemma_frames_last;
use crate::node::lineage_ok;
use crate::node::node_data;
use crate::node::root_data;
use crate::node::state_ok;
use crate::node::Frame;
use crate::node::Node;
use crate::node::Operation;
use vstd::arithmetic::power::lemma_pow_increases;
use vstd::arithmetic::power::lemma_pow_positive;
use vstd::arithmetic::power::pow;

verus! {

/// One snapshot of the search: the frontier (as the frame lineage of
/// each queued state, front first), the lineage of the best state, the
/// best value (`-1` until a first value is seen), the two counters and
/// whether the exact-match shortcut has fired.
pub struct Conf {
    pub queue: Seq<Seq<Frame>>,
    pub best: Seq<Frame>,
    pub best_value: int,
    pub visited: nat,
    pub expanded: nat,
    pub done: bool,
}

/// The lineage of the root state built from `tiles`.
pub open spec fn root_line(tiles: Seq<i32>) -> Seq<Frame> {
    seq![Frame { op: Operation::Push(0), stack: Seq::<i32>::empty(), pool: tiles }]
}

/// The search as seeded: the root alone in the frontier and already
/// counted as generated, no value seen, nothing visited.
pub open spec fn conf_init(tiles: Seq<i32>) -> Conf {
    Conf {
        queue: seq![root_line(tiles)],
        best: root_line(tiles),
        best_value: -1,
        visited: 0,
        expanded: 1,
        done: false,
    }
}

/// The lineages of the children of the state whose lineage is `l`.
#[verifier::opaque]
pub open spec fn line_children(l: Seq<Frame>) -> Seq<Seq<Frame>>
    recommends
        l.len() >= 1,
{
    Seq::new(
        child_frames(l.last().stack, l.last().pool).len(),
        |k: int| l.push(child_frames(l.last().stack, l.last().pool)[k]),
    )
}

/// Absolute value.
pub open spec fn iabs(x: int) -> int {
    if x < 0 {
        -x
    } else {
        x
    }
}

/// A freshly seen value `v` replaces the best seen value exactly when
/// none was seen yet or it is strictly closer to the target.
pub open spec fn improves(best_value: int, v: int, target: int) -> bool {
    best_value == -1 || iabs(v - target) < iabs(best_value - target)
}

/// One round of the driver: dequeue the front state and count it
/// visited; if it carries a value that improves on the best, adopt it,
/// and stop outright when it hits the target; otherwise enqueue all its
/// children and count each as generated.
#[verifier::opaque]
pub open spec fn step(target: i32, c: Conf) -> Conf
    recommends
        !c.done,
        c.queue.len() >= 1,
        c.queue[0].len() >= 1,
{
    let l = c.queue[0];
    let rest = c.queue.drop_first();
    let f = l.last();
    if f.stack.len() == 1 && improves(c.best_value, f.stack[0] as int, target as int) {
        if f.stack[0] == target {
            Conf {
                queue: rest,
                best: l,
                best_value: f.stack[0] as int,
                visited: c.visited + 1,
                expanded: c.expanded,
                done: true,
            }
        } else {
            Conf {
                queue: rest + line_children(l),
                best: l,
                best_value: f.stack[0] as int,
                visited: c.visited + 1,
                expanded: c.expanded + line_children(l).len(),
                done: false,
            }
        }
    } else {
        Conf {
            queue: rest + line_children(l),
            best: c.best,
            best_value: c.best_value,
            visited: c.visited + 1,
            expanded: c.expanded + line_children(l).len(),
            done: false,
        }
    }
}

/// The search stops once the shortcut fired or the frontier is empty.
pub open spec fn conf_final(c: Conf) -> bool {
    c.done || c.queue.len() == 0
}

/// `tr` is a run of the model: it starts at the seeded configuration
/// and each next entry is the step of a not-yet-final predecessor.
pub open spec fn trace_ok(tiles: Seq<i32>, target: i32, tr: Seq<Conf>) -> bool {
    &&& tr.len() >= 1
    &&& tr[0] == conf_init(tiles)
    &&& forall|i: int|
        0 <= i < tr.len() - 1 ==> !conf_final(#[trigger] tr[i]) && tr[i + 1] == step(target, tr[i])
}

/// `end` is the final configuration of a finished run on these inputs.
pub open spec fn search_outcome(tiles: Seq<i32>, target: i32, end: Conf) -> bool {
    exists|tr: Seq<Conf>| #[trigger] trace_ok(tiles, target, tr) && tr.last() == end && conf_final(end)
}

/// A run extended by one step of its not-yet-final last entry is a run.
pub proof fn lemma_trace_extend(tiles: Seq<i32>, target: i32, tr: Seq<Conf>, next: Conf)
    requires
        trace_ok(tiles, target, tr),
        !conf_final(tr.last()),
        next == step(target, tr.last()),
    ensures
        trace_ok(tiles, target, tr.push(next)),
{
    let tr2 = tr.push(next);
    assert(tr2[0] == tr[0]);
    assert forall|i: int| 0 <= i < tr2.len() - 1 implies !conf_final(#[trigger] tr2[i]) && tr2[i
        + 1] == step(target, tr2[i]) by {
        if i < tr.len() - 1 {
            assert(tr2[i] == tr[i]);
            assert(tr2[i + 1] == tr[i + 1]);
        } else {
            assert(tr2[i] == tr.last());
            assert(tr2[i + 1] == next);
        }
    }
}

proof fn lemma_traces_agree(tiles: Seq<i32>, target: i32, tr1: Seq<Conf>, tr2: Seq<Conf>, i: int)
    requires
        trace_ok(tiles, target, tr1),
        trace_ok(tiles, target, tr2),
        0 <= i < tr1.len(),
        i < tr2.len(),
    ensures
        tr1[i] == tr2[i],
    decreases i,
{
    if i > 0 {
        lemma_traces_agree(tiles, target, tr1, tr2, i - 1);
    }
}

/// Law: the model is deterministic — a run on given tiles and target
/// has exactly one finished configuration, so two invocations of the
/// search on identical inputs yield identical result lineages, best
/// values and counters.
pub proof fn lemma_search_deterministic(tiles: Seq<i32>, target: i32, end1: Conf, end2: Conf)
    requires
        search_outcome(tiles, target, end1),
        search_outcome(tiles, target, end2),
    ensures
        end1 == end2,
{
    let tr1 = choose|tr: Seq<Conf>|
        #[trigger] trace_ok(tiles, target, tr) && tr.last() == end1 && conf_final(end1);
    let tr2 = choose|tr: Seq<Conf>|
        #[trigger] trace_ok(tiles, target, tr) && tr.last() == end2 && conf_final(end2);
    if tr1.len() <= tr2.len() {
        lemma_traces_agree(tiles, target, tr1, tr2, tr1.len() - 1);
        if tr1.len() < tr2.len() {
            assert(!conf_final(tr2[tr1.len() - 1]));
            assert(false);
        }
    } else {
        lemma_traces_agree(tiles, target, tr2, tr1, tr2.len() - 1);
        assert(!conf_final(tr1[tr2.len() - 1]));
        assert(false);
    }
}

/// Every state ever generated is visited or still queued.
pub open spec fn counters_ok(c: Conf) -> bool {
    c.expanded == c.visited + c.queue.len()
}

/// Law: at every point of a run, before and after every step, the
/// visited counter never exceeds the generated counter.
pub proof fn lemma_counters(tiles: Seq<i32>, target: i32, tr: Seq<Conf>, i: int)
    requires
        trace_ok(tiles, target, tr),
        0 <= i < tr.len(),
    ensures
        counters_ok(tr[i]),
        tr[i].visited <= tr[i].expanded,
    decreases i,
{
    if i > 0 {
        reveal(step);
        reveal(line_children);
        lemma_counters(tiles, target, tr, i - 1);
        assert(tr[i] == step(target, tr[i - 1]));
    }
}

/// The stack-plus-two-pools budget of a state: every child of a state
/// has a budget one smaller.
pub open spec fn node_measure(n: Node) -> nat {
    (*n.0).stack@.len() + 2 * (*n.0).numbers@.len()
}

/// Termination potential of the frontier: each queued state counts for
/// `k` to the power of its budget.
pub open spec fn pot(q: Seq<Node>, k: int) -> int
    decreases q.len(),
{
    if q.len() == 0 {
        0
    } else {
        pow(k, node_measure(q[0])) + pot(q.drop_first(), k)
    }
}

proof fn lemma_pot_nonneg(q: Seq<Node>, k: int)
    requires
        k >= 1,
    ensures
        pot(q, k) >= 0,
    decreases q.len(),
{
    if q.len() > 0 {
        lemma_pow_positive(k, node_measure(q[0]));
        lemma_pot_nonneg(q.drop_first(), k);
    }
}

proof fn lemma_pot_concat(a: Seq<Node>, b: Seq<Node>, k: int)
    ensures
        pot(a + b, k) == pot(a, k) + pot(b, k),
    decreases a.len(),
{
    if a.len() == 0 {
        assert(a + b =~= b);
    } else {
        assert((a + b).drop_first() =~= a.drop_first() + b);
        assert((a + b)[0] == a[0]);
        lemma_pot_concat(a.drop_first(), b, k);
    }
}

proof fn lemma_pot_bound(q: Seq<Node>, k: int, m: nat)
    requires
        k >= 1,
        forall|i: int| 0 <= i < q.len() ==> node_measure(#[trigger] q[i]) <= m,
    ensures
        pot(q, k) <= q.len() * pow(k, m),
    decreases q.len(),
{
    if q.len() > 0 {
        lemma_pow_increases(k as nat, node_measure(q[0]), m);
        assert(forall|i: int|
            0 <= i < q.drop_first().len() ==> node_measure(#[trigger] q.drop_first()[i]) <= m);
        lemma_pot_bound(q.drop_first(), k, m);
        assert(pot(q, k) <= pow(k, m) + (q.len() - 1) * pow(k, m));
        assert(pow(k, m) + (q.len() - 1) * pow(k, m) == q.len() * pow(k, m)) by (nonlinear_arith);
    }
}

/// The two search counters: states generated (enqueued, the root
/// included) and states visited (dequeued and examined).
pub struct SolveStats {
    pub expanded: usize,
    pub visited: usize,
}

impl SolveStats {
    /// Fresh counters.
    pub fn new() -> (r: SolveStats)
        ensures
            r.expanded == 0,
            r.visited == 0,
    {
        SolveStats { expanded: 0, visited: 0 }
    }
}

/// Addition capped at the largest counter value; below the cap it is
/// exact addition.
pub open spec fn sat(x: int) -> int {
    if x > usize::MAX as int {
        usize::MAX as int
    } else {
        x
    }
}

fn dist(v: i32, target: i32) -> (r: i64)
    ensures
        r == iabs(v as int - target as int),
{
    let d = v as i64 - target as i64;
    if d < 0 {
        -d
    } else {
        d
    }
}

/// The exec frontier mirrors the model frontier lineage by lineage.
pub open spec fn queue_matches(q: Seq<Node>, lines: Seq<Seq<Frame>>) -> bool {
    &&& q.len() == lines.len()
    &&& forall|i: int| 0 <= i < q.len() ==> frames(*(#[trigger] q[i]).0) == lines[i]
}

/// Every queued state is legally built, within the arithmetic bound,
/// and descends from the root over `tiles`.
pub open spec fn queue_wf(q: Seq<Node>, tiles: Seq<i32>) -> bool {
    forall|i: int|
        0 <= i < q.len() ==> {
            let nd = *(#[trigger] q[i]).0;
            &&& lineage_ok(nd)
            &&& state_ok(nd.stack@, nd.numbers@)
            &&& nd.numbers@.len() <= tiles.len()
            &&& root_data(nd).numbers@ == tiles
        }
}

/// What one step does, spelled out for callers: the front state is
/// dequeued and counted visited; on an exact match the run closes with
/// that state as best; otherwise its children are enqueued and counted,
/// and the best is replaced exactly when the state's value improves.
proof fn lemma_step_facts(target: i32, cur: Conf)
    requires
        !cur.done,
        cur.queue.len() >= 1,
    ensures
        ({
            let l = cur.queue[0];
            let f = l.last();
            let upd = f.stack.len() == 1 && improves(cur.best_value, f.stack[0] as int, target as int);
            let ex = upd && f.stack[0] == target;
            let next = step(target, cur);
            &&& next.visited == cur.visited + 1
            &&& (ex ==> next == (Conf {
                queue: cur.queue.drop_first(),
                best: l,
                best_value: f.stack[0] as int,
                visited: cur.visited + 1,
                expanded: cur.expanded,
                done: true,
            }))
            &&& (!ex ==> {
                &&& next.queue == cur.queue.drop_first() + line_children(l)
                &&& next.expanded == cur.expanded + line_children(l).len()
                &&& !next.done
                &&& (upd ==> next.best == l && next.best_value == f.stack[0] as int)
                &&& (!upd ==> next.best == cur.best && next.best_value == cur.best_value)
            })
        }),
{
    reveal(step);
}

/// Dequeuing the front state and enqueuing all its children keeps the
/// frontier in correspondence with the model, keeps it well formed, and
/// strictly shrinks its termination potential.
proof fn lemma_step_enqueue(
    tiles: Seq<i32>,
    cur: Conf,
    node: &Node,
    cn: Seq<Node>,
    q0: Seq<Node>,
    newq: Seq<Node>,
    k: int,
)
    requires
        q0.len() >= 1,
        queue_matches(q0, cur.queue),
        queue_wf(q0, tiles),
        *node == q0[0],
        newq == q0.drop_first() + cn,
        frames_seq(cn) == child_frames((*node.0).stack@, (*node.0).numbers@),
        forall|jj: int| 0 <= jj < cn.len() ==> (*(#[trigger] cn[jj]).0).parent == Option::Some(
            *node,
        ),
        k == tiles.len() + 5,
    ensures
        cn.len() == line_children(cur.queue[0]).len(),
        queue_matches(newq, cur.queue.drop_first() + line_children(cur.queue[0])),
        queue_wf(newq, tiles),
        pot(newq, k) < pot(q0, k),
{
    reveal(line_children);
    let l_line = cur.queue[0];
    let cf = child_frames((*node.0).stack@, (*node.0).numbers@);
    let lc = line_children(l_line);
    assert(frames(*node.0) == l_line);
    lemma_frames_last(&node.0);
    assert(l_line.last() == frame_of(*node.0));
    assert(state_ok((*node.0).stack@, (*node.0).numbers@));
    lemma_child_frames_ok((*node.0).stack@, (*node.0).numbers@);
    assert(cn.len() == cf.len());
    assert(lc.len() == cf.len());

    let m = node_measure(*node);
    assert forall|jj: int| 0 <= jj < cn.len() implies {
        let cd = *(#[trigger] cn[jj]).0;
        &&& frames(cd) == lc[jj]
        &&& lineage_ok(cd)
        &&& state_ok(cd.stack@, cd.numbers@)
        &&& cd.numbers@.len() <= tiles.len()
        &&& root_data(cd).numbers@ == tiles
        &&& node_measure(cn[jj]) + 1 == m
    } by {
        let cd = *cn[jj].0;
        assert(frame_of(cd) == frames_seq(cn)[jj]);
        assert(frame_of(cd) == cf[jj]);
        assert(cd.parent == Option::Some(*node));
        assert(frames(cd) == frames(*node.0).push(frame_of(cd)));
        assert(lc[jj] == l_line.push(cf[jj]));
        assert(cf.contains(frame_of(cd)));
        assert(lineage_ok(cd));
        assert(state_ok(cf[jj].stack, cf[jj].pool));
        assert(cf[jj].pool.len() <= (*node.0).numbers@.len());
        assert(cf[jj].stack.len() + 2 * cf[jj].pool.len() + 1 == (*node.0).stack@.len() + 2 * (
        *node.0).numbers@.len());
        assert(root_data(cd) == root_data(*node.0));
    }

    // Correspondence of the new frontier with the model's.
    assert(newq.len() == cur.queue.drop_first().len() + lc.len());
    assert forall|i: int|
        0 <= i < newq.len() implies frames(*(#[trigger] newq[i]).0) == (cur.queue.drop_first()
        + lc)[i] by {
        if i < q0.len() - 1 {
            assert(newq[i] == q0[i + 1]);
            assert(frames(*q0[i + 1].0) == cur.queue[i + 1]);
        } else {
            assert(newq[i] == cn[i - (q0.len() - 1)]);
        }
    }
    assert forall|i: int| 0 <= i < newq.len() implies {
        let nd = *(#[trigger] newq[i]).0;
        &&& lineage_ok(nd)
        &&& state_ok(nd.stack@, nd.numbers@)
        &&& nd.numbers@.len() <= tiles.len()
        &&& root_data(nd).numbers@ == tiles
    } by {
        if i < q0.len() - 1 {
            assert(newq[i] == q0[i + 1]);
        } else {
            assert(newq[i] == cn[i - (q0.len() - 1)]);
        }
    }

    // The potential strictly drops: the front state's contribution
    // outweighs all its children's.
    lemma_pot_concat(q0.drop_first(), cn, k);
    assert(pot(q0, k) == pow(k, m) + pot(q0.drop_first(), k)) by {
        assert(q0[0] == *node);
    }
    lemma_pow_positive(k, m);
    if cn.len() == 0 {
        assert(pot(newq, k) < pot(q0, k));
    } else {
        assert(m >= 1) by {
            if (*node.0).numbers@.len() == 0 {
                assert(cf.len() > 0);
                assert((*node.0).stack@.len() >= 2);
            }
        }
        assert(forall|i: int|
            0 <= i < cn.len() ==> node_measure(#[trigger] cn[i]) <= (m - 1) as nat);
        lemma_pot_bound(cn, k, (m - 1) as nat);
        assert(pow(k, m) == k * pow(k, (m - 1) as nat)) by {
            vstd::arithmetic::power::lemma_pow1(k);
            vstd::arithmetic::power::lemma_pow_adds(k, 1nat, (m - 1) as nat);
        }
        lemma_pow_positive(k, (m - 1) as nat);
        assert(cn.len() <= 4 + (*node.0).numbers@.len());
        assert(cn.len() * pow(k, (m - 1) as nat) < k * pow(k, (m - 1) as nat))
            by (nonlinear_arith)
            requires
                cn.len() < k,
                pow(k, (m - 1) as nat) > 0,
        ;
        assert(pot(newq, k) < pot(q0, k));
    }
}

/// Breadth-first search for the state whose single value is closest to
/// `target`, exact match preferred and ending the run at once; the
/// caller's counters advance by the run's counts, capped only at the
/// counter type's end. The result and the counters are exactly those of
/// the unique finished run of the step model.
#[verifier::rlimit(100)]
#[verifier::spinoff_prover]
pub fn solve(numbers: Vec<i32>, target: i32, stats: &mut SolveStats) -> (r: Node)
    requires
        state_ok(Seq::<i32>::empty(), numbers@),
        old(stats).visited <= old(stats).expanded,
    ensures
        lineage_ok(*r.0),
        root_data(*r.0).numbers@ == numbers@,
        exists|end: Conf|
            {
                &&& #[trigger] search_outcome(numbers@, target, end)
                &&& frames(*r.0) == end.best
                &&& final(stats).visited as int == sat(old(stats).visited + end.visited)
                &&& final(stats).expanded as int == sat(old(stats).expanded + end.expanded)
            },
        old(stats).visited <= final(stats).visited,
        old(stats).expanded <= final(stats).expanded,
        final(stats).visited <= final(stats).expanded,
{
    let ghost tiles = numbers@;
    let ghost o_v = old(stats).visited as int;
    let ghost o_e = old(stats).expanded as int;
    let root = Node::new(numbers);
    let mut best_node = root.duplicate();
    let mut best_value: i32 = -1;
    let mut queue: VecDeque<Node> = VecDeque::new();
    queue.push_back(root);
    if stats.expanded < usize::MAX {
        stats.expanded = stats.expanded + 1;
    }
    let ghost mut tr: Seq<Conf> = seq![conf_init(tiles)];
    let ghost k_base: int = tiles.len() as int + 5;
    proof {
        assert(frames(*best_node.0) =~= root_line(tiles));
        assert(state_ok((*best_node.0).stack@, (*best_node.0).numbers@)) by {
            assert((*best_node.0).stack@ =~= Seq::<i32>::empty());
        }
    }

    loop
        invariant_except_break
            !tr.last().done,
            queue_matches(queue@, tr.last().queue),
            queue_wf(queue@, tiles),
        invariant
            trace_ok(tiles, target, tr),
            tr.len() >= 1,
            frames(*best_node.0) == tr.last().best,
            lineage_ok(*best_node.0),
            root_data(*best_node.0).numbers@ == tiles,
            best_value as int == tr.last().best_value,
            stats.visited as int == sat(o_v + tr.last().visited),
            stats.expanded as int == sat(o_e + tr.last().expanded),
            o_v == old(stats).visited as int,
            o_e == old(stats).expanded as int,
            o_v <= o_e,
            k_base == tiles.len() as int + 5,
        ensures
            trace_ok(tiles, target, tr),
            conf_final(tr.last()),
            frames(*best_node.0) == tr.last().best,
            lineage_ok(*best_node.0),
            root_data(*best_node.0).numbers@ == tiles,
            stats.visited as int == sat(o_v + tr.last().visited),
            stats.expanded as int == sat(o_e + tr.last().expanded),
        decreases pot(queue@, k_base),
    {
        if queue.len() == 0 {
            break ;
        }
        let ghost cur = tr.last();
        let ghost q0 = queue@;
        let node = queue.pop_front().unwrap();
        let ghost l_line = cur.queue[0];
        proof {
            assert(frames(*node.0) == l_line);
            lemma_frames_last(&node.0);
            assert(l_line.last() == frame_of(*node.0));
            assert(state_ok((*node.0).stack@, (*node.0).numbers@));
        }
        if stats.visited < usize::MAX {
            stats.visited = stats.visited + 1;
        }
        proof {
            assert(stats.visited as int == sat(o_v + cur.visited + 1));
        }
        let ghost fr = frame_of(node_data(&node));

        if node.has_value() {
            let value = node.value();
            let better = best_value == -1 || dist(value, target) < dist(best_value, target);
            proof {
                assert(value == fr.stack[0]);
                assert(better == improves(cur.best_value, fr.stack[0] as int, target as int));
            }
            if better {
                best_node = node.duplicate();
                best_value = value;
                if best_value == target {
                    proof {
                        lemma_step_facts(target, cur);
                        let next = step(target, cur);
                        assert(next.done);
                        lemma_trace_extend(tiles, target, tr, next);
                        tr = tr.push(next);
                        assert(tr.last() == next);
                        assert(frames(*best_node.0) == next.best);
                    }
                    break ;
                }
            }
        }

        let children = node.expand();
        let ghost qrest = queue@;
        let ghost cn = children@;
        let mut j: usize = 0;
        while j < children.len()
            invariant
                j <= cn.len(),
                children@ == cn,
                queue@ == qrest + cn.take(j as int),
                stats.expanded as int == sat(o_e + cur.expanded + j),
                stats.visited as int == sat(o_v + cur.visited + 1),
                o_v == old(stats).visited as int,
                o_e == old(stats).expanded as int,
            decreases cn.len() - j,
        {
            let child = children[j].duplicate();
            queue.push_back(child);
            if stats.expanded < usize::MAX {
                stats.expanded = stats.expanded + 1;
            }
            j += 1;
            proof {
                assert(cn.take(j as int) =~= cn.take(j as int - 1).push(cn[j as int - 1]));
                assert(qrest + cn.take(j as int) =~= (qrest + cn.take(j as int - 1)).push(
                    cn[j as int - 1],
                ));
            }
        }
        proof {
            assert(cn.take(cn.len() as int) =~= cn);
            assert(queue@ == qrest + cn);
            assert(qrest =~= q0.drop_first());
            lemma_step_enqueue(tiles, cur, &node, cn, q0, queue@, k_base);
            lemma_pot_nonneg(queue@, k_base);
            lemma_step_facts(target, cur);
            let next = step(target, cur);
            lemma_trace_extend(tiles, target, tr, next);
            tr = tr.push(next);
            assert(tr.last() == next);
            assert(next.queue == cur.queue.drop_first() + line_children(cur.queue[0]));
            assert(next.expanded == cur.expanded + cn.len());
            assert(stats.expanded as int == sat(o_e + next.expanded));
        }
    }
    proof {
        assert(search_outcome(tiles, target, tr.last()));
        lemma_counters(tiles, target, tr, tr.len() - 1);
    }
    best_node
}

} // verus!
