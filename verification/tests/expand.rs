use countdown::Node;
use countdown::Operation;
use countdown::Operator;

#[test]
fn root_state_shape() {
    let n = Node::new(vec![7, 8]);
    assert!(!n.has_value());
    assert_eq!(n.0.stack.len(), 0);
    assert_eq!(n.0.numbers, vec![7, 8]);
    assert!(n.0.parent.is_none());
}

#[test]
fn push_moves_tile_by_position() {
    let n = Node::new(vec![7, 8]);
    let c = n.push(1);
    assert_eq!(c.0.stack, vec![8]);
    assert_eq!(c.0.numbers, vec![7]);
    assert_eq!(c.0.op, Operation::Push(8));
    assert!(c.has_value());
    assert_eq!(c.value(), 8);
}

#[test]
fn pop_appends_result_to_given_stack() {
    let n = Node::new(vec![]);
    let c = n.pop(Operator::Add, &vec![1, 2], 7);
    assert_eq!(c.0.stack, vec![1, 2, 7]);
    assert_eq!(c.0.numbers, Vec::<i32>::new());
    assert_eq!(c.0.op, Operation::Pop(Operator::Add));
}

#[test]
fn expand_pushes_in_pool_order() {
    let n = Node::new(vec![7, 8]);
    let cs = n.expand();
    assert_eq!(cs.len(), 2);
    assert_eq!(cs[0].0.op, Operation::Push(7));
    assert_eq!(cs[0].0.numbers, vec![8]);
    assert_eq!(cs[1].0.op, Operation::Push(8));
    assert_eq!(cs[1].0.numbers, vec![7]);
}

#[test]
fn expand_canonical_order_keeps_add_and_multiply() {
    let n = Node::new(vec![3, 5]).push(0).push(0);
    assert_eq!(n.0.stack, vec![3, 5]);
    let cs = n.expand();
    assert_eq!(cs.len(), 2);
    assert_eq!(cs[0].0.op, Operation::Pop(Operator::Add));
    assert_eq!(cs[0].value(), 8);
    assert_eq!(cs[1].0.op, Operation::Pop(Operator::Multiply));
    assert_eq!(cs[1].value(), 15);
}

#[test]
fn expand_mirrored_pair_keeps_subtract_only() {
    // left 5 > right 3: Add and Multiply are pruned as the mirrored
    // duplicate of the canonical ordering, and 5 % 3 != 0 prunes Divide.
    let n = Node::new(vec![5, 3]).push(0).push(0);
    assert_eq!(n.0.stack, vec![5, 3]);
    let cs = n.expand();
    assert_eq!(cs.len(), 1);
    assert_eq!(cs[0].0.op, Operation::Pop(Operator::Subtract));
    assert_eq!(cs[0].value(), 2);
}

#[test]
fn expand_divides_on_zero_remainder() {
    let n = Node::new(vec![8, 4]).push(0).push(0);
    let cs = n.expand();
    assert_eq!(cs.len(), 2);
    assert_eq!(cs[0].0.op, Operation::Pop(Operator::Subtract));
    assert_eq!(cs[0].value(), 4);
    assert_eq!(cs[1].0.op, Operation::Pop(Operator::Divide));
    assert_eq!(cs[1].value(), 2);
}

#[test]
fn expand_never_divides_by_zero() {
    let n = Node::new(vec![4, 0]).push(0).push(0);
    assert_eq!(n.0.stack, vec![4, 0]);
    let cs = n.expand();
    assert_eq!(cs.len(), 1);
    assert_eq!(cs[0].0.op, Operation::Pop(Operator::Subtract));
    assert_eq!(cs[0].value(), 4);
}

#[test]
fn expand_zero_left_operand() {
    let n = Node::new(vec![0, 4]).push(0).push(0);
    let cs = n.expand();
    assert_eq!(cs.len(), 3);
    assert_eq!(cs[0].0.op, Operation::Pop(Operator::Add));
    assert_eq!(cs[0].value(), 4);
    assert_eq!(cs[1].0.op, Operation::Pop(Operator::Multiply));
    assert_eq!(cs[1].value(), 0);
    assert_eq!(cs[2].0.op, Operation::Pop(Operator::Divide));
    assert_eq!(cs[2].value(), 0);
}

#[test]
fn expand_mixes_combines_and_pushes() {
    // Stack [2, 6] with tile 9 still pooled: the Add and Multiply
    // children first (2 % 6 != 0 prunes Divide), then the push child.
    let n = Node::new(vec![2, 6, 9]).push(0).push(0);
    assert_eq!(n.0.stack, vec![2, 6]);
    assert_eq!(n.0.numbers, vec![9]);
    let cs = n.expand();
    assert_eq!(cs.len(), 3);
    assert_eq!(cs[0].0.op, Operation::Pop(Operator::Add));
    assert_eq!(cs[0].value(), 8);
    assert_eq!(cs[1].0.op, Operation::Pop(Operator::Multiply));
    assert_eq!(cs[1].value(), 12);
    assert_eq!(cs[2].0.op, Operation::Push(9));
    assert_eq!(cs[2].0.stack, vec![2, 6, 9]);
    assert_eq!(cs[2].0.numbers, Vec::<i32>::new());
}

#[test]
fn duplicate_carries_the_same_state() {
    let n = Node::new(vec![1]).push(0);
    let d = n.duplicate();
    assert_eq!(d.0.stack, n.0.stack);
    assert_eq!(d.0.numbers, n.0.numbers);
    assert_eq!(d.0.op, n.0.op);
}

#[test]
fn operator_symbols() {
    assert_eq!(Operator::Add.symbol(), "+");
    assert_eq!(Operator::Subtract.symbol(), "-");
    assert_eq!(Operator::Multiply.symbol(), "*");
    assert_eq!(Operator::Divide.symbol(), "/");
}

#[test]
fn trace_of_root_is_empty() {
    let n = Node::new(vec![1]);
    assert_eq!(n.trace(), "");
}

#[test]
fn trace_renders_multidigit_numbers() {
    let n = Node::new(vec![120]).push(0);
    assert_eq!(n.trace(), "120");
}

#[test]
fn trace_renders_operator_tokens() {
    let n = Node::new(vec![]).pop(Operator::Divide, &vec![], 1);
    assert_eq!(n.trace(), "/");
}
