use graphmat::heuristics::{CallOrder, Combined, EdgeDistanceHeuristic, RelativeCodeSize};
use graphmat::match_star::{match_star, MatchContext};
use graphmat::object::{CodeMetadata, FunctionMetadata};
use iced_x86::Mnemonic;

fn test_obj1() -> CodeMetadata {
    let mut m = CodeMetadata::new();
    m.insert_function(512, FunctionMetadata::new(vec![Mnemonic::Call, Mnemonic::Mov]));
    m.insert_function(513, FunctionMetadata::new(vec![Mnemonic::Mov]));
    m.insert_function(514, FunctionMetadata::new(vec![]));
    m
}

fn test_obj2() -> CodeMetadata {
    let mut m = CodeMetadata::new();
    m.insert_function(1024, FunctionMetadata::new(vec![Mnemonic::Call, Mnemonic::Mov]));
    m.insert_function(1025, FunctionMetadata::new(vec![Mnemonic::Mov]));
    m.insert_function(1026, FunctionMetadata::new(vec![]));
    m
}

fn code_size(lhs: &[u64], rhs: &[u64], lhs_labels: &[usize], rhs_labels: &[usize]) {
    let (a, b) = (test_obj1(), test_obj2());
    let (l, r) = RelativeCodeSize.labels(lhs, rhs, MatchContext::new(&a, &b));
    assert_eq!(l, lhs_labels);
    assert_eq!(r, rhs_labels);
}

#[test]
fn test_label_code_size_same_order() {
    code_size(&[512, 513, 514], &[1024, 1025, 1026], &[0, 1, 2], &[0, 1, 2]);
}

#[test]
fn test_label_code_size_missing_largest() {
    code_size(&[512, 513, 514], &[1025, 1026], &[4, 1, 2], &[1, 2]);
}

#[test]
fn test_label_code_size_single_left() {
    code_size(&[514], &[1024, 1025, 1026], &[0], &[1, 2, 0]);
}

#[test]
fn test_label_code_size_empty_left() {
    code_size(&[], &[1024, 1025, 1026], &[], &[0, 1, 2]);
}

#[test]
fn test_label_code_size_empty_right() {
    code_size(&[512, 513, 514], &[], &[0, 1, 2], &[]);
}

#[test]
fn test_label_code_size_permuted() {
    code_size(&[514, 512, 513], &[1024, 1025, 1026], &[0, 1, 2], &[1, 2, 0]);
}

#[test]
fn test_label_call_order_distinct() {
    assert_eq!(CallOrder::labels(&[512, 513, 514]), vec![0, 1, 2]);
}

#[test]
fn test_label_call_order_repeats() {
    assert_eq!(CallOrder::labels(&[512, 513, 513, 514, 513]), vec![0, 1, 1, 2, 1]);
}

#[test]
fn test_label_call_order_long() {
    assert_eq!(
        CallOrder::labels(&[512, 513, 514, 513, 514, 515, 513, 514, 512]),
        vec![0, 1, 2, 1, 2, 3, 1, 2, 0]
    );
}

#[test]
fn test_label_call_order_empty() {
    assert_eq!(CallOrder::labels(&[]), Vec::<usize>::new());
}

#[test]
fn test_combined_never_worse() {
    let (a, b) = (test_obj1(), test_obj2());
    let ctx = MatchContext::new(&a, &b);
    let lhs = [512, 513, 514];
    let rhs = [1026, 1025, 1024];
    let d1 = RelativeCodeSize.label(&lhs, &rhs, ctx).distance();
    let d2 = CallOrder.label(&lhs, &rhs, ctx).distance();
    let c = Combined::new(RelativeCodeSize, CallOrder);
    let d = c.label(&lhs, &rhs, ctx).distance();
    assert!(d <= d1 && d <= d2);
    assert_eq!(d, d1.min(d2));
    assert_eq!(d1, 2);
    assert_eq!(d2, 0);
}

#[test]
fn test_match_star_identity() {
    let mut a = test_obj1();
    a.add_call(1, 512);
    a.add_call(1, 513);
    a.add_call(1, 514);
    let b = {
        let mut b = test_obj1();
        b.add_call(1, 512);
        b.add_call(1, 513);
        b.add_call(1, 514);
        b
    };
    let ctx = MatchContext::new(&a, &b);
    let star0 = a.call_graph().get_star(1);
    let star1 = b.call_graph().get_star(1);
    let (dist, cands) = match_star(star0, star1, &Combined::new(RelativeCodeSize, CallOrder), ctx);
    assert_eq!(dist, 0);
    assert_eq!(cands, vec![(514, 514), (513, 513), (512, 512)]);
}
