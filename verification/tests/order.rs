use std::convert::Infallible;

use p1689::order::{Order, OrderError};
use p1689::r5::parsers::ParseStream;
use p1689::r5::DepInfo;
use p1689::stream::State;
use p1689::testing::corpus::item;

type Entry = (&'static str, &'static str);

fn nodes(entries: &[Entry]) -> Vec<Result<DepInfo<'static>, Infallible>> {
    let mut nodes = vec![];
    for &(path, json) in entries {
        let state = State::default();
        let mut stream = ParseStream::new(path, json.as_bytes(), state);
        let file = p1689::r5::parsers::dep_file(&mut stream).unwrap();
        for info in file.rules {
            nodes.push(Ok(info));
        }
    }
    nodes
}

fn primary_outputs(mut order: Order<'static, Infallible>) -> Vec<String> {
    let mut outputs = vec![];
    while let Some(next) = order.next() {
        let info = next.unwrap();
        outputs.push(info.primary_output.unwrap().into_owned());
    }
    outputs
}

fn in_order() -> [Entry; 5] {
    [item::bar(), item::foo_part1(), item::foo_part2(), item::foo(), item::main()]
}

#[test]
fn channel() {
    let nodes = {
        let (nodes_tx, nodes_rx) = std::sync::mpsc::channel();
        for node in nodes(&in_order()) {
            nodes_tx.send(node).unwrap();
        }
        drop(nodes_tx);
        nodes_rx.into_iter().collect::<Vec<_>>()
    };
    let order = Order::<Infallible>::new(nodes);
    assert!(order.validate().is_some());
}

#[test]
fn order_vec() {
    let order = Order::<Infallible>::new(nodes(&in_order()));
    assert!(order.validate().is_some());
}

#[test]
fn vec_out_of_order() {
    let entries = [item::main(), item::foo(), item::foo_part2(), item::bar(), item::foo_part1()];
    let order = Order::<Infallible>::new(nodes(&entries));
    assert!(order.validate().is_some());
}

#[test]
#[should_panic]
fn vec_cycle() {
    let order = Order::<Infallible>::new(nodes(&[item::foo_cycle(), item::bar_cycle()]));
    assert!(order.validate().is_some());
}

#[test]
#[should_panic]
fn vec_incomplete() {
    let order = Order::<Infallible>::new(nodes(&[item::foo_cycle(), item::bar_cycle()]));
    assert!(order.validate().is_some());
}

#[test]
fn trace() {
    let other = primary_outputs(Order::new(nodes(&in_order())));
    let entries = [item::main(), item::foo(), item::bar(), item::foo_part1(), item::foo_part2()];
    let this = primary_outputs(Order::new(nodes(&entries)));
    assert_eq!(other, this);
    assert!(Order::<Infallible>::new(nodes(&entries)).validate().is_some());
}

#[test]
fn order_emits_each_rule_after_its_providers() {
    let entries = [item::main(), item::foo(), item::bar(), item::foo_part1(), item::foo_part2()];
    let outputs = primary_outputs(Order::new(nodes(&entries)));
    let at = |name: &str| outputs.iter().position(|o| o == name).unwrap();
    assert_eq!(5, outputs.len());
    assert!(at("\"bar.o\"") < at("\"foo.o\""));
    assert!(at("\"foo-part1.o\"") < at("\"foo.o\""));
    assert!(at("\"foo-part2.o\"") < at("\"foo.o\""));
    assert!(at("\"foo.o\"") < at("\"main.o\""));
    assert!(at("\"bar.o\"") < at("\"main.o\""));
}

#[test]
fn order_emits_a_rule_without_requirements_at_once() {
    let mut order = Order::<Infallible>::new(nodes(&[item::bar(), item::main()]));
    let first = order.next().unwrap().unwrap();
    assert_eq!(first.primary_output.unwrap(), "\"bar.o\"");
}

#[test]
fn order_reports_a_cycle_with_its_graph() {
    let mut order = Order::<Infallible>::new(nodes(&[item::foo_cycle(), item::bar_cycle()]));
    match order.next() {
        Some(Err(OrderError::CycleOrIncomplete { graph })) => assert!(!graph.is_empty()),
        _ => panic!("the cycle was not reported"),
    }
}

#[test]
fn order_reports_an_incomplete_input() {
    let mut order = Order::<Infallible>::new(nodes(&[item::foo(), item::bar()]));
    let first = order.next().unwrap().unwrap();
    assert_eq!(first.primary_output.unwrap(), "\"bar.o\"");
    assert!(matches!(order.next(), Some(Err(OrderError::CycleOrIncomplete { .. }))));
}

#[test]
fn order_passes_an_input_error_on() {
    let mut order = Order::<&str>::new(vec![Err("unreadable")]);
    assert!(matches!(order.next(), Some(Err(OrderError::External("unreadable")))));
}

#[test]
fn order_of_nothing_is_empty() {
    let mut order = Order::<Infallible>::new(vec![]);
    assert!(order.next().is_none());
    assert!(Order::<Infallible>::new(vec![]).validate().is_some());
}

#[test]
fn outputs_of_the_corpus() {
    let mut outputs = Order::<Infallible>::new(nodes(&in_order())).outputs();
    let mut all = vec![];
    while let Some(next) = outputs.next() {
        all.push(next.unwrap().into_owned());
    }
    assert_eq!(all.len(), 5);
    all.sort();
    assert_eq!(all, ["\"bar.o\"", "\"foo-part1.o\"", "\"foo-part2.o\"", "\"foo.o\"", "\"main.o\""]);
}

#[test]
fn order_emits_released_rules_before_reading_on() {
    let text = r#"{ "version": 1, "rules": [
        { "primary-output": "b.o", "requires": [ { "logical-name": "m" } ] },
        { "primary-output": "c.o", "requires": [ { "logical-name": "m" } ] },
        { "primary-output": "a.o", "provides": [ { "logical-name": "m", "is-interface": true } ] },
        { "primary-output": "d.o" }
    ] }"#;
    let outputs = primary_outputs(Order::new(nodes(&[("test.ddi", text)])));
    assert_eq!(4, outputs.len());
    assert_eq!("\"a.o\"", outputs[0]);
    let mut released = vec![outputs[1].clone(), outputs[2].clone()];
    released.sort();
    assert_eq!(["\"b.o\"", "\"c.o\""], released.as_slice());
    assert_eq!("\"d.o\"", outputs[3]);
}

#[test]
fn validate_counts_only_the_rules_it_emits_itself() {
    let text = r#"{ "version": 1, "rules": [
        { "primary-output": "a.o", "provides": [ { "logical-name": "m", "is-interface": true } ] },
        { "primary-output": "b.o", "requires": [ { "logical-name": "m" } ] }
    ] }"#;
    assert!(Order::<Infallible>::new(nodes(&[("test.ddi", text)])).validate().is_some());
    let mut order = Order::<Infallible>::new(nodes(&[("test.ddi", text)]));
    assert_eq!("\"a.o\"", order.next().unwrap().unwrap().primary_output.unwrap());
    assert!(order.validate().is_none());
}
