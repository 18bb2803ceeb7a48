use std::cell::Cell;
use std::rc::Rc;
use watch_lib::{Listener, NodeKind, Notice, SignalGraph, Value};

type Compute = fn(&[Value]) -> Value;

fn int_of(v: &Value) -> i64 {
    match v {
        Value::Int(i) => *i,
        Value::Text(_) => 0,
    }
}

fn same_as_input(v: &[Value]) -> Value {
    v[0].duplicate()
}

fn plus_one(v: &[Value]) -> Value {
    Value::Int(int_of(&v[0]) + 1)
}

fn larger(v: &[Value]) -> Value {
    Value::Int(int_of(&v[0]).max(int_of(&v[1])))
}

fn watch_slots(ns: &[Notice], node: usize) -> Vec<usize> {
    ns.iter().filter(|n| n.node == node).map(|n| n.slot).collect()
}

#[test]
fn unchanged_set_notifies_nobody() {
    let mut g: SignalGraph<Compute> = SignalGraph::new();
    let s = g.signal(Value::Int(0));
    g.subscribe(s, Listener::Watch);
    g.subscribe(s, Listener::Watch);
    g.set(s, Value::Int(0));
    assert!(g.drain_outbox().is_empty());
    g.set(s, Value::Int(1));
    assert_eq!(g.drain_outbox().len(), 2);
    g.set(s, Value::Int(1));
    assert!(g.drain_outbox().is_empty());
}

#[test]
fn change_notifies_each_listener_once_in_order() {
    let mut g: SignalGraph<Compute> = SignalGraph::new();
    let s = g.signal(Value::Text("a".to_string()));
    let a = g.subscribe(s, Listener::Watch);
    let b = g.subscribe(s, Listener::Redraw(7));
    let c = g.subscribe(s, Listener::Watch);
    assert_eq!((a, b, c), (0, 1, 2));
    g.set(s, Value::Text("b".to_string()));
    let ns = g.drain_outbox();
    assert_eq!(
        ns,
        vec![
            Notice { node: s, slot: 0, listener: Listener::Watch },
            Notice { node: s, slot: 1, listener: Listener::Redraw(7) },
            Notice { node: s, slot: 2, listener: Listener::Watch },
        ]
    );
    assert_eq!(g.peek(s), Value::Text("b".to_string()));
}

#[test]
fn unsubscribed_slot_is_reused() {
    let mut g: SignalGraph<Compute> = SignalGraph::new();
    let s = g.signal(Value::Int(0));
    g.subscribe(s, Listener::Watch);
    g.subscribe(s, Listener::Watch);
    g.subscribe(s, Listener::Watch);
    g.unsubscribe(s, 1);
    g.set(s, Value::Int(5));
    assert_eq!(watch_slots(&g.drain_outbox(), s), vec![0, 2]);
    assert_eq!(g.subscribe(s, Listener::Watch), 1);
    assert_eq!(g.subscribe(s, Listener::Watch), 3);
}

#[test]
fn derivations_chain() {
    let mut g: SignalGraph<Compute> = SignalGraph::new();
    let s = g.signal(Value::Int(1));
    let d = g.derived(s, plus_one);
    let e = g.derived(d, plus_one);
    g.subscribe(e, Listener::Watch);
    assert_eq!(g.peek(e), Value::Int(3));
    g.set(s, Value::Int(10));
    assert_eq!(g.peek(d), Value::Int(11));
    assert_eq!(g.peek(e), Value::Int(12));
    assert_eq!(watch_slots(&g.drain_outbox(), e), vec![0]);
}

#[test]
fn constant_never_changes() {
    let mut g: SignalGraph<Compute> = SignalGraph::new();
    let c = g.constant(Value::Int(42));
    let d = g.derived(c, plus_one);
    assert_eq!(g.peek(c), Value::Int(42));
    assert_eq!(g.peek(d), Value::Int(43));
}

#[test]
fn diamond_notifies_once_when_paths_agree() {
    let mut g: SignalGraph<Compute> = SignalGraph::new();
    let s = g.signal(Value::Int(1));
    let d1 = g.derived(s, same_as_input);
    let d2 = g.derived(s, same_as_input);
    let m = g.derived2(d1, d2, larger);
    g.subscribe(m, Listener::Watch);
    g.set(s, Value::Int(5));
    assert_eq!(watch_slots(&g.drain_outbox(), m), vec![0]);
    assert_eq!(g.peek(m), Value::Int(5));
    g.set(s, Value::Int(5));
    assert!(g.drain_outbox().is_empty());
    g.set(s, Value::Int(2));
    assert_eq!(watch_slots(&g.drain_outbox(), m), vec![0]);
    assert_eq!(g.peek(m), Value::Int(2));
}

fn plus_one_of(v: &[Value]) -> Value {
    Value::Int(int_of(&v[0]) + 1)
}

fn twice(v: &[Value]) -> Value {
    Value::Int(int_of(&v[0]) * 2)
}

fn sum_as_text(v: &[Value]) -> Value {
    Value::Text((int_of(&v[0]) + int_of(&v[1])).to_string())
}

#[test]
fn diamond_notifies_once_with_final_value_when_paths_disagree() {
    let mut g: SignalGraph<Compute> = SignalGraph::new();
    let s = g.signal(Value::Int(0));
    let d1 = g.derived(s, plus_one_of);
    let d2 = g.derived(s, twice);
    let m = g.derived2(d1, d2, sum_as_text);
    g.subscribe(m, Listener::Watch);
    g.set(s, Value::Int(1));
    assert_eq!(watch_slots(&g.drain_outbox(), m), vec![0]);
    assert_eq!(g.peek(m), Value::Text("4".to_string()));
    g.set(s, Value::Int(2));
    assert_eq!(watch_slots(&g.drain_outbox(), m), vec![0]);
    assert_eq!(g.peek(m), Value::Text("7".to_string()));
}

#[test]
fn signal_listeners_come_before_downstream_notices() {
    let mut g: SignalGraph<Compute> = SignalGraph::new();
    let s = g.signal(Value::Int(0));
    g.subscribe(s, Listener::Watch);
    let d = g.derived(s, plus_one);
    g.subscribe(d, Listener::Watch);
    g.subscribe(s, Listener::Watch);
    g.set(s, Value::Int(3));
    let ns = g.drain_outbox();
    assert_eq!(
        ns,
        vec![
            Notice { node: s, slot: 0, listener: Listener::Watch },
            Notice { node: s, slot: 2, listener: Listener::Watch },
            Notice { node: d, slot: 0, listener: Listener::Watch },
        ]
    );
}

#[test]
fn unobserved_derivation_recomputes_on_every_peek() {
    let calls = Rc::new(Cell::new(0u32));
    let counter = calls.clone();
    let doubled = move |v: &[Value]| {
        counter.set(counter.get() + 1);
        Value::Int(int_of(&v[0]) * 2)
    };
    let mut g = SignalGraph::new();
    let s = g.signal(Value::Int(3));
    let d = g.derived(s, doubled);
    assert_eq!(calls.get(), 0);
    assert_eq!(g.peek(d), Value::Int(6));
    assert_eq!(g.peek(d), Value::Int(6));
    assert_eq!(calls.get(), 2);
    g.set(s, Value::Int(4));
    assert_eq!(calls.get(), 2);
    assert_eq!(g.peek(d), Value::Int(8));
    assert_eq!(calls.get(), 3);
}

#[test]
fn observed_derivation_serves_its_cache() {
    let calls = Rc::new(Cell::new(0u32));
    let counter = calls.clone();
    let doubled = move |v: &[Value]| {
        counter.set(counter.get() + 1);
        Value::Int(int_of(&v[0]) * 2)
    };
    let mut g = SignalGraph::new();
    let s = g.signal(Value::Int(3));
    let d = g.derived(s, doubled);
    let slot = g.subscribe(d, Listener::Watch);
    g.set(s, Value::Int(4));
    assert_eq!(calls.get(), 1);
    assert_eq!(g.peek(d), Value::Int(8));
    assert_eq!(g.peek(d), Value::Int(8));
    assert_eq!(calls.get(), 1);
    g.unsubscribe(d, slot);
    assert_eq!(g.peek(d), Value::Int(8));
    assert_eq!(calls.get(), 2);
}

#[test]
fn derived_value_that_stays_equal_notifies_nobody() {
    let mut g: SignalGraph<Compute> = SignalGraph::new();
    let s = g.signal(Value::Int(1));
    let parity: Compute = |v: &[Value]| Value::Int(int_of(&v[0]) % 2);
    let p = g.derived(s, parity);
    g.subscribe(p, Listener::Watch);
    g.set(s, Value::Int(2));
    assert_eq!(g.drain_outbox().len(), 1);
    g.set(s, Value::Int(4));
    assert!(g.drain_outbox().is_empty());
}

#[test]
fn value_equality_compares_contents() {
    assert!(Value::Int(3).is_same(&Value::Int(3)));
    assert!(!Value::Int(3).is_same(&Value::Text("3".to_string())));
    assert!(Value::Text("ab".to_string()).is_same(&Value::Text("ab".to_string())));
    let _ = NodeKind::Signal;
}
