use circuit::Circuit;
use circuit::Connection;
use circuit::Gate;
use circuit::Input;
use circuit::Wire;

fn build(input: &str) -> Circuit {
    let defs: Vec<Wire> = input.lines().map(|s| Wire::parse(s).unwrap()).collect();
    Circuit::assemble(defs).unwrap()
}

#[test]
fn assemble_circuit() {
    let input = "123 -> x
456 -> y
x AND y -> d
x OR y -> e
x LSHIFT 2 -> f
y RSHIFT 2 -> g
NOT x -> h
NOT y -> i";

    let output = "d: 72
e: 507
f: 492
g: 114
h: 65412
i: 65079
x: 123
y: 456";

    let mut circuit = build(input);

    let mut wires = input
        .lines()
        .map(|line| {
            let name = line.split_once(" -> ").unwrap().1;
            let signal = circuit.get(name);

            format!(
                "{}: {}",
                name,
                match signal {
                    None => String::new(),
                    Some(s) => s.to_string(),
                }
            )
        })
        .collect::<Vec<_>>();
    wires.sort();

    assert_eq!(output.split('\n').collect::<Vec<_>>(), wires);
}

#[test]
fn operator_values() {
    let mut circuit = build(
        "123 -> x
456 -> y
x AND y -> d
x OR y -> e
x LSHIFT 2 -> f
y RSHIFT 2 -> g
NOT x -> h
NOT y -> i",
    );
    assert_eq!(circuit.get("d"), Some(72));
    assert_eq!(circuit.get("e"), Some(507));
    assert_eq!(circuit.get("f"), Some(492));
    assert_eq!(circuit.get("g"), Some(114));
    assert_eq!(circuit.get("h"), Some(65412));
    assert_eq!(circuit.get("i"), Some(65079));
    assert_eq!(circuit.get("x"), Some(123));
    assert_eq!(circuit.get("y"), Some(456));
}

#[test]
fn repeated_get_is_deterministic() {
    let mut circuit = build("123 -> x\n456 -> y\nx AND y -> d");
    let first = circuit.get("d");
    assert_eq!(first, Some(72));
    assert_eq!(circuit.get("d"), first);
    assert_eq!(circuit.get("d"), first);
    assert_eq!(circuit.get("x"), Some(123));
    assert_eq!(circuit.get("d"), first);
}

#[test]
fn override_recomputes_dependents() {
    let mut circuit = build("123 -> x\n456 -> y\nx AND y -> d\n5 -> z");
    assert_eq!(circuit.get("d"), Some(72));
    circuit.set("y", 100);
    assert_eq!(circuit.get("y"), Some(100));
    assert_eq!(circuit.get("d"), Some(123 & 100));
    // a wire with no dependency path to the overridden one keeps its value
    assert_eq!(circuit.get("z"), Some(5));
    assert_eq!(circuit.get("x"), Some(123));
}

#[test]
fn dangling_reference_yields_no_signal() {
    let mut circuit = build("q -> a\na AND b -> c\n7 -> b");
    assert_eq!(circuit.get("a"), None);
    assert_eq!(circuit.get("c"), None);
    assert_eq!(circuit.get("b"), Some(7));
    assert_eq!(circuit.get("missing"), None);
}

#[test]
fn order_independence() {
    let lines = ["123 -> x", "456 -> y", "x AND y -> d", "NOT y -> i", "d OR i -> o"];
    let forward = lines.join("\n");
    let mut reversed: Vec<&str> = lines.to_vec();
    reversed.reverse();
    let backward = reversed.join("\n");
    let rotated = [lines[2], lines[4], lines[0], lines[3], lines[1]].join("\n");
    for name in ["x", "y", "d", "i", "o"] {
        let a = build(&forward).get(name);
        let b = build(&backward).get(name);
        let c = build(&rotated).get(name);
        assert_eq!(a, b);
        assert_eq!(a, c);
    }
}

#[test]
fn duplicate_names_are_rejected() {
    let defs: Vec<Wire> = "1 -> a\n2 -> a"
        .lines()
        .map(|s| Wire::parse(s).unwrap())
        .collect();
    assert!(Circuit::assemble(defs).is_none());
}

#[test]
fn cyclic_references_yield_no_signal() {
    let mut circuit = build("a -> b\nb -> a\nb OR c -> d\n1 -> c");
    assert_eq!(circuit.get("a"), None);
    assert_eq!(circuit.get("b"), None);
    assert_eq!(circuit.get("d"), None);
    assert_eq!(circuit.get("c"), Some(1));
}

#[test]
fn shift_amounts_of_sixteen_or_more_clear_the_signal() {
    let mut circuit = build("1 -> x\nx LSHIFT 20 -> a\nx RSHIFT 16 -> b\nx LSHIFT 15 -> c");
    assert_eq!(circuit.get("a"), Some(0));
    assert_eq!(circuit.get("b"), Some(0));
    assert_eq!(circuit.get("c"), Some(32768));
}

#[test]
fn oversized_numeral_is_a_name() {
    // 70000 does not fit in 16 bits, so it reads as a wire name
    let mut circuit = build("5 -> 70000\n70000 -> a");
    assert_eq!(circuit.get("a"), Some(5));
    let mut dangling = build("70000 -> a");
    assert_eq!(dangling.get("a"), None);
}

#[test]
fn parse_rejects_text_outside_the_grammar() {
    assert!(Wire::parse("no separator here").is_none());
    assert!(Wire::parse("x XOR y -> a").is_none());
    assert!(Wire::parse("x AND y AND z -> a").is_none());
    assert!(Wire::parse("x LSHIFT y -> a").is_none());
    assert!(Wire::parse("x RSHIFT 70000 -> a").is_none());
    assert!(Wire::parse("NOT -> a").is_some());
    assert!(Gate::parse("a XOR b").is_none());
    assert!(Gate::parse("NOT x").is_some());
}

#[test]
fn contains_reports_wire_names() {
    let circuit = build("1 -> a\n2 -> b");
    assert!(circuit.contains("a"));
    assert!(circuit.contains("b"));
    assert!(!circuit.contains("c"));
}

#[test]
fn gate_level_signals() {
    let defs: Vec<Wire> = vec![Wire::parse("123 -> x").unwrap()];
    let mut wires = defs;
    // a literal-only arena is already linked
    assert_eq!(Input::Signal(7).get_signal(&mut wires), Some(7));
    assert_eq!(Connection::Connected(0).get_signal(&mut wires), Some(123));
    assert_eq!(Connection::Connected(5).get_signal(&mut wires), None);
    assert_eq!(
        Connection::Disconnected(String::from("x")).get_signal(&mut wires),
        None
    );
    let gate = Gate::parse("12 AND 10").unwrap();
    assert_eq!(gate.get_signal(&mut wires), Some(8));
    let gate = Gate::parse("NOT 0").unwrap();
    assert_eq!(gate.get_signal(&mut wires), Some(65535));
    let resolved = Gate::parse("200 OR 56").unwrap();
    assert!(resolved.is_connected());
    let unresolved = Gate::parse("x OR 56").unwrap();
    assert!(!unresolved.is_connected());
    assert_eq!(unresolved.get_signal(&mut wires), None);
}

#[test]
fn circuit_reset_keeps_values() {
    let mut circuit = build("123 -> x\n456 -> y\nx OR y -> e");
    assert_eq!(circuit.get("e"), Some(507));
    circuit.reset();
    assert_eq!(circuit.get("e"), Some(507));
    assert_eq!(circuit.get("x"), Some(123));
}

#[test]
fn wire_reset_clears_the_cache() {
    let mut wire = Wire::parse("123 -> x").unwrap();
    wire.signal = Some(123);
    wire.reset();
    assert_eq!(wire.signal, None);
}

#[test]
fn connect_binds_names_to_indices() {
    let mut gate = Gate::parse("a AND 3").unwrap();
    let names = vec![String::from("z"), String::from("a")];
    assert!(!gate.is_connected());
    gate.connect(&names);
    assert!(gate.is_connected());
    let mut dangling = Gate::parse("q AND 3").unwrap();
    dangling.connect(&names);
    assert!(!dangling.is_connected());
}
