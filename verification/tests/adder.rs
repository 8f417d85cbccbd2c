use puzzles::adder::{FruitMonitor, Gate, GateKind, Wire};

fn chars(s: &str) -> Vec<char> {
    s.chars().collect()
}

fn other(name: &str) -> Wire {
    Wire::try_from(&chars(name)).unwrap()
}

fn gate(line: &str) -> Gate {
    Gate::try_from(&chars(line)).unwrap()
}

/// A ripple-carry adder of two bits with an output of three bits.
const ADDER: &str = "\
x00: 1
y00: 1

x00 XOR y00 -> z00
x00 AND y00 -> c00
x01 XOR y01 -> s01
x01 AND y01 -> a01
s01 XOR c00 -> z01
s01 AND c00 -> b01
a01 OR b01 -> z02";

#[test]
fn wires_from_names() {
    assert_eq!(Wire::try_from(&chars("x07")), Ok(Wire::X(7)));
    assert_eq!(Wire::try_from(&chars("y44")), Ok(Wire::Y(44)));
    assert_eq!(Wire::try_from(&chars("z+3")), Ok(Wire::Z(3)));
    assert_eq!(other("abc"), Wire::Other(97, 98, 99));
    assert_ne!(other("abc"), other("abd"));
    assert!(Wire::try_from(&chars("ab")).is_err());
    assert!(Wire::try_from(&chars("abcd")).is_err());
    assert!(Wire::try_from(&chars("xab")).is_err());
    assert!(Wire::try_from(&chars("")).is_err());
    assert!(Wire::try_from(&chars("\u{e9}a")).is_ok());
    assert!(Wire::try_from(&chars("\u{e9}ab")).is_err());
}

#[test]
fn gates_from_lines() {
    assert_eq!(
        gate("x00 AND y00 -> z00"),
        Gate { kind: GateKind::And, a: Wire::X(0), b: Wire::Y(0), o: Wire::Z(0) }
    );
    assert_eq!(gate("abc OR  def -> ghi").kind, GateKind::Or);
    assert_eq!(gate("abc XOR def -> ghi").kind, GateKind::Xor);
    assert!(Gate::try_from(&chars("abc NOR def -> ghi")).is_err());
    assert!(Gate::try_from(&chars("abc OR def ->")).is_err());
    assert!(Gate::try_from(&chars("abc OR de -> ghi")).is_err());
}

#[test]
fn a_well_wired_adder_has_no_suspect() {
    let monitor = FruitMonitor::<2, 3>::try_from(ADDER).unwrap();
    assert_eq!(monitor.gates.len(), 7);
    assert_eq!(monitor.wires.len(), 11);
    assert_eq!(monitor.find_sus(), Vec::<Gate>::new());
    let consumers = monitor.find_consumers(&other("c00"));
    assert_eq!(consumers, vec![gate("s01 XOR c00 -> z01"), gate("s01 AND c00 -> b01")]);
}

#[test]
fn swapped_outputs_are_suspicious() {
    let swapped = ADDER.replace("-> s01", "-> tmp").replace("-> a01", "-> s01").replace("-> tmp", "-> a01");
    let monitor = FruitMonitor::<2, 3>::try_from(swapped.as_str()).unwrap();
    assert_eq!(monitor.find_sus(), vec![gate("x01 XOR y01 -> a01"), gate("x01 AND y01 -> s01")]);
}

#[test]
fn an_or_gate_of_inputs_is_suspicious() {
    let text = "\n\nx01 OR y01 -> abc\nabc XOR def -> z01\nabc AND def -> ghi";
    let monitor = FruitMonitor::<2, 3>::try_from(text).unwrap();
    assert_eq!(monitor.find_sus(), vec![gate("x01 OR y01 -> abc"), gate("abc AND def -> ghi")]);
}

#[test]
fn circuits_that_cannot_be_read() {
    assert!(FruitMonitor::<2, 3>::try_from("x00: 1").is_err());
    assert!(FruitMonitor::<2, 3>::try_from("x00: 1\n\nx00 AND y00").is_err());
    let twice = FruitMonitor::<2, 3>::try_from("\n\nx00 AND y00 -> z00\nx00 AND y00 -> z00").unwrap();
    assert_eq!(twice.gates.len(), 1);
    assert_eq!(twice.wires, vec![Wire::X(0), Wire::Y(0), Wire::Z(0)]);
}

#[test]
fn wires_and_gates_as_text() {
    assert_eq!(Wire::X(7).to_string(), "x[7]");
    assert_eq!(Wire::Y(0).to_string(), "y[0]");
    assert_eq!(Wire::Z(45).to_string(), "z[45]");
    assert_eq!(other("abc").to_string(), "abc");
    assert_eq!(other("\u{e9}k").to_string(), "\u{e9}k");
    assert_eq!(GateKind::And.to_string(), "&");
    assert_eq!(GateKind::Or.to_string(), "|");
    assert_eq!(GateKind::Xor.to_string(), "^");
    assert_eq!(gate("x00 XOR y00 -> z00").to_string(), "assign z[0] = x[0] ^ y[0];");
    assert_eq!(gate("s01 AND c00 -> b01").to_string(), "assign b01 = s01 & c00;");
    assert_eq!(gate("a01 OR b01 -> z02").to_string(), "assign z[2] = a01 | b01;");
}

#[test]
fn the_circuit_as_a_module() {
    let monitor = FruitMonitor::<2, 3> {
        wires: vec![Wire::X(0), other("c00"), Wire::Z(0), other("s01")],
        gates: vec![gate("x00 AND y00 -> c00"), gate("s01 XOR c00 -> z01")],
    };
    let expected = "\
module FruitMonitor (
    input wire [1:0] x,
    input wire [1:0] y,
    output wire [2:0] z
);

    wire c00;
    wire s01;

    assign c00 = x[0] & y[0];
    assign z[1] = s01 ^ c00;

endmodule
";
    assert_eq!(monitor.to_string(), expected);
    let empty = FruitMonitor::<45, 46> { wires: vec![], gates: vec![] };
    assert_eq!(
        empty.to_string(),
        "module FruitMonitor (\n    input wire [44:0] x,\n    input wire [44:0] y,\n    output wire [45:0] z\n);\n\n\n\nendmodule\n"
    );
}

#[test]
fn no_suspect_is_listed_twice() {
    let text = ADDER.replace("-> s01", "-> tmp").replace("-> a01", "-> s01").replace("-> tmp", "-> a01");
    let monitor = FruitMonitor::<2, 3>::try_from(text.as_str()).unwrap();
    let sus = monitor.find_sus();
    for (i, g) in sus.iter().enumerate() {
        assert!(monitor.gates.contains(g));
        assert!(!sus[i + 1..].contains(g));
    }
    assert!(!sus.is_empty());
}
