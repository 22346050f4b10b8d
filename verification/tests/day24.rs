use puzzle_solvers::day24::{
    apply_gate, apply_operations, calculate, calculate_z, parse_input, read_operator, solve,
    substitute_variables, z_number, z_wire, Input, Operation, Operator, Wires,
};
use puzzle_solvers::error::PuzzleError;
use puzzle_solvers::text::{same_text, trim};

const EXAMPLE: &str = "x00: 1
x01: 0
x02: 1
x03: 1
x04: 0
y00: 1
y01: 1
y02: 1
y03: 1
y04: 1

ntg XOR fgs -> mjb
y02 OR x01 -> tnw
kwq OR kpj -> z05
x00 OR x03 -> fst
tgd XOR rvg -> z01
vdt OR tnw -> bfw
bfw AND frj -> z10
ffh OR nrd -> bqk
y00 AND y03 -> djm
y03 OR y00 -> psh
bqk OR frj -> z08
tnw OR fst -> frj
gnj AND tgd -> z11
bfw XOR mjb -> z00
x03 OR x00 -> vdt
gnj AND wpb -> z02
x04 AND y00 -> kjc
djm OR pbm -> qhw
nrd AND vdt -> hwm
kjc AND fst -> rvg
y04 OR y02 -> fgs
y01 AND x02 -> pbm
ntg OR kjc -> kwq
psh XOR fgs -> tgd
qhw XOR tgd -> z09
pbm OR djm -> kpj
x03 XOR y03 -> ffh
x00 XOR y04 -> ntg
bfw OR bqk -> z06
nrd XOR fgs -> wpb
frj XOR qhw -> z04
bqk OR frj -> z07
y03 OR x01 -> nrd
hwm AND bqk -> z03
tgd XOR rvg -> z12
tnw OR pbm -> gnj";

const SMALL: &str = "x00: 1
x01: 1
x02: 1
y00: 0
y01: 1
y02: 0

x00 AND y00 -> z00
x01 XOR y01 -> z01
x02 OR y02 -> z02";

fn name(s: &str) -> Vec<char> {
    s.chars().collect()
}

fn gate(a: &str, op: Operator, b: &str, out: &str) -> Operation {
    Operation { op1: (name(a), -1), op2: (name(b), -1), operator: op, result: (name(out), -1) }
}

#[test]
fn day24_parse_example() {
    let input: Input = parse_input(EXAMPLE).unwrap();
    assert_eq!(Ok(2024), calculate(input));
}

#[test]
fn day24_small_example() {
    assert_eq!(solve(SMALL), Ok(4));
    assert_eq!(solve(EXAMPLE), Ok(2024));
}

#[test]
fn day24_gates() {
    assert_eq!(apply_gate(1, 1, Operator::XOR), 0);
    assert_eq!(apply_gate(1, 0, Operator::XOR), 1);
    assert_eq!(apply_gate(1, 0, Operator::AND), 0);
    assert_eq!(apply_gate(1, 1, Operator::AND), 1);
    assert_eq!(apply_gate(0, 0, Operator::OR), 0);
    assert_eq!(apply_gate(0, 1, Operator::OR), 1);
    assert_eq!(apply_gate(12, 10, Operator::XOR), 6);
    assert_eq!(apply_gate(12, 10, Operator::AND), 8);
    assert_eq!(apply_gate(12, 10, Operator::OR), 14);
}

#[test]
fn day24_wires_keep_each_name_once() {
    let mut wires = Wires::new();
    assert_eq!(wires.get(&name("a")), None);
    assert!(!wires.contains_key(&name("a")));
    wires.insert(name("a"), 1);
    wires.insert(name("b"), 0);
    wires.insert(name("a"), 7);
    assert_eq!(wires.names.len(), 2);
    assert_eq!(wires.get(&name("a")), Some(7));
    assert_eq!(wires.get(&name("b")), Some(0));
    assert_eq!(wires.find(&name("b")), Some(1));
    assert_eq!(wires.find(&name("c")), None);
    assert!(!wires.any_unknown());
    wires.insert(name("c"), -1);
    assert!(wires.any_unknown());
}

#[test]
fn day24_parse_reads_wires_and_gates() {
    let input = parse_input("x00: 1\n y01 : -5\n\nx00 AND y01 -> z00 \nfoo\na NOT b -> c\na OR -> c\n")
        .unwrap();
    assert_eq!(input.wires.names, vec![name("x00"), name("y01")]);
    assert_eq!(input.wires.values, vec![1, -5]);
    assert_eq!(input.operations.len(), 1);
    assert_eq!(input.operations[0].op1, (name("x00"), -1));
    assert_eq!(input.operations[0].op2, (name("y01"), -1));
    assert_eq!(input.operations[0].operator, Operator::AND);
    assert_eq!(input.operations[0].result, (name("z00"), -1));
}

#[test]
fn day24_value_that_is_no_number_is_malformed() {
    assert!(matches!(parse_input("x00: one"), Err(PuzzleError::MalformedInput)));
    assert!(matches!(parse_input("x00: 1 "), Err(PuzzleError::MalformedInput)));
    assert_eq!(solve("x00: 99999999999999999999"), Err(PuzzleError::MalformedInput));
}

#[test]
fn day24_wire_that_nothing_drives_gives_no_solution() {
    assert_eq!(solve("x00: 1\n\nx00 AND y00 -> z00"), Err(PuzzleError::NoSolution));
}

#[test]
fn day24_number_out_of_range_is_malformed() {
    assert_eq!(solve("z45: 9223372036854775807"), Err(PuzzleError::MalformedInput));
    assert_eq!(solve("z00: 9223372036854775807"), Ok(9223372036854775807));
    assert_eq!(solve("z01: -3\nz00: 1"), Ok(-5));
}

#[test]
fn day24_substitute_notes_wires_and_reads_values() {
    let mut wires = Wires::new();
    wires.insert(name("a"), 1);
    let mut input = Input {
        wires,
        operations: vec![gate("a", Operator::OR, "b", "c"), gate("c", Operator::OR, "a", "d")],
    };
    substitute_variables(&mut input);
    assert_eq!(input.wires.names, vec![name("a"), name("b"), name("c"), name("d")]);
    assert_eq!(input.wires.values, vec![1, -1, -1, -1]);
    assert_eq!(input.operations[0].op1.1, 1);
    assert_eq!(input.operations[0].op2.1, -1);
    assert_eq!(input.operations[1].op1.1, -1);
    assert_eq!(input.operations[1].op2.1, 1);
}

#[test]
fn day24_apply_drives_from_what_the_gates_have_seen() {
    let mut wires = Wires::new();
    wires.insert(name("a"), 1);
    wires.insert(name("b"), 0);
    let mut input = Input {
        wires,
        operations: vec![gate("a", Operator::OR, "b", "c"), gate("c", Operator::AND, "a", "d")],
    };
    substitute_variables(&mut input);
    apply_operations(&mut input);
    assert_eq!(input.wires.get(&name("c")), Some(1));
    assert_eq!(input.wires.get(&name("d")), Some(-1));
    assert_eq!(input.operations[0].result.1, 1);
    substitute_variables(&mut input);
    apply_operations(&mut input);
    assert_eq!(input.wires.get(&name("d")), Some(1));
}

#[test]
fn day24_gates_in_any_order_settle() {
    let text = "a: 1\nb: 1\n\ne XOR a -> z02\nd OR c -> e\nc AND b -> d\na AND b -> c";
    assert_eq!(solve(text), Ok(0));
    let text = "a: 1\nb: 0\n\ne XOR a -> z02\nd OR c -> e\nc AND b -> d\na AND b -> c";
    assert_eq!(solve(text), Ok(4));
}

#[test]
fn day24_z_number_weighs_each_wire_by_its_place() {
    let mut wires = Wires::new();
    wires.insert(name("z00"), 1);
    wires.insert(name("z03"), 1);
    wires.insert(name("z45"), 1);
    wires.insert(name("z46"), 1);
    wires.insert(name("x01"), 1);
    assert_eq!(z_number(&wires), 1 + 8 + (1i128 << 45));
    let input = Input { wires, operations: vec![] };
    assert_eq!(calculate_z(&input), 1 + 8 + (1i64 << 45));
    assert_eq!(z_number(&Wires::new()), 0);
}

#[test]
fn day24_names_of_the_number_wires() {
    assert_eq!(z_wire(0), name("z00"));
    assert_eq!(z_wire(7), name("z07"));
    assert_eq!(z_wire(45), name("z45"));
    assert_eq!(z_wire(99), name("z99"));
}

#[test]
fn day24_operator_words() {
    assert_eq!(read_operator(&name("XOR")), Some(Operator::XOR));
    assert_eq!(read_operator(&name("AND")), Some(Operator::AND));
    assert_eq!(read_operator(&name("OR")), Some(Operator::OR));
    assert_eq!(read_operator(&name("or")), None);
    assert_eq!(read_operator(&name("XORR")), None);
    assert_eq!(read_operator(&name("")), None);
}

#[test]
fn text_trim_takes_white_space_off_both_ends() {
    assert_eq!(trim(&name("  a b \t\n")), name("a b"));
    assert_eq!(trim(&name("ab")), name("ab"));
    assert_eq!(trim(&name("   ")), name(""));
    assert_eq!(trim(&name("")), name(""));
    assert_eq!(trim(&name(" x")), name("x"));
    assert!(same_text(&name("abc"), &name("abc")));
    assert!(!same_text(&name("abc"), &name("abd")));
    assert!(!same_text(&name("abc"), &name("ab")));
}
