//! A device of wires and gates. Some wires start with a value; every gate
//! reads two wires and drives a third as soon as both are known. The
//! wires whose names begin with `z` spell a number in binary.
use vstd::prelude::*;
use crate::counting::sum_below;
use crate::error::PuzzleError;
use crate::text::{
    chars_of, copy_range, find_pattern, find_pattern_from, integer64, lines, parse_i64, rows,
    same_text, split_lines, split_words, trim, trimmed, words,
};

verus! {

/// The value of a wire that is not known yet.
pub const UNKNOWN: i64 = -1;

/// How many wires spell the number.
pub const BITS: usize = 46;

/// What a gate does with its two inputs, bit by bit.
#[derive(Debug, Clone, Copy, PartialEq, Eq)]
pub enum Operator {
    XOR,
    AND,
    OR,
}

/// A gate: two wires that it reads and one that it drives, each with the
/// value that it has seen or given last.
#[derive(Debug)]
pub struct Operation {
    pub op1: (Vec<char>, i64),
    pub op2: (Vec<char>, i64),
    pub operator: Operator,
    pub result: (Vec<char>, i64),
}

/// A gate as a plain value.
pub ghost struct Gate {
    pub first: Seq<char>,
    pub first_value: i64,
    pub second: Seq<char>,
    pub second_value: i64,
    pub operator: Operator,
    pub output: Seq<char>,
    pub output_value: i64,
}

impl View for Operation {
    type V = Gate;

    open spec fn view(&self) -> Gate {
        Gate {
            first: self.op1.0@,
            first_value: self.op1.1,
            second: self.op2.0@,
            second_value: self.op2.1,
            operator: self.operator,
            output: self.result.0@,
            output_value: self.result.1,
        }
    }
}

/// The gates of a list, as plain values.
pub open spec fn gates_of(operations: Seq<Operation>) -> Seq<Gate> {
    Seq::new(operations.len(), |i: int| operations[i]@)
}

/// The wires with their values: each name once.
#[derive(Debug)]
pub struct Wires {
    pub names: Vec<Vec<char>>,
    pub values: Vec<i64>,
}

impl Wires {
    /// Every name has a value and stands once.
    pub open spec fn wf(&self) -> bool {
        &&& self.names.len() == self.values.len()
        &&& forall|i: int, j: int|
            0 <= i < j < self.names.len() ==> (#[trigger] self.names[i])@ != (
            #[trigger] self.names[j])@
    }

    /// Whether a name stands at an index.
    pub open spec fn named(&self, name: Seq<char>, i: int) -> bool {
        0 <= i < self.names.len() && self.names[i]@ == name
    }

    /// Whether a name stands among the wires.
    pub open spec fn holds(&self, name: Seq<char>) -> bool {
        exists|i: int| self.named(name, i)
    }

    /// Where a name stands.
    pub open spec fn place(&self, name: Seq<char>) -> int {
        choose|i: int| self.named(name, i)
    }

    /// A name that stands at an index stands there and nowhere else.
    pub proof fn lemma_place(&self, i: int)
        requires
            self.wf(),
            0 <= i < self.names.len(),
        ensures
            self.holds(self.names[i]@),
            self.place(self.names[i]@) == i,
            self@.contains_key(self.names[i]@),
            self@[self.names[i]@] == self.values[i],
    {
        assert(self.named(self.names[i]@, i));
        let p = self.place(self.names[i]@);
        assert(self.named(self.names[i]@, p));
        if p < i {
            assert(self.names[p]@ != self.names[i]@);
        } else if i < p {
            assert(self.names[i]@ != self.names[p]@);
        }
    }

    /// No wires.
    pub fn new() -> (r: Wires)
        ensures
            r.wf(),
            r@ == Map::<Seq<char>, i64>::empty(),
    {
        let r = Wires { names: Vec::new(), values: Vec::new() };
        assert(r@ =~= Map::<Seq<char>, i64>::empty());
        r
    }

    /// Where a name stands, if it stands among the wires.
    pub fn find(&self, name: &Vec<char>) -> (r: Option<usize>)
        requires
            self.wf(),
        ensures
            match r {
                Some(i) => i < self.names.len() && self.names[i as int]@ == name@
                    && self@.contains_key(name@) && self@[name@] == self.values[i as int],
                None => !self@.contains_key(name@),
            },
    {
        let mut i: usize = 0;
        while i < self.names.len()
            invariant
                self.wf(),
                i <= self.names.len(),
                forall|k: int| 0 <= k < i ==> self.names[k]@ != name@,
            decreases self.names.len() - i,
        {
            if same_text(&self.names[i], name) {
                proof {
                    self.lemma_place(i as int);
                }
                return Some(i);
            }
            i += 1;
        }
        assert(!self.holds(name@)) by {
            if self.holds(name@) {
                let p = self.place(name@);
                assert(self.named(name@, p));
            }
        }
        None
    }

    /// Whether a name stands among the wires.
    pub fn contains_key(&self, name: &Vec<char>) -> (r: bool)
        requires
            self.wf(),
        ensures
            r == self@.contains_key(name@),
    {
        self.find(name).is_some()
    }

    /// The value of a wire, if it stands among the wires.
    pub fn get(&self, name: &Vec<char>) -> (r: Option<i64>)
        requires
            self.wf(),
        ensures
            r == (if self@.contains_key(name@) {
                Some(self@[name@])
            } else {
                None::<i64>
            }),
    {
        match self.find(name) {
            Some(i) => Some(self.values[i]),
            None => None,
        }
    }

    /// Gives a wire a value, whether it stood among the wires or not.
    pub fn insert(&mut self, name: Vec<char>, value: i64)
        requires
            old(self).wf(),
        ensures
            final(self).wf(),
            final(self)@ == old(self)@.insert(name@, value),
    {
        let ghost before = *self;
        match self.find(&name) {
            Some(i) => {
                self.values.set(i, value);
                proof {
                    let after = *self;
                    assert(after.wf());
                    assert forall|k: Seq<char>| after.holds(k) == before.holds(k) by {
                        if after.holds(k) {
                            assert(before.named(k, after.place(k)));
                        }
                        if before.holds(k) {
                            assert(after.named(k, before.place(k)));
                        }
                    }
                    assert forall|k: Seq<char>| #[trigger] after@.contains_key(k) implies after@[k]
                        == before@.insert(name@, value)[k] by {
                        let p = after.place(k);
                        assert(after.named(k, p));
                        after.lemma_place(p);
                        before.lemma_place(p);
                        before.lemma_place(i as int);
                    }
                    assert(after@ =~= before@.insert(name@, value));
                }
            },
            None => {
                self.names.push(name);
                self.values.push(value);
                proof {
                    let after = *self;
                    let n = before.names.len() as int;
                    assert forall|a: int, b: int| 0 <= a < b < after.names.len() implies (
                    #[trigger] after.names[a])@ != (#[trigger] after.names[b])@ by {
                        if b == n {
                            assert(before.named(after.names[a]@, a));
                        }
                    }
                    assert(after.named(name@, n));
                    assert forall|k: Seq<char>| after.holds(k) == (before.holds(k) || k
                        == name@) by {
                        if after.holds(k) {
                            let p = after.place(k);
                            assert(after.named(k, p));
                            if p < n {
                                assert(before.named(k, p));
                            }
                        }
                        if before.holds(k) {
                            assert(after.named(k, before.place(k)));
                        }
                    }
                    assert forall|k: Seq<char>| #[trigger] after@.contains_key(k) implies after@[k]
                        == before@.insert(name@, value)[k] by {
                        let p = after.place(k);
                        assert(after.named(k, p));
                        after.lemma_place(p);
                        if p < n {
                            assert(before.named(k, p));
                            before.lemma_place(p);
                        }
                    }
                    assert(after@ =~= before@.insert(name@, value));
                }
            },
        }
    }

    /// Whether the value of some wire is not known.
    pub fn any_unknown(&self) -> (r: bool)
        requires
            self.wf(),
        ensures
            r == undetermined(self@),
    {
        let mut i: usize = 0;
        while i < self.values.len()
            invariant
                self.wf(),
                i <= self.values.len(),
                forall|k: int| 0 <= k < i ==> self.values[k] != UNKNOWN,
            decreases self.values.len() - i,
        {
            if self.values[i] == UNKNOWN {
                proof {
                    self.lemma_place(i as int);
                }
                return true;
            }
            i += 1;
        }
        assert(!undetermined(self@)) by {
            if undetermined(self@) {
                let k = choose|k: Seq<char>| #[trigger] self@.contains_key(k) && self@[k] == UNKNOWN;
                let p = self.place(k);
                assert(self.named(k, p));
                self.lemma_place(p);
            }
        }
        false
    }
}

impl View for Wires {
    type V = Map<Seq<char>, i64>;

    open spec fn view(&self) -> Map<Seq<char>, i64> {
        Map::new(|k: Seq<char>| self.holds(k), |k: Seq<char>| self.values[self.place(k)])
    }
}

/// Whether the value of some wire is not known.
pub open spec fn undetermined(wires: Map<Seq<char>, i64>) -> bool {
    exists|k: Seq<char>| #[trigger] wires.contains_key(k) && wires[k] == UNKNOWN
}

/// The wires and the gates of a device.
#[derive(Debug)]
pub struct Input {
    pub wires: Wires,
    pub operations: Vec<Operation>,
}

/// A device as a plain value.
pub ghost struct Device {
    pub wires: Map<Seq<char>, i64>,
    pub gates: Seq<Gate>,
}

impl View for Input {
    type V = Device;

    open spec fn view(&self) -> Device {
        Device { wires: self.wires@, gates: gates_of(self.operations@) }
    }
}

/// The wires with one more name, its value not known, unless the name
/// stood among them.
pub open spec fn noted(wires: Map<Seq<char>, i64>, name: Seq<char>) -> Map<Seq<char>, i64> {
    if wires.contains_key(name) {
        wires
    } else {
        wires.insert(name, UNKNOWN)
    }
}

/// What a gate sees of a wire: its value where the wire stands among the
/// wires, and else what this gate saw before.
pub open spec fn seen(wires: Map<Seq<char>, i64>, name: Seq<char>, before: i64) -> i64 {
    if wires.contains_key(name) {
        wires[name]
    } else {
        before
    }
}

/// A gate after it has looked at the wires that it reads, the first
/// before the second.
pub open spec fn looked(wires: Map<Seq<char>, i64>, gate: Gate) -> Gate {
    Gate {
        first_value: seen(wires, gate.first, gate.first_value),
        second_value: seen(noted(wires, gate.first), gate.second, gate.second_value),
        ..gate
    }
}

/// The wires after a gate has looked at them: its three names
/// stand among them.
pub open spec fn wires_past(wires: Map<Seq<char>, i64>, gate: Gate) -> Map<Seq<char>, i64> {
    noted(noted(noted(wires, gate.first), gate.second), gate.output)
}

/// The wires after the first `n` gates have looked at them, one after the
/// other.
pub open spec fn wires_after(wires: Map<Seq<char>, i64>, gates: Seq<Gate>, n: int) -> Map<
    Seq<char>,
    i64,
>
    decreases n,
{
    if n <= 0 {
        wires
    } else {
        wires_past(wires_after(wires, gates, n - 1), gates[n - 1])
    }
}

/// A device after every gate has looked at the wires, one after the other.
pub open spec fn prepared(device: Device) -> Device {
    Device {
        wires: wires_after(device.wires, device.gates, device.gates.len() as int),
        gates: Seq::new(
            device.gates.len(),
            |i: int| looked(wires_after(device.wires, device.gates, i), device.gates[i]),
        ),
    }
}

/// What a gate makes of two values.
pub open spec fn gate_value(a: i64, b: i64, operator: Operator) -> i64 {
    match operator {
        Operator::XOR => a ^ b,
        Operator::AND => a & b,
        Operator::OR => a | b,
    }
}

/// Whether a gate knows both values that it reads.
pub open spec fn fires(gate: Gate) -> bool {
    gate.first_value != UNKNOWN && gate.second_value != UNKNOWN
}

/// A gate after it has given its value, if it knows both that it reads.
pub open spec fn fired(gate: Gate) -> Gate {
    if fires(gate) {
        Gate {
            output_value: gate_value(gate.first_value, gate.second_value, gate.operator),
            ..gate
        }
    } else {
        gate
    }
}

/// The wires after the first `n` gates have driven them, one after the
/// other.
pub open spec fn wires_driven(wires: Map<Seq<char>, i64>, gates: Seq<Gate>, n: int) -> Map<
    Seq<char>,
    i64,
>
    decreases n,
{
    if n <= 0 {
        wires
    } else if fires(gates[n - 1]) {
        wires_driven(wires, gates, n - 1).insert(
            gates[n - 1].output,
            fired(gates[n - 1]).output_value,
        )
    } else {
        wires_driven(wires, gates, n - 1)
    }
}

/// A device after every gate that knows both its values has driven its
/// wire, one after the other.
pub open spec fn switched(device: Device) -> Device {
    Device {
        wires: wires_driven(device.wires, device.gates, device.gates.len() as int),
        gates: Seq::new(device.gates.len(), |i: int| fired(device.gates[i])),
    }
}

/// A device after `n` rounds: before the first the gates look at the
/// wires, and in each round they look again and then drive.
pub open spec fn after(device: Device, n: int) -> Device
    decreases n,
{
    if n <= 0 {
        prepared(device)
    } else {
        switched(prepared(after(device, n - 1)))
    }
}

/// The first number of rounds from `n` to `limit` after which every wire
/// of a device is known.
pub open spec fn first_settled(device: Device, n: int, limit: int) -> Option<int>
    decreases limit - n + 1,
{
    if n > limit {
        None
    } else if !undetermined(after(device, n).wires) {
        Some(n)
    } else {
        first_settled(device, n + 1, limit)
    }
}

/// Two to a power.
pub open spec fn two_to(i: int) -> int
    decreases i,
{
    if i <= 0 {
        1
    } else {
        2 * two_to(i - 1)
    }
}

/// The character of a digit.
pub open spec fn digit_char(d: int) -> char {
    ((48 + d) as u8) as char
}

/// The name of the wire that gives a bit of the number: `z` and the
/// number of the bit in two digits.
pub open spec fn z_name(i: int) -> Seq<char> {
    seq!['z', digit_char(i / 10), digit_char(i % 10)]
}

/// What a bit adds to the number, as a function of the bit's number: the
/// value of its wire times its power of two, and nothing where the wire
/// does not stand among the wires.
pub open spec fn z_term(wires: Map<Seq<char>, i64>) -> spec_fn(int) -> int {
    |i: int|
        if wires.contains_key(z_name(i)) {
            wires[z_name(i)] * two_to(i)
        } else {
            0
        }
}

/// The number that the wires spell.
pub open spec fn z_value(wires: Map<Seq<char>, i64>) -> int {
    sum_below(BITS as int, z_term(wires))
}

/// What a device gives: the number that its wires spell after the first
/// round after which all are known. No solution where that takes more
/// rounds than the device has gates; malformed where the number does not
/// fit in 64 bits.
pub open spec fn reading(device: Device) -> Result<i64, PuzzleError> {
    match first_settled(device, 0, device.gates.len() as int) {
        None => Err(PuzzleError::NoSolution),
        Some(n) => {
            let z = z_value(after(device, n).wires);
            if i64::MIN <= z <= i64::MAX {
                Ok(z as i64)
            } else {
                Err(PuzzleError::MalformedInput)
            }
        },
    }
}

/// A copy of a name.
fn copy_name(name: &Vec<char>) -> (out: Vec<char>)
    ensures
        out@ == name@,
{
    let out = copy_range(name, 0, name.len());
    assert(name@.subrange(0, name.len() as int) =~= name@);
    out
}

/// Lets a gate look at a wire: gives the value of the wire where it
/// stands among the wires, and else notes the wire and gives back what
/// this gate saw before.
fn look(wires: &mut Wires, name: &Vec<char>, before: i64) -> (r: i64)
    requires
        old(wires).wf(),
    ensures
        final(wires).wf(),
        final(wires)@ == noted(old(wires)@, name@),
        r == seen(old(wires)@, name@, before),
{
    match wires.get(name) {
        Some(v) => v,
        None => {
            wires.insert(copy_name(name), UNKNOWN);
            before
        },
    }
}

/// Lets every gate look at the wires that it reads, one gate after the
/// other, and notes every wire that a gate names.
pub fn substitute_variables(input: &mut Input)
    requires
        old(input).wires.wf(),
    ensures
        final(input).wires.wf(),
        final(input)@.wires == prepared(old(input)@).wires,
        final(input)@.gates == prepared(old(input)@).gates,
{
    let ghost start = input@;
    let n = input.operations.len();
    let mut i: usize = 0;
    while i < n
        invariant
            input.wires.wf(),
            input.operations.len() == n,
            start.gates.len() == n,
            i <= n,
            input.wires@ == wires_after(start.wires, start.gates, i as int),
            forall|k: int|
                0 <= k < i ==> (#[trigger] input.operations[k])@ == looked(
                    wires_after(start.wires, start.gates, k),
                    start.gates[k],
                ),
            forall|k: int| i <= k < n ==> (#[trigger] input.operations[k])@ == start.gates[k],
        decreases n - i,
    {
        let first = copy_name(&input.operations[i].op1.0);
        let second = copy_name(&input.operations[i].op2.0);
        let output = copy_name(&input.operations[i].result.0);
        let first_before = input.operations[i].op1.1;
        let second_before = input.operations[i].op2.1;
        let output_value = input.operations[i].result.1;
        let operator = input.operations[i].operator;
        let first_value = look(&mut input.wires, &first, first_before);
        let second_value = look(&mut input.wires, &second, second_before);
        if !input.wires.contains_key(&output) {
            input.wires.insert(copy_name(&output), UNKNOWN);
        }
        input.operations.set(
            i,
            Operation {
                op1: (first, first_value),
                op2: (second, second_value),
                operator,
                result: (output, output_value),
            },
        );
        i += 1;
    }
    assert(input@.gates =~= prepared(start).gates);
}

/// What a gate makes of two values.
pub fn apply_gate(op1: i64, op2: i64, operator: Operator) -> (r: i64)
    ensures
        r == gate_value(op1, op2, operator),
{
    match operator {
        Operator::XOR => op1 ^ op2,
        Operator::AND => op1 & op2,
        Operator::OR => op1 | op2,
    }
}

/// Lets every gate that knows both values that it reads drive its wire,
/// one gate after the other.
pub fn apply_operations(input: &mut Input)
    requires
        old(input).wires.wf(),
    ensures
        final(input).wires.wf(),
        final(input)@.wires == switched(old(input)@).wires,
        final(input)@.gates == switched(old(input)@).gates,
{
    let ghost start = input@;
    let n = input.operations.len();
    let mut i: usize = 0;
    while i < n
        invariant
            input.wires.wf(),
            input.operations.len() == n,
            start.gates.len() == n,
            i <= n,
            input.wires@ == wires_driven(start.wires, start.gates, i as int),
            forall|k: int| 0 <= k < i ==> (#[trigger] input.operations[k])@ == fired(start.gates[k]),
            forall|k: int| i <= k < n ==> (#[trigger] input.operations[k])@ == start.gates[k],
        decreases n - i,
    {
        let first_value = input.operations[i].op1.1;
        let second_value = input.operations[i].op2.1;
        if first_value != UNKNOWN && second_value != UNKNOWN {
            let first = copy_name(&input.operations[i].op1.0);
            let second = copy_name(&input.operations[i].op2.0);
            let output = copy_name(&input.operations[i].result.0);
            let operator = input.operations[i].operator;
            let value = apply_gate(first_value, second_value, operator);
            input.wires.insert(copy_name(&output), value);
            input.operations.set(
                i,
                Operation {
                    op1: (first, first_value),
                    op2: (second, second_value),
                    operator,
                    result: (output, value),
                },
            );
        }
        i += 1;
    }
    assert(input@.gates =~= switched(start).gates);
}

/// The powers of two grow, and the one that weighs the last bit is known.
pub proof fn lemma_two_to(i: int)
    requires
        0 <= i < BITS,
    ensures
        1 <= two_to(i) <= 0x2000_0000_0000,
    decreases BITS - i,
{
    if i == BITS - 1 {
        reveal_with_fuel(two_to, 47);
        assert(two_to(45) == 0x2000_0000_0000);
    } else {
        lemma_two_to(i + 1);
    }
}

/// The name of the wire that gives a bit of the number.
pub fn z_wire(i: usize) -> (name: Vec<char>)
    requires
        i < 100,
    ensures
        name@ == z_name(i as int),
{
    let tens: u8 = (i / 10) as u8;
    let ones: u8 = (i % 10) as u8;
    let mut name: Vec<char> = Vec::new();
    name.push('z');
    name.push((48u8 + tens) as char);
    name.push((48u8 + ones) as char);
    assert(name@ =~= z_name(i as int));
    name
}

/// The number that the wires spell, however large.
pub fn z_number(wires: &Wires) -> (r: i128)
    requires
        wires.wf(),
    ensures
        r == z_value(wires@),
{
    let ghost f = z_term(wires@);
    let mut total: i128 = 0;
    let mut weight: i128 = 1;
    let mut i: usize = 0;
    while i < BITS
        invariant
            wires.wf(),
            f == z_term(wires@),
            i <= BITS,
            i < BITS ==> weight == two_to(i as int),
            total == sum_below(i as int, f),
            -(i * 0x1_0000_0000_0000_0000_0000_0000_0000) <= total <= i
                * 0x1_0000_0000_0000_0000_0000_0000_0000,
        decreases BITS - i,
    {
        proof {
            lemma_two_to(i as int);
            if i + 1 < BITS {
                lemma_two_to(i + 1);
            }
        }
        let name = z_wire(i);
        let term: i128 = match wires.get(&name) {
            Some(v) => {
                assert(-0x1_0000_0000_0000_0000_0000_0000_0000 <= v * weight
                    <= 0x1_0000_0000_0000_0000_0000_0000_0000) by (nonlinear_arith)
                    requires
                        -0x8000_0000_0000_0000 <= v <= 0x8000_0000_0000_0000,
                        1 <= weight <= 0x2000_0000_0000,
                ;
                (v as i128) * weight
            },
            None => 0,
        };
        total = total + term;
        i += 1;
        if i < BITS {
            weight = weight * 2;
        }
    }
    total
}

/// The number that the wires of a device spell.
pub fn calculate_z(input: &Input) -> (r: i64)
    requires
        input.wires.wf(),
        i64::MIN <= z_value(input@.wires) <= i64::MAX,
    ensures
        r == z_value(input@.wires),
{
    z_number(&input.wires) as i64
}

/// Runs a device until every wire is known, and gives the number that
/// its wires spell then.
pub fn calculate(input: Input) -> (r: Result<i64, PuzzleError>)
    requires
        input.wires.wf(),
    ensures
        r == reading(input@),
{
    let ghost start = input@;
    let mut device = input;
    let limit = device.operations.len();
    substitute_variables(&mut device);
    let mut n: usize = 0;
    loop
        invariant
            device.wires.wf(),
            start.gates.len() == limit,
            n <= limit,
            device@.wires == after(start, n as int).wires,
            device@.gates == after(start, n as int).gates,
            start == input@,
            first_settled(start, 0, limit as int) == first_settled(start, n as int, limit as int),
        decreases limit - n,
    {
        if !device.wires.any_unknown() {
            let z = z_number(&device.wires);
            if z < i64::MIN as i128 || z > i64::MAX as i128 {
                return Err(PuzzleError::MalformedInput);
            }
            return Ok(z as i64);
        }
        if n == limit {
            assert(first_settled(start, limit + 1, limit as int) is None);
            return Err(PuzzleError::NoSolution);
        }
        substitute_variables(&mut device);
        apply_operations(&mut device);
        n += 1;
    }
}

/// What a line of the description says.
pub ghost enum Entry {
    /// A wire starts with a value.
    Start(Seq<char>, i64),
    /// A gate.
    Link(Gate),
    /// Nothing.
    Nothing,
    /// A wire starts with something that is no number of 64 bits.
    Broken,
}

/// What stands between the name of a wire and its value.
pub open spec fn colon() -> Seq<char> {
    seq![':', ' ']
}

/// What stands between the inputs of a gate and its output.
pub open spec fn arrow() -> Seq<char> {
    seq![' ', '-', '>', ' ']
}

/// The operator that a word names.
pub open spec fn operator_of(word: Seq<char>) -> Option<Operator> {
    if word == seq!['X', 'O', 'R'] {
        Some(Operator::XOR)
    } else if word == seq!['A', 'N', 'D'] {
        Some(Operator::AND)
    } else if word == seq!['O', 'R'] {
        Some(Operator::OR)
    } else {
        None
    }
}

/// A gate as a line describes it, the arrow standing at `at`: what is
/// before the arrow is three words, the second an operator.
pub open spec fn gate_in(line: Seq<char>, at: int) -> Entry {
    let parts = words(line.subrange(0, at));
    if parts.len() == 3 && operator_of(parts[1]) is Some {
        Entry::Link(
            Gate {
                first: parts[0],
                first_value: UNKNOWN,
                second: parts[2],
                second_value: UNKNOWN,
                operator: operator_of(parts[1])->0,
                output: trimmed(line.subrange(at + 4, line.len() as int)),
                output_value: UNKNOWN,
            },
        )
    } else {
        Entry::Nothing
    }
}

/// What a line says: a wire and its value where it holds a colon and a
/// space, else a gate where it holds an arrow, else nothing.
pub open spec fn read_line(line: Seq<char>) -> Entry {
    let c = find_pattern(line, colon(), 0);
    let a = find_pattern(line, arrow(), 0);
    if 0 <= c < line.len() {
        match integer64(line.subrange(c + 2, line.len() as int)) {
            Some(v) => Entry::Start(trimmed(line.subrange(0, c)), v),
            None => Entry::Broken,
        }
    } else if 0 <= a < line.len() {
        gate_in(line, a)
    } else {
        Entry::Nothing
    }
}

/// Whether no line is broken.
pub open spec fn readable(ls: Seq<Seq<char>>) -> bool {
    forall|i: int| 0 <= i < ls.len() ==> !(#[trigger] read_line(ls[i]) is Broken)
}

/// The wires that the first `n` lines give a value, a later line
/// counting over an earlier one.
pub open spec fn wires_read(ls: Seq<Seq<char>>, n: int) -> Map<Seq<char>, i64>
    decreases n,
{
    if n <= 0 {
        Map::empty()
    } else {
        match read_line(ls[n - 1]) {
            Entry::Start(name, value) => wires_read(ls, n - 1).insert(name, value),
            _ => wires_read(ls, n - 1),
        }
    }
}

/// The gates that the first `n` lines describe, in their order.
pub open spec fn gates_read(ls: Seq<Seq<char>>, n: int) -> Seq<Gate>
    decreases n,
{
    if n <= 0 {
        seq![]
    } else {
        match read_line(ls[n - 1]) {
            Entry::Link(gate) => gates_read(ls, n - 1).push(gate),
            _ => gates_read(ls, n - 1),
        }
    }
}

/// The device that a text describes.
pub open spec fn described(text: Seq<char>) -> Device {
    Device {
        wires: wires_read(lines(text), lines(text).len() as int),
        gates: gates_read(lines(text), lines(text).len() as int),
    }
}

/// The operator that a word names.
pub fn read_operator(word: &Vec<char>) -> (r: Option<Operator>)
    ensures
        r == operator_of(word@),
{
    if word.len() == 3 && word[0] == 'X' && word[1] == 'O' && word[2] == 'R' {
        assert(word@ =~= seq!['X', 'O', 'R']);
        Some(Operator::XOR)
    } else if word.len() == 3 && word[0] == 'A' && word[1] == 'N' && word[2] == 'D' {
        assert(word@ =~= seq!['A', 'N', 'D']);
        Some(Operator::AND)
    } else if word.len() == 2 && word[0] == 'O' && word[1] == 'R' {
        assert(word@ =~= seq!['O', 'R']);
        Some(Operator::OR)
    } else {
        proof {
            if word@ == seq!['X', 'O', 'R'] {
                assert(word@.len() == 3 && word@[0] == 'X' && word@[1] == 'O' && word@[2] == 'R');
            }
            if word@ == seq!['A', 'N', 'D'] {
                assert(word@.len() == 3 && word@[0] == 'A' && word@[1] == 'N' && word@[2] == 'D');
            }
            if word@ == seq!['O', 'R'] {
                assert(word@.len() == 2 && word@[0] == 'O' && word@[1] == 'R');
            }
        }
        None
    }
}

/// Reads a gate as a line describes it, the arrow standing at `at`.
fn read_gate(line: &Vec<char>, at: usize) -> (r: Option<Operation>)
    requires
        at + 4 <= line.len(),
    ensures
        match r {
            Some(operation) => gate_in(line@, at as int) == Entry::Link(operation@),
            None => gate_in(line@, at as int) is Nothing,
        },
{
    let before = copy_range(line, 0, at);
    let parts = split_words(&before);
    assert(parts@.len() == words(before@).len());
    if parts.len() != 3 {
        return None;
    }
    assert(parts[0]@ == rows(parts@)[0]);
    assert(parts[1]@ == rows(parts@)[1]);
    assert(parts[2]@ == rows(parts@)[2]);
    match read_operator(&parts[1]) {
        Some(operator) => {
            let output = trim(&copy_range(line, at + 4, line.len()));
            Some(
                Operation {
                    op1: (copy_name(&parts[0]), UNKNOWN),
                    op2: (copy_name(&parts[2]), UNKNOWN),
                    operator,
                    result: (output, UNKNOWN),
                },
            )
        },
        None => None,
    }
}

/// Reads the description of a device: the wires that start with a value,
/// then the gates. Fails when a wire starts with something that is no
/// number of 64 bits.
pub fn parse_input(lines: &str) -> (r: Result<Input, PuzzleError>)
    ensures
        match r {
            Ok(input) => readable(crate::text::lines(lines@)) && input.wires.wf() && input@
                == described(lines@),
            Err(e) => e == PuzzleError::MalformedInput && !readable(crate::text::lines(lines@)),
        },
{
    let text = chars_of(lines);
    let ls = split_lines(&text);
    let ghost all = crate::text::lines(lines@);
    let mut mark: Vec<char> = Vec::new();
    mark.push(':');
    mark.push(' ');
    let mut link: Vec<char> = Vec::new();
    link.push(' ');
    link.push('-');
    link.push('>');
    link.push(' ');
    assert(mark@ =~= colon());
    assert(link@ =~= arrow());
    let mut wires = Wires::new();
    let mut operations: Vec<Operation> = Vec::new();
    let mut i: usize = 0;
    while i < ls.len()
        invariant
            i <= ls.len(),
            rows(ls@) == all,
            all == crate::text::lines(lines@),
            mark@ == colon(),
            link@ == arrow(),
            wires.wf(),
            wires@ == wires_read(all, i as int),
            gates_of(operations@) == gates_read(all, i as int),
            forall|k: int| 0 <= k < i ==> !(#[trigger] read_line(all[k]) is Broken),
        decreases ls.len() - i,
    {
        let line = &ls[i];
        assert(line@ == all[i as int]);
        let ghost gates = gates_of(operations@);
        let c = find_pattern_from(line, &mark, 0);
        if c < line.len() {
            match parse_i64(&copy_range(line, c + 2, line.len())) {
                Some(value) => {
                    wires.insert(trim(&copy_range(line, 0, c)), value);
                },
                None => {
                    assert(read_line(all[i as int]) is Broken);
                    return Err(PuzzleError::MalformedInput);
                },
            }
        } else {
            let a = find_pattern_from(line, &link, 0);
            if a < line.len() {
                match read_gate(line, a) {
                    Some(operation) => {
                        operations.push(operation);
                        assert(gates_of(operations@) =~= gates.push(operation@));
                    },
                    None => {},
                }
            }
        }
        assert(gates_of(operations@) =~= gates_read(all, i + 1));
        i += 1;
    }
    Ok(Input { wires, operations })
}

/// The number that the device described by a text gives.
pub fn solve(input: &str) -> (r: Result<i64, PuzzleError>)
    ensures
        r == if readable(lines(input@)) {
            reading(described(input@))
        } else {
            Err(PuzzleError::MalformedInput)
        },
{
    match parse_input(input) {
        Ok(device) => calculate(device),
        Err(e) => Err(e),
    }
}

} // verus!
