//! Circuits of boolean functions: every element is a variable or a function
//! of elements before it.

use crate::bits::bit;
use crate::bits::packed;
use crate::bits::pow2;
use crate::bits::to_bitmask;
use crate::bits::BitSet;
use crate::bits::BoolFunction;
use crate::reader::as_chars;
use crate::reader::string_push;
use crate::vectors::filled;
use crate::writer::digits_of;
use crate::writer::push_decimal;
use vstd::prelude::*;

verus! {

/// An element that applies a function to the values of other elements.
pub struct FuncNode {
    pub inputs: Vec<usize>,
    pub func: BoolFunction,
}

impl FuncNode {
    /// The value of the function for the arguments whose bits are `bitmask`.
    pub fn compute(&self, bitmask: usize) -> (value: bool)
        requires
            bitmask < self.func.data@.len(),
        ensures
            value == self.func.data@[bitmask as int],
    {
        self.func.at(bitmask)
    }
}

/// An element that stands for a variable.
pub struct VarData {
    pub element_index: usize,
    pub var_index: usize,
}

/// An element of a circuit.
pub enum Node {
    Variable(VarData),
    Function(FuncNode),
}

/// A circuit: its elements in an order in which every function stands after
/// its inputs. The last element gives the value of the circuit.
pub struct Scheme {
    pub nodes: Vec<Node>,
}

/// Element `i` is a variable below the width of a machine word, or a
/// function of elements before it whose table has a value for every choice
/// of arguments.
pub open spec fn node_ok(nodes: Seq<Node>, i: int) -> bool {
    match nodes[i] {
        Node::Variable(v) => v.var_index < usize::BITS,
        Node::Function(f) => {
            &&& f.inputs@.len() <= usize::BITS
            &&& f.func.data@.len() == pow2(f.inputs@.len())
            &&& forall|j: int| 0 <= j < f.inputs@.len() ==> #[trigger] f.inputs@[j] < i
        },
    }
}

/// The number of inputs of element `i`; none for a variable.
pub open spec fn fan_in(nodes: Seq<Node>, i: int) -> nat {
    match nodes[i] {
        Node::Variable(v) => 0,
        Node::Function(f) => f.inputs@.len(),
    }
}

/// The value of element `i` where the variables have the values `vars`.
pub open spec fn value_of(nodes: Seq<Node>, vars: usize, i: int) -> bool
    decreases i, fan_in(nodes, i) + 1,
{
    match nodes[i] {
        Node::Variable(v) => bit(vars, v.var_index),
        Node::Function(f) => f.func.data@[packed(args_of(nodes, vars, i, f.inputs@, f.inputs@.len() as int)) as int],
    }
}

/// The values of the first `k` inputs of element `i`.
pub open spec fn args_of(nodes: Seq<Node>, vars: usize, i: int, inputs: Seq<usize>, k: int) -> Seq<bool>
    decreases i, k,
{
    if k <= 0 || k > fan_in(nodes, i) {
        Seq::empty()
    } else {
        args_of(nodes, vars, i, inputs, k - 1).push(
            if inputs[k - 1] < i {
                value_of(nodes, vars, inputs[k - 1] as int)
            } else {
                false
            },
        )
    }
}

/// The depth of element `i`: none for a variable, and for a function one
/// more than the greatest depth of its inputs.
pub open spec fn depth_of(nodes: Seq<Node>, i: int) -> nat
    decreases i, fan_in(nodes, i) + 1,
{
    match nodes[i] {
        Node::Variable(v) => 0,
        Node::Function(f) => deepest(nodes, i, f.inputs@, f.inputs@.len() as int) + 1,
    }
}

/// The greatest depth among the first `k` inputs of element `i`.
pub open spec fn deepest(nodes: Seq<Node>, i: int, inputs: Seq<usize>, k: int) -> nat
    decreases i, k,
{
    if k <= 0 || k > fan_in(nodes, i) {
        0
    } else {
        let before = deepest(nodes, i, inputs, k - 1);
        let here = if inputs[k - 1] < i {
            depth_of(nodes, inputs[k - 1] as int)
        } else {
            0
        };
        if here > before {
            here
        } else {
            before
        }
    }
}

impl Scheme {
    /// The circuit has an element, and every element is in order.
    pub open spec fn wf(&self) -> bool {
        &&& self.nodes@.len() >= 1
        &&& forall|i: int| 0 <= i < self.nodes@.len() ==> node_ok(self.nodes@, i)
    }

    /// Every function has an input.
    pub open spec fn has_inputs(&self) -> bool {
        forall|i: int|
            0 <= i < self.nodes@.len() ==> (#[trigger] self.nodes@[i] matches Node::Function(f) ==> f.inputs@.len()
                > 0)
    }

    /// The depth of the element `element`, or of the last element where
    /// none is named.
    pub fn get_depth(&self, element: Option<usize>) -> (depth: usize)
        requires
            self.wf(),
            self.has_inputs(),
            element matches Some(e) ==> e < self.nodes@.len(),
        ensures
            depth == depth_of(
                self.nodes@,
                match element {
                    Some(e) => e as int,
                    None => self.nodes@.len() - 1,
                },
            ),
            depth <= match element {
                Some(e) => e as int,
                None => self.nodes@.len() - 1,
            },
        decreases
                match element {
                    Some(e) => e as int,
                    None => self.nodes@.len() - 1,
                },
    {
        let at: usize = match element {
            Some(e) => e,
            None => self.nodes.len() - 1,
        };
        assert(node_ok(self.nodes@, at as int));
        match &self.nodes[at] {
            Node::Variable(_) => 0,
            Node::Function(f_data) => {
                let count: usize = f_data.inputs.len();
                let mut most: usize = 0;
                let mut k: usize = 0;
                while k < count
                    invariant
                        k <= count,
                        count == f_data.inputs@.len(),
                        self.wf(),
                        self.has_inputs(),
                        at < self.nodes@.len(),
                        at == (match element {
                            Some(e) => e as int,
                            None => self.nodes@.len() - 1,
                        }),
                        self.nodes@[at as int] == Node::Function(*f_data),
                        node_ok(self.nodes@, at as int),
                        most == deepest(self.nodes@, at as int, f_data.inputs@, k as int),
                        most + 1 <= at || k == 0,
                        k == 0 ==> most == 0,
                    decreases count - k,
                {
                    let input: usize = f_data.inputs[k];
                    assert(input < at);
                    let below = self.get_depth(Some(input));
                    if below > most {
                        most = below;
                    }
                    k += 1;
                }
                most + 1
            },
        }
    }

    /// The value of the circuit where the variables have the values
    /// `var_values`: the value of its last element.
    pub fn compute(&self, var_values: &BitSet) -> (value: bool)
        requires
            self.wf(),
        ensures
            value == value_of(self.nodes@, var_values.mask, self.nodes@.len() - 1),
    {
        let size: usize = self.nodes.len();
        let mut element_results: Vec<Option<bool>> = filled(None, size);
        let mut i: usize = 0;
        while i < size
            invariant
                i <= size,
                size == self.nodes@.len(),
                self.wf(),
                element_results@.len() == size,
                forall|j: int|
                    0 <= j < i ==> #[trigger] element_results@[j] == Some(value_of(self.nodes@, var_values.mask, j)),
            decreases size - i,
        {
            assert(node_ok(self.nodes@, i as int));
            match &self.nodes[i] {
                Node::Variable(v) => {
                    let value = var_values.get(v.var_index);
                    element_results[i] = Some(value);
                },
                Node::Function(func_node) => {
                    let count: usize = func_node.inputs.len();
                    let mut args: Vec<bool> = Vec::new();
                    let mut k: usize = 0;
                    while k < count
                        invariant
                            k <= count,
                            count == func_node.inputs@.len(),
                            i < size,
                            size == self.nodes@.len(),
                            element_results@.len() == size,
                            self.nodes@[i as int] == Node::Function(*func_node),
                            node_ok(self.nodes@, i as int),
                            forall|j: int|
                                0 <= j < i ==> #[trigger] element_results@[j] == Some(
                                    value_of(self.nodes@, var_values.mask, j),
                                ),
                            args@ == args_of(self.nodes@, var_values.mask, i as int, func_node.inputs@, k as int),
                        decreases count - k,
                    {
                        let input: usize = func_node.inputs[k];
                        assert(input < i);
                        let got = element_results[input];
                        args.push(got.unwrap());
                        k += 1;
                    }
                    proof {
                        assert(args@.len() == count) by {
                            lemma_args_len(self.nodes@, var_values.mask, i as int, func_node.inputs@, count as int);
                        }
                    }
                    let func_argument_bitmask: usize = to_bitmask(&args);
                    let value = func_node.compute(func_argument_bitmask);
                    element_results[i] = Some(value);
                },
            }
            i += 1;
        }
        element_results[size - 1].unwrap()
    }
}

/// There is one value for each input.
pub proof fn lemma_args_len(nodes: Seq<Node>, vars: usize, i: int, inputs: Seq<usize>, k: int)
    requires
        0 <= k <= fan_in(nodes, i),
    ensures
        args_of(nodes, vars, i, inputs, k).len() == k,
    decreases k,
{
    if k > 0 {
        lemma_args_len(nodes, vars, i, inputs, k - 1);
    }
}

/// An element of a circuit of negations, conjunctions and disjunctions,
/// with the numbers of the elements that it works on.
pub enum Element {
    Not(usize),
    And(usize, usize),
    Or(usize, usize),
}

impl Element {
    /// The bytes of the text of the element: the number of its kind, one
    /// for a negation, two for a conjunction and three for a disjunction,
    /// and after it the numbers of its inputs, with blanks between.
    pub open spec fn text(&self) -> Seq<u8> {
        match self {
            Element::Not(arg) => seq![49u8, 32u8] + digits_of(*arg as nat),
            Element::And(l, r) => seq![50u8, 32u8] + digits_of(*l as nat) + seq![32u8] + digits_of(*r as nat),
            Element::Or(l, r) => seq![51u8, 32u8] + digits_of(*l as nat) + seq![32u8] + digits_of(*r as nat),
        }
    }

    /// The text of the element.
    pub fn to_string(&self) -> (text: String)
        ensures
            text@ == as_chars(self.text()),
    {
        let mut bytes: Vec<u8> = Vec::new();
        match self {
            Element::Not(arg) => {
                bytes.push(49);
                bytes.push(32);
                push_decimal(&mut bytes, *arg as u64);
            },
            Element::And(l, r) => {
                bytes.push(50);
                bytes.push(32);
                push_decimal(&mut bytes, *l as u64);
                bytes.push(32);
                push_decimal(&mut bytes, *r as u64);
            },
            Element::Or(l, r) => {
                bytes.push(51);
                bytes.push(32);
                push_decimal(&mut bytes, *l as u64);
                bytes.push(32);
                push_decimal(&mut bytes, *r as u64);
            },
        }
        assert(bytes@ =~= self.text());
        let mut text = String::new();
        let count: usize = bytes.len();
        let mut j: usize = 0;
        proof {
            assert(as_chars(bytes@.take(0)) =~= Seq::<char>::empty());
        }
        while j < count
            invariant
                j <= count,
                count == bytes@.len(),
                text@ == as_chars(bytes@.take(j as int)),
            decreases count - j,
        {
            string_push(&mut text, bytes[j] as char);
            proof {
                assert(as_chars(bytes@.take(j + 1)) =~= as_chars(bytes@.take(j as int)).push(bytes@[j as int] as char));
            }
            j += 1;
        }
        proof {
            assert(bytes@.take(count as int) =~= bytes@);
        }
        text
    }
}

} // verus!
