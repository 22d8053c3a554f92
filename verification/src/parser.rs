//! The textual circuit format.
//!
//! A text is read line by line: a `#` starts a comment that runs to the end
//! of the line, whitespace around what is left is dropped, and a backslash at
//! the end of a line splices the next line on with a space. What results is
//! cut at every `.` into directives:
//!
//! ```text
//! .inputs NAME...
//! .outputs NAME...
//! .lincomb NAME... OUT
//!  COEF...
//! .bootstrap IN OUT...
//!  TABLE
//!  ...
//! .end
//! ```
//!
//! The specification functions of this module say what each stage yields;
//! [`parse_lbf`] is proved to compute exactly that.

use crate::circuit::{
    check_circuit, defined_between, lemma_checked_circuit, names_of, rules_hold, tables_of,
    Circuit, CircuitView,
    Name, Node, NodeView,
};
use crate::error::{fault, Error, ErrorKind, ErrorView};
use crate::text::{
    chars_to_string, join_line_chars, join_lines, parse_i8, parse_i8_spec, seqs_of, slice_chars,
    splice, splice_chars, split, split_chars, split_tokens, starts_with, to_chars, tokens, trim,
    trim_chars,
};
use itybity::StrToBits;
use vstd::prelude::*;

verus! {

// ---------------------------------------------------------------------------
// From the text to its directives
// ---------------------------------------------------------------------------

/// The lines of `text`: its pieces between line feeds, without the empty piece
/// after a final line feed.
pub open spec fn text_lines(text: Seq<char>) -> Seq<Seq<char>> {
    let pieces = split(text, '\n');
    if pieces.last().len() == 0 {
        pieces.drop_last()
    } else {
        pieces
    }
}

/// A line without its comment and without the whitespace around the rest.
pub open spec fn sanitize(line: Seq<char>) -> Seq<char> {
    trim(split(line, '#').first())
}

/// The directives of `text`, each without the whitespace around it. The text
/// before the first `.` counts as one, as does the text between two `.`.
pub open spec fn directives(text: Seq<char>) -> Seq<Seq<char>> {
    let lines = text_lines(text);
    let clean = Seq::new(lines.len(), |i: int| sanitize(lines[i]));
    let pieces = split(splice(join_lines(clean)), '.');
    Seq::new(pieces.len(), |i: int| trim(pieces[i]))
}

// ---------------------------------------------------------------------------
// One directive
// ---------------------------------------------------------------------------

/// Whether every token writes an `i8`.
pub open spec fn all_coefficients(toks: Seq<Seq<char>>) -> bool {
    forall|i: int| 0 <= i < toks.len() ==> parse_i8_spec(#[trigger] toks[i]) is Some
}

/// The numbers that the tokens write.
pub open spec fn coefficients(toks: Seq<Seq<char>>) -> Seq<i8> {
    Seq::new(toks.len(), |i: int| parse_i8_spec(toks[i]).unwrap())
}

/// The node that a `lincomb` directive defines. `body` is the directive after
/// its keyword, `directive` all of it.
///
/// The first line names the inputs and, last, the output. The second line
/// holds one coefficient per input, and may hold one more: the constant, which
/// is 0 otherwise.
pub open spec fn lincomb_node(body: Seq<char>, directive: Seq<char>) -> Result<
    NodeView,
    ErrorView,
> {
    let lines = split(body, '\n');
    if lines.len() != 2 {
        Err(fault(ErrorKind::LincombLineCount, directive))
    } else {
        let names = tokens(lines[0]);
        let numbers = tokens(lines[1]);
        if names.len() == 0 {
            Err(fault(ErrorKind::LincombNoOutput, directive))
        } else if !all_coefficients(numbers) {
            Err(fault(ErrorKind::LincombCoefficient, directive))
        } else {
            let inputs = names.drop_last();
            let all = coefficients(numbers);
            if inputs.len() + 1 == all.len() {
                Ok(
                    NodeView::LinComb {
                        inputs,
                        output: names.last(),
                        coefs: all.drop_last(),
                        const_coef: all.last(),
                    },
                )
            } else if inputs.len() == all.len() {
                Ok(NodeView::LinComb { inputs, output: names.last(), coefs: all, const_coef: 0 })
            } else {
                Err(fault(ErrorKind::LincombCountMismatch, directive))
            }
        }
    }
}

/// The characters `0` and `1` of `line`, in order.
pub open spec fn binary_digits(line: Seq<char>) -> Seq<char>
    decreases line.len(),
{
    if line.len() == 0 {
        line
    } else {
        let before = binary_digits(line.drop_last());
        if line.last() == '0' || line.last() == '1' {
            before.push(line.last())
        } else {
            before
        }
    }
}

/// One bit per character: false for `0`, true for any other.
pub open spec fn bits_of(digits: Seq<char>) -> Seq<bool> {
    Seq::new(digits.len(), |i: int| digits[i] != '0')
}

/// The table that a table line writes: its characters `0` and `1` as bits,
/// whatever stands between them.
pub open spec fn table_of(line: Seq<char>) -> Seq<bool> {
    bits_of(binary_digits(line))
}

/// The node that a `bootstrap` directive defines. `body` is the directive
/// after its keyword, `directive` all of it.
///
/// The first line names the input and then the outputs, at least one. One
/// table line per output follows.
pub open spec fn bootstrap_node(body: Seq<char>, directive: Seq<char>) -> Result<
    NodeView,
    ErrorView,
> {
    let lines = split(body, '\n');
    if lines.len() < 2 {
        Err(fault(ErrorKind::BootstrapTooFewLines, directive))
    } else {
        let names = tokens(lines[0]);
        if names.len() == 0 {
            Err(fault(ErrorKind::BootstrapMissingInput, directive))
        } else if names.len() == 1 {
            Err(fault(ErrorKind::BootstrapNoOutput, directive))
        } else if names.len() - 1 != lines.len() - 1 {
            Err(fault(ErrorKind::BootstrapTableCount, directive))
        } else {
            Ok(
                NodeView::Bootstrap {
                    input: names.first(),
                    outputs: names.drop_first(),
                    tables: Seq::new((lines.len() - 1) as nat, |j: int| table_of(lines[j + 1])),
                },
            )
        }
    }
}

/// `c` with the first `upto` names of `names` declared as inputs.
pub open spec fn add_inputs(c: CircuitView, names: Seq<Name>, upto: int) -> CircuitView
    decreases upto,
{
    if upto <= 0 {
        c
    } else {
        add_inputs(c, names, upto - 1).add_input(names[upto - 1])
    }
}

/// `c` with the first `upto` names of `names` declared as outputs.
pub open spec fn add_outputs(c: CircuitView, names: Seq<Name>, upto: int) -> CircuitView
    decreases upto,
{
    if upto <= 0 {
        c
    } else {
        add_outputs(c, names, upto - 1).add_output(names[upto - 1])
    }
}

/// Whether the directive ends the circuit.
pub open spec fn is_end(d: Seq<char>) -> bool {
    "end"@.is_prefix_of(d)
}

/// The circuit `c` after the directive `d`, which does not end it. A directive
/// that is empty or begins with no keyword changes nothing.
pub open spec fn apply_directive(c: CircuitView, d: Seq<char>) -> Result<CircuitView, ErrorView> {
    if d.len() == 0 {
        Ok(c)
    } else if "inputs"@.is_prefix_of(d) {
        let names = tokens(d.skip("inputs"@.len() as int));
        Ok(add_inputs(c, names, names.len() as int))
    } else if "outputs"@.is_prefix_of(d) {
        let names = tokens(d.skip("outputs"@.len() as int));
        Ok(add_outputs(c, names, names.len() as int))
    } else if "lincomb"@.is_prefix_of(d) {
        match lincomb_node(d.skip("lincomb"@.len() as int), d) {
            Err(e) => Err(e),
            Ok(node) => Ok(c.add_node(node)),
        }
    } else if "bootstrap"@.is_prefix_of(d) {
        match bootstrap_node(d.skip("bootstrap"@.len() as int), d) {
            Err(e) => Err(e),
            Ok(node) => Ok(c.add_node(node)),
        }
    } else {
        Ok(c)
    }
}

/// How far reading has come: the circuit so far, and whether `end` was met.
pub struct Progress {
    pub circuit: CircuitView,
    pub ended: bool,
}

/// The first `upto` directives read in order, from the empty circuit. The
/// first error stops the reading, and nothing after `end` is looked at.
pub open spec fn read_directives(ds: Seq<Seq<char>>, upto: int) -> Result<Progress, ErrorView>
    decreases upto,
{
    if upto <= 0 {
        Ok(Progress { circuit: CircuitView::empty(), ended: false })
    } else {
        match read_directives(ds, upto - 1) {
            Err(e) => Err(e),
            Ok(p) => if p.ended {
                Ok(p)
            } else if ds[upto - 1].len() > 0 && is_end(ds[upto - 1]) {
                Ok(Progress { circuit: p.circuit, ended: true })
            } else {
                match apply_directive(p.circuit, ds[upto - 1]) {
                    Err(e) => Err(e),
                    Ok(c) => Ok(Progress { circuit: c, ended: false }),
                }
            },
        }
    }
}

/// Once reading has failed, reading further gives the same error.
proof fn lemma_error_stops_reading(ds: Seq<Seq<char>>, at: int, upto: int)
    requires
        at <= upto,
        read_directives(ds, at) is Err,
    ensures
        read_directives(ds, upto) == read_directives(ds, at),
    decreases upto - at,
{
    if at < upto {
        lemma_error_stops_reading(ds, at, upto - 1);
    }
}

/// The circuit that `text` writes, before any check of its names.
pub open spec fn parse_text(text: Seq<char>) -> Result<CircuitView, ErrorView> {
    let ds = directives(text);
    match read_directives(ds, ds.len() as int) {
        Err(e) => Err(e),
        Ok(p) => Ok(p.circuit),
    }
}

/// The circuit that `text` writes, if it meets the rules on names and
/// order. A definition that nothing uses is no error of a text.
pub open spec fn parse_lbf_spec(text: Seq<char>) -> Result<CircuitView, ErrorView> {
    match parse_text(text) {
        Err(e) => Err(e),
        Ok(c) => match c.check_names() {
            Err(e) => Err(e),
            Ok(()) => Ok(c),
        },
    }
}

// ---------------------------------------------------------------------------
// What a parsed circuit is like
// ---------------------------------------------------------------------------

/// The names of the input nodes among the first `upto` nodes, in order.
pub open spec fn input_names(nodes: Seq<NodeView>, upto: int) -> Seq<Name>
    decreases upto,
{
    if upto <= 0 {
        Seq::empty()
    } else {
        let before = input_names(nodes, upto - 1);
        match nodes[upto - 1] {
            NodeView::Input { name } => before.push(name),
            _ => before,
        }
    }
}

/// Whether the declared inputs are the names of the input nodes, in order.
pub open spec fn inputs_in_order(c: CircuitView) -> bool {
    c.inputs == input_names(c.nodes, c.nodes.len() as int)
}

proof fn lemma_input_names_prefix(nodes: Seq<NodeView>, node: NodeView, upto: int)
    requires
        upto <= nodes.len(),
    ensures
        input_names(nodes.push(node), upto) == input_names(nodes, upto),
    decreases upto,
{
    if upto > 0 {
        lemma_input_names_prefix(nodes, node, upto - 1);
    }
}

proof fn lemma_add_node_keeps_order(c: CircuitView, node: NodeView)
    requires
        inputs_in_order(c),
        !(node is Input),
    ensures
        inputs_in_order(c.add_node(node)),
{
    lemma_input_names_prefix(c.nodes, node, c.nodes.len() as int);
}

proof fn lemma_add_inputs_keeps_order(c: CircuitView, names: Seq<Name>, upto: int)
    requires
        inputs_in_order(c),
    ensures
        inputs_in_order(add_inputs(c, names, upto)),
    decreases upto,
{
    if upto > 0 {
        lemma_add_inputs_keeps_order(c, names, upto - 1);
        let before = add_inputs(c, names, upto - 1);
        let node = NodeView::Input { name: names[upto - 1] };
        lemma_input_names_prefix(before.nodes, node, before.nodes.len() as int);
    }
}

proof fn lemma_add_outputs_keeps_order(c: CircuitView, names: Seq<Name>, upto: int)
    requires
        inputs_in_order(c),
    ensures
        inputs_in_order(add_outputs(c, names, upto)),
    decreases upto,
{
    if upto > 0 {
        lemma_add_outputs_keeps_order(c, names, upto - 1);
    }
}

proof fn lemma_reading_keeps_order(ds: Seq<Seq<char>>, upto: int)
    requires
        read_directives(ds, upto) is Ok,
    ensures
        inputs_in_order(read_directives(ds, upto)->Ok_0.circuit),
    decreases upto,
{
    if upto > 0 {
        lemma_reading_keeps_order(ds, upto - 1);
        let p = read_directives(ds, upto - 1)->Ok_0;
        let d = ds[upto - 1];
        if !p.ended && !(d.len() > 0 && is_end(d)) {
            if d.len() == 0 {
            } else if "inputs"@.is_prefix_of(d) {
                let names = tokens(d.skip("inputs"@.len() as int));
                lemma_add_inputs_keeps_order(p.circuit, names, names.len() as int);
            } else if "outputs"@.is_prefix_of(d) {
                let names = tokens(d.skip("outputs"@.len() as int));
                lemma_add_outputs_keeps_order(p.circuit, names, names.len() as int);
            } else if "lincomb"@.is_prefix_of(d) {
                let node = lincomb_node(d.skip("lincomb"@.len() as int), d)->Ok_0;
                lemma_add_node_keeps_order(p.circuit, node);
            } else if "bootstrap"@.is_prefix_of(d) {
                let node = bootstrap_node(d.skip("bootstrap"@.len() as int), d)->Ok_0;
                lemma_add_node_keeps_order(p.circuit, node);
            }
        }
    } else {
        assert(input_names(CircuitView::empty().nodes, 0) =~= CircuitView::empty().inputs);
    }
}

/// The shape of every circuit that parsing gives: its declared inputs are
/// the names of its input nodes, in order; every name that a node reads is
/// defined by a node before it; no name is defined twice; and every declared
/// output is defined by a node.
pub proof fn lemma_parsed_shape(text: Seq<char>)
    requires
        parse_lbf_spec(text) is Ok,
    ensures
        ({
            let c = parse_lbf_spec(text)->Ok_0;
            &&& inputs_in_order(c)
            &&& rules_hold(Set::empty(), c.nodes, 0)
            &&& forall|i: int, r: int|
                0 <= i < c.nodes.len() && 0 <= r < c.nodes[i].uses().len() ==> defined_between(
                    c.nodes,
                    0,
                    i,
                    #[trigger] c.nodes[i].uses()[r],
                )
            &&& forall|j: int|
                0 <= j < c.outputs.len() ==> defined_between(
                    c.nodes,
                    0,
                    c.nodes.len() as int,
                    #[trigger] c.outputs[j],
                )
        }),
{
    let ds = directives(text);
    lemma_reading_keeps_order(ds, ds.len() as int);
    lemma_checked_circuit(parse_lbf_spec(text)->Ok_0);
}

// ---------------------------------------------------------------------------
// The parser
// ---------------------------------------------------------------------------

/// The bits that a string of `0` and `1` writes.
///
/// Calls `itybity::StrToBits::iter_bits` and collects what it yields: one
/// `bool` per character of the string, in order, false for the character `0`
/// and true for every other.
#[verifier::external_body]
fn string_bits(digits: &String) -> (bits: Vec<bool>)
    ensures
        bits@ == bits_of(digits@),
{
    digits.iter_bits().collect()
}

/// `s` without the prefix `word`, if it begins with it.
fn strip_prefix(s: &Vec<char>, word: &str) -> (r: Option<Vec<char>>)
    ensures
        match r {
            Some(rest) => word@.is_prefix_of(s@) && rest@ == s@.skip(word@.len() as int),
            None => !word@.is_prefix_of(s@),
        },
{
    if starts_with(s, word) {
        let n = word.unicode_len();
        Some(slice_chars(s, n, s.len()))
    } else {
        None
    }
}

/// A string for each token.
fn to_names(toks: &Vec<Vec<char>>) -> (names: Vec<String>)
    ensures
        names_of(names@) == seqs_of(toks@),
{
    let mut names: Vec<String> = Vec::new();
    let mut i: usize = 0;
    while i < toks.len()
        invariant
            i <= toks.len(),
            names_of(names@) == seqs_of(toks@).subrange(0, i as int),
        decreases toks.len() - i,
    {
        let name = chars_to_string(&toks[i]);
        let ghost before = names_of(names@);
        names.push(name);
        assert(names_of(names@) =~= before.push(toks[i as int]@));
        assert(before.push(toks[i as int]@) =~= seqs_of(toks@).subrange(0, i + 1));
        i += 1;
    }
    assert(seqs_of(toks@).subrange(0, i as int) =~= seqs_of(toks@));
    names
}

/// The table that a table line writes.
fn parse_table(line: &Vec<char>) -> (table: Vec<bool>)
    ensures
        table@ == table_of(line@),
{
    let mut digits: Vec<char> = Vec::new();
    let mut i: usize = 0;
    while i < line.len()
        invariant
            i <= line.len(),
            digits@ == binary_digits(line@.subrange(0, i as int)),
        decreases line.len() - i,
    {
        let c = line[i];
        proof {
            let t = line@.subrange(0, i + 1);
            assert(t.drop_last() =~= line@.subrange(0, i as int));
            assert(t.last() == c);
        }
        if c == '0' || c == '1' {
            digits.push(c);
        }
        i += 1;
    }
    assert(line@.subrange(0, i as int) =~= line@);
    let text = chars_to_string(&digits);
    string_bits(&text)
}

/// Reads a `lincomb` directive: `body` is the directive after its keyword,
/// `directive` all of it.
#[verifier::loop_isolation(false)]
pub fn parse_lincomb(body: &Vec<char>, directive: &Vec<char>) -> (r: Result<Node, Error>)
    ensures
        match r {
            Ok(node) => lincomb_node(body@, directive@) == Ok::<_, ErrorView>(node@),
            Err(e) => lincomb_node(body@, directive@) == Err::<NodeView, _>(e@),
        },
{
    let lines = split_chars(body, '\n');
    if lines.len() != 2 {
        return Err(Error::new(ErrorKind::LincombLineCount, chars_to_string(directive)));
    }
    assert(seqs_of(lines@)[0] == lines[0]@ && seqs_of(lines@)[1] == lines[1]@);
    let name_toks = split_tokens(&lines[0]);
    let mut inputs = to_names(&name_toks);
    let ghost names = names_of(inputs@);
    let output = match inputs.pop() {
        Some(name) => name,
        None => {
            return Err(Error::new(ErrorKind::LincombNoOutput, chars_to_string(directive)));
        },
    };
    assert(names_of(inputs@) =~= names.drop_last());
    assert(output@ == names.last());
    let number_toks = split_tokens(&lines[1]);
    let ghost numbers = seqs_of(number_toks@);
    let mut coefs: Vec<i8> = Vec::new();
    let mut i: usize = 0;
    while i < number_toks.len()
        invariant
            i <= number_toks.len(),
            numbers == seqs_of(number_toks@),
            coefs.len() == i,
            forall|k: int| 0 <= k < i ==> parse_i8_spec(#[trigger] numbers[k]) == Some(coefs[k]),
        decreases number_toks.len() - i,
    {
        match parse_i8(&number_toks[i]) {
            Some(v) => {
                coefs.push(v);
            },
            None => {
                assert(parse_i8_spec(numbers[i as int]) is None);
                return Err(Error::new(ErrorKind::LincombCoefficient, chars_to_string(directive)));
            },
        }
        i += 1;
    }
    assert(all_coefficients(numbers));
    assert(coefs@ =~= coefficients(numbers));
    let ghost all = coefs@;
    let const_coef: i8 = if coefs.len() > 0 && inputs.len() == coefs.len() - 1 {
        match coefs.pop() {
            Some(v) => v,
            None => 0,
        }
    } else {
        0
    };
    if inputs.len() != coefs.len() {
        return Err(Error::new(ErrorKind::LincombCountMismatch, chars_to_string(directive)));
    }
    assert(names.drop_last().len() + 1 == all.len() ==> coefs@ =~= all.drop_last());
    Ok(Node::LinComb { inputs, output, coefs, const_coef })
}

/// Reads a `bootstrap` directive: `body` is the directive after its keyword,
/// `directive` all of it.
#[verifier::loop_isolation(false)]
pub fn parse_bootstrap(body: &Vec<char>, directive: &Vec<char>) -> (r: Result<Node, Error>)
    ensures
        match r {
            Ok(node) => bootstrap_node(body@, directive@) == Ok::<_, ErrorView>(node@),
            Err(e) => bootstrap_node(body@, directive@) == Err::<NodeView, _>(e@),
        },
{
    let lines = split_chars(body, '\n');
    if lines.len() < 2 {
        return Err(Error::new(ErrorKind::BootstrapTooFewLines, chars_to_string(directive)));
    }
    assert(seqs_of(lines@)[0] == lines[0]@);
    let name_toks = split_tokens(&lines[0]);
    let mut outputs = to_names(&name_toks);
    let ghost names = names_of(outputs@);
    if outputs.len() == 0 {
        return Err(Error::new(ErrorKind::BootstrapMissingInput, chars_to_string(directive)));
    }
    let input = outputs.remove(0);
    assert(names_of(outputs@) =~= names.drop_first());
    assert(input@ == names.first());
    if outputs.len() == 0 {
        return Err(Error::new(ErrorKind::BootstrapNoOutput, chars_to_string(directive)));
    }
    if outputs.len() != lines.len() - 1 {
        return Err(Error::new(ErrorKind::BootstrapTableCount, chars_to_string(directive)));
    }
    let mut tables: Vec<Vec<bool>> = Vec::new();
    let mut j: usize = 1;
    while j < lines.len()
        invariant
            1 <= j <= lines.len(),
            tables.len() == j - 1,
            forall|k: int| 0 <= k < j - 1 ==> #[trigger] tables[k]@ == table_of(lines[k + 1]@),
        decreases lines.len() - j,
    {
        tables.push(parse_table(&lines[j]));
        j += 1;
    }
    assert(tables_of(tables@) =~= Seq::new(
        (lines.len() - 1) as nat,
        |j: int| table_of(seqs_of(lines@)[j + 1]),
    ));
    Ok(Node::Bootstrap { input, outputs, tables })
}

/// Declares every name as an input of the circuit, in order.
fn declare_inputs(circuit: &mut Circuit, names: Vec<String>)
    ensures
        final(circuit)@ == add_inputs(old(circuit)@, names_of(names@), names.len() as int),
{
    let mut i: usize = 0;
    while i < names.len()
        invariant
            i <= names.len(),
            circuit@ == add_inputs(old(circuit)@, names_of(names@), i as int),
        decreases names.len() - i,
    {
        circuit.add_input(names[i].clone());
        i += 1;
    }
}

/// Declares every name as an output of the circuit, in order.
fn declare_outputs(circuit: &mut Circuit, names: Vec<String>)
    ensures
        final(circuit)@ == add_outputs(old(circuit)@, names_of(names@), names.len() as int),
{
    let mut i: usize = 0;
    while i < names.len()
        invariant
            i <= names.len(),
            circuit@ == add_outputs(old(circuit)@, names_of(names@), i as int),
        decreases names.len() - i,
    {
        circuit.add_output(names[i].clone());
        i += 1;
    }
}

/// Applies one directive that does not end the circuit.
fn read_directive(circuit: &mut Circuit, d: &Vec<char>) -> (r: Result<(), Error>)
    ensures
        match r {
            Ok(()) => apply_directive(old(circuit)@, d@) == Ok::<_, ErrorView>(final(circuit)@),
            Err(e) => apply_directive(old(circuit)@, d@) == Err::<CircuitView, _>(e@),
        },
{
    if d.len() == 0 {
        return Ok(());
    }
    if let Some(rest) = strip_prefix(d, "inputs") {
        let names = to_names(&split_tokens(&rest));
        declare_inputs(circuit, names);
        return Ok(());
    }
    if let Some(rest) = strip_prefix(d, "outputs") {
        let names = to_names(&split_tokens(&rest));
        declare_outputs(circuit, names);
        return Ok(());
    }
    if let Some(rest) = strip_prefix(d, "lincomb") {
        match parse_lincomb(&rest, d) {
            Ok(node) => {
                circuit.push_node(node);
                return Ok(());
            },
            Err(e) => {
                return Err(e);
            },
        }
    }
    if let Some(rest) = strip_prefix(d, "bootstrap") {
        match parse_bootstrap(&rest, d) {
            Ok(node) => {
                circuit.push_node(node);
                return Ok(());
            },
            Err(e) => {
                return Err(e);
            },
        }
    }
    Ok(())
}

/// The directives of a text.
fn split_directives(input: &Vec<char>) -> (ds: Vec<Vec<char>>)
    ensures
        seqs_of(ds@) == directives(input@),
{
    let raw = split_chars(input, '\n');
    let count = if raw[raw.len() - 1].len() == 0 {
        raw.len() - 1
    } else {
        raw.len()
    };
    let ghost lines = text_lines(input@);
    assert(lines =~= seqs_of(raw@).subrange(0, count as int));
    let mut clean: Vec<Vec<char>> = Vec::new();
    let mut i: usize = 0;
    while i < count
        invariant
            i <= count <= raw.len(),
            lines == seqs_of(raw@).subrange(0, count as int),
            clean.len() == i,
            forall|k: int| 0 <= k < i ==> #[trigger] clean[k]@ == sanitize(lines[k]),
        decreases count - i,
    {
        let parts = split_chars(&raw[i], '#');
        assert(seqs_of(parts@)[0] == parts[0]@);
        clean.push(trim_chars(&parts[0]));
        i += 1;
    }
    assert(seqs_of(clean@) =~= Seq::new(lines.len(), |i: int| sanitize(lines[i])));
    let pieces = split_chars(&splice_chars(&join_line_chars(&clean)), '.');
    let mut ds: Vec<Vec<char>> = Vec::new();
    let mut j: usize = 0;
    while j < pieces.len()
        invariant
            j <= pieces.len(),
            ds.len() == j,
            forall|k: int| 0 <= k < j ==> #[trigger] ds[k]@ == trim(pieces[k]@),
        decreases pieces.len() - j,
    {
        ds.push(trim_chars(&pieces[j]));
        j += 1;
    }
    assert(seqs_of(ds@) =~= Seq::new(pieces.len() as nat, |i: int| trim(seqs_of(pieces@)[i])));
    ds
}

/// Reads a circuit from its text and checks it.
///
/// The result is the circuit that the text writes, as [`parse_lbf_spec`]
/// defines it, or the first error: of a directive in the order of the text,
/// then of the consistency rules.
#[verifier::loop_isolation(false)]
pub fn parse_lbf(input: &str) -> (r: Result<Circuit, Error>)
    ensures
        match r {
            Ok(c) => parse_lbf_spec(input@) == Ok::<_, ErrorView>(c@),
            Err(e) => parse_lbf_spec(input@) == Err::<CircuitView, _>(e@),
        },
{
    let chars = to_chars(input);
    let ds = split_directives(&chars);
    let mut circuit = Circuit::new();
    let mut ended = false;
    let mut i: usize = 0;
    while i < ds.len()
        invariant
            i <= ds.len(),
            read_directives(seqs_of(ds@), i as int) == Ok::<_, ErrorView>(
                Progress { circuit: circuit@, ended },
            ),
        decreases ds.len() - i,
    {
        assert(seqs_of(ds@)[i as int] == ds[i as int]@);
        if !ended {
            if ds[i].len() > 0 && starts_with(&ds[i], "end") {
                ended = true;
            } else {
                match read_directive(&mut circuit, &ds[i]) {
                    Ok(()) => {},
                    Err(e) => {
                        proof {
                            lemma_error_stops_reading(seqs_of(ds@), i + 1, ds.len() as int);
                        }
                        return Err(e);
                    },
                }
            }
        }
        i += 1;
    }
    check_circuit(circuit)
}

} // verus!
