use lbf_eval::circuit::Node;
use lbf_eval::error::ErrorKind;
use lbf_eval::parser::parse_lbf;

const SAMPLE: &str = r#".inputs a b c d
            .outputs e f g \
                h CONST1
            .lincomb CONST1     # CONSTANT
            1
            .lincomb a b \
             n1     # n1 = 2.a + b, n1 in {0, 1, 2, 3}, sq. norm2 = 2^2 + 1^2 = 5
            2 1
            .lincomb a b n2     # n2 = a - b + 1, n2 in {0, 1, 2}, sq. norm2 = 1^2 + 1^2 = 2
            1 -1 \
            1
            .bootstrap n1 e          # AND(a, b)
            000   \
            1
            .bootstrap n2 f          # XOR(a, b)
            101
            .bootstrap n2 g h        # 2-output bootstraping
            001                 # AND(a, NOT(b))
            0001                # XNOR(a, b)
            .end
            "#;

#[test]
fn parse_sample_file() {
    let s = r#".inputs a b c d
            .outputs e f g \
                h CONST1
            .lincomb CONST1     # CONSTANT
            1
            .lincomb a b \
             n1     # n1 = 2.a + b, n1 in {0, 1, 2, 3}, sq. norm2 = 2^2 + 1^2 = 5
            2 1
            .lincomb a b n2     # n2 = a - b + 1, n2 in {0, 1, 2}, sq. norm2 = 1^2 + 1^2 = 2
            1 -1 \
            1
            .bootstrap n1 e          # AND(a, b)
            000   \
            1
            .bootstrap n2 f          # XOR(a, b)
            101
            .bootstrap n2 g h        # 2-output bootstraping
            001                 # AND(a, NOT(b))
            0001                # XNOR(a, b)
            .end
            "#;

    let circuit = parse_lbf(s).unwrap();
    println!("{:?}", circuit);
}

#[test]
fn parser_parse_sample_file() {
    let circuit = parse_lbf(SAMPLE).unwrap();
    println!("{:?}", circuit);
}

#[test]
fn sample_file_has_unused_inputs() {
    let circuit = parse_lbf(SAMPLE).unwrap();
    // inputs c and d are defined and never used
    assert_eq!(circuit.check_dangling().unwrap_err().kind, ErrorKind::DanglingDefinition);
    assert_eq!(circuit.inputs, vec!["a", "b", "c", "d"]);
    assert_eq!(circuit.outputs, vec!["e", "f", "g", "h", "CONST1"]);
    assert_eq!(circuit.nodes.len(), 10);
    match &circuit.nodes[6] {
        Node::LinComb { inputs, output, coefs, const_coef } => {
            assert_eq!(inputs, &vec!["a", "b"]);
            assert_eq!(output, "n2");
            assert_eq!(coefs, &vec![1i8, -1]);
            assert_eq!(*const_coef, 1);
        }
        other => panic!("{:?}", other),
    }
    match &circuit.nodes[7] {
        Node::Bootstrap { input, outputs, tables } => {
            assert_eq!(input, "n1");
            assert_eq!(outputs, &vec!["e"]);
            assert_eq!(tables, &vec![vec![false, false, false, true]]);
        }
        other => panic!("{:?}", other),
    }
}

fn fails(text: &str) -> (ErrorKind, String) {
    let e = parse_lbf(text).unwrap_err();
    (e.kind, e.context)
}

fn err(kind: ErrorKind, context: &str) -> (ErrorKind, String) {
    (kind, context.to_string())
}

#[test]
fn a_constant_is_a_linear_combination_without_inputs() {
    let circuit = parse_lbf(".lincomb CONST1\n 1\n.outputs CONST1").unwrap();
    assert!(circuit.inputs.is_empty());
    assert_eq!(circuit.outputs, ["CONST1"]);
    match &circuit.nodes[..] {
        [Node::LinComb { inputs, output, coefs, const_coef }] => {
            assert!(inputs.is_empty() && coefs.is_empty());
            assert_eq!(output, "CONST1");
            assert_eq!(*const_coef, 1);
        }
        other => panic!("{:?}", other),
    }
}

#[test]
fn the_constant_is_the_coefficient_beyond_the_inputs() {
    let constant = |text: &str| match &parse_lbf(text).unwrap().nodes[2] {
        Node::LinComb { coefs, const_coef, .. } => (coefs.clone(), *const_coef),
        other => panic!("{:?}", other),
    };
    let head = ".inputs a b\n.outputs n\n.lincomb a b n\n";
    assert_eq!(constant(&format!("{}2 -1", head)), (vec![2, -1], 0));
    assert_eq!(constant(&format!("{}2 -1 -128", head)), (vec![2, -1], -128));
    assert_eq!(constant(&format!("{}+0   127\t5", head)), (vec![0, 127], 5));
}

#[test]
fn bootstrap_directives_are_rejected() {
    assert_eq!(fails(".bootstrap x\n"), err(ErrorKind::BootstrapTooFewLines, "bootstrap x"));
    assert_eq!(fails(".bootstrap"), err(ErrorKind::BootstrapTooFewLines, "bootstrap"));
    assert_eq!(fails(".bootstrap\n01"), err(ErrorKind::BootstrapMissingInput, "bootstrap\n01"));
    assert_eq!(fails(".bootstrap x\n01"), err(ErrorKind::BootstrapNoOutput, "bootstrap x\n01"));
    assert_eq!(
        fails(".bootstrap x y z\n01"),
        err(ErrorKind::BootstrapTableCount, "bootstrap x y z\n01")
    );
    assert_eq!(
        fails(".bootstrap x y\n01\n10\n11"),
        err(ErrorKind::BootstrapTableCount, "bootstrap x y\n01\n10\n11")
    );
}

#[test]
fn lincomb_directives_are_rejected() {
    assert_eq!(fails(".lincomb a b n1\n 2"), err(ErrorKind::LincombCountMismatch, "lincomb a b n1\n2"));
    assert_eq!(
        fails(".lincomb a b n1\n 2 1 0 4"),
        err(ErrorKind::LincombCountMismatch, "lincomb a b n1\n2 1 0 4")
    );
    assert_eq!(fails(".lincomb a"), err(ErrorKind::LincombLineCount, "lincomb a"));
    assert_eq!(fails(".lincomb a\n1\n2"), err(ErrorKind::LincombLineCount, "lincomb a\n1\n2"));
    assert_eq!(fails(".lincomb\n1"), err(ErrorKind::LincombNoOutput, "lincomb\n1"));
    assert_eq!(fails(".lincomb a n\n1 x"), err(ErrorKind::LincombCoefficient, "lincomb a n\n1 x"));
    assert_eq!(fails(".lincomb a n\n128"), err(ErrorKind::LincombCoefficient, "lincomb a n\n128"));
    // a missing output comes before a bad coefficient, and that before the count
    assert_eq!(fails(".lincomb\nx"), err(ErrorKind::LincombNoOutput, "lincomb\nx"));
    assert_eq!(fails(".lincomb a b n\nx"), err(ErrorKind::LincombCoefficient, "lincomb a b n\nx"));
}

#[test]
fn the_first_error_of_the_text_is_reported() {
    assert_eq!(
        fails(".inputs a a\n.lincomb a\n.bootstrap x"),
        err(ErrorKind::LincombLineCount, "lincomb a")
    );
    // the names are checked when the whole text is read
    assert_eq!(fails(".inputs a a\n.outputs q"), err(ErrorKind::NameAlreadyDefined, "a"));
    assert_eq!(fails(".outputs q\n.inputs a"), err(ErrorKind::NameUndefined, "q"));
    assert_eq!(fails(".inputs a\n.lincomb b n\n1\n"), err(ErrorKind::NameUndefined, "b"));
}

#[test]
fn nothing_after_the_end_is_read() {
    let circuit = parse_lbf(".inputs a\n.outputs a\n.end\n.lincomb\n.inputs b\n.bootstrap").unwrap();
    assert_eq!(circuit.inputs, ["a"]);
    assert_eq!(circuit.nodes.len(), 1);
    let circuit = parse_lbf(".inputs a\n.ending it\n.inputs b").unwrap();
    assert_eq!(circuit.inputs, ["a"]);
    let circuit = parse_lbf("").unwrap();
    assert!(circuit.nodes.is_empty());
}

#[test]
fn comments_splices_and_blanks() {
    let circuit = parse_lbf(
        "# a circuit. with a dot in its comment\r\n.inputs a \\\r\n   b # two inputs \\\n.outputs \\\n\\\n a\n\n\n.inputs c#d\n",
    )
    .unwrap();
    assert_eq!(circuit.inputs, ["a", "b", "c"]);
    assert_eq!(circuit.outputs, ["a"]);
    // a splice joins with a space: the names stay apart
    let circuit = parse_lbf(".inputs a\\\nb").unwrap();
    assert_eq!(circuit.inputs, ["a", "b"]);
    // without the backslash the second line is part of the directive all the same
    let circuit = parse_lbf(".inputs a\nb").unwrap();
    assert_eq!(circuit.inputs, ["a", "b"]);
}

#[test]
fn what_begins_with_no_keyword_is_passed_over() {
    let circuit = parse_lbf("title\n.model m\n.in puts x\n.inputs a\n..\n.Inputs b\n.outputs a").unwrap();
    assert_eq!(circuit.inputs, ["a"]);
    // the whitespace around a directive does not count
    let circuit = parse_lbf(".   inputs x\n  .inputs a").unwrap();
    assert_eq!(circuit.inputs, ["x", "a"]);
    // the text before the first dot is a directive too, and a keyword needs no space
    let circuit = parse_lbf("inputs a\n.inputsb c").unwrap();
    assert_eq!(circuit.inputs, ["a", "b", "c"]);
    // a dot ends a directive wherever it stands
    let circuit = parse_lbf(".inputs a.b").unwrap();
    assert_eq!(circuit.inputs, ["a"]);
}

#[test]
fn a_table_is_the_zeros_and_ones_of_its_line() {
    let tables = |text: &str| match parse_lbf(text).unwrap().nodes.pop().unwrap() {
        Node::Bootstrap { tables, .. } => tables,
        other => panic!("{:?}", other),
    };
    let head = ".inputs a\n.outputs x y\n.bootstrap a x y\n";
    assert_eq!(
        tables(&format!("{}0 1 1\n-10_2x1", head)),
        vec![vec![false, true, true], vec![true, false, true]]
    );
    assert_eq!(tables(&format!("{}abc\n1", head)), vec![vec![], vec![true]]);
}

#[test]
fn whitespace_that_is_not_ascii_is_trimmed_but_does_not_split() {
    let circuit = parse_lbf("\u{a0}.inputs a\u{2003}b\u{3000}\n.outputs a\u{2003}b").unwrap();
    assert_eq!(circuit.inputs, ["a\u{2003}b"]);
    assert_eq!(circuit.outputs, ["a\u{2003}b"]);
}
