use dougterpreter::Interpreter;
use dougterpreter::interpreter::{Action, Event, RuntimeError, decimal_text};
use dougterpreter::parsing::Parser;
use dougterpreter::parsing::parser::DougChain;
use dougterpreter::values::Operator;
use dougterpreter::values::value::{Number, Value};

/// How a run ended.
#[derive(Debug)]
enum End {
    Finished,
    Failed(RuntimeError),
    Rejected,
    Aborted(String),
}

fn number(v: &Value) -> Option<f64> {
    match v {
        Value::Number(Number::Narrow(b)) => Some(f64::from(f32::from_bits(*b))),
        Value::Number(Number::Wide(b)) => Some(f64::from_bits(*b)),
        _ => None,
    }
}

fn show(v: &Value) -> String {
    match v {
        Value::String(s) => s.clone(),
        Value::Boolean(b) => b.to_string(),
        Value::Error(e) => e.message(),
        n => number(n).unwrap().to_string(),
    }
}

fn wide(x: f64) -> Value {
    Value::Number(Number::Wide(x.to_bits()))
}

fn apply(l: Value, op: Operator, r: Value) -> Value {
    match (op, number(&l), number(&r)) {
        (Operator::Plus, Some(a), Some(b)) => wide(a + b),
        (Operator::Plus, _, _) => match (&l, &r) {
            (Value::String(a), Value::Number(_)) => Value::String(format!("{a}{}", show(&r))),
            (Value::String(a), Value::String(b)) => Value::String(format!("{a}{b}")),
            _ => Value::Error(RuntimeError::BadExpression(show(&l), "+".to_string(), show(&r))),
        },
        (Operator::Minus, Some(a), Some(b)) => wide(a - b),
        (Operator::Multiply, Some(a), Some(b)) => wide(a * b),
        (Operator::Divide, Some(a), Some(b)) => wide(a / b),
        (Operator::Greater, Some(a), Some(b)) => Value::Boolean(a > b),
        (Operator::GreaterEquals, Some(a), Some(b)) => Value::Boolean(a >= b),
        (Operator::Less, Some(a), Some(b)) => Value::Boolean(a < b),
        (Operator::LessEquals, Some(a), Some(b)) => Value::Boolean(a <= b),
        (Operator::Equals, Some(a), Some(b)) => Value::Boolean(a == b),
        _ => panic!("operands this driver does not compute"),
    }
}

/// Runs `src`, answering what the interpreter asks; returns what it
/// printed and how it ended.
fn run(src: &str) -> (Vec<String>, End) {
    let mut out = Vec::new();
    let mut interpreter = Interpreter::new(Parser::new());
    let mut action = interpreter.run(src.as_bytes().to_vec());
    for _ in 0..100_000 {
        let event = match action {
            Action::Step => Event::Go,
            Action::ParseNumber(t) => Event::Number((t.parse::<f64>().unwrap() as f32).to_bits()),
            Action::Apply(l, op, r) => Event::Value(apply(l, op, r)),
            Action::Show(v) => Event::Text(show(&v)),
            Action::Narrow(b) => Event::Narrowed((f64::from_bits(b) as f32).to_bits()),
            Action::Print(v) => {
                out.push(show(&v));
                Event::Go
            }
            Action::Fail(e) => return (out, End::Failed(e)),
            Action::Abort(m) => return (out, End::Aborted(m)),
            Action::Rejected(_) => return (out, End::Rejected),
            Action::Finish => return (out, End::Finished),
            Action::Unexpected => panic!("unexpected event"),
        };
        action = interpreter.step(event);
    }
    panic!("the program did not end");
}

fn chains(counts: &[usize]) -> Vec<DougChain> {
    counts.iter().map(|&count| DougChain { count }).collect()
}

#[test]
fn prints_a_value_set_on_the_tape() {
    let (out, end) = run("Doug set 5\ntts\n");
    assert_eq!(out, vec!["5"]);
    assert!(matches!(end, End::Finished));
}

#[test]
fn adds_before_it_stores() {
    let (out, _) = run("Doug set 1 + 2\ntts\n");
    assert_eq!(out, vec!["3"]);
}

#[test]
fn keeps_numbers_as_f32_on_the_tape() {
    let (out, _) = run("Doug set 0.1\ntts\ntts 0.1 + 0.2\n");
    assert_eq!(out, vec!["0.10000000149011612", "0.30000000447034836"]);
}

#[test]
fn concatenates_texts() {
    let (out, _) = run("tts \"a\" + 1\n");
    assert_eq!(out, vec!["a1"]);
}

#[test]
fn counts_up_in_a_loop_until_a_prediction_breaks_it() {
    let src = "Doug set 0\nloop [\n+ set 1\nprediction ( Doug ) >= 3 [ Believers win [ break ] ]\n]\ntts\n";
    let (out, end) = run(src);
    assert_eq!(out, vec!["3"]);
    assert!(matches!(end, End::Finished));
}

#[test]
fn a_false_condition_runs_the_doubters() {
    let (out, _) = run("prediction 0 [ Doubters win [ tts \"no\" ] ]\ntts \"after\"\n");
    assert_eq!(out, vec!["no", "after"]);
}

#[test]
fn a_true_condition_skips_the_doubters() {
    let (out, _) = run("prediction 2 > 1 [ Doubters win [ tts \"no\" ] ]\ntts \"after\"\n");
    assert_eq!(out, vec!["after"]);
}

#[test]
fn variables_name_tape_cells() {
    let (out, _) = run("<< x Doug >>\nx set 7\ntts x\nx + set 1\ntts ( Doug )\n");
    assert_eq!(out, vec!["7", "8"]);
}

#[test]
fn negative_indices_use_the_left_half() {
    let (out, _) = run("( Doug DougDoug ) set 9\n( DougDoug Doug ) set 4\ntts ( Doug DougDoug )\ntts ( DougDoug Doug )\n");
    assert_eq!(out, vec!["9", "4"]);
}

#[test]
fn a_comparison_is_kept_as_one_or_zero() {
    let (out, _) = run("Doug set 1 < 2\ntts\nDoug set 1 > 2\ntts\n");
    assert_eq!(out, vec!["1", "0"]);
}

#[test]
fn reading_an_unset_cell_fails() {
    let (out, end) = run("tts ( DougDoug )\n");
    assert!(out.is_empty());
    assert!(matches!(end, End::Failed(RuntimeError::OutOfRange(2))));
}

#[test]
fn an_undeclared_variable_fails() {
    assert!(matches!(run("tts y\n").1, End::Failed(RuntimeError::NotDefined(v)) if v == "y"));
}

#[test]
fn an_operator_without_a_right_operand_fails() {
    assert!(matches!(run("tts 1 +\n").1, End::Failed(RuntimeError::NoRExpression(m)) if m == "1 +"));
}

#[test]
fn assigning_to_an_undeclared_variable_aborts() {
    assert!(matches!(run("y set 1\n").1, End::Aborted(m) if m == "Name is not expected"));
}

#[test]
fn a_syntax_error_rejects_the_program() {
    assert!(matches!(run("]\n").1, End::Rejected));
}

#[test]
fn a_break_at_the_top_ends_the_program() {
    let (out, end) = run("tts \"a\"\nbreak\ntts \"b\"\n");
    assert_eq!(out, vec!["a"]);
    assert!(matches!(end, End::Finished));
}

#[test]
fn a_failed_addition_is_kept_as_its_message() {
    let (out, _) = run("Doug set 1 + \"a\"\ntts\n");
    assert_eq!(out, vec!["Could not evaluate expression 1 + a"]);
}

#[test]
fn doug_notation_adds_and_subtracts_in_turn() {
    assert_eq!(Interpreter::get_doug_notation_index(&chains(&[1]), 0), 1);
    assert_eq!(Interpreter::get_doug_notation_index(&chains(&[3]), 0), 4);
    assert_eq!(Interpreter::get_doug_notation_index(&chains(&[1, 2]), 0), -1);
    assert_eq!(Interpreter::get_doug_notation_index(&chains(&[2, 1, 3]), 10), 15);
    assert_eq!(Interpreter::get_doug_notation_index(&chains(&[]), 7), 7);
}

#[test]
fn doug_notation_shifts_as_a_release_build_does() {
    assert_eq!(Interpreter::get_doug_notation_index(&chains(&[33]), 0), 1);
    assert_eq!(Interpreter::get_doug_notation_index(&chains(&[32]), 0), i32::MIN);
    assert_eq!(Interpreter::get_doug_notation_index(&chains(&[31, 32]), 0), i32::MIN + (1 << 30));
}

#[test]
fn runtime_errors_have_their_messages() {
    assert_eq!(RuntimeError::OutOfRange(-12).message(), "Value -12 is out of range of Tape");
    assert_eq!(RuntimeError::NotDefined("x".to_string()).message(), "x is not defined");
    assert_eq!(RuntimeError::SegmentationFault.message(), "Value is nil");
    assert_eq!(
        RuntimeError::BadExpression("a".into(), "+".into(), "b".into()).message(),
        "Could not evaluate expression a + b"
    );
    assert_eq!(decimal_text(i32::MIN), "-2147483648");
    assert_eq!(decimal_text(0), "0");
}

#[test]
fn a_word_outside_ascii_aborts_the_run() {
    assert!(matches!(run("tts \u{e9}\n").1, End::Aborted(m) if m.contains("not a char boundary")));
    let (out, end) = run("]\n\u{e9}\n");
    assert!(out.is_empty());
    assert!(matches!(end, End::Rejected));
}

#[test]
fn a_loop_of_only_break_is_skipped() {
    let (out, end) = run("Doug set 5\nloop [ break ]\ntts\n");
    assert_eq!(out, vec!["5"]);
    assert!(matches!(end, End::Finished));
}

#[test]
fn notation_after_an_even_number_of_chains_goes_on_from_there() {
    let a = chains(&[2, 1]);
    let b = chains(&[3, 1]);
    let mut ab = a.clone();
    ab.extend(b.iter().copied());
    let mid = Interpreter::get_doug_notation_index(&a, 4);
    assert_eq!(
        Interpreter::get_doug_notation_index(&ab, 4),
        Interpreter::get_doug_notation_index(&b, mid)
    );
    // After one chain the next is subtracted: 2 then 2 - 4.
    assert_eq!(Interpreter::get_doug_notation_index(&chains(&[2]), 0), 2);
    assert_eq!(Interpreter::get_doug_notation_index(&chains(&[2, 3]), 0), -2);
}

#[test]
fn a_failure_keeps_what_was_printed_before() {
    let (out, end) = run("tts \"a\"\nDoug set x\ntts\n");
    assert_eq!(out, vec!["a"]);
    assert!(!matches!(end, End::Finished));
}
