use clubs_diamonds::expression::Expression;
use clubs_diamonds::expression_writer::{task_ops, ExpressionWriter, TaskWriter};
use clubs_diamonds::pivot::Op;
use clubs_diamonds::writers::WriterType;

fn written_one_var(length: usize, cap: u8, req: Option<Option<Op>>) -> Vec<String> {
    let mut w = ExpressionWriter::new(1, length, cap, req);
    let mut buf = vec![255u8; length];
    let mut out = vec![];
    while w.write(&mut buf) {
        out.push(Expression::<i32, 1>::from_field(buf.clone()).to_string());
    }
    out
}

fn written_two_vars(length: usize, cap: u8) -> Vec<String> {
    let mut w = ExpressionWriter::new(2, length, cap, None);
    let mut buf = vec![255u8; length];
    let mut out = vec![];
    while w.write(&mut buf) {
        out.push(Expression::<i32, 2>::from_field(buf.clone()).to_string());
    }
    out
}

#[test]
fn writer_length_one_is_the_required_variable() {
    assert_eq!(written_one_var(1, 156, None), vec!["a"]);
}

#[test]
fn writer_length_two_is_not_of_the_variable() {
    assert_eq!(written_one_var(2, 156, None), vec!["!a"]);
}

#[test]
fn writer_length_three_without_constants() {
    assert_eq!(
        written_one_var(3, 0, None),
        vec!["!!a", "a*a", "a/a", "a%a", "a+a", "a-a", "a&a", "a^a", "a|a"]
    );
}

#[test]
fn writer_length_three_with_constants() {
    let all = written_one_var(3, 156, None);
    assert_eq!(all.len(), 169);
    assert_eq!(all[0], "!!a");
    assert_eq!(all[1], "a*a");
    assert_eq!(all[2], "a*0");
    assert_eq!(all[11], "a*9");
    assert_eq!(all[12], "0*a");
    let mut sorted = all.clone();
    sorted.sort();
    sorted.dedup();
    assert_eq!(sorted.len(), all.len());
    for text in &all {
        assert_eq!(text.len(), 3);
        assert!(text.contains('a'));
    }
}

#[test]
fn writer_constant_cap_limits_constants() {
    let all = written_one_var(3, 3, Some(Some(Op::ADD)));
    assert_eq!(all, vec!["a+a", "a+0", "a+1", "a+2", "0+a", "1+a", "2+a"]);
}

#[test]
fn writer_atom_requirement_with_a_required_variable() {
    assert_eq!(written_one_var(2, 156, Some(None)), Vec::<String>::new());
    assert_eq!(written_one_var(1, 156, Some(None)), vec!["a"]);
}

#[test]
fn writer_two_variables_both_appear() {
    assert_eq!(
        written_two_vars(3, 0),
        vec!["a*b", "b*a", "a/b", "b/a", "a%b", "b%a", "a+b", "b+a", "a-b", "b-a", "a&b", "b&a", "a^b", "b^a", "a|b", "b|a"]
    );
}

#[test]
fn writer_expressions_parse_back_and_apply() {
    for length in 1..=5 {
        let mut w = ExpressionWriter::new(1, length, 12, None);
        let mut buf = vec![255u8; length];
        let mut count = 0;
        while w.write(&mut buf) {
            count += 1;
            let expr = Expression::<i32, 1>::from_field(buf.clone());
            let text = expr.to_string();
            assert_eq!(text.chars().count(), length, "{text}");
            let parsed = text.parse::<Expression<i32, 1>>().unwrap();
            assert_eq!(parsed.to_string(), text);
            for x in [-3, 0, 1, 7] {
                assert_eq!(parsed.apply(&[x]), expr.apply(&[x]), "{text} at {x}");
            }
        }
        assert!(count > 0);
    }
}

#[test]
fn writer_parenthesizes_looser_operators() {
    let mut w = ExpressionWriter::new(1, 7, 0, Some(Some(Op::MUL)));
    let mut buf = vec![255u8; 7];
    let mut seen = vec![];
    while w.write(&mut buf) {
        seen.push(Expression::<i32, 1>::from_field(buf.clone()).to_string());
    }
    assert!(seen.contains(&String::from("a*(a+a)")));
    assert!(seen.contains(&String::from("(a+a)*a")));
    for text in &seen {
        assert_eq!(text.len(), 7);
    }
}

#[test]
fn task_ops_follow_writer_types() {
    assert_eq!(task_ops(WriterType::ConstVar), vec![None]);
    assert_eq!(task_ops(WriterType::Neg), vec![Some(Op::NOT)]);
    assert_eq!(task_ops(WriterType::Mul), vec![Some(Op::MUL), Some(Op::DIV), Some(Op::MOD)]);
    assert_eq!(task_ops(WriterType::Add), vec![Some(Op::ADD), Some(Op::SUB)]);
    assert_eq!(task_ops(WriterType::Shift), vec![Some(Op::LSL), Some(Op::LSR)]);
    assert_eq!(task_ops(WriterType::Or), vec![Some(Op::ORR)]);
}

fn task_outputs(length: usize, wt: WriterType) -> Vec<String> {
    let mut w = TaskWriter::new(1, length, 156, wt);
    let mut buf = vec![255u8; length];
    let mut out = vec![];
    while w.write(&mut buf) {
        out.push(Expression::<i32, 1>::from_field(buf.clone()).to_string());
    }
    out
}

#[test]
fn task_writer_covers_each_operator_of_its_type() {
    assert_eq!(task_outputs(1, WriterType::ConstVar), vec!["a"]);
    assert_eq!(task_outputs(2, WriterType::Neg), vec!["!a"]);
    let mul = task_outputs(3, WriterType::Mul);
    assert_eq!(mul.len(), 63);
    assert_eq!(mul[0], "a*a");
    assert_eq!(mul[21], "a/a");
    assert_eq!(mul[42], "a%a");
}

#[test]
fn task_writer_large_constant_cap_is_clamped() {
    let mut w = TaskWriter::new(1, 3, 1000, WriterType::Add);
    let mut buf = vec![255u8; 3];
    let mut n = 0;
    while w.write(&mut buf) {
        n += 1;
    }
    assert_eq!(n, 42);
}

fn search_count(var_count: usize, lengths: std::ops::RangeInclusive<usize>) -> u64 {
    let mut total = 0u64;
    for length in lengths {
        for wt in WriterType::all() {
            let mut w = TaskWriter::new(var_count, length, 156, wt);
            let mut buf = vec![255u8; length];
            while w.write(&mut buf) {
                total += 1;
            }
        }
    }
    total
}

#[test]
fn search_of_lengths_four_to_six_tries_the_known_number_of_expressions() {
    // One input variable, the default constants, lengths 4 to 6.
    assert_eq!(search_count(1, 4..=6), 472775);
}

#[test]
fn search_of_two_variables_up_to_eight_tries_the_known_number_of_expressions() {
    assert_eq!(search_count(2, 1..=8), 17132812);
}

#[test]
fn search_up_to_seven_tries_the_known_number_and_finds_the_prime_formulas() {
    // One `i32` input variable, the default constants, lengths 1 to 7; the
    // judge asks for 2, 3, 5, 7 at the inputs 0, 1, 2, 3.
    let mut total = 0u64;
    let mut found: Vec<String> = vec![];
    for length in 1..=7usize {
        for wt in WriterType::all() {
            let mut w = TaskWriter::new(1, length, 156, wt);
            let mut buf = vec![255u8; length];
            while w.write(&mut buf) {
                total += 1;
                let expr = Expression::<i32, 1>::from_field(buf.clone());
                if expr.apply(&[0]) == Some(2)
                    && expr.apply(&[1]) == Some(3)
                    && expr.apply(&[2]) == Some(5)
                    && expr.apply(&[3]) == Some(7)
                {
                    found.push(expr.to_string());
                }
            }
        }
    }
    assert_eq!(total, 6094569);
    found.sort();
    let mut expected = vec![
        "2+5*a/3", "2+7*a/4", "2+9*a/5", "2+a*5/3", "2+a*7/4", "2+a*9/5",
        "5*a/3+2", "7*a/4+2", "9*a/5+2", "a*5/3+2", "a*7/4+2", "a*9/5+2",
    ];
    expected.sort();
    assert_eq!(found, expected);
}

#[test]
fn search_of_one_variable_up_to_eight_tries_the_known_number_of_expressions() {
    assert_eq!(search_count(1, 1..=8), 90105278);
}

#[test]
fn search_never_tries_an_expression_twice() {
    let mut seen = std::collections::HashSet::new();
    let mut total = 0usize;
    for length in 1..=6usize {
        for wt in WriterType::all() {
            let mut w = TaskWriter::new(2, length, 156, wt);
            let mut buf = vec![255u8; length];
            while w.write(&mut buf) {
                total += 1;
                seen.insert(buf.clone());
            }
        }
    }
    assert!(total > 0);
    assert_eq!(seen.len(), total);
}
