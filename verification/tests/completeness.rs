use clubs_diamonds::expression::Expression;
use clubs_diamonds::expression_writer::{ExpressionWriter, TaskWriter};
use clubs_diamonds::pivot::Op;
use clubs_diamonds::worker::{worker_step, WorkerAction};
use clubs_diamonds::writers::{ConstWriter, WriterType};

fn all_written(inputs: usize, length: usize, cap: u8, req: Option<Option<Op>>) -> Vec<Vec<u8>> {
    let mut w = ExpressionWriter::new(inputs, length, cap, req);
    let mut buf = vec![255u8; length];
    let mut out = vec![];
    while w.write(&mut buf) {
        out.push(buf.clone());
    }
    out
}

fn task_written(inputs: usize, length: usize, cap: u128, wt: WriterType) -> Vec<Vec<u8>> {
    let mut w = TaskWriter::new(inputs, length, cap, wt);
    let mut buf = vec![255u8; length];
    let mut out = vec![];
    while w.write(&mut buf) {
        out.push(buf.clone());
    }
    out
}

fn all_types() -> Vec<WriterType> {
    vec![
        WriterType::ConstVar,
        WriterType::Neg,
        WriterType::Mul,
        WriterType::Add,
        WriterType::Shift,
        WriterType::And,
        WriterType::Xor,
        WriterType::Or,
    ]
}

#[test]
fn fresh_writer_of_one_input_and_length_two_writes_not_a_first() {
    let mut w = ExpressionWriter::new(1, 2, 156, None);
    let mut d = [0u8; 2];
    assert!(w.write(&mut d));
    assert_eq!(d, [242, 254]);
    assert!(!w.write(&mut d));
}

#[test]
fn length_one_writers_stop_after_the_variables() {
    let mut w1 = ExpressionWriter::new(1, 1, 156, None);
    let mut d = [0u8; 1];
    assert!(w1.write(&mut d));
    assert_eq!(d, [242]);
    assert!(!w1.write(&mut d));
    let mut w2 = ExpressionWriter::new(2, 1, 156, None);
    let mut d2 = [0u8; 1];
    assert!(!w2.write(&mut d2));
}

#[test]
fn a_cap_of_zero_writes_no_constant() {
    for length in 1..=6 {
        for wt in all_types() {
            for bytes in task_written(1, length, 0, wt) {
                assert!(bytes.iter().all(|&b| b > 155), "{bytes:?}");
            }
        }
    }
}

#[test]
fn constants_stay_below_the_cap() {
    for length in 1..=4 {
        for bytes in all_written(1, length, 12, None) {
            assert!(bytes.iter().all(|&b| b > 155 || b < 12), "{bytes:?}");
        }
    }
}

#[test]
fn the_eight_tasks_write_what_the_unrestricted_writer_writes() {
    for inputs in 1..=2 {
        for length in 1..=6 {
            let mut whole = all_written(inputs, length, 156, None);
            let mut tasks = vec![];
            for wt in all_types() {
                tasks.extend(task_written(inputs, length, 156, wt));
            }
            whole.sort();
            tasks.sort();
            assert_eq!(whole, tasks, "{inputs} inputs, length {length}");
        }
    }
}

#[test]
fn per_operator_writers_split_the_unrestricted_one_in_operator_order() {
    for length in 1..=6 {
        let whole = all_written(1, length, 20, None);
        let mut parts = all_written(1, length, 20, Some(None));
        let mut op = Some(Op::first());
        while let Some(o) = op {
            let part = all_written(1, length, 20, Some(Some(o)));
            for bytes in &part {
                assert_eq!(bytes[length - 1], o.code());
            }
            parts.extend(part);
            op = o.next();
        }
        assert_eq!(whole, parts, "length {length}");
    }
}

#[test]
fn a_writer_never_writes_an_expression_twice() {
    for length in 1..=6 {
        let mut seen = all_written(2, length, 30, None);
        let n = seen.len();
        seen.sort();
        seen.dedup();
        assert_eq!(seen.len(), n);
    }
}

#[test]
fn written_text_parses_to_the_bytes_without_no_ops() {
    for length in 1..=7 {
        for bytes in all_written(1, length, 12, None) {
            let expr = Expression::<i32, 1>::from_field(bytes.clone());
            let text = expr.to_string();
            let parsed = Expression::<i32, 1>::parse(&text).unwrap();
            let stripped: Vec<u8> = bytes.iter().copied().filter(|&b| b != 255).collect();
            assert_eq!(parsed.field(), &stripped, "{text}");
            assert_eq!(parsed.to_string(), text);
            for x in [-5, 0, 3, 9] {
                assert_eq!(parsed.apply(&[x]), expr.apply(&[x]), "{text} at {x}");
            }
        }
    }
}

#[test]
fn one_input_writes_at_every_length() {
    for length in 1..=8 {
        let mut w = ExpressionWriter::new(1, length, 0, None);
        let mut d = vec![255u8; length];
        assert!(w.write(&mut d), "length {length}");
    }
}

#[test]
fn three_inputs_need_five_characters() {
    for length in 1..=4 {
        let mut w = ExpressionWriter::new(3, length, 156, None);
        let mut d = vec![255u8; length];
        assert!(!w.write(&mut d), "length {length}");
    }
    let mut w = ExpressionWriter::new(3, 5, 156, None);
    let mut d = vec![255u8; 5];
    assert!(w.write(&mut d));
}

#[test]
fn const_writer_writes_each_constant_once_in_increasing_order() {
    let mut w = ConstWriter::new(3, 120);
    let mut buf = [7u8; 4];
    let mut seen = vec![];
    while w.write(&mut buf) {
        seen.push(buf);
    }
    let mut expected = vec![];
    for v in 10u8..100 {
        expected.push([255, v, 254, 7]);
    }
    for v in 100u8..120 {
        expected.push([255, 255, v, 7]);
    }
    assert_eq!(seen, expected);
    let before = buf;
    assert!(!w.write(&mut buf));
    assert_eq!(buf, before);
}

#[test]
fn every_constant_below_the_cap_occurs() {
    let cap = 12u8;
    for v in 0..cap {
        let d = if v < 10 { 1 } else { 2 };
        let mut sum = vec![242u8];
        sum.extend(std::iter::repeat(255u8).take(d - 1));
        sum.push(v);
        sum.push(Op::ADD.code());
        assert!(all_written(1, d + 2, cap, None).contains(&sum), "a+{v}");
    }
}

#[test]
fn variable_appearances_are_counted() {
    let e = Expression::<i32, 2>::from_field(vec![242, 241, 250, 242, 253, 255]);
    assert_eq!(e.count_variable_appearances(0), 2);
    assert_eq!(e.count_variable_appearances(1), 1);
    assert_eq!(e.count_variable_appearances(2), 0);
}

#[test]
fn workers_report_every_spacing_and_finish() {
    assert_eq!(worker_step(0, 3, true), (1, WorkerAction::Continue));
    assert_eq!(worker_step(2, 3, true), (0, WorkerAction::Report { count: 3 }));
    assert_eq!(worker_step(2, 3, false), (2, WorkerAction::Finish { count: 2 }));
    assert_eq!(worker_step(5, 0, true), (6, WorkerAction::Continue));
}

#[test]
fn task_writers_write_in_the_unrestricted_writers_order() {
    for length in 1..=6 {
        let whole = all_written(2, length, 20, None);
        for wt in all_types() {
            let task = task_written(2, length, 20, wt);
            let filtered: Vec<Vec<u8>> =
                whole.iter().filter(|b| task.contains(b)).cloned().collect();
            assert_eq!(task, filtered, "length {length}");
        }
    }
}

#[test]
fn written_bytes_past_the_length_are_no_ops() {
    let mut w = ExpressionWriter::new(1, 4, 12, None);
    let mut d = vec![7u8; 9];
    let mut n = 0;
    while w.write(&mut d) {
        n += 1;
        assert!(d[4..].iter().all(|&b| b == 255));
    }
    assert!(n > 0);
}

#[test]
fn timestamps_drop_the_padding_of_the_day() {
    assert_eq!(
        clubs_diamonds::text::timestamp_text("Sat, 2025 May ", " 5", " 11:40"),
        "Sat, 2025 May 5 11:40"
    );
    assert_eq!(
        clubs_diamonds::text::timestamp_text("Sat, 2025 May ", "10", " 11:40"),
        "Sat, 2025 May 10 11:40"
    );
    assert_eq!(clubs_diamonds::text::timestamp_text("x", "   ", "y"), "xy");
}
