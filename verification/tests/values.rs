use clubs_diamonds::expression::Expression;
use clubs_diamonds::pivot::{Op, Pivot};
use clubs_diamonds::revar::Revar;
use clubs_diamonds::text::with_commas;
use clubs_diamonds::partition::Partition;
use clubs_diamonds::writers::{AtomWriter, ConstWriter, VarWriter, WriterType};
use clubs_diamonds::durations::{format_duration, format_seconds};
use clubs_diamonds::dashboard::{
    inspector_controls, news_item, stat_padding, thread_label, unpaused_thread_count, wrap_line,
};
use clubs_diamonds::ui::ThreadStatus;

#[test]
fn apply_computes_rust_semantics() {
    let expr = "a*c+53%b".parse::<Expression<i32, 3>>().unwrap();
    assert_eq!(expr.apply(&[2, 10, 4]), Some(11));
    let div = "4/a".parse::<Expression<i32, 1>>().unwrap();
    assert_eq!(div.apply(&[0]), None);
    assert_eq!(div.apply(&[2]), Some(2));
    let neg = "-a".parse::<Expression<i8, 1>>().unwrap();
    assert_eq!(neg.apply(&[-128]), Some(-128));
    let overflow = "a/b".parse::<Expression<i8, 2>>().unwrap();
    assert_eq!(overflow.apply(&[-128, -1]), None);
    let shift = "a<<b".parse::<Expression<u8, 2>>().unwrap();
    assert_eq!(shift.apply(&[1, 9]), Some(2));
    let not = "!a".parse::<Expression<u8, 1>>().unwrap();
    assert_eq!(not.apply(&[0]), Some(255));
}

#[test]
fn parse_errors_are_reported() {
    assert!("a+".parse::<Expression<i32, 1>>().is_err());
    assert!("(a".parse::<Expression<i32, 1>>().is_err());
    assert!("".parse::<Expression<i32, 1>>().is_err());
}

#[test]
fn parse_error_messages() {
    let err = |s: &str| s.parse::<Expression<i32, 1>>().err().unwrap();
    assert_eq!(err("a+156"), "constants above 155 are not supported in Expressions");
    assert_eq!(err("(a+1"), "mismatched parentheses");
    assert_eq!(err("a+"), "invalid syntax");
    assert_eq!(err("a b"), "can't parse a valid token from the start of this string:  b");
    assert_eq!(err("a*(1+#)"), "can't parse a valid token from the start of this string: #");
    assert_eq!(err(""), "invalid syntax");
    assert_eq!("155".parse::<Expression<i32, 1>>().unwrap().field(), &vec![155u8]);
}

#[test]
fn revar_renames_default_variables() {
    assert_eq!("(b+a)/c*a".revar(&['j', 'i', 'k']), "(i+j)/k*j");
    assert_eq!("(i+j)/k*j".unvar(&['j', 'i', 'k']), "(b+a)/c*a");
    let expr = "a+b*3".parse::<Expression<i32, 2>>().unwrap();
    assert_eq!(expr.to_string().as_str().revar(&['i', 'j']), "i+j*3");
    let back = "i+j*3".unvar(&['i', 'j']).parse::<Expression<i32, 2>>().unwrap();
    assert_eq!(back.apply(&[5, 2]), Some(11));
}

#[test]
fn revar_then_unvar_gives_the_text_back() {
    let text = "a*(b+c)-a";
    let names = ['x', 'y', 'z'];
    assert_eq!(text.revar(&names).as_str().unvar(&names), text);
}

#[test]
fn with_commas_groups_digits() {
    assert_eq!(with_commas(0), "0");
    assert_eq!(with_commas(999), "999");
    assert_eq!(with_commas(1000), "1,000");
    assert_eq!(with_commas(1234567), "1,234,567");
    assert_eq!(with_commas(u128::MAX), "340,282,366,920,938,463,463,374,607,431,768,211,455");
}

#[test]
fn partition_visits_partitions_in_order() {
    let mut p = Partition::new(6);
    assert_eq!(p.state(), &[6]);
    assert!(p.next());
    assert_eq!(p.state(), &[4, 2]);
    assert!(p.next());
    assert_eq!(p.state(), &[3, 3]);
    assert!(p.next());
    assert_eq!(p.state(), &[2, 2, 2]);
    assert!(!p.next());
    assert_eq!(p.state(), &[] as &[usize]);
    let mut empty = Partition::new(0);
    assert_eq!(empty.state(), &[] as &[usize]);
    assert!(!empty.next());
}

#[test]
fn pivots_encode_and_decode() {
    assert_eq!(Op::interpret_code(250), Pivot::OpPivot(Op::ADD));
    assert_eq!(Op::interpret_code(255), Pivot::Nop);
    assert_eq!(Op::interpret_code(241), Pivot::VarPivot(1));
    assert_eq!(Op::interpret_code(155), Pivot::ConstPivot(155));
    assert_eq!(Pivot::VarPivot(1).encode(), 241);
    assert_eq!(Pivot::OpPivot(Op::NEG).encode(), 243);
    for code in (0u8..=155).chain(230..=255) {
        assert_eq!(Pivot::decode(code).encode(), code);
    }
    assert_eq!(Op::first(), Op::NOT);
    assert_eq!(Op::ORR.next(), None);
    assert_eq!(Op::NEG.next(), Some(Op::NOT));
    assert_eq!(Op::LSL.len(), 2);
    assert_eq!(Op::MUL.prec(), 5);
    assert_eq!(Op::NOT.arity(), 1);
    assert_eq!(Op::LSR.render_face(), ">>");
    assert_eq!(Op::highest_unused_code(), 242);
}

#[test]
fn writer_types_are_listed_atoms_first() {
    let all = WriterType::all();
    assert_eq!(all.len(), 8);
    assert_eq!(all[0], WriterType::ConstVar);
    assert_eq!(all[7], WriterType::Or);
}

#[test]
fn var_writer_writes_each_variable() {
    let mut w = VarWriter::<2>::new(1, 0);
    let mut buf = [0u8; 1];
    assert!(w.write(&mut buf));
    assert_eq!(buf, [242]);
    assert!(w.write(&mut buf));
    assert_eq!(buf, [241]);
    assert!(!w.write(&mut buf));
    assert_eq!(buf, [241]);
}

#[test]
fn atom_writer_writes_small_atoms() {
    let mut w = AtomWriter::new(1);
    let mut buf = [0u8; 2];
    let mut seen = vec![];
    while w.write(&mut buf) {
        seen.push(buf[0]);
    }
    assert_eq!(seen, vec![1, 2, 242]);
    let mut w2 = AtomWriter::new(2);
    let mut two = vec![];
    while w2.write(&mut buf) {
        two.push(buf);
    }
    assert_eq!(two, vec![[10, 255], [20, 255], [30, 255]]);
}

#[test]
fn const_writer_writes_negated_shorter_constants_first() {
    let mut w = ConstWriter::new(2, 156);
    let mut buf = [9u8; 3];
    assert!(w.write(&mut buf));
    assert_eq!(buf, [0, 254, 9]);
    assert_eq!(Expression::<u8, 1>::from_field(buf[..2].to_vec()).to_string(), "!0");
    let mut count = 1;
    while w.write(&mut buf) {
        count += 1;
    }
    assert_eq!(count, 100);
    assert_eq!(buf, [255, 99, 9]);
}

#[test]
fn durations_are_short() {
    assert_eq!(format_seconds(18, false), "18s");
    assert_eq!(format_seconds(246, false), "4m 6s");
    assert_eq!(format_seconds(300, false), "5m 0s");
    assert_eq!(format_seconds(300, true), "5m");
    assert_eq!(format_seconds(8 * 3600 + 15 * 60 + 3, false), "8h 15m");
    assert_eq!(format_seconds(3 * 86400 + 4 * 3600, false), "3d 4h");
    assert_eq!(format_seconds(125 * 86400 + 18 * 3600 + 59, true), "125d 18h");
    assert_eq!(format_seconds(0, false), "0s");
    assert_eq!(format_seconds(-5, false), "-5s");
    assert_eq!(format_seconds(-500, false), "-500s");
}

#[test]
fn durations_of_chrono_spans() {
    assert_eq!(format_duration(&chrono::TimeDelta::seconds(246), false), "4m 6s");
    assert_eq!(format_duration(&chrono::TimeDelta::minutes(61), false), "1h 1m");
    assert_eq!(format_duration(&chrono::TimeDelta::milliseconds(-1500), false), "-1s");
}

#[test]
fn news_items_count_with_commas() {
    assert_eq!(news_item(7, 1234), "Tried 1,234 exprs of length 7.");
    assert_eq!(news_item(3, 1), "Tried 1 expr of length 3.");
    assert_eq!(news_item(12, 0), "Tried 0 exprs of length 12.");
}

#[test]
fn partition_enumerates_every_partition_once() {
    let mut p = Partition::new(10);
    let mut seen: Vec<Vec<usize>> = vec![p.state().to_vec()];
    while p.next() {
        seen.push(p.state().to_vec());
    }
    let expected: Vec<Vec<usize>> = vec![
        vec![10],
        vec![8, 2],
        vec![7, 3],
        vec![6, 4],
        vec![6, 2, 2],
        vec![5, 5],
        vec![5, 3, 2],
        vec![4, 4, 2],
        vec![4, 3, 3],
        vec![4, 2, 2, 2],
        vec![3, 3, 2, 2],
        vec![2, 2, 2, 2, 2],
    ];
    assert_eq!(seen, expected);
}

#[test]
fn parsed_expressions_render_and_run() {
    let expr = "(a+b)*!c-7".parse::<Expression<i32, 3>>().unwrap();
    assert_eq!(expr.to_string(), "(a+b)*!c-7");
    assert_eq!(expr.apply(&[1, 2, 0]), Some(-10));
}

#[test]
fn stat_lines_are_padded_to_fifty_characters() {
    assert_eq!(stat_padding("Total:", "1,024 = ", "2^10"), 50 - 6 - 8 - 4);
    assert_eq!(stat_padding("", "", ""), 50);
    assert_eq!(stat_padding("é", "", ""), 49);
}

#[test]
fn description_lines_wrap_at_spaces() {
    assert_eq!(wrap_line("one two three", 7), vec!["one two", "three"]);
    assert_eq!(wrap_line("one two three", 50), vec!["one two three"]);
    assert_eq!(wrap_line("abcdefgh ij", 5), vec!["abcdefgh", "ij"]);
    assert_eq!(wrap_line("", 50), vec![""]);
    assert_eq!(wrap_line("a  b", 3), vec!["a ", "b"]);
    assert_eq!(wrap_line("éé é", 4), vec!["éé", "é"]);
}

#[test]
fn inspector_controls_fit_their_width() {
    assert_eq!(inspector_controls(0), format!("(J/K: navigate, I: hide){}", " ".repeat(26)));
    assert_eq!(inspector_controls(26), "(J/K: navigate, I: hide)");
    assert_eq!(inspector_controls(30), "(J/K: navigate, I...");
    assert_eq!(inspector_controls(47), "...");
    assert_eq!(inspector_controls(100), "...");
}

#[test]
fn paused_threads_are_not_counted() {
    let statuses = vec![
        Some(ThreadStatus::Searching("a".to_string())),
        Some(ThreadStatus::Paused("b".to_string())),
        None,
    ];
    assert_eq!(unpaused_thread_count(&statuses), 2);
}

#[test]
fn thread_labels_are_right_aligned() {
    assert_eq!(thread_label(1, 3), format!("{:>2} ", "1."));
    assert_eq!(thread_label(1, 3), "1. ");
    assert_eq!(thread_label(3, 12), " 3. ");
    assert_eq!(thread_label(12, 12), "12. ");
    assert_eq!(thread_label(100, 12), "100. ");
    assert_eq!(thread_label(7, 100), format!("{:>4} ", "7."));
}
