use clubs_diamonds::dashboard::{Dashboard, Key};
use clubs_diamonds::expression::Expression;
use clubs_diamonds::manager::{Action, Manager};
use clubs_diamonds::search::{optional_revar, SearchConfig, Solution, Verdict};
use clubs_diamonds::ui::{ThreadStatus, UISignal};
use clubs_diamonds::writers::WriterType;

#[test]
fn manager_spawns_tasks_in_order() {
    let mut m = Manager::new(2, 1, 2);
    let actions = m.plan();
    assert_eq!(
        actions,
        vec![
            Action::Spawn { id: 0, length: 1, writer_type: WriterType::ConstVar },
            Action::Spawn { id: 1, length: 1, writer_type: WriterType::Neg },
        ]
    );
    assert_eq!(m.plan(), vec![]);
    m.on_tried(0, 5);
    m.on_tried(1, 7);
    assert_eq!(m.total_count(), 12);
    assert_eq!(m.on_done(0), None);
    assert_eq!(
        m.plan(),
        vec![Action::Spawn { id: 0, length: 1, writer_type: WriterType::Mul }]
    );
}

#[test]
fn manager_reports_a_finished_length() {
    let mut m = Manager::new(1, 3, 3);
    let mut finished = None;
    let mut rounds = 0;
    loop {
        let actions = m.plan();
        if actions.is_empty() {
            break;
        }
        for action in actions {
            if let Action::Spawn { id, length, .. } = action {
                assert_eq!(length, 3);
                m.on_tried(id, 10);
                if let Some(done) = m.on_done(id) {
                    finished = Some(done);
                }
                rounds += 1;
            }
        }
    }
    assert_eq!(rounds, 8);
    assert_eq!(finished, Some((3, 80)));
    assert!(m.finished(false));
    assert!(!m.finished(true));
}

#[test]
fn manager_pauses_and_resumes_workers() {
    let mut m = Manager::new(3, 1, 5);
    assert_eq!(m.plan().len(), 3);
    assert!(!m.on_signal(UISignal::PauseUnpause));
    assert_eq!(m.plan(), vec![Action::Pause(2), Action::Pause(1), Action::Pause(0)]);
    assert!(!m.on_signal(UISignal::PauseUnpause));
    assert!(!m.on_signal(UISignal::DecreaseThreadCount));
    assert_eq!(m.plan(), vec![Action::Unpause(0), Action::Unpause(1)]);
    assert!(!m.on_signal(UISignal::IncreaseThreadCount));
    assert!(!m.on_signal(UISignal::IncreaseThreadCount));
    assert_eq!(
        m.plan(),
        vec![
            Action::Unpause(2),
            Action::Spawn { id: 3, length: 1, writer_type: WriterType::Add },
        ]
    );
    assert_eq!(m.target_thread_count(), 4);
    assert!(m.on_signal(UISignal::Quit));
}

#[test]
fn manager_tracks_statuses() {
    let mut m = Manager::new(2, 1, 1);
    m.plan();
    m.on_status(1, ThreadStatus::Searching(String::from("a+1")));
    assert_eq!(m.statuses(), vec![None, Some(ThreadStatus::Searching(String::from("a+1")))]);
    m.on_done(0);
    assert_eq!(m.statuses(), vec![Some(ThreadStatus::Searching(String::from("a+1")))]);
}

#[test]
fn manager_with_no_lengths_has_no_work() {
    let mut m = Manager::new(4, 5, 4);
    assert_eq!(m.plan(), vec![]);
    assert!(m.finished(false));
}

#[test]
fn dashboard_keeps_solutions_sorted_by_score() {
    let mut d = Dashboard::new();
    d.push_solution(String::from("a+1"), 3, None);
    d.push_solution(String::from("a"), 1, None);
    d.push_solution(String::from("b+1"), 3, Some(String::from("x")));
    d.push_solution(String::from("a*a"), 2, None);
    let faces: Vec<&str> = d.solutions_found().iter().map(|s| s.0.as_str()).collect();
    assert_eq!(faces, vec!["a", "a*a", "a+1", "b+1"]);
    assert_eq!(d.solutions_found()[3].2, Some(String::from("x")));
}

#[test]
fn dashboard_selection_follows_keys() {
    let mut d = Dashboard::new();
    assert_eq!(d.press(Key::Char('j')), None);
    assert_eq!(d.solution_selected(), None);
    d.push_solution(String::from("a"), 1, None);
    d.push_solution(String::from("b"), 2, None);
    d.press(Key::Char('j'));
    assert_eq!(d.solution_selected(), Some(0));
    d.press(Key::Char('j'));
    d.press(Key::Char('j'));
    assert_eq!(d.solution_selected(), Some(1));
    d.push_solution(String::from("c"), 0, None);
    assert_eq!(d.solution_selected(), Some(2));
    d.press(Key::Char('k'));
    assert_eq!(d.solution_selected(), Some(1));
    d.press(Key::Esc);
    assert_eq!(d.solution_selected(), None);
}

#[test]
fn dashboard_keys_make_requests() {
    let mut d = Dashboard::new();
    assert_eq!(d.press(Key::Char('+')), Some(UISignal::IncreaseThreadCount));
    assert_eq!(d.press(Key::Char('-')), Some(UISignal::DecreaseThreadCount));
    assert_eq!(d.press(Key::Char('p')), Some(UISignal::PauseUnpause));
    assert!(d.paused());
    assert_eq!(d.press(Key::Char('s')), None);
    assert!(!d.panels().stats);
    assert_eq!(d.press(Key::Char('q')), None);
    assert!(d.in_quit_dialog());
    assert_eq!(d.press(Key::Char('x')), None);
    assert!(!d.in_quit_dialog());
    assert_eq!(d.press(Key::Char('q')), None);
    assert_eq!(d.press(Key::Char('y')), Some(UISignal::Quit));
    assert_eq!(d.press(Key::Other), None);
}

#[test]
fn search_config_builders_set_fields() {
    let c = SearchConfig::new();
    assert_eq!(c.threads, 1);
    assert_eq!(c.report_every, 1 << 20);
    assert_eq!(c.min_length, 1);
    assert_eq!(c.max_length, usize::MAX);
    assert_eq!(c.constant_cap, 156);
    assert!(c.debug_banner_enabled);
    let c = c
        .threads(3)
        .report_every(1 << 12)
        .min_len(2)
        .max_len(9)
        .max_constant(20)
        .no_banner()
        .revar("xyz")
        .description("primes");
    assert_eq!(c.threads, 3);
    assert_eq!(c.report_every, 4096);
    assert_eq!((c.min_length, c.max_length), (2, 9));
    assert_eq!(c.constant_cap, 21);
    assert!(!c.debug_banner_enabled);
    assert_eq!(c.var_names, Some(vec!['x', 'y', 'z']));
    assert_eq!(c.description, Some(String::from("primes")));
    assert_eq!(c.no_constants().constant_cap, 0);
}

#[test]
fn optional_revar_renames_only_when_asked() {
    assert_eq!(optional_revar("a+b", None), "a+b");
    assert_eq!(optional_revar("a+b", Some(&['x', 'y'])), "x+y");
}

#[test]
fn verdicts_accept_and_wrap() {
    let expr = "a+1".parse::<Expression<i32, 1>>().unwrap();
    assert!(Verdict::<i32, 1>::is_accept(&true));
    assert!(!Verdict::<i32, 1>::is_accept(&false));
    let wrapped: Expression<i32, 1> = true.wrap(expr.clone());
    assert_eq!(wrapped.to_string(), "a+1");
    assert!(!Verdict::<i32, 1>::is_accept(&None::<u8>));
    let solution: Solution<i32, 1, u8> = Some(7u8).wrap(expr.clone());
    assert_eq!(solution.data, 7);
    assert_eq!(solution.expr.to_string(), "a+1");
    assert!(!Verdict::<i32, 1>::is_accept(&Vec::<u8>::new()));
    let many: Solution<i32, 1, Vec<u8>> = vec![1u8, 2].wrap(expr);
    assert_eq!(many.data, vec![1, 2]);
}
