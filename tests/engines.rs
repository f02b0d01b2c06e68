use lanthir::graph_runner::{Action, GraphMachine, NodeTextType, Step};
use lanthir::mermaid::parse_mermaid;
use lanthir::oats::parse_oats;
use lanthir::oats_runner::OatsMachine;

fn machine(text: &str) -> GraphMachine {
    GraphMachine::new(String::from("Start"), parse_mermaid(text).unwrap())
}

#[test]
fn gate_uses_clipboard_before_command_and_label() {
    let m = machine("flowchart TD\nStart[label]-->B\nA-->Start[\"run[ls]\"]\nA-->Start(\"copy[abc]\")\n");
    match m.next_step().unwrap() {
        Step::Gate { kind, text, destination } => {
            assert_eq!(kind, NodeTextType::Cb);
            assert_eq!(text, "abc");
            assert_eq!(destination, "B");
        }
        _ => panic!("expected a gate"),
    }
    assert_eq!(m.get_node_label(), Some("label"));
    assert_eq!(m.get_command(), Some("ls"));
    assert_eq!(m.get_clipboard(), Some("abc"));
    let m = machine("flowchart TD\nStart[label]-->B\nA-->Start[\"run[ls]\"]\n");
    let (kind, text) = m.get_node_type().unwrap();
    assert_eq!(kind, NodeTextType::Cmd);
    assert_eq!(text, "ls");
    let m = machine("flowchart TD\nStart[label]-->B\n");
    let (kind, text) = m.get_node_type().unwrap();
    assert_eq!(kind, NodeTextType::Label);
    assert_eq!(text, "label");
    let m = machine("flowchart TD\nStart(\"copy[abc]\")-->B\n");
    let (kind, text) = m.get_node_type().unwrap();
    assert_eq!(kind, NodeTextType::Cb);
    assert_eq!(text, "abc");
    let m = machine("flowchart TD\nStart-->B\n");
    let (kind, text) = m.get_node_type().unwrap();
    assert_eq!(kind, NodeTextType::Id);
    assert_eq!(text, "Start");
}

#[test]
fn confirmed_gate_moves_and_copies() {
    let mut m = machine("flowchart TD\nStart(\"copy[abc]\")-->B\n");
    let (action, finished) = m.confirm(true);
    assert!(!finished);
    match action {
        Some(Action::Copy(t)) => assert_eq!(t, "abc"),
        _ => panic!("expected a copy"),
    }
    assert_eq!(m.current(), "B");
}

#[test]
fn declined_gate_halts_in_place() {
    let mut m = machine("flowchart TD\nStart[\"run[ls]\"]-->B\n");
    let (action, finished) = m.confirm(false);
    assert!(finished);
    assert!(action.is_none());
    assert_eq!(m.current(), "Start");
}

#[test]
fn branch_lists_edges_and_moves_on_pick() {
    let mut m = machine("flowchart TD\nStart-->|yes|B\nStart-->C\n");
    match m.next_step().unwrap() {
        Step::Branch { text, options } => {
            assert_eq!(text, "Start");
            assert_eq!(options, vec![String::from("yes -> B"), String::from("to C")]);
        }
        _ => panic!("expected a branch"),
    }
    m.pick(1);
    assert_eq!(m.current(), "C");
}

#[test]
fn dead_end_halts() {
    let mut m = machine("flowchart TD\nA-->Start[\"run[make]\"]\n");
    match m.next_step().unwrap() {
        Step::End { kind, text } => {
            assert_eq!(kind, NodeTextType::Cmd);
            assert_eq!(text, "make");
        }
        _ => panic!("expected the end"),
    }
    let (action, finished) = m.confirm(true);
    assert!(finished);
    match action {
        Some(Action::Run(t)) => assert_eq!(t, "make"),
        _ => panic!("expected a command"),
    }
}

#[test]
fn cycle_without_dead_end_keeps_going() {
    let mut m = machine("flowchart TD\nStart-->B-->Start\n");
    for _ in 0..50 {
        let (_, finished) = m.confirm(true);
        assert!(!finished);
    }
    assert_eq!(m.current(), "Start");
}

#[test]
fn missing_start_is_an_error() {
    let m = machine("flowchart TD\nA-->B\n");
    assert!(m.next_step().is_err());
    assert!(m.choices().is_none());
}

#[test]
fn sequence_engine_walks_runs() {
    let groats = parse_oats("~ first\n= copied\n? maybe\n| x\n| y\n= yclip\n\n& p\n& q\n").unwrap();
    let mut m = OatsMachine::new(groats);
    let p = m.next_prompt().unwrap();
    assert_eq!(p.header, "Warning: Your clipboard may be overwritten. Start?");
    assert_eq!(p.options, vec![String::from("Okay")]);
    assert_eq!(m.answer(0), None);

    let p = m.next_prompt().unwrap();
    assert_eq!(p.header, "first\nCopied to Clipboard: copied");
    assert_eq!(p.clipboard, Some(String::from("copied")));
    assert_eq!(p.options, vec![String::from("Done")]);
    assert_eq!(m.answer(0), None);

    let p = m.next_prompt().unwrap();
    assert_eq!(p.header, "maybe (Optional)");
    assert_eq!(p.options, vec![String::from("Completed"), String::from("Skipping")]);
    assert_eq!(m.answer(1), None);

    let p = m.next_prompt().unwrap();
    assert_eq!(p.header, "Complete one of");
    assert_eq!(p.options, vec![String::from("x"), String::from("y, Clipboard: yclip")]);
    assert_eq!(m.answer(1), Some(String::from("yclip")));

    let p = m.next_prompt().unwrap();
    assert_eq!(p.header, "Complete all in any order");
    assert_eq!(p.options, vec![String::from("p"), String::from("q")]);
    assert_eq!(m.answer(1), None);
    let p = m.next_prompt().unwrap();
    assert_eq!(p.options, vec![String::from("p")]);
    assert_eq!(m.answer(0), None);
    assert!(m.next_prompt().is_none());
}

#[test]
fn any_order_run_takes_one_prompt_per_member() {
    let groats = parse_oats("& a\n& b\n& c\n& d\n").unwrap();
    let mut m = OatsMachine::new(groats);
    m.answer(0);
    let mut prompts = 0;
    let mut seen = Vec::new();
    while let Some(p) = m.next_prompt() {
        prompts += 1;
        for s in &seen {
            assert!(!p.options.contains(s));
        }
        let pick = p.options.len() / 2;
        seen.push(p.options[pick].clone());
        m.answer(pick);
    }
    assert_eq!(prompts, 4);
    assert!(m.oatlets().iter().all(|o| o.done));
}

#[test]
fn out_of_range_pick_changes_nothing() {
    let groats = parse_oats("| a\n| b\n").unwrap();
    let mut m = OatsMachine::new(groats);
    m.answer(0);
    assert_eq!(m.answer(5), None);
    assert_eq!(m.next_prompt().unwrap().header, "Complete one of");
    m.answer(0);
    assert!(m.next_prompt().is_none());
}
