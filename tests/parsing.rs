use lanthir::graph::{Graph, Node};
use lanthir::mermaid::parse_mermaid;
use lanthir::text::ParseError;

fn node<'a>(graph: &'a Graph, id: &str) -> &'a Node {
    graph.get(id).unwrap()
}

#[test]
fn simple_flowchart() {
    let mmd = r#"flowchart TD
    A-->B
        "#;
    let graph = parse_mermaid(&mmd).unwrap();
    assert_eq!(node(&graph, "A").label, None);
    assert_eq!(node(&graph, "A").outputs[0].destination, "B");
}

#[test]
fn labels() {
    let mmd = r#"flowchart TD
    A[apple]-->|foo|B{banana}
        "#;
    let graph = parse_mermaid(&mmd).unwrap();
    assert_eq!(node(&graph, "A").label, Some(String::from("apple")));
    assert_eq!(node(&graph, "B").label, Some(String::from("banana")));
    assert_eq!(node(&graph, "A").outputs[0].label, Some(String::from("foo")));
    assert_eq!(node(&graph, "A").outputs[0].destination, "B");
}

#[test]
fn symbols() {
    let mmd = r#"flowchart TD
    A--Torture Test-->B("run[-_(){}'~./\|&;<>$`,:@%^*+=?{}!]")
        "#;
    let graph = parse_mermaid(&mmd).unwrap();
    assert_eq!(node(&graph, "A").label, None);
    assert_eq!(node(&graph, "B").label, None);
    assert_eq!(
        node(&graph, "B").cmd,
        Some(String::from("-_(){}'~./\\|&;<>$`,:@%^*+=?{}!"))
    );
    assert_eq!(
        node(&graph, "A").outputs[0].label,
        Some(String::from("Torture Test"))
    );
    assert_eq!(node(&graph, "A").outputs[0].destination, "B");
}

#[test]
fn command_test() {
    let mmd = r#"flowchart TD
    A--CMD Test-->B["run[echo #quot;hello#quot;]"]
        "#;
    let graph = parse_mermaid(&mmd).unwrap();
    assert_eq!(node(&graph, "A").label, None);
    assert_eq!(node(&graph, "B").label, None);
    assert_eq!(node(&graph, "B").cmd, Some(String::from("echo \"hello\"")));
    assert_eq!(node(&graph, "A").outputs[0].label, Some(String::from("CMD Test")));
    assert_eq!(node(&graph, "A").outputs[0].destination, "B");
}

#[test]
fn later_occurrence_keeps_earlier_label() {
    let mmd = "flowchart TD\nA[hello]-->B\nB-->C\n";
    let graph = parse_mermaid(mmd).unwrap();
    assert_eq!(graph.len(), 3);
    let a = node(&graph, "A");
    assert_eq!(a.label, Some(String::from("hello")));
    let b = node(&graph, "B");
    assert_eq!(b.label, None);
    assert_eq!(b.outputs.len(), 1);
    assert_eq!(b.outputs[0].destination, "C");
    assert!(node(&graph, "C").outputs.is_empty());
}

#[test]
fn destination_label_survives_bare_source_occurrence() {
    let mmd = "flowchart TD\nA-->B[hello]\nB-->C\n";
    let graph = parse_mermaid(mmd).unwrap();
    let b = node(&graph, "B");
    assert_eq!(b.label, Some(String::from("hello")));
    assert_eq!(b.outputs.len(), 1);
    assert_eq!(b.outputs[0].destination, "C");
}

#[test]
fn later_label_replaces_earlier_one() {
    let mmd = "flowchart TD\nA[first]-->B\nA[second]-->C\n";
    let graph = parse_mermaid(mmd).unwrap();
    let a = node(&graph, "A");
    assert_eq!(a.label, Some(String::from("second")));
    assert_eq!(a.outputs.len(), 2);
    assert_eq!(a.outputs[0].destination, "B");
    assert_eq!(a.outputs[1].destination, "C");
}

#[test]
fn cross_product_edges() {
    let mmd = "flowchart TD\n(A,B)-->|go|(C,D)\n";
    let graph = parse_mermaid(mmd).unwrap();
    assert_eq!(graph.len(), 4);
    for src in ["A", "B"] {
        let n = node(&graph, src);
        assert_eq!(n.outputs.len(), 2);
        assert_eq!(n.outputs[0].destination, "C");
        assert_eq!(n.outputs[1].destination, "D");
        assert_eq!(n.outputs[0].label, Some(String::from("go")));
        assert_eq!(n.outputs[1].label, Some(String::from("go")));
    }
    assert!(node(&graph, "C").outputs.is_empty());
    assert!(node(&graph, "D").outputs.is_empty());
}

#[test]
fn cross_product_with_ampersands() {
    let mmd = "flowchart LR\nA & B --> C & D\n";
    let graph = parse_mermaid(mmd).unwrap();
    let total: usize = ["A", "B", "C", "D"]
        .iter()
        .map(|id| node(&graph, id).outputs.len())
        .sum();
    assert_eq!(total, 4);
}

#[test]
fn quoted_command_decodes_escapes() {
    let mmd = "flowchart TD\nA-->B[\"run[#quot;hello#quot;]\"]\n";
    let graph = parse_mermaid(mmd).unwrap();
    assert_eq!(node(&graph, "B").cmd, Some(String::from("\"hello\"")));
}

#[test]
fn clipboard_payload() {
    let mmd = "flowchart TD\nA(\"copy[kubectl get #quot;pods#quot;]\")-->B\n";
    let graph = parse_mermaid(mmd).unwrap();
    assert_eq!(node(&graph, "A").cb, Some(String::from("kubectl get \"pods\"")));
    assert_eq!(node(&graph, "A").cmd, None);
}

#[test]
fn undirected_edges_add_nothing() {
    let mmd = "flowchart TD\nA---B\nC-- note ---D\n";
    let graph = parse_mermaid(mmd).unwrap();
    assert_eq!(graph.len(), 0);
}

#[test]
fn chained_edges_and_comments() {
    let mmd = "%% a runbook\nflowchart TD\n\n  %% steps\n  A --> B --> C;\n";
    let graph = parse_mermaid(mmd).unwrap();
    assert_eq!(node(&graph, "A").outputs[0].destination, "B");
    assert_eq!(node(&graph, "B").outputs[0].destination, "C");
}

#[test]
fn missing_header_is_an_error() {
    let r = parse_mermaid("A-->B\n");
    assert_eq!(r.err(), Some(ParseError { line: 1 }));
}

#[test]
fn syntax_error_reports_its_line() {
    let r = parse_mermaid("flowchart TD\nA-->B\nA-->\n");
    assert_eq!(r.err(), Some(ParseError { line: 3 }));
    let r = parse_mermaid("flowchart TD\nA[open-->B\n");
    assert_eq!(r.err(), Some(ParseError { line: 2 }));
}

#[test]
fn empty_text_is_an_empty_graph() {
    let graph = parse_mermaid("").unwrap();
    assert_eq!(graph.len(), 0);
}

#[test]
fn edge_text_shows_label_and_destination() {
    let graph = parse_mermaid("flowchart TD\nA-->|ok|B\nA-->C\n").unwrap();
    let a = node(&graph, "A");
    assert_eq!(a.outputs[0].to_text(), "ok -> B");
    assert_eq!(a.outputs[1].to_text(), "to C");
}
