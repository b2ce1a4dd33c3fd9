use seqdiag::parse_diagram;
use seqdiag::FlowType;

#[test]
fn empty_diagram_has_untitled_title() {
    let result = parse_diagram("").unwrap();
    assert_eq!(result.title, "Untitled");
    assert_eq!(result.flows.len(), 0);
}

#[test]
fn given_title_has_valid_title() {
    let result = parse_diagram("title: Diagram").unwrap();
    assert_eq!(result.title, "Diagram");
}

#[test]
fn given_single_identifier_returns_standalone_box() {
    let result = parse_diagram(
        "title: Diagram 
        Service",
    )
    .unwrap();
    assert_eq!(result.flows[0], FlowType::Standalone("Service".to_string()));
}

#[test]
fn given_service_to_service_flow_returns_self_case() {
    let result = parse_diagram("Service->Service").unwrap();
    assert_eq!(
        result.flows[0],
        FlowType::Standard("Service".to_string(), "Service".to_string(), "".to_string())
    );
}

#[test]
fn given_standard_with_description() {
    let result = parse_diagram("Service->Other Service: Does something").unwrap();
    assert_eq!(
        result.flows[0],
        FlowType::Standard(
            "Service".to_string(),
            "Other Service".to_string(),
            "Does something".to_string()
        )
    );
}

#[test]
fn bare_line_is_standalone() {
    let result = parse_diagram("Service").unwrap();
    assert_eq!(result.flows.len(), 1);
    assert_eq!(result.flows[0], FlowType::Standalone("Service".to_string()));
}

#[test]
fn title_only_has_no_flows() {
    let result = parse_diagram("title: Just a title").unwrap();
    assert_eq!(result.title, "Just a title");
    assert_eq!(result.flows.len(), 0);
}

#[test]
fn last_title_wins() {
    let result = parse_diagram("title: First\ntitle: Second").unwrap();
    assert_eq!(result.title, "Second");
    assert_eq!(result.flows.len(), 0);
}

#[test]
fn flow_count_matches_statement_lines() {
    let result = parse_diagram("title: T\n\none->two: x\n   \nthree\nfour->five\n").unwrap();
    assert_eq!(result.flows.len(), 3);
}

#[test]
fn blank_lines_produce_no_flow() {
    let result = parse_diagram("\n   \n\n").unwrap();
    assert_eq!(result.title, "Untitled");
    assert_eq!(result.flows.len(), 0);
}

#[test]
fn arrow_without_source_is_skipped() {
    let result = parse_diagram("->Service").unwrap();
    assert_eq!(result.flows.len(), 0);

    let other = parse_diagram("Service->").unwrap();
    assert_eq!(other.flows.len(), 0);
}

#[test]
fn label_keeps_later_colons() {
    let result = parse_diagram("a->b: first: second").unwrap();
    assert_eq!(
        result.flows[0],
        FlowType::Standard("a".to_string(), "b".to_string(), "first: second".to_string())
    );
}

#[test]
fn flows_keep_document_order() {
    let result = parse_diagram("a->b: one\nc\nb->a: two").unwrap();
    assert_eq!(result.flows.len(), 3);
    assert_eq!(
        result.flows[0],
        FlowType::Standard("a".to_string(), "b".to_string(), "one".to_string())
    );
    assert_eq!(result.flows[1], FlowType::Standalone("c".to_string()));
    assert_eq!(
        result.flows[2],
        FlowType::Standard("b".to_string(), "a".to_string(), "two".to_string())
    );
}

#[test]
fn flow_parts_are_trimmed() {
    let result = parse_diagram("  one  ->  two  :  label  ").unwrap();
    assert_eq!(
        result.flows[0],
        FlowType::Standard("one".to_string(), "two".to_string(), "label".to_string())
    );
}

#[test]
fn tab_padding_is_trimmed() {
    let result = parse_diagram("\tone\t->\ttwo\t:\tlabel\t").unwrap();
    assert_eq!(
        result.flows[0],
        FlowType::Standard("one".to_string(), "two".to_string(), "label".to_string())
    );

    let titled = parse_diagram("title:\tIndented\t").unwrap();
    assert_eq!(titled.title, "Indented");
}

#[test]
fn lines_blank_by_tabs_produce_no_flow() {
    let result = parse_diagram("\t\n \t \n").unwrap();
    assert_eq!(result.flows.len(), 0);
}

#[test]
fn carriage_return_newline_ends_a_line() {
    let result = parse_diagram("a\r\nb").unwrap();
    assert_eq!(result.flows.len(), 2);
    assert_eq!(result.flows[0], FlowType::Standalone("a".to_string()));
    assert_eq!(result.flows[1], FlowType::Standalone("b".to_string()));
}

#[test]
fn title_line_may_end_in_carriage_return_newline() {
    let result = parse_diagram("title: Diagram\r\nService\r\n").unwrap();
    assert_eq!(result.title, "Diagram");
    assert_eq!(result.flows.len(), 1);
    assert_eq!(result.flows[0], FlowType::Standalone("Service".to_string()));
}

#[test]
fn title_marker_anywhere_in_line() {
    let result = parse_diagram("some title: Late").unwrap();
    assert_eq!(result.title, "Late");
    assert_eq!(result.flows.len(), 0);
}
