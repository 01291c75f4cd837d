use kak_tree::config::{Config, FiletypeConfig};
use kak_tree::range::{Point, Range};
use kak_tree::request::{answer_request, info_answer, Request, RequestError, Step};
use kak_tree::select::Op;
use kak_tree::syntax::SyntaxTree;

fn on_line(row: usize, from: usize, to: usize, line_start: usize) -> Range {
    Range::new(line_start + from, line_start + to, Point::new(row, from), Point::new(row, to))
}

// The tree of the text `let a;` + newline + `let b;` + newline.
fn lets() -> SyntaxTree {
    let whole = Range::new(0, 14, Point::new(0, 0), Point::new(2, 0));
    let mut tree = SyntaxTree::new("source_file", true, whole);
    assert_eq!(tree.add_child(0, "let_declaration", true, on_line(0, 0, 6, 0)), Some(1));
    assert_eq!(tree.add_child(0, "let_declaration", true, on_line(1, 0, 6, 7)), Some(2));
    assert_eq!(tree.add_child(1, "let", false, on_line(0, 0, 3, 0)), Some(3));
    assert_eq!(tree.add_child(1, "identifier", true, on_line(0, 4, 5, 0)), Some(4));
    assert_eq!(tree.add_child(1, ";", false, on_line(0, 5, 6, 0)), Some(5));
    assert_eq!(tree.add_child(2, "let", false, on_line(1, 0, 3, 7)), Some(6));
    assert_eq!(tree.add_child(2, "identifier", true, on_line(1, 4, 5, 7)), Some(7));
    assert_eq!(tree.add_child(2, ";", false, on_line(1, 5, 6, 7)), Some(8));
    tree
}

fn ask(op: Op, selections_desc: &str) -> Request {
    Request {
        op,
        filetype: "rust".to_string(),
        selections_desc: selections_desc.to_string(),
        content: "let a;\nlet b;\n".to_string(),
    }
}

#[test]
fn answer_selects_the_new_ranges() {
    let config = Config::default();
    let tree = lets();
    assert_eq!(
        answer_request(&config, &ask(Op::SelectNextNode { kind: None }, "1.1,1.1"), &tree),
        Ok(Step::Answer("select 2.1,2.6".to_string()))
    );
    assert_eq!(
        answer_request(&config, &ask(Op::SelectChildren { kind: None }, "1.1,2.7"), &tree),
        Ok(Step::Answer("select 1.1,1.6 2.1,2.6".to_string()))
    );
    assert_eq!(
        answer_request(&config, &ask(Op::SelectParentNode { kind: None }, "2.1,2.6"), &tree),
        Ok(Step::Answer("select 1.1,2.8".to_string()))
    );
}

#[test]
fn answer_for_several_selections_keeps_their_order() {
    let config = Config::default();
    let tree = lets();
    assert_eq!(
        answer_request(
            &config,
            &ask(Op::SelectFirstChild, "2.1,2.1 1.1,1.1 2.5,2.5"),
            &tree
        ),
        Ok(Step::Answer("select 2.5,2.5 1.5,1.5 2.5,2.5".to_string()))
    );
}

#[test]
fn answer_without_a_match_is_the_failure() {
    let config = Config::default();
    let tree = lets();
    assert_eq!(
        answer_request(
            &config,
            &ask(Op::SelectKind { kind: "function_item".to_string() }, "1.1,2.7"),
            &tree
        ),
        Ok(Step::Answer("fail no selections remaining".to_string()))
    );
    assert_eq!(
        answer_request(&config, &ask(Op::SelectNextNode { kind: None }, ""), &tree),
        Ok(Step::Answer("fail no selections remaining".to_string()))
    );
}

#[test]
fn answer_uses_the_policy_of_the_language() {
    let mut config = Config::default();
    let mut policy = FiletypeConfig::new(Some(vec!["identifier".to_string()]), None);
    policy.set_group("let".to_string(), vec!["let_declaration".to_string()]);
    config.set_filetype_config("rust".to_string(), policy);
    let tree = lets();
    assert_eq!(
        answer_request(&config, &ask(Op::SelectParentNode { kind: None }, "1.5,1.5"), &tree),
        Ok(Step::Answer("select 1.1,1.6".to_string()))
    );
    assert_eq!(
        answer_request(
            &config,
            &ask(Op::SelectParentNode { kind: Some("let".to_string()) }, "2.5,2.5"),
            &tree
        ),
        Ok(Step::Answer("select 2.1,2.6".to_string()))
    );
    let mut other = ask(Op::SelectParentNode { kind: Some("let".to_string()) }, "2.5,2.5");
    other.filetype = "json".to_string();
    assert_eq!(
        answer_request(&config, &other, &tree),
        Ok(Step::Answer("fail no selections remaining".to_string()))
    );
}

#[test]
fn answer_to_show_the_tree_names_the_node() {
    let config = Config::default();
    let tree = lets();
    assert_eq!(
        answer_request(&config, &ask(Op::NodeSExp, "2.5,2.5 1.1,1.1"), &tree),
        Ok(Step::Dump(7))
    );
    assert_eq!(
        answer_request(&config, &ask(Op::NodeSExp, "1.1,2.1"), &tree),
        Ok(Step::Dump(0))
    );
    assert_eq!(
        answer_request(&config, &ask(Op::NodeSExp, " "), &tree),
        Err(RequestError::NoSelection)
    );
}

#[test]
fn answer_to_unreadable_selections_is_an_error() {
    let config = Config::default();
    let tree = lets();
    assert_eq!(
        answer_request(&config, &ask(Op::SelectFirstChild, "1.1"), &tree),
        Err(RequestError::Selections)
    );
    assert_eq!(
        answer_request(&config, &ask(Op::NodeSExp, "1.1,1.9"), &tree),
        Err(RequestError::Selections)
    );
}

#[test]
fn answer_with_a_node_outside_the_text_is_an_error() {
    let config = Config::default();
    let whole = Range::new(0, 14, Point::new(0, 0), Point::new(2, 0));
    let mut tree = SyntaxTree::new("source_file", true, whole);
    let far = Range::new(0, 6, Point::new(7, 0), Point::new(7, 6));
    assert_eq!(tree.add_child(0, "let_declaration", true, far), Some(1));
    assert_eq!(
        answer_request(&config, &ask(Op::SelectFirstChild, "1.1,1.1"), &tree),
        Err(RequestError::Position)
    );
    let empty = SyntaxTree::new("source_file", true, Range::new(0, 0, Point::new(0, 0), Point::new(0, 0)));
    assert_eq!(
        answer_request(&config, &ask(Op::SelectFirstChild, "1.1,1.1"), &empty),
        Err(RequestError::Position)
    );
}

#[test]
fn tree_is_shown_between_quotes() {
    assert_eq!(info_answer("(array (number))"), "info '(array (number))'");
    assert_eq!(info_answer(""), "info ''");
}
