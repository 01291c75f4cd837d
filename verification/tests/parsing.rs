use kak_tree::parser::parse;
use kak_tree::range::{Point, Range};
use kak_tree::syntax::SyntaxTree;

fn rust_tree(content: &str) -> SyntaxTree {
    parse(content, &tree_sitter::Language::from(tree_sitter_rust::LANGUAGE)).unwrap()
}

fn json_tree(content: &str) -> SyntaxTree {
    parse(content, &tree_sitter::Language::from(tree_sitter_json::LANGUAGE)).unwrap()
}

fn children(tree: &SyntaxTree, node: usize) -> Vec<usize> {
    (0..tree.child_count(node)).map(|k| tree.child(node, k)).collect()
}

#[test]
fn parsed_tree_holds_the_nodes_of_the_parser() {
    let tree = rust_tree("fn a() {}\nfn b() {}\n");
    assert_eq!(tree.kind(0), "source_file");
    assert!(tree.is_named(0));
    assert_eq!(tree.parent(0), None);
    assert_eq!(
        tree.range(0),
        Range::new(0, 20, Point::new(0, 0), Point::new(2, 0))
    );
    let functions = children(&tree, 0);
    assert_eq!(functions.len(), 2);
    for (i, function) in functions.iter().enumerate() {
        assert_eq!(tree.kind(*function), "function_item");
        assert_eq!(tree.parent(*function), Some(0));
        assert_eq!(
            tree.range(*function),
            Range::new(10 * i, 10 * i + 9, Point::new(i, 0), Point::new(i, 9))
        );
        let parts: Vec<&str> = children(&tree, *function)
            .into_iter()
            .map(|c| tree.kind(c))
            .collect();
        assert_eq!(parts, vec!["fn", "identifier", "parameters", "block"]);
        let named: Vec<bool> = children(&tree, *function)
            .into_iter()
            .map(|c| tree.is_named(c))
            .collect();
        assert_eq!(named, vec![false, true, true, true]);
    }
}

#[test]
fn parsed_tree_has_every_node_once() {
    let content = "{\"a\": [1, 2, {\"b\": null}], \"c\": \"d\"}\n";
    let tree = json_tree(content);
    let mut parser = tree_sitter::Parser::new();
    parser
        .set_language(&tree_sitter::Language::from(tree_sitter_json::LANGUAGE))
        .unwrap();
    let parsed = parser.parse(content, None).unwrap();
    assert_eq!(tree.len(), parsed.root_node().descendant_count());
    let mut seen = vec![false; tree.len()];
    let mut stack = vec![0];
    while let Some(node) = stack.pop() {
        assert!(!seen[node]);
        seen[node] = true;
        for child in children(&tree, node) {
            assert_eq!(tree.parent(child), Some(node));
            assert!(tree.range(node).contains(&tree.range(child)));
            stack.push(child);
        }
    }
    assert!(seen.into_iter().all(|s| s));
}

#[test]
fn parsed_ranges_count_columns_in_codepoints() {
    let tree = json_tree("[\"€€\", \"ab\"]\n");
    let array = tree.child(0, 0);
    assert_eq!(tree.kind(array), "array");
    let strings: Vec<Range> = children(&tree, array)
        .into_iter()
        .filter(|c| tree.kind(*c) == "string")
        .map(|c| tree.range(c))
        .collect();
    assert_eq!(
        strings,
        vec![
            Range::new(1, 9, Point::new(0, 1), Point::new(0, 5)),
            Range::new(11, 15, Point::new(0, 7), Point::new(0, 11)),
        ]
    );
}

#[test]
fn parsed_tree_of_an_empty_text_is_a_root() {
    let tree = json_tree("");
    assert_eq!(tree.len(), 1);
    assert_eq!(tree.kind(0), "document");
    assert_eq!(tree.range(0), Range::new(0, 0, Point::new(0, 0), Point::new(0, 0)));
}
