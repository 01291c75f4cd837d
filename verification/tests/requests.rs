use kak_tree::config::Config;
use kak_tree::language::filetype_to_language;
use kak_tree::parser::{handle_request, handle_request_in};
use kak_tree::request::{Request, RequestError};
use kak_tree::select::Op;

fn ask(op: Op, filetype: &str, selections_desc: &str, content: &str) -> Request {
    Request {
        op,
        filetype: filetype.to_string(),
        selections_desc: selections_desc.to_string(),
        content: content.to_string(),
    }
}

#[test]
fn select_next_node_moves_to_the_second_function() {
    let config = Config::default();
    let request = ask(
        Op::SelectNextNode { kind: None },
        "rust",
        "1.1,1.1",
        "fn a() {}\nfn b() {}\n",
    );
    assert_eq!(
        handle_request(&config, &request),
        Ok("select 2.1,2.9".to_string())
    );
}

#[test]
fn select_children_of_a_pair_gives_key_and_value() {
    let config = Config::default();
    let request = ask(
        Op::SelectChildren { kind: None },
        "json",
        "2.3,2.8",
        "{\n  \"a\": 1\n}\n",
    );
    assert_eq!(
        handle_request(&config, &request),
        Ok("select 2.3,2.5 2.8,2.8".to_string())
    );
}

#[test]
fn select_kind_without_a_match_fails() {
    let config = Config::default();
    let request = ask(
        Op::SelectKind { kind: "no_such_kind".to_string() },
        "rust",
        "1.1,1.1",
        "fn a() {}\nfn b() {}\n",
    );
    assert_eq!(
        handle_request(&config, &request),
        Ok("fail no selections remaining".to_string())
    );
}

#[test]
fn malformed_selections_are_refused() {
    let config = Config::default();
    let request = ask(Op::SelectFirstChild, "rust", "1.1;1.1", "fn a() {}\n");
    assert_eq!(
        handle_request(&config, &request),
        Err(RequestError::Selections)
    );
}

#[test]
fn select_children_of_an_object_gives_its_pairs() {
    let config = Config::default();
    let request = ask(
        Op::SelectChildren { kind: None },
        "json",
        "1.1,3.1",
        "{\n  \"a\": 1,\n  \"b\": [2]\n}\n",
    );
    assert_eq!(
        handle_request(&config, &request),
        Ok("select 2.3,2.8 3.3,3.10".to_string())
    );
}

#[test]
fn select_previous_node_at_the_first_function_stays() {
    let config = Config::default();
    let request = ask(
        Op::SelectPreviousNode { kind: None },
        "rust",
        "1.4,1.4",
        "fn a() {}\nfn b() {}\n",
    );
    assert_eq!(
        handle_request(&config, &request),
        Ok("select 1.4,1.4".to_string())
    );
    let request = ask(
        Op::SelectPreviousNode { kind: None },
        "rust",
        "1.1,1.1",
        "fn a() {}\nfn b() {}\n",
    );
    assert_eq!(
        handle_request(&config, &request),
        Ok("select 1.1,1.9".to_string())
    );
}

#[test]
fn select_parent_node_widens_the_selection() {
    let config = Config::default();
    let content = "fn a() {}\nfn b() {}\n";
    let request1 = ask(Op::SelectParentNode { kind: None }, "rust", "2.4,2.4", content);
    assert_eq!(
        handle_request(&config, &request1),
        Ok("select 2.1,2.9".to_string())
    );
    let request2 = ask(Op::SelectParentNode { kind: None }, "rust", "2.1,2.9", content);
    assert_eq!(
        handle_request(&config, &request2),
        Ok("select 1.1,2.11".to_string())
    );
}

#[test]
fn select_parent_node_of_a_kind_drops_what_has_none() {
    let config = Config::default();
    let content = "fn a() { 1 }\nconst B: u8 = 2;\n";
    let op = Op::SelectParentNode { kind: Some("function_item".to_string()) };
    let request1 = ask(op, "rust", "1.10,1.10 2.15,2.15", content);
    assert_eq!(
        handle_request(&config, &request1),
        Ok("select 1.1,1.12".to_string())
    );
    let op = Op::SelectParentNode { kind: Some("function_item".to_string()) };
    let request2 = ask(op, "rust", "2.15,2.15", content);
    assert_eq!(
        handle_request(&config, &request2),
        Ok("fail no selections remaining".to_string())
    );
}

#[test]
fn select_kind_finds_the_nearest_nodes_of_the_kind() {
    let config = Config::default();
    let request = ask(
        Op::SelectKind { kind: "identifier".to_string() },
        "rust",
        "1.1,2.10",
        "fn a() {}\nfn b() {}\n",
    );
    assert_eq!(
        handle_request(&config, &request),
        Ok("select 1.4,1.4 2.4,2.4".to_string())
    );
}

#[test]
fn select_first_child_takes_the_name_of_the_function() {
    let config = Config::default();
    let request = ask(Op::SelectFirstChild, "rust", "1.1,1.1", "fn a() {}\nfn b() {}\n");
    assert_eq!(
        handle_request(&config, &request),
        Ok("select 1.4,1.4".to_string())
    );
}

#[test]
fn hidden_kinds_are_passed_over() {
    let mut config = Config::default();
    config.set_filetype_config(
        "rust".to_string(),
        kak_tree::config::FiletypeConfig::new(None, Some(vec!["function_item".to_string()])),
    );
    let request = ask(
        Op::SelectParentNode { kind: None },
        "rust",
        "2.4,2.4",
        "fn a() {}\nfn b() {}\n",
    );
    assert_eq!(
        handle_request(&config, &request),
        Ok("select 2.1,2.9".to_string())
    );
    let mut config = Config::default();
    config.set_filetype_config(
        "rust".to_string(),
        kak_tree::config::FiletypeConfig::new(Some(vec!["line_comment".to_string()]), None),
    );
    let request = ask(
        Op::SelectNextNode { kind: None },
        "rust",
        "1.1,1.1",
        "fn a() {}\n// c\nfn b() {}\n",
    );
    assert_eq!(
        handle_request(&config, &request),
        Ok("select 3.1,3.9".to_string())
    );
}

#[test]
fn node_s_exp_shows_the_tree_at_the_first_selection() {
    let config = Config::default();
    let request1 = ask(Op::NodeSExp, "json", "1.1,1.1 1.2,1.2", "[1]\n");
    assert_eq!(
        handle_request(&config, &request1),
        Ok("info '(\"[\")'".to_string())
    );
    let request2 = ask(Op::NodeSExp, "json", "1.1,1.3", "[1]\n");
    assert_eq!(
        handle_request(&config, &request2),
        Ok("info '(array (number))'".to_string())
    );
}

#[test]
fn node_s_exp_without_a_selection_has_no_answer() {
    let config = Config::default();
    let request = ask(Op::NodeSExp, "json", "", "[1]\n");
    assert_eq!(
        handle_request(&config, &request),
        Err(RequestError::NoSelection)
    );
}

#[test]
fn selections_outside_the_text_are_refused() {
    let config = Config::default();
    let request = ask(Op::SelectFirstChild, "rust", "3.1,3.1", "fn a() {}\n");
    assert_eq!(
        handle_request(&config, &request),
        Err(RequestError::Selections)
    );
}

#[test]
fn columns_behind_wide_codepoints_are_counted_in_codepoints() {
    let config = Config::default();
    let request = ask(
        Op::SelectParentNode { kind: None },
        "rust",
        "1.9,1.9",
        "/* é */ fn a() {}\n",
    );
    assert_eq!(
        handle_request(&config, &request),
        Ok("select 1.9,1.17".to_string())
    );
    let request = ask(
        Op::SelectKind { kind: "string_content".to_string() },
        "json",
        "1.1,1.13",
        "[\"€€\", \"ab\"]\n",
    );
    assert_eq!(
        handle_request(&config, &request),
        Ok("select 1.3,1.4 1.9,1.10".to_string())
    );
}

#[test]
fn every_cursor_in_a_broken_text_gets_an_answer() {
    let config = Config::default();
    let content = "// héllo wörld\nfn a( {\n    let s = \"€\";;\n}\n\nstruct\n";
    let lines: Vec<&str> = content.split('\n').collect();
    for (row, line) in lines.iter().enumerate() {
        for col in 0..line.chars().count() + 1 {
            let desc = format!("{}.{},{}.{}", row + 1, col + 1, row + 1, col + 1);
            let ops = vec![
                Op::SelectChildren { kind: None },
                Op::SelectChildren { kind: Some("identifier".to_string()) },
                Op::SelectFirstChild,
                Op::SelectKind { kind: "identifier".to_string() },
                Op::SelectNextNode { kind: None },
                Op::SelectNextNode { kind: Some("identifier".to_string()) },
                Op::SelectParentNode { kind: None },
                Op::SelectParentNode { kind: Some("function_item".to_string()) },
                Op::SelectPreviousNode { kind: None },
                Op::NodeSExp,
            ];
            for op in ops {
                let shown = matches!(op, Op::NodeSExp);
                let answer = handle_request(&config, &ask(op, "rust", &desc, content));
                let text = answer.unwrap();
                if shown {
                    assert!(text.starts_with("info '") && text.ends_with("'"), "{}", text);
                } else {
                    assert!(
                        text == "fail no selections remaining" || text.starts_with("select "),
                        "{}",
                        text
                    );
                }
            }
        }
    }
}

#[test]
fn whole_text_selected_for_a_kind_gives_all_of_the_kind() {
    let config = Config::default();
    let content = "fn a(x: u8) {}\nfn b() { a(1) }\n";
    let request = ask(
        Op::SelectKind { kind: "function_item".to_string() },
        "rust",
        "1.1,3.1",
        content,
    );
    assert_eq!(
        handle_request(&config, &request),
        Ok("select 1.1,1.14 2.1,2.15".to_string())
    );
    let request = ask(
        Op::SelectChildren { kind: Some("parameters".to_string()) },
        "rust",
        "1.1,2.15",
        content,
    );
    assert_eq!(
        handle_request(&config, &request),
        Ok("select 1.5,1.11 2.5,2.6".to_string())
    );
}

#[test]
fn language_without_a_grammar_has_no_answer() {
    let config = Config::default();
    for filetype in ["", "C", "Rust", "rust ", "jsonc", "default", "bash", "elm", "tsx"] {
        let request = ask(Op::SelectFirstChild, filetype, "1.1,1.1", "fn a() {}\n");
        assert_eq!(
            handle_request(&config, &request),
            Err(RequestError::UnsupportedLanguage),
            "{}",
            filetype
        );
        assert!(filetype_to_language(filetype).is_none());
    }
    // this failure comes before any other
    let request = ask(Op::NodeSExp, "elm", "no selections", "");
    assert_eq!(handle_request(&config, &request), Err(RequestError::UnsupportedLanguage));
}

#[test]
fn known_languages_have_their_grammar() {
    let roots = [
        ("sh", "x=1\n", "program"),
        ("c", "int x;\n", "translation_unit"),
        ("c_sharp", "class A {}\n", "compilation_unit"),
        ("cpp", "class A {};\n", "translation_unit"),
        ("css", "a { b: c }\n", "stylesheet"),
        ("go", "package a\n", "source_file"),
        ("haskell", "x = 1\n", "haskell"),
        ("html", "<p>a</p>\n", "document"),
        ("java", "class A {}\n", "program"),
        ("javascript", "let a = 1;\n", "program"),
        ("json", "[1]\n", "document"),
        ("julia", "x = 1\n", "source_file"),
        ("ocaml", "let x = 1\n", "compilation_unit"),
        ("php", "<?php $a = 1;\n", "program"),
        ("python", "x = 1\n", "module"),
        ("ruby", "x = 1\n", "program"),
        ("rust", "fn a() {}\n", "source_file"),
        ("scala", "object A\n", "compilation_unit"),
        ("typescript", "let a: number = 1;\n", "program"),
    ];
    for (filetype, content, root) in roots {
        let language = filetype_to_language(filetype).unwrap();
        let tree = kak_tree::parser::parse(content, &language).unwrap();
        assert_eq!(tree.kind(0), root, "{}", filetype);
        let config = Config::default();
        let request = ask(Op::SelectFirstChild, filetype, "1.1,1.1", content);
        let answer = handle_request(&config, &request).unwrap();
        assert!(answer.starts_with("select 1."), "{}: {}", filetype, answer);
    }
}

#[test]
fn each_language_reads_its_own_syntax() {
    let config = Config::default();
    let shown = |filetype: &str, content: &str| {
        handle_request(&config, &ask(Op::NodeSExp, filetype, "1.1,1.1", content)).unwrap()
    };
    assert_eq!(shown("json", "[1]\n"), "info '(\"[\")'");
    assert_eq!(shown("python", "def f(): pass\n"), "info '(\"def\")'");
    assert_eq!(shown("go", "func f() {}\n"), "info '(\"func\")'");
    assert_eq!(shown("ruby", "def f; end\n"), "info '(\"def\")'");
    assert_eq!(shown("c", "struct a;\n"), "info '(\"struct\")'");
    assert_eq!(shown("java", "class A {}\n"), "info '(\"class\")'");
    assert_eq!(shown("javascript", "function f() {}\n"), "info '(\"function\")'");
}

#[test]
fn grammar_of_the_caller_is_used() {
    let config = Config::default();
    let json = tree_sitter::Language::from(tree_sitter_json::LANGUAGE);
    // the language of the request names the policy only
    let request = ask(Op::NodeSExp, "no such language", "1.1,1.3", "[1]\n");
    assert_eq!(
        handle_request_in(&config, &request, &json),
        Ok("info '(array (number))'".to_string())
    );
    let rust = filetype_to_language("rust").unwrap();
    let request = ask(Op::SelectNextNode { kind: None }, "json", "1.1,1.1", "fn a() {}\nfn b() {}\n");
    assert_eq!(
        handle_request_in(&config, &request, &rust),
        Ok("select 2.1,2.9".to_string())
    );
}

#[test]
fn selection_within_the_only_item_finds_what_is_inside() {
    let config = Config::default();
    // without a last line end the file and its one item span the same bytes
    let request = ask(
        Op::SelectKind { kind: "identifier".to_string() },
        "rust",
        "1.3,1.7",
        "fn a() {}",
    );
    assert_eq!(handle_request(&config, &request), Ok("select 1.4,1.4".to_string()));
    let request = ask(
        Op::SelectChildren { kind: Some("parameters".to_string()) },
        "rust",
        "1.2,1.9",
        "fn a() {}",
    );
    assert_eq!(handle_request(&config, &request), Ok("select 1.5,1.6".to_string()));
}
