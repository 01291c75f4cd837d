use crate::text::same_text;
use vstd::prelude::*;

verus! {

/// The grammar of a language, as tree-sitter holds it.
#[verifier::external_type_specification]
#[verifier::external_body]
pub struct ExLanguage(tree_sitter::Language);

/// Whether there is a grammar for the language that the editor calls
/// `filetype`.
pub open spec fn supported(filetype: Seq<char>) -> bool {
    ||| filetype == "sh"@
    ||| filetype == "c"@
    ||| filetype == "c_sharp"@
    ||| filetype == "cpp"@
    ||| filetype == "css"@
    ||| filetype == "go"@
    ||| filetype == "haskell"@
    ||| filetype == "html"@
    ||| filetype == "java"@
    ||| filetype == "javascript"@
    ||| filetype == "json"@
    ||| filetype == "julia"@
    ||| filetype == "ocaml"@
    ||| filetype == "php"@
    ||| filetype == "python"@
    ||| filetype == "ruby"@
    ||| filetype == "rust"@
    ||| filetype == "scala"@
    ||| filetype == "typescript"@
}

/// The grammar of Bash. Trusted: it calls `Language::new` of
/// tree-sitter on the constant `LANGUAGE` of tree-sitter-bash.
/// Nothing is claimed of the grammar.
#[verifier::external_body]
fn bash_grammar() -> tree_sitter::Language {
    tree_sitter::Language::new(tree_sitter_bash::LANGUAGE)
}

/// The grammar of C. Trusted: it calls `Language::new` of
/// tree-sitter on the constant `LANGUAGE` of tree-sitter-c.
/// Nothing is claimed of the grammar.
#[verifier::external_body]
fn c_grammar() -> tree_sitter::Language {
    tree_sitter::Language::new(tree_sitter_c::LANGUAGE)
}

/// The grammar of C#. Trusted: it calls `Language::new` of
/// tree-sitter on the constant `LANGUAGE` of tree-sitter-c-sharp.
/// Nothing is claimed of the grammar.
#[verifier::external_body]
fn c_sharp_grammar() -> tree_sitter::Language {
    tree_sitter::Language::new(tree_sitter_c_sharp::LANGUAGE)
}

/// The grammar of C++. Trusted: it calls `Language::new` of
/// tree-sitter on the constant `LANGUAGE` of tree-sitter-cpp.
/// Nothing is claimed of the grammar.
#[verifier::external_body]
fn cpp_grammar() -> tree_sitter::Language {
    tree_sitter::Language::new(tree_sitter_cpp::LANGUAGE)
}

/// The grammar of CSS. Trusted: it calls `Language::new` of
/// tree-sitter on the constant `LANGUAGE` of tree-sitter-css.
/// Nothing is claimed of the grammar.
#[verifier::external_body]
fn css_grammar() -> tree_sitter::Language {
    tree_sitter::Language::new(tree_sitter_css::LANGUAGE)
}

/// The grammar of Go. Trusted: it calls `Language::new` of
/// tree-sitter on the constant `LANGUAGE` of tree-sitter-go.
/// Nothing is claimed of the grammar.
#[verifier::external_body]
fn go_grammar() -> tree_sitter::Language {
    tree_sitter::Language::new(tree_sitter_go::LANGUAGE)
}

/// The grammar of Haskell. Trusted: it calls `Language::new` of
/// tree-sitter on the constant `LANGUAGE` of tree-sitter-haskell.
/// Nothing is claimed of the grammar.
#[verifier::external_body]
fn haskell_grammar() -> tree_sitter::Language {
    tree_sitter::Language::new(tree_sitter_haskell::LANGUAGE)
}

/// The grammar of HTML. Trusted: it calls `Language::new` of
/// tree-sitter on the constant `LANGUAGE` of tree-sitter-html.
/// Nothing is claimed of the grammar.
#[verifier::external_body]
fn html_grammar() -> tree_sitter::Language {
    tree_sitter::Language::new(tree_sitter_html::LANGUAGE)
}

/// The grammar of Java. Trusted: it calls `Language::new` of
/// tree-sitter on the constant `LANGUAGE` of tree-sitter-java.
/// Nothing is claimed of the grammar.
#[verifier::external_body]
fn java_grammar() -> tree_sitter::Language {
    tree_sitter::Language::new(tree_sitter_java::LANGUAGE)
}

/// The grammar of JavaScript. Trusted: it calls `Language::new` of
/// tree-sitter on the constant `LANGUAGE` of tree-sitter-javascript.
/// Nothing is claimed of the grammar.
#[verifier::external_body]
fn javascript_grammar() -> tree_sitter::Language {
    tree_sitter::Language::new(tree_sitter_javascript::LANGUAGE)
}

/// The grammar of JSON. Trusted: it calls `Language::new` of
/// tree-sitter on the constant `LANGUAGE` of tree-sitter-json.
/// Nothing is claimed of the grammar.
#[verifier::external_body]
fn json_grammar() -> tree_sitter::Language {
    tree_sitter::Language::new(tree_sitter_json::LANGUAGE)
}

/// The grammar of Julia. Trusted: it calls `Language::new` of
/// tree-sitter on the constant `LANGUAGE` of tree-sitter-julia.
/// Nothing is claimed of the grammar.
#[verifier::external_body]
fn julia_grammar() -> tree_sitter::Language {
    tree_sitter::Language::new(tree_sitter_julia::LANGUAGE)
}

/// The grammar of OCaml. Trusted: it calls `Language::new` of
/// tree-sitter on the constant `LANGUAGE_OCAML` of tree-sitter-ocaml.
/// Nothing is claimed of the grammar.
#[verifier::external_body]
fn ocaml_grammar() -> tree_sitter::Language {
    tree_sitter::Language::new(tree_sitter_ocaml::LANGUAGE_OCAML)
}

/// The grammar of PHP. Trusted: it calls `Language::new` of
/// tree-sitter on the constant `LANGUAGE_PHP` of tree-sitter-php.
/// Nothing is claimed of the grammar.
#[verifier::external_body]
fn php_grammar() -> tree_sitter::Language {
    tree_sitter::Language::new(tree_sitter_php::LANGUAGE_PHP)
}

/// The grammar of Python. Trusted: it calls `Language::new` of
/// tree-sitter on the constant `LANGUAGE` of tree-sitter-python.
/// Nothing is claimed of the grammar.
#[verifier::external_body]
fn python_grammar() -> tree_sitter::Language {
    tree_sitter::Language::new(tree_sitter_python::LANGUAGE)
}

/// The grammar of Ruby. Trusted: it calls `Language::new` of
/// tree-sitter on the constant `LANGUAGE` of tree-sitter-ruby.
/// Nothing is claimed of the grammar.
#[verifier::external_body]
fn ruby_grammar() -> tree_sitter::Language {
    tree_sitter::Language::new(tree_sitter_ruby::LANGUAGE)
}

/// The grammar of Rust. Trusted: it calls `Language::new` of
/// tree-sitter on the constant `LANGUAGE` of tree-sitter-rust.
/// Nothing is claimed of the grammar.
#[verifier::external_body]
fn rust_grammar() -> tree_sitter::Language {
    tree_sitter::Language::new(tree_sitter_rust::LANGUAGE)
}

/// The grammar of Scala. Trusted: it calls `Language::new` of
/// tree-sitter on the constant `LANGUAGE` of tree-sitter-scala.
/// Nothing is claimed of the grammar.
#[verifier::external_body]
fn scala_grammar() -> tree_sitter::Language {
    tree_sitter::Language::new(tree_sitter_scala::LANGUAGE)
}

/// The grammar of TypeScript. Trusted: it calls `Language::new` of
/// tree-sitter on the constant `LANGUAGE_TYPESCRIPT` of tree-sitter-typescript.
/// Nothing is claimed of the grammar.
#[verifier::external_body]
fn typescript_grammar() -> tree_sitter::Language {
    tree_sitter::Language::new(tree_sitter_typescript::LANGUAGE_TYPESCRIPT)
}

/// The grammar for the language that the editor calls `filetype`, or
/// `None` where there is none.
pub fn filetype_to_language(filetype: &str) -> (language: Option<tree_sitter::Language>)
    ensures
        language is Some <==> supported(filetype@),
{
    if same_text(filetype, "sh") {
        Some(bash_grammar())
    } else if same_text(filetype, "c") {
        Some(c_grammar())
    } else if same_text(filetype, "c_sharp") {
        Some(c_sharp_grammar())
    } else if same_text(filetype, "cpp") {
        Some(cpp_grammar())
    } else if same_text(filetype, "css") {
        Some(css_grammar())
    } else if same_text(filetype, "go") {
        Some(go_grammar())
    } else if same_text(filetype, "haskell") {
        Some(haskell_grammar())
    } else if same_text(filetype, "html") {
        Some(html_grammar())
    } else if same_text(filetype, "java") {
        Some(java_grammar())
    } else if same_text(filetype, "javascript") {
        Some(javascript_grammar())
    } else if same_text(filetype, "json") {
        Some(json_grammar())
    } else if same_text(filetype, "julia") {
        Some(julia_grammar())
    } else if same_text(filetype, "ocaml") {
        Some(ocaml_grammar())
    } else if same_text(filetype, "php") {
        Some(php_grammar())
    } else if same_text(filetype, "python") {
        Some(python_grammar())
    } else if same_text(filetype, "ruby") {
        Some(ruby_grammar())
    } else if same_text(filetype, "rust") {
        Some(rust_grammar())
    } else if same_text(filetype, "scala") {
        Some(scala_grammar())
    } else if same_text(filetype, "typescript") {
        Some(typescript_grammar())
    } else {
        None
    }
}

} // verus!
