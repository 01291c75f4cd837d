use crate::config::{lookup, Config, PolicyView};
use crate::kakoune::{buffer_of, codepoint_range, columns_in_lines, lines, range_in_codepoints};
use crate::language::{filetype_to_language, supported};
use crate::range::{Point, Range};
use crate::request::{
    answer_request, info_answer, info_text, planned, Request, RequestError, Step, StepView,
};
use crate::select::Op;
use crate::syntax::{above, in_level_order, linked_down, with_child, NodeView, SyntaxTree};
use crate::text::texts;
use vstd::prelude::*;

verus! {

/// Why tree-sitter does not take a grammar.
#[verifier::external_type_specification]
#[verifier::external_body]
pub struct ExLanguageError(tree_sitter::LanguageError);

/// A syntax tree of tree-sitter.
#[verifier::external_type_specification]
#[verifier::external_body]
pub struct ExTree(tree_sitter::Tree);

/// A node of a syntax tree of tree-sitter.
#[verifier::external_type_specification]
#[verifier::external_body]
pub struct ExNode<'tree>(tree_sitter::Node<'tree>);

/// Whether a parser of tree-sitter takes the grammar `language`.
pub uninterp spec fn takes_grammar(language: tree_sitter::Language) -> bool;

/// The tree that a new parser of tree-sitter gives for `text` in the
/// grammar `language`, if it gives one.
pub uninterp spec fn parsed(language: tree_sitter::Language, text: Seq<char>) -> Option<
    tree_sitter::Tree,
>;

/// The root of `tree`.
pub uninterp spec fn root_node(tree: tree_sitter::Tree) -> tree_sitter::Node<'static>;

/// The kind of `node`.
pub uninterp spec fn kind_name(node: tree_sitter::Node) -> Seq<char>;

/// Whether `node` is named.
pub uninterp spec fn named_node(node: tree_sitter::Node) -> bool;

/// The range of `node`, its columns counted in bytes.
pub uninterp spec fn byte_range(node: tree_sitter::Node) -> Range;

/// The number of children of `node`.
pub uninterp spec fn child_number(node: tree_sitter::Node) -> u32;

/// The `i`-th child of `node`, if there is one.
pub uninterp spec fn child_node(node: tree_sitter::Node, i: u32) -> Option<tree_sitter::Node>;

/// The tree below `node` as text.
pub uninterp spec fn sexp_text(node: tree_sitter::Node) -> Seq<char>;

/// Parses `text` with a new parser in the grammar `language`. Trusted:
/// it calls `Parser::new`, `Parser::set_language` and, with no earlier
/// tree, `Parser::parse` of tree-sitter. Whether the grammar is taken
/// depends on the grammar alone; what a new parser with that grammar
/// gives depends on the grammar and the text alone. No more is claimed.
#[verifier::external_body]
fn parse_afresh(language: &tree_sitter::Language, text: &str) -> (outcome: Result<
    Option<tree_sitter::Tree>,
    tree_sitter::LanguageError,
>)
    ensures
        outcome is Ok <==> takes_grammar(*language),
        outcome matches Ok(tree) ==> tree == parsed(*language, text@),
{
    let mut parser = tree_sitter::Parser::new();
    parser.set_language(language)?;
    Ok(parser.parse(text, None))
}

/// The root of `tree`. Trusted: it calls `Tree::root_node` of
/// tree-sitter; the node is the same for the same tree.
#[verifier::external_body]
fn root_of<'tree>(tree: &'tree tree_sitter::Tree) -> (node: tree_sitter::Node<'tree>)
    ensures
        node == root_node(*tree),
{
    tree.root_node()
}

/// The kind of `node`. Trusted: it calls `Node::kind` of tree-sitter;
/// the name is the same for the same node.
#[verifier::external_body]
fn kind_of<'tree>(node: &tree_sitter::Node<'tree>) -> (kind: &'tree str)
    ensures
        kind@ == kind_name(*node),
{
    node.kind()
}

/// Whether `node` is named. Trusted: it calls `Node::is_named` of
/// tree-sitter; the answer is the same for the same node.
#[verifier::external_body]
fn is_named(node: &tree_sitter::Node) -> (named: bool)
    ensures
        named == named_node(*node),
{
    node.is_named()
}

/// The range of `node`. Trusted: it calls `Node::range` of tree-sitter
/// and copies the four fields of what comes back; they are the same for
/// the same node.
#[verifier::external_body]
fn range_of(node: &tree_sitter::Node) -> (range: Range)
    ensures
        range == byte_range(*node),
{
    let range = node.range();
    Range {
        start_byte: range.start_byte,
        end_byte: range.end_byte,
        start_point: Point { row: range.start_point.row, column: range.start_point.column },
        end_point: Point { row: range.end_point.row, column: range.end_point.column },
    }
}

/// The number of children of `node`. Trusted: it calls
/// `Node::child_count` of tree-sitter; the number is the same for the
/// same node.
#[verifier::external_body]
fn child_count_of(node: &tree_sitter::Node) -> (count: u32)
    ensures
        count == child_number(*node),
{
    node.child_count()
}

/// The `i`-th child of `node`. Trusted: it calls `Node::child` of
/// tree-sitter; the outcome is the same for the same node and index.
#[verifier::external_body]
fn child_of<'tree>(node: &tree_sitter::Node<'tree>, i: u32) -> (child: Option<
    tree_sitter::Node<'tree>,
>)
    ensures
        child == child_node(*node, i),
{
    node.child(i)
}

/// The tree below `node` as text. Trusted: it calls `Node::to_sexp` of
/// tree-sitter; the text is the same for the same node.
#[verifier::external_body]
fn sexp_of(node: &tree_sitter::Node) -> (sexp: String)
    ensures
        sexp@ == sexp_text(*node),
{
    node.to_sexp()
}

/// What a node of the parser is read as, before its children are: its
/// kind, whether it is named, and its range with the columns counted in
/// codepoints of `lines`.
pub open spec fn read_as(
    node: tree_sitter::Node,
    lines: Seq<Seq<char>>,
    parent: Option<usize>,
    slot: usize,
) -> NodeView {
    NodeView {
        kind: kind_name(node),
        named: named_node(node),
        range: codepoint_range(lines, byte_range(node)),
        parent,
        slot,
        children: Seq::empty(),
    }
}

/// The nodes `t`, read from the nodes `hs` of the parser, with the
/// children of node `i` from the `k`-th on read in behind them. `None`
/// where a child that was counted is not there, where a child spans
/// bytes outside node `i`, or where the nodes get more than the machine
/// can count.
pub open spec fn read_children(
    t: Seq<NodeView>,
    hs: Seq<tree_sitter::Node<'static>>,
    lines: Seq<Seq<char>>,
    i: int,
    k: int,
) -> Option<(Seq<NodeView>, Seq<tree_sitter::Node<'static>>)>
    decreases child_number(hs[i]) - k,
{
    if i < 0 || i >= t.len() || i >= hs.len() || k < 0 || k >= child_number(hs[i]) {
        Some((t, hs))
    } else {
        match child_node(hs[i], k as u32) {
            Some(child) => {
                let range = codepoint_range(lines, byte_range(child));
                if t.len() < usize::MAX && t[i].range.covers(range) {
                    read_children(
                        with_child(
                            t,
                            i as usize,
                            kind_name(child),
                            named_node(child),
                            range,
                        ),
                        hs.push(child),
                        lines,
                        i,
                        k + 1,
                    )
                } else {
                    None
                }
            },
            None => None,
        }
    }
}

/// The nodes `t` with the children of node `i` and of every node behind
/// it read in, level by level.
pub open spec fn read_levels(
    t: Seq<NodeView>,
    hs: Seq<tree_sitter::Node<'static>>,
    lines: Seq<Seq<char>>,
    i: int,
) -> Option<(Seq<NodeView>, Seq<tree_sitter::Node<'static>>)>
    decreases usize::MAX - i,
{
    if i < 0 || i >= t.len() || i >= usize::MAX {
        Some((t, hs))
    } else {
        match read_children(t, hs, lines, i, 0) {
            Some((nodes, handles)) => read_levels(nodes, handles, lines, i + 1),
            None => None,
        }
    }
}

/// The tree below the node `root` of the parser, read level by level:
/// node 0 is `root`, then come the children of node 0 in their order,
/// then those of node 1, and so on. Beside the tree stand the nodes of
/// the parser, each at the index of the node that was read from it.
pub open spec fn read(root: tree_sitter::Node, lines: Seq<Seq<char>>) -> Option<
    (Seq<NodeView>, Seq<tree_sitter::Node<'static>>),
> {
    read_levels(seq![read_as(root, lines, None, 0)], seq![root], lines, 0)
}

/// Node `j` holds what the parser says of the node that it was read
/// from: its kind, whether it is named, and its range, with the columns
/// counted in codepoints of `lines`.
pub open spec fn node_mirrored(
    t: Seq<NodeView>,
    hs: Seq<tree_sitter::Node<'static>>,
    lines: Seq<Seq<char>>,
    j: int,
) -> bool {
    &&& t[j].kind == kind_name(hs[j])
    &&& t[j].named == named_node(hs[j])
    &&& t[j].range == codepoint_range(lines, byte_range(hs[j]))
}

/// The `k`-th child of node `j` was read from the `k`-th child that the
/// parser gives for the node that `j` was read from.
pub open spec fn child_mirrored(
    t: Seq<NodeView>,
    hs: Seq<tree_sitter::Node<'static>>,
    j: int,
    k: int,
) -> bool {
    child_node(hs[j], k as u32) == Some(hs[t[j].children[k] as int])
}

/// Every node of `t` holds what the parser says of the node that it was
/// read from.
pub open spec fn nodes_mirrored(
    t: Seq<NodeView>,
    hs: Seq<tree_sitter::Node<'static>>,
    lines: Seq<Seq<char>>,
) -> bool {
    forall|j: int| 0 <= j < t.len() ==> #[trigger] node_mirrored(t, hs, lines, j)
}

/// Every child in `t` was read from the child at the same place in the
/// tree of the parser.
pub open spec fn children_mirrored(t: Seq<NodeView>, hs: Seq<tree_sitter::Node<'static>>) -> bool {
    forall|j: int, k: int|
        0 <= j < t.len() && 0 <= k < t[j].children.len() ==> #[trigger] child_mirrored(t, hs, j, k)
}

/// The tree `t` mirrors the tree of the parser below `root`, node by
/// node: node 0 was read from `root`, every node holds what the parser
/// says of the node it was read from, and has as many children as that
/// node, each read from the child at the same place.
pub open spec fn mirrors(
    t: Seq<NodeView>,
    hs: Seq<tree_sitter::Node<'static>>,
    root: tree_sitter::Node,
    lines: Seq<Seq<char>>,
) -> bool {
    &&& hs.len() == t.len()
    &&& hs[0] == root
    &&& nodes_mirrored(t, hs, lines)
    &&& forall|j: int| 0 <= j < t.len() ==> (#[trigger] t[j]).children.len() == child_number(hs[j])
    &&& children_mirrored(t, hs)
}

/// Reads the tree below `root` into a `SyntaxTree`, level by level, and
/// keeps for each node the node of tree-sitter that it was read from.
/// The columns of the ranges, which tree-sitter counts in bytes, are
/// counted anew in codepoints of the lines of `buffer`.
/// `None` where a node spans bytes outside its parent, where a child
/// that was counted is not there, or where the nodes are more than the
/// machine can count. A tree that comes back is well formed, stands
/// level by level, and has no column behind the end of its line.
fn read_tree<'tree>(root: tree_sitter::Node<'tree>, buffer: &[String]) -> (got: Option<
    (SyntaxTree, Vec<tree_sitter::Node<'tree>>),
>)
    ensures
        match got {
            Some((tree, handles)) => read(root, texts(buffer@)) == Some((tree@, handles@)),
            None => read(root, texts(buffer@)) is None,
        },
        got matches Some((tree, handles)) ==> {
            &&& tree.wf()
            &&& handles@.len() == tree@.len()
            &&& mirrors(tree@, handles@, root, texts(buffer@))
            &&& in_level_order(tree@)
            &&& forall|j: int|
                0 <= j < tree@.len() ==> columns_in_lines(
                    texts(buffer@),
                    #[trigger] tree@[j].range,
                )
        },
{
    let ghost lines = texts(buffer@);
    let mut tree = SyntaxTree::new(
        kind_of(&root),
        is_named(&root),
        range_in_codepoints(buffer, range_of(&root)),
    );
    let mut handles: Vec<tree_sitter::Node<'tree>> = Vec::new();
    handles.push(root);
    proof {
        assert(handles@ =~= seq![root]);
    }
    let mut i: usize = 0;
    while i < tree.len()
        invariant
            lines == texts(buffer@),
            tree.wf(),
            handles@.len() == tree@.len(),
            i <= tree@.len(),
            in_level_order(tree@),
            forall|j: int| 0 <= j < tree@.len() ==> above(tree@, j) < i,
            forall|j: int|
                0 <= j < tree@.len() ==> columns_in_lines(lines, #[trigger] tree@[j].range),
            read(root, lines) == read_levels(tree@, handles@, lines, i as int),
            handles@[0] == root,
            nodes_mirrored(tree@, handles@, lines),
            forall|j: int|
                0 <= j < i ==> (#[trigger] tree@[j]).children.len() == child_number(handles@[j]),
            forall|j: int| i <= j < tree@.len() ==> (#[trigger] tree@[j]).children.len() == 0,
            children_mirrored(tree@, handles@),
        decreases usize::MAX - i,
    {
        let count = child_count_of(&handles[i]);
        let mut k: u32 = 0;
        while k < count
            invariant
                lines == texts(buffer@),
                tree.wf(),
                handles@.len() == tree@.len(),
                i < tree@.len(),
                k <= count,
                count == child_number(handles@[i as int]),
                in_level_order(tree@),
                forall|j: int| 0 <= j < tree@.len() ==> above(tree@, j) <= i,
                forall|j: int|
                    0 <= j < tree@.len() ==> columns_in_lines(lines, #[trigger] tree@[j].range),
                read(root, lines) == match read_children(
                    tree@,
                    handles@,
                    lines,
                    i as int,
                    k as int,
                ) {
                    Some((nodes, more)) => read_levels(nodes, more, lines, i + 1),
                    None => None,
                },
                handles@[0] == root,
                nodes_mirrored(tree@, handles@, lines),
                forall|j: int|
                    0 <= j < i ==> (#[trigger] tree@[j]).children.len() == child_number(
                        handles@[j],
                    ),
                tree@[i as int].children.len() == k,
                forall|j: int| i < j < tree@.len() ==> (#[trigger] tree@[j]).children.len() == 0,
                children_mirrored(tree@, handles@),
            decreases count - k,
        {
            let child = match child_of(&handles[i], k) {
                Some(child) => child,
                None => {
                    return None;
                },
            };
            if tree.len() == usize::MAX {
                return None;
            }
            let range = range_in_codepoints(buffer, range_of(&child));
            let ghost before = tree@;
            let ghost handles_before = handles@;
            match tree.add_child(i, kind_of(&child), is_named(&child), range) {
                Some(_) => {
                    handles.push(child);
                    proof {
                        assert(handles@[i as int] == handles_before[i as int]);
                        assert forall|j: int| 0 <= j < tree@.len() implies #[trigger] node_mirrored(
                            tree@,
                            handles@,
                            lines,
                            j,
                        ) by {
                            if j < before.len() {
                                assert(node_mirrored(before, handles_before, lines, j));
                            }
                        }
                        assert forall|j: int, m: int|
                            0 <= j < tree@.len() && 0 <= m < tree@[j].children.len() implies
                            #[trigger] child_mirrored(tree@, handles@, j, m) by {
                            if j != i || m < before[i as int].children.len() {
                                assert(child_mirrored(before, handles_before, j, m));
                                assert(linked_down(before, j, m));
                            }
                        }
                        assert forall|j: int| 0 <= j < tree@.len() implies above(tree@, j) == (if j
                            < before.len() {
                            above(before, j)
                        } else {
                            i as int
                        }) by {}
                        assert forall|j: int| 0 <= j < tree@.len() implies columns_in_lines(
                            lines,
                            #[trigger] tree@[j].range,
                        ) by {
                            if j < before.len() {
                                assert(tree@[j].range == before[j].range);
                            }
                        }
                    }
                },
                None => {
                    return None;
                },
            }
            k += 1;
        }
        i += 1;
    }
    Some((tree, handles))
}

/// The tree that is read from what the parser gives for `content` in the
/// grammar `language`, with the nodes of the parser beside it; or why
/// there is none: the parser does not take the grammar, it gives no
/// tree, or what it gives cannot be read.
pub open spec fn tree_read(language: tree_sitter::Language, content: Seq<char>) -> Result<
    (Seq<NodeView>, Seq<tree_sitter::Node<'static>>),
    RequestError,
> {
    if !takes_grammar(language) {
        Err(RequestError::Language)
    } else {
        match parsed(language, content) {
            Some(tree) => match read(root_node(tree), lines(content)) {
                Some(got) => Ok(got),
                None => Err(RequestError::Tree),
            },
            None => Err(RequestError::Parse),
        }
    }
}

/// The answer to the request `op` on the selections `desc` in the text
/// `content` of the language `filetype`, parsed in the grammar
/// `language`: what `planned` says for the tree that is read, where the
/// text that shows a tree is the one that tree-sitter gives for the
/// node.
pub open spec fn answered(
    policies: Map<Seq<char>, PolicyView>,
    op: Op,
    filetype: Seq<char>,
    desc: Seq<char>,
    content: Seq<char>,
    language: tree_sitter::Language,
) -> Result<Seq<char>, RequestError> {
    match tree_read(language, content) {
        Ok((t, handles)) => match planned(t, lookup(policies, filetype), op, desc, content) {
            Ok(StepView::Answer(text)) => Ok(text),
            Ok(StepView::Dump(node)) => Ok(info_text(sexp_text(handles[node as int]))),
            Err(e) => Err(e),
        },
        Err(e) => Err(e),
    }
}

/// What `answer` holds, as plain values.
pub open spec fn answer_view(answer: Result<String, RequestError>) -> Result<
    Seq<char>,
    RequestError,
> {
    match answer {
        Ok(text) => Ok(text@),
        Err(e) => Err(e),
    }
}

/// Reads what the parser gave for `content` into a `SyntaxTree`; beside
/// it come the nodes of tree-sitter, by the index of the node that each
/// was read into.
fn parse_and_read<'tree>(
    parsed: &'tree Option<tree_sitter::Tree>,
    content: &str,
) -> (got: Result<(SyntaxTree, Vec<tree_sitter::Node<'tree>>), RequestError>)
    ensures
        match (*parsed, got) {
            (None, Err(e)) => e == RequestError::Parse,
            (Some(given), Err(e)) => e == RequestError::Tree && read(
                root_node(given),
                lines(content@),
            ) is None,
            (Some(given), Ok((tree, handles))) => {
                &&& read(root_node(given), lines(content@)) == Some((tree@, handles@))
                &&& mirrors(tree@, handles@, root_node(given), lines(content@))
            },
            (None, Ok(_)) => false,
        },
        got matches Ok((tree, handles)) ==> tree.wf() && handles@.len() == tree@.len(),
{
    match parsed {
        Some(parsed) => {
            let buffer = buffer_of(content);
            match read_tree(root_of(parsed), buffer.as_slice()) {
                Some(read) => Ok(read),
                None => Err(RequestError::Tree),
            }
        },
        None => Err(RequestError::Parse),
    }
}

/// Lets tree-sitter parse `content` with the grammar `language`.
fn parse_with(content: &str, language: &tree_sitter::Language) -> (parsed: Result<
    Option<tree_sitter::Tree>,
    RequestError,
>)
    ensures
        match parsed {
            Ok(tree) => takes_grammar(*language) && tree == self::parsed(*language, content@),
            Err(e) => !takes_grammar(*language) && e == RequestError::Language,
        },
{
    match parse_afresh(language, content) {
        Ok(tree) => Ok(tree),
        Err(_) => Err(RequestError::Language),
    }
}

/// The syntax tree of `content` in the grammar `language`, with the
/// columns of its ranges counted in codepoints: what is read from the
/// tree that a new parser gives, which it mirrors node by node. Where
/// the parser does not take the grammar, gives no tree, or gives what
/// cannot be read, the error says so.
pub fn parse(content: &str, language: &tree_sitter::Language) -> (tree: Result<
    SyntaxTree,
    RequestError,
>)
    ensures
        match tree {
            Ok(t) => {
                &&& tree_read(*language, content@) matches Ok(got) && got.0 == t@ && mirrors(
                    got.0,
                    got.1,
                    root_node(parsed(*language, content@)->0),
                    lines(content@),
                )
            },
            Err(e) => tree_read(*language, content@) == Err::<
                (Seq<NodeView>, Seq<tree_sitter::Node<'static>>),
                RequestError,
            >(e),
        },
        tree matches Ok(t) ==> t.wf(),
{
    let parsed = match parse_with(content, language) {
        Ok(parsed) => parsed,
        Err(e) => {
            return Err(e);
        },
    };
    match parse_and_read(&parsed, content) {
        Ok((tree, _)) => Ok(tree),
        Err(e) => Err(e),
    }
}

/// Answers `request`: parses its text with the grammar `language`,
/// then selects in the tree as the operation says, or shows the tree.
/// The answer is the one that `answered` names: for a tree that the
/// parser gives and that can be read, what `answer_request` says of it.
pub fn handle_request_in(
    config: &Config,
    request: &Request,
    language: &tree_sitter::Language,
) -> (answer: Result<String, RequestError>)
    requires
        config.wf(),
    ensures
        answer_view(answer) == answered(
            config@,
            request.op,
            request.filetype@,
            request.selections_desc@,
            request.content@,
            *language,
        ),
{
    let parsed = match parse_with(request.content.as_str(), language) {
        Ok(parsed) => parsed,
        Err(e) => {
            return Err(e);
        },
    };
    let (tree, handles) = match parse_and_read(&parsed, request.content.as_str()) {
        Ok(read) => read,
        Err(e) => {
            return Err(e);
        },
    };
    match answer_request(config, request, &tree) {
        Ok(Step::Answer(text)) => Ok(text),
        Ok(Step::Dump(node)) => Ok(info_answer(sexp_of(&handles[node]).as_str())),
        Err(e) => Err(e),
    }
}

/// Answers `request`: looks up the grammar of its language, parses its
/// text, then selects in the tree as the operation says, or shows the
/// tree. A request in a language without a grammar has no answer, and
/// this failure is told apart from every other. In any other language
/// the answer is the one that `answered` names for a grammar.
pub fn handle_request(config: &Config, request: &Request) -> (answer: Result<String, RequestError>)
    requires
        config.wf(),
    ensures
        answer == Err::<String, RequestError>(RequestError::UnsupportedLanguage) <==> !supported(
            request.filetype@,
        ),
        supported(request.filetype@) ==> exists|language: tree_sitter::Language|
            answer_view(answer) == #[trigger] answered(
                config@,
                request.op,
                request.filetype@,
                request.selections_desc@,
                request.content@,
                language,
            ),
{
    match filetype_to_language(request.filetype.as_str()) {
        Some(language) => handle_request_in(config, request, &language),
        None => Err(RequestError::UnsupportedLanguage),
    }
}

} // verus!
