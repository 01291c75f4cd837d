use crate::config::{lookup, Config, PolicyView};
use crate::kakoune::{
    all_encodable, are_encodable, buffer_of, decoded, encoded, lines, parse_selections_desc,
    select_ranges,
};
use crate::range::Range;
use crate::select::{select, selection, Op};
use crate::syntax::{NodeView, SyntaxTree};
use crate::tree::{shrink, shrink_to_range};
use vstd::prelude::*;
use vstd::string::StringExecFns;

verus! {

/// What the editor asks: an operation on the selections in a text of
/// some language.
pub struct Request {
    pub op: Op,
    pub filetype: String,
    pub selections_desc: String,
    pub content: String,
}

/// Why a request has no answer.
#[derive(Clone, Copy, Debug, PartialEq, Eq, Structural)]
pub enum RequestError {
    /// There is no grammar for the language.
    UnsupportedLanguage,
    /// The parser does not take the grammar.
    Language,
    /// The parser gave no tree for the text.
    Parse,
    /// The tree that the parser gave is none: a node spans bytes outside
    /// its parent, or there are more nodes than the machine can count.
    Tree,
    /// The selection descriptor is malformed, or names a place outside
    /// the text.
    Selections,
    /// The tree is to be shown at the first selection, and there is none.
    NoSelection,
    /// A node to select lies outside the lines of the text.
    Position,
}

/// What is left to do for a request once the tree is searched.
#[derive(Debug, PartialEq, Eq)]
pub enum Step {
    /// The answer is this text.
    Answer(String),
    /// The answer is the text that shows the tree below this node.
    Dump(usize),
}

/// What `Step` holds, as plain values.
pub enum StepView {
    Answer(Seq<char>),
    Dump(usize),
}

impl View for Step {
    type V = StepView;

    open spec fn view(&self) -> StepView {
        match self {
            Step::Answer(text) => StepView::Answer(text@),
            Step::Dump(node) => StepView::Dump(*node),
        }
    }
}

/// The answer that selects `ranges` in the buffer `ls`.
pub open spec fn selecting(ls: Seq<Seq<char>>, ranges: Seq<Range>) -> Seq<char> {
    if ranges.len() == 0 {
        "fail no selections remaining"@
    } else {
        "select "@ + encoded(ls, ranges)
    }
}

/// What is to be done for the request `op` on the selections `desc` in
/// the text `content`, whose tree is `t`, under the policy `p`.
/// A malformed descriptor fails the request. To show the tree, the first
/// selection is shrunk to a node. Any other operation gives new ranges,
/// which are written as selections of the text.
pub open spec fn planned(
    t: Seq<NodeView>,
    p: PolicyView,
    op: Op,
    desc: Seq<char>,
    content: Seq<char>,
) -> Result<StepView, RequestError> {
    let ls = lines(content);
    match decoded(ls, desc) {
        None => Err(RequestError::Selections),
        Some(ranges) => if op is NodeSExp {
            if ranges.len() == 0 {
                Err(RequestError::NoSelection)
            } else {
                Ok(StepView::Dump(shrink(t, 0, ranges[0])))
            }
        } else {
            let new_ranges = selection(t, p, op, ranges);
            if all_encodable(ls, new_ranges) {
                Ok(StepView::Answer(selecting(ls, new_ranges)))
            } else {
                Err(RequestError::Position)
            }
        },
    }
}

/// What `result` holds, as plain values.
pub open spec fn step_view(result: Result<Step, RequestError>) -> Result<StepView, RequestError> {
    match result {
        Ok(step) => Ok(step@),
        Err(e) => Err(e),
    }
}

/// Answers `request` as far as the tree of its text allows: decodes the
/// selections, applies the operation to each under the policy of the
/// language, and writes the new selections; or names the node whose tree
/// is to be shown.
pub fn answer_request(config: &Config, request: &Request, tree: &SyntaxTree) -> (result: Result<
    Step,
    RequestError,
>)
    requires
        config.wf(),
        tree.wf(),
    ensures
        step_view(result) == planned(
            tree@,
            lookup(config@, request.filetype@),
            request.op,
            request.selections_desc@,
            request.content@,
        ),
        result matches Ok(Step::Dump(node)) ==> node < tree@.len(),
{
    let buffer = buffer_of(request.content.as_str());
    let ranges = match parse_selections_desc(buffer.as_slice(), request.selections_desc.as_str()) {
        Some(ranges) => ranges,
        None => {
            return Err(RequestError::Selections);
        },
    };
    let filetype_config = config.get_filetype_config(request.filetype.as_str());
    match &request.op {
        Op::NodeSExp => {
            if ranges.len() == 0 {
                return Err(RequestError::NoSelection);
            }
            let node = shrink_to_range(tree, 0, &ranges[0]);
            Ok(Step::Dump(node))
        },
        _ => {
            let new_ranges = select(filetype_config, tree, &request.op, &ranges);
            if !are_encodable(buffer.as_slice(), new_ranges.as_slice()) {
                return Err(RequestError::Position);
            }
            Ok(Step::Answer(select_ranges(buffer.as_slice(), new_ranges.as_slice())))
        },
    }
}

/// The answer that shows the tree `sexp`: `info`, and the tree between
/// single quotes.
pub open spec fn info_text(sexp: Seq<char>) -> Seq<char> {
    "info '"@ + sexp + "'"@
}

/// The answer that shows the tree `sexp`: `info`, and the tree between
/// single quotes.
pub fn info_answer(sexp: &str) -> (answer: String)
    ensures
        answer@ == info_text(sexp@),
{
    String::from_str("info '").concat(sexp).concat("'")
}

} // verus!
