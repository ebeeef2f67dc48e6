//! The document model: a syntax tree of nodes, each with a kind, its own
//! literal text (empty for purely structural nodes) and ordered children.

use typst_syntax::SyntaxKind;
use vstd::prelude::*;

verus! {

/// The syntactic category of a node, as far as span classification cares.
/// Every concrete grammar production falls into exactly one of these.
#[derive(Clone, Copy, PartialEq, Eq, Structural, Debug)]
pub enum NodeKind {
    /// Plain prose text: scanned word by word when in markdown mode.
    Text,
    /// Equations and cross-references: the whole subtree is skipped.
    Opaque,
    /// Code-bearing constructs (calls, imports, bindings, show/set rules,
    /// code blocks): the subtree is walked in code mode.
    CodeConstruct,
    /// A markup container: the subtree is walked in markdown mode.
    Markup,
    /// A smart quotation mark: checked as a span of its own in markdown mode.
    SmartQuote,
    /// Any other node: its own text is skipped and children are walked
    /// under the inherited mode.
    Other,
}

/// One syntax-tree node. `text` is the node's own literal text; inner
/// nodes carry their text in their children instead.
pub struct Node {
    pub kind: NodeKind,
    pub text: String,
    pub children: Vec<Node>,
}

/// The full text of a node: its own literal text followed by the text of
/// its children, in order.
pub open spec fn node_text(n: Node) -> Seq<char>
    decreases n,
{
    n.text@ + children_text(n.children@)
}

/// The concatenated text of a sequence of nodes.
pub open spec fn children_text(s: Seq<Node>) -> Seq<char>
    decreases s,
{
    if s.len() == 0 {
        Seq::empty()
    } else {
        node_text(s[0]) + children_text(s.drop_first())
    }
}

#[verifier::external_type_specification]
#[verifier::external_body]
pub struct ExSyntaxNode(typst_syntax::SyntaxNode);

/// The model tree that parsing a source text yields: parsing is a pure
/// function of the text.
pub uninterp spec fn parsed(text: Seq<char>) -> Node;

/// Relies on `typst_syntax::SyntaxNode::kind`, `leaf_text` and `children`:
/// maps one parsed node into the model, kind by kind.  Grammar kinds the
/// classifier treats alike fall into one model kind; every kind not named
/// is structural and falls to `Other`.
#[verifier::external_body]
fn convert_syntax(n: &typst_syntax::SyntaxNode) -> Node {
    let kind = match n.kind() {
        SyntaxKind::Text => NodeKind::Text,
        SyntaxKind::Equation | SyntaxKind::Ref => NodeKind::Opaque,
        SyntaxKind::FuncCall | SyntaxKind::Code => NodeKind::CodeConstruct,
        SyntaxKind::ModuleImport | SyntaxKind::ModuleInclude => NodeKind::CodeConstruct,
        SyntaxKind::LetBinding | SyntaxKind::ShowRule | SyntaxKind::SetRule => NodeKind::CodeConstruct,
        SyntaxKind::Markup => NodeKind::Markup,
        SyntaxKind::SmartQuote => NodeKind::SmartQuote,
        _ => NodeKind::Other,
    };
    Node { kind, text: n.leaf_text().to_string(), children: n.children().map(convert_syntax).collect() }
}

/// Relies on `typst_syntax::parse`: it accepts any text, is a pure
/// function of it, and is lossless, so the tree's text read in order is
/// exactly the source text.
#[verifier::external_body]
pub fn parse_document(text: &str) -> (r: Node)
    ensures
        r == parsed(text@),
        node_text(r) == text@,
{
    convert_syntax(&typst_syntax::parse(text))
}

} // verus!
