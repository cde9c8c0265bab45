//! Regular expressions as trees of literals, concatenations and alternations.

use regex_syntax::hir::{Hir, HirKind};
use vstd::prelude::*;

verus! {

/// The syntax tree of a regular expression, as far as it tells which literals a
/// match has to hold.
#[derive(Debug)]
pub enum PatternTree {
    /// The empty expression.
    Empty,
    /// Exactly these bytes.
    Literal(Vec<u8>),
    /// One character of a class.
    Class,
    /// An assertion about the surroundings, of no length.
    Look,
    /// A repeated expression.
    Repetition,
    /// A capturing group.
    Capture(Box<PatternTree>),
    /// Expressions that match one after the other.
    Concat(Vec<PatternTree>),
    /// Expressions of which one matches.
    Alternation(Vec<PatternTree>),
}

/// A [`PatternTree`] over sequences.
pub enum PatternView {
    Empty,
    Literal(Seq<u8>),
    Class,
    Look,
    Repetition,
    Capture(Box<PatternView>),
    Concat(Seq<PatternView>),
    Alternation(Seq<PatternView>),
}

impl PatternTree {
    /// The tree over sequences.
    pub open spec fn tree(self) -> PatternView
        decreases self,
    {
        match self {
            PatternTree::Empty => PatternView::Empty,
            PatternTree::Literal(bytes) => PatternView::Literal(bytes@),
            PatternTree::Class => PatternView::Class,
            PatternTree::Look => PatternView::Look,
            PatternTree::Repetition => PatternView::Repetition,
            PatternTree::Capture(sub) => PatternView::Capture(Box::new(sub.tree())),
            PatternTree::Concat(parts) => PatternView::Concat(
                Seq::new(
                    parts@.len(),
                    |i: int|
                        if 0 <= i < parts@.len() {
                            parts@[i].tree()
                        } else {
                            arbitrary()
                        },
                ),
            ),
            PatternTree::Alternation(parts) => PatternView::Alternation(
                Seq::new(
                    parts@.len(),
                    |i: int|
                        if 0 <= i < parts@.len() {
                            parts@[i].tree()
                        } else {
                            arbitrary()
                        },
                ),
            ),
        }
    }
}

/// `regex_syntax::hir::Hir`: the parsed form of a regular expression.
#[verifier::external_type_specification]
#[verifier::external_body]
pub struct ExHir(Hir);

/// What `regex_syntax` makes of a regular expression with its default settings:
/// the tree of the parsed expression, or the message of the error.
pub uninterp spec fn parsed(pattern: Seq<char>) -> Result<PatternView, Seq<char>>;

/// The tree that a parsed expression holds.
pub uninterp spec fn hir_tree(hir: Hir) -> PatternView;

/// The trees of parsed expressions.
pub open spec fn hir_trees(hirs: Seq<Hir>) -> Seq<PatternView> {
    hirs.map_values(|h: Hir| hir_tree(h))
}

/// The topmost node of a parsed expression.
enum HirNode<'a> {
    Empty,
    Literal(&'a [u8]),
    Class,
    Look,
    Repetition,
    Capture(&'a Hir),
    Concat(&'a [Hir]),
    Alternation(&'a [Hir]),
}

/// `regex_syntax::Parser::parse` of a parser with the default settings. The parsed
/// expression or the text of the error depends on the pattern alone, and is what
/// `parsed` names.
#[verifier::external_body]
fn parse_hir(pattern: &str) -> (r: Result<Hir, String>)
    ensures
        match r {
            Ok(hir) => parsed(pattern@) == Ok::<PatternView, Seq<char>>(hir_tree(hir)),
            Err(message) => parsed(pattern@) == Err::<PatternView, Seq<char>>(message@),
        },
{
    let parsed_hir = regex_syntax::ParserBuilder::new().build().parse(pattern);
    parsed_hir.map_err(|e| e.to_string())
}

/// `regex_syntax::hir::Hir::kind`, one node for each of its kinds. The bytes of a
/// literal and the expressions under a group, a concatenation or an alternation
/// are handed out in their order; `hir_tree` names the tree that they make up.
#[verifier::external_body]
fn hir_node<'a>(hir: &'a Hir) -> (node: HirNode<'a>)
    ensures
        match node {
            HirNode::Empty => hir_tree(*hir) == PatternView::Empty,
            HirNode::Literal(bytes) => hir_tree(*hir) == PatternView::Literal(bytes@),
            HirNode::Class => hir_tree(*hir) == PatternView::Class,
            HirNode::Look => hir_tree(*hir) == PatternView::Look,
            HirNode::Repetition => hir_tree(*hir) == PatternView::Repetition,
            HirNode::Capture(sub) => hir_tree(*hir) == PatternView::Capture(Box::new(hir_tree(*sub))),
            HirNode::Concat(parts) => hir_tree(*hir) == PatternView::Concat(hir_trees(parts@)),
            HirNode::Alternation(parts) => hir_tree(*hir) == PatternView::Alternation(hir_trees(parts@)),
        },
{
    match hir.kind() {
        HirKind::Empty => HirNode::Empty,
        HirKind::Literal(literal) => HirNode::Literal(&literal.0),
        HirKind::Class(_) => HirNode::Class,
        HirKind::Look(_) => HirNode::Look,
        HirKind::Repetition(_) => HirNode::Repetition,
        HirKind::Capture(capture) => HirNode::Capture(&capture.sub),
        HirKind::Concat(parts) => HirNode::Concat(parts),
        HirKind::Alternation(parts) => HirNode::Alternation(parts),
    }
}

/// Copies the tree of a parsed expression out.
fn tree_of(hir: &Hir) -> (tree: PatternTree)
    ensures
        tree.tree() == hir_tree(*hir),
    decreases hir_tree(*hir),
{
    match hir_node(hir) {
        HirNode::Empty => PatternTree::Empty,
        HirNode::Literal(bytes) => {
            let mut copy: Vec<u8> = Vec::new();
            copy.extend_from_slice(bytes);
            assert(copy@ =~= bytes@);
            PatternTree::Literal(copy)
        },
        HirNode::Class => PatternTree::Class,
        HirNode::Look => PatternTree::Look,
        HirNode::Repetition => PatternTree::Repetition,
        HirNode::Capture(sub) => {
            assert(decreases_to!(hir_tree(*hir) => hir_tree(*hir)->Capture_0));
            PatternTree::Capture(Box::new(tree_of(sub)))
        },
        HirNode::Concat(parts) => {
            assert(decreases_to!(hir_tree(*hir) => hir_tree(*hir)->Concat_0));
            let trees = trees_of(parts);
            let tree = PatternTree::Concat(trees);
            assert(tree.tree()->Concat_0 =~= hir_trees(parts@));
            tree
        },
        HirNode::Alternation(parts) => {
            assert(decreases_to!(hir_tree(*hir) => hir_tree(*hir)->Alternation_0));
            let trees = trees_of(parts);
            let tree = PatternTree::Alternation(trees);
            assert(tree.tree()->Alternation_0 =~= hir_trees(parts@));
            tree
        },
    }
}

/// Copies the trees of parsed expressions out.
fn trees_of(hirs: &[Hir]) -> (trees: Vec<PatternTree>)
    ensures
        trees@.len() == hirs@.len(),
        forall|i: int| 0 <= i < trees@.len() ==> (#[trigger] trees@[i]).tree() == hir_trees(hirs@)[i],
    decreases hir_trees(hirs@),
{
    let mut trees: Vec<PatternTree> = Vec::new();
    let mut i: usize = 0;
    while i < hirs.len()
        invariant
            i <= hirs@.len(),
            trees@.len() == i,
            forall|k: int| 0 <= k < trees@.len() ==> (#[trigger] trees@[k]).tree() == hir_trees(hirs@)[k],
        decreases hirs@.len() - i,
    {
        assert(hir_trees(hirs@)[i as int] == hir_tree(hirs@[i as int]));
        trees.push(tree_of(&hirs[i]));
        i += 1;
    }
    trees
}

/// Parses a regular expression.
pub fn parse_pattern(pattern: &str) -> (r: Result<PatternTree, String>)
    ensures
        match r {
            Ok(tree) => parsed(pattern@) == Ok::<PatternView, Seq<char>>(tree.tree()),
            Err(message) => parsed(pattern@) == Err::<PatternView, Seq<char>>(message@),
        },
{
    match parse_hir(pattern) {
        Ok(hir) => Ok(tree_of(&hir)),
        Err(message) => Err(message),
    }
}

} // verus!
