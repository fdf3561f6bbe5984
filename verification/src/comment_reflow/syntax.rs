//! The line comments that the Rust grammar finds in a source.
//!
//! The grammar and the parser are those of `tree_sitter`. What they make of a text is not stated
//! here, only named; which nodes count, and in which order they are taken, is.

use vstd::prelude::*;

use crate::text::same_text;

verus! {

/// A run of bytes of a source: from `start` up to, but not with, `end`.
#[derive(Clone, Copy, Debug, PartialEq, Eq, Structural)]
pub struct Span {
    pub start: usize,
    pub end: usize,
}

/// Why a source could not be read as Rust.
#[derive(Clone, Copy, Debug, PartialEq, Eq, Structural)]
pub enum ReflowError {
    /// The parser refused the Rust grammar.
    Grammar,
    /// The parser gave no syntax tree.
    NoTree,
    /// A comment was reported at a place that the source does not have, or two at one place.
    MisplacedComment,
}

impl ReflowError {
    /// What went wrong, in words.
    pub fn message(&self) -> (r: &'static str)
        ensures
            r@ == match *self {
                ReflowError::Grammar => "loading tree-sitter Rust grammar"@,
                ReflowError::NoTree => "tree-sitter returned no parse tree"@,
                ReflowError::MisplacedComment => "tree-sitter reported a misplaced comment"@,
            },
    {
        match self {
            ReflowError::Grammar => "loading tree-sitter Rust grammar",
            ReflowError::NoTree => "tree-sitter returned no parse tree",
            ReflowError::MisplacedComment => "tree-sitter reported a misplaced comment",
        }
    }
}

/// A syntax tree of `tree_sitter`.
#[verifier::external_type_specification]
#[verifier::external_body]
pub struct ExTree(tree_sitter::Tree);

/// A node of a syntax tree of `tree_sitter`.
#[verifier::external_type_specification]
#[verifier::external_body]
pub struct ExNode<'tree>(tree_sitter::Node<'tree>);

/// The refusal of a grammar by `tree_sitter::Parser::set_language`.
#[verifier::external_type_specification]
#[verifier::external_body]
pub struct ExLanguageError(tree_sitter::LanguageError);

/// What a syntax tree holds: kind, first byte and end byte of each node, every node before its
/// children and the children in order.
pub uninterp spec fn tree_nodes(tree: tree_sitter::Tree) -> Seq<(Seq<char>, usize, usize)>;

/// What the subtree of a node holds, listed as in [`tree_nodes`]: the node itself comes first.
pub uninterp spec fn node_nodes(node: tree_sitter::Node<'_>) -> Seq<(Seq<char>, usize, usize)>;

/// What `tree_sitter` makes of a text under the Rust grammar: the nodes of the tree, `None` where
/// it gives no tree, and an error where the parser does not take the grammar.
pub uninterp spec fn rust_syntax(
    source: Seq<char>,
) -> Result<Option<Seq<(Seq<char>, usize, usize)>>, ()>;

/// The listings of several nodes, one behind the other.
pub open spec fn nodes_of(nodes: Seq<tree_sitter::Node<'_>>) -> Seq<(Seq<char>, usize, usize)>
    decreases nodes.len(),
{
    if nodes.len() == 0 {
        Seq::empty()
    } else {
        nodes_of(nodes.drop_last()) + node_nodes(nodes.last())
    }
}

/// Parses `source` with `tree_sitter::Parser::parse`, after `Parser::set_language` with the
/// grammar of `tree_sitter_rust`. The claim is that the outcome is a function of the text.
#[verifier::external_body]
fn parse_rust(source: &str) -> (r: Result<Option<tree_sitter::Tree>, tree_sitter::LanguageError>)
    ensures
        match r {
            Ok(Some(tree)) => rust_syntax(source@) == Ok::<
                Option<Seq<(Seq<char>, usize, usize)>>,
                (),
            >(Some(tree_nodes(tree))),
            Ok(None) => rust_syntax(source@) == Ok::<
                Option<Seq<(Seq<char>, usize, usize)>>,
                (),
            >(None),
            Err(_) => rust_syntax(source@) is Err,
        },
{
    let mut parser = tree_sitter::Parser::new();
    let language = tree_sitter::Language::from(tree_sitter_rust::LANGUAGE);
    parser.set_language(&language)?;
    Ok(parser.parse(source, None))
}

/// `tree_sitter::Tree::root_node`: the subtree of the root is the tree.
#[verifier::external_body]
fn root_node(tree: &tree_sitter::Tree) -> (r: tree_sitter::Node<'_>)
    ensures
        node_nodes(r) == tree_nodes(*tree),
{
    tree.root_node()
}

/// `tree_sitter::Node::kind`: the kind of the node, which its listing begins with.
#[verifier::external_body]
fn node_kind(node: &tree_sitter::Node<'_>) -> (r: &'static str)
    ensures
        r@ == node_nodes(*node)[0].0,
{
    node.kind()
}

/// `tree_sitter::Node::byte_range`: the bytes of the node, which its listing begins with.
#[verifier::external_body]
fn node_span(node: &tree_sitter::Node<'_>) -> (r: Span)
    ensures
        r.start == node_nodes(*node)[0].1,
        r.end == node_nodes(*node)[0].2,
{
    let range = node.byte_range();
    Span { start: range.start, end: range.end }
}

/// `tree_sitter::Node::children`: the listing of a node is the node itself and then the listings
/// of its children in order.
#[verifier::external_body]
fn node_children<'tree>(node: &tree_sitter::Node<'tree>) -> (r: Vec<tree_sitter::Node<'tree>>)
    ensures
        node_nodes(*node) == seq![node_nodes(*node)[0]] + nodes_of(r@),
{
    node.children(&mut node.walk()).collect()
}

/// The spans of the nodes of kind `line_comment`, in the order of the listing.
pub open spec fn line_comments(nodes: Seq<(Seq<char>, usize, usize)>) -> Seq<Span>
    decreases nodes.len(),
{
    if nodes.len() == 0 {
        Seq::empty()
    } else {
        let before = line_comments(nodes.drop_last());
        let node = nodes.last();
        if node.0 == "line_comment"@ {
            before.push(Span { start: node.1, end: node.2 })
        } else {
            before
        }
    }
}

proof fn lemma_line_comments_concat(
    a: Seq<(Seq<char>, usize, usize)>,
    b: Seq<(Seq<char>, usize, usize)>,
)
    ensures
        line_comments(a + b) == line_comments(a) + line_comments(b),
    decreases b.len(),
{
    if b.len() == 0 {
        assert(a + b =~= a);
        assert(line_comments(a) + line_comments(b) =~= line_comments(a));
    } else {
        lemma_line_comments_concat(a, b.drop_last());
        assert((a + b).drop_last() =~= a + b.drop_last());
        assert(line_comments(a + b) =~= line_comments(a) + line_comments(b));
    }
}

/// The listing of one child is a part of the listing of all children.
proof fn lemma_nodes_of_len(nodes: Seq<tree_sitter::Node<'_>>, i: int)
    requires
        0 <= i < nodes.len(),
    ensures
        node_nodes(nodes[i]).len() <= nodes_of(nodes).len(),
    decreases nodes.len(),
{
    if i < nodes.len() - 1 {
        lemma_nodes_of_len(nodes.drop_last(), i);
    }
}

/// Appends the spans of the line comments below `node`, in document order of the tree.
fn collect_line_comment_ranges(node: &tree_sitter::Node<'_>, ranges: &mut Vec<Span>)
    ensures
        final(ranges)@ == old(ranges)@ + line_comments(node_nodes(*node)),
    decreases node_nodes(*node).len(),
{
    let ghost own = seq![node_nodes(*node)[0]];
    if same_text(node_kind(node), "line_comment") {
        ranges.push(node_span(node));
    }
    assert(own.drop_last() =~= Seq::<(Seq<char>, usize, usize)>::empty());
    assert(ranges@ =~= old(ranges)@ + line_comments(own)) by {
        reveal_with_fuel(line_comments, 2);
    }
    let children = node_children(node);
    let mut i: usize = 0;
    while i < children.len()
        invariant
            i <= children@.len(),
            own == seq![node_nodes(*node)[0]],
            node_nodes(*node) == own + nodes_of(children@),
            ranges@ == old(ranges)@ + line_comments(own) + line_comments(
                nodes_of(children@.take(i as int)),
            ),
        decreases children@.len() - i,
    {
        proof {
            lemma_nodes_of_len(children@, i as int);
            let done = children@.take(i as int + 1);
            assert(done.drop_last() =~= children@.take(i as int));
            lemma_line_comments_concat(nodes_of(done.drop_last()), node_nodes(done.last()));
        }
        collect_line_comment_ranges(&children[i], ranges);
        i = i + 1;
        assert(ranges@ =~= old(ranges)@ + line_comments(own) + line_comments(
            nodes_of(children@.take(i as int)),
        ));
    }
    proof {
        assert(children@.take(i as int) =~= children@);
        lemma_line_comments_concat(own, nodes_of(children@));
        assert(ranges@ =~= old(ranges)@ + line_comments(node_nodes(*node)));
    }
}

/// `span` put into `sorted` behind every span that does not start later.
pub open spec fn insert_by_start(sorted: Seq<Span>, span: Span) -> Seq<Span>
    decreases sorted.len(),
{
    if sorted.len() > 0 && span.start < sorted.last().start {
        insert_by_start(sorted.drop_last(), span).push(sorted.last())
    } else {
        sorted.push(span)
    }
}

/// `spans` ordered by where they start; spans that start together keep their order.
pub open spec fn by_start(spans: Seq<Span>) -> Seq<Span>
    decreases spans.len(),
{
    if spans.len() == 0 {
        Seq::empty()
    } else {
        insert_by_start(by_start(spans.drop_last()), spans.last())
    }
}

/// Whether each span starts no later than those behind it.
pub open spec fn sorted_by_start(spans: Seq<Span>) -> bool {
    forall|i: int, j: int| 0 <= i <= j < spans.len() ==> spans[i].start <= spans[j].start
}

proof fn lemma_insert_by_start(sorted: Seq<Span>, span: Span, at: int)
    requires
        0 <= at <= sorted.len(),
        at > 0 ==> sorted[at - 1].start <= span.start,
        forall|i: int| at <= i < sorted.len() ==> span.start < sorted[i].start,
    ensures
        insert_by_start(sorted, span) == sorted.insert(at, span),
    decreases sorted.len(),
{
    if at < sorted.len() {
        lemma_insert_by_start(sorted.drop_last(), span, at);
        assert(sorted.insert(at, span) =~= sorted.drop_last().insert(at, span).push(sorted.last()));
    } else {
        assert(sorted.insert(at, span) =~= sorted.push(span));
    }
}

/// Ordering by start gives a sorted list of the same spans.
pub proof fn lemma_by_start(spans: Seq<Span>)
    ensures
        sorted_by_start(by_start(spans)),
        by_start(spans).len() == spans.len(),
        by_start(spans).to_multiset() == spans.to_multiset(),
    decreases spans.len(),
{
    broadcast use vstd::seq_lib::group_to_multiset_ensures;

    if spans.len() == 0 {
        assert(by_start(spans) =~= spans);
    } else {
        lemma_by_start(spans.drop_last());
        lemma_insert_keeps(by_start(spans.drop_last()), spans.last());
        assert(spans =~= spans.drop_last().push(spans.last()));
    }
}

proof fn lemma_insert_keeps(sorted: Seq<Span>, span: Span)
    requires
        sorted_by_start(sorted),
    ensures
        sorted_by_start(insert_by_start(sorted, span)),
        insert_by_start(sorted, span).len() == sorted.len() + 1,
        insert_by_start(sorted, span).to_multiset() == sorted.to_multiset().insert(span),
        sorted.len() > 0 ==> insert_by_start(sorted, span).last().start >= sorted.last().start,
        forall|i: int|
            0 <= i <= sorted.len() ==> (#[trigger] insert_by_start(sorted, span)[i]).start
                <= span.start || (sorted.len() > 0 && insert_by_start(sorted, span)[i].start
                <= sorted.last().start),
    decreases sorted.len(),
{
    broadcast use vstd::seq_lib::group_to_multiset_ensures;

    if sorted.len() > 0 && span.start < sorted.last().start {
        let front = sorted.drop_last();
        lemma_insert_keeps(front, span);
        assert(sorted =~= front.push(sorted.last()));
        assert(front.to_multiset().insert(span).insert(sorted.last()) =~= front.to_multiset().insert(
            sorted.last(),
        ).insert(span));
        if front.len() > 0 {
            assert(front.last().start <= sorted.last().start);
        }
    }
}

/// Orders `spans` by where they start; spans that start together keep their order.
fn sort_by_start(spans: &Vec<Span>) -> (r: Vec<Span>)
    ensures
        r@ == by_start(spans@),
{
    let mut sorted: Vec<Span> = Vec::new();
    let mut i: usize = 0;
    while i < spans.len()
        invariant
            i <= spans@.len(),
            sorted@ == by_start(spans@.take(i as int)),
        decreases spans@.len() - i,
    {
        let span: Span = spans[i];
        let mut at: usize = sorted.len();
        proof {
            lemma_by_start(spans@.take(i as int));
        }
        while at > 0 && span.start < sorted[at - 1].start
            invariant
                at <= sorted@.len(),
                forall|k: int| at <= k < sorted@.len() ==> span.start < sorted@[k].start,
            decreases at,
        {
            at = at - 1;
        }
        proof {
            lemma_insert_by_start(sorted@, span, at as int);
            let done = spans@.take(i as int + 1);
            assert(done.drop_last() =~= spans@.take(i as int));
        }
        sorted.insert(at, span);
        i = i + 1;
    }
    assert(spans@.take(i as int) =~= spans@);
    sorted
}

/// The line comments of the Rust text `source`, ordered by where they start.
pub fn line_comment_spans(source: &str) -> (r: Result<Vec<Span>, ReflowError>)
    ensures
        match rust_syntax(source@) {
            Ok(Some(nodes)) => r matches Ok(spans) && spans@ == by_start(line_comments(nodes)),
            Ok(None) => r == Err::<Vec<Span>, ReflowError>(ReflowError::NoTree),
            Err(_) => r == Err::<Vec<Span>, ReflowError>(ReflowError::Grammar),
        },
{
    match parse_rust(source) {
        Ok(Some(tree)) => {
            let mut ranges: Vec<Span> = Vec::new();
            let root = root_node(&tree);
            collect_line_comment_ranges(&root, &mut ranges);
            assert(ranges@ =~= line_comments(tree_nodes(tree)));
            Ok(sort_by_start(&ranges))
        },
        Ok(None) => Err(ReflowError::NoTree),
        Err(_) => Err(ReflowError::Grammar),
    }
}

/// Every node of kind `line_comment` gives its span, in the order of the listing, and no other node
/// gives any: a node more adds its span at the end, if it is of that kind.
pub proof fn lemma_every_line_comment_is_taken(
    nodes: Seq<(Seq<char>, usize, usize)>,
    node: (Seq<char>, usize, usize),
)
    ensures
        line_comments(Seq::empty()).len() == 0,
        node.0 == "line_comment"@ ==> line_comments(nodes.push(node)) == line_comments(nodes).push(
            Span { start: node.1, end: node.2 },
        ),
        node.0 != "line_comment"@ ==> line_comments(nodes.push(node)) == line_comments(nodes),
{
    assert(nodes.push(node).drop_last() =~= nodes);
}

} // verus!
