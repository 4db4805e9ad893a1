//! Syntax trees of Rust source, as the analysis reads them.
//!
//! The parser is tree-sitter with its Rust grammar. What the analysis reads
//! of a parse is held in plain values: the nodes in preorder, each with its
//! kind, byte range, first row, number of children and the field name of
//! each child. The tree structure (parents, subtrees) is rebuilt from the
//! preorder and the child counts by verified code.

use crate::text::{bytes_eq, copy_bytes, lemma_bytes_deep_view};
use tree_sitter_traversal::{traverse, Order};
use vstd::prelude::*;

verus! {

broadcast use lemma_bytes_deep_view;

/// A node of a parse, as tree-sitter reports it.
pub struct ParsedNode {
    /// The grammar kind, such as `call_expression`.
    pub kind: Vec<u8>,
    /// The byte offset where the node starts.
    pub start_byte: usize,
    /// The byte offset where the node ends.
    pub end_byte: usize,
    /// The row (from 0) where the node starts.
    pub start_row: usize,
    /// The number of children, anonymous ones included.
    pub child_count: usize,
    /// The tree-sitter field of each child, if it has one.
    pub child_fields: Vec<Option<Vec<u8>>>,
}

/// The value of a [`ParsedNode`].
pub struct ParsedNodeView {
    pub kind: Seq<u8>,
    pub start_byte: usize,
    pub end_byte: usize,
    pub start_row: usize,
    pub child_count: usize,
    pub child_fields: Seq<Option<Seq<u8>>>,
}

impl View for ParsedNode {
    type V = ParsedNodeView;

    open spec fn view(&self) -> ParsedNodeView {
        ParsedNodeView {
            kind: self.kind@,
            start_byte: self.start_byte,
            end_byte: self.end_byte,
            start_row: self.start_row,
            child_count: self.child_count,
            child_fields: self.child_fields.deep_view(),
        }
    }
}

/// The values of a list of parsed nodes.
pub open spec fn nodes_view(v: Seq<ParsedNode>) -> Seq<ParsedNodeView> {
    v.map_values(|n: ParsedNode| n@)
}

/// The nodes, in preorder, of the tree-sitter parse of `code` with the
/// Rust grammar, each with its children's tree-sitter fields, or `None`
/// when tree-sitter gives no tree.
pub uninterp spec fn rust_parse(code: Seq<u8>) -> Option<Seq<ParsedNodeView>>;

/// Parses `code` with tree-sitter's Rust grammar (`Parser::new`,
/// `Parser::set_language` with `tree_sitter_rust::language()`,
/// `Parser::parse`) and lists the nodes of the tree in preorder
/// (`tree_sitter_traversal::traverse` over `Tree::walk`), each with what
/// `Node::kind`, `start_byte`, `end_byte`, `start_position` and
/// `child_count` report, and, for each child in order, the field name that
/// `TreeCursor::field_name` reports on it (tree-sitter's field of the
/// child, the one `Node::child_by_field_name` finds). The result is named
/// `rust_parse`; `None` when setting the language fails or `parse` returns
/// `None`.
#[verifier::external_body]
pub(crate) fn parse_rust(code: &[u8]) -> (res: Option<Vec<ParsedNode>>)
    ensures
        match res {
            Some(v) => rust_parse(code@) == Some(nodes_view(v@)),
            None => rust_parse(code@) is None,
        },
{
    let mut parser = tree_sitter::Parser::new();
    parser.set_language(tree_sitter_rust::language()).ok()?;
    let tree = parser.parse(code, None)?;
    Some(traverse(tree.walk(), Order::Pre).map(|n| {
        let mut c = n.walk();
        let mut child_fields = Vec::new();
        let mut more = c.goto_first_child();
        while more {
            child_fields.push(c.field_name().map(|f| f.as_bytes().to_vec()));
            more = c.goto_next_sibling();
        }
        ParsedNode { kind: n.kind().as_bytes().to_vec(), start_byte: n.start_byte(), end_byte: n.end_byte(), start_row: n.start_position().row, child_count: n.child_count(), child_fields }
    }).collect())
}

/// A syntax tree: the parsed nodes in preorder, with the parent of each,
/// the field name under which it hangs from its parent, and the end of its
/// subtree (its descendants are the nodes after it, up to that index).
pub struct SyntaxTree {
    pub nodes: Vec<ParsedNode>,
    pub parents: Vec<Option<usize>>,
    pub fields: Vec<Option<Vec<u8>>>,
    pub subtree_ends: Vec<usize>,
}

impl SyntaxTree {
    /// The number of nodes.
    pub open spec fn len(&self) -> int {
        self.nodes@.len() as int
    }

    /// Node `k`.
    pub open spec fn node(&self, k: int) -> ParsedNodeView {
        self.nodes@[k]@
    }

    /// The parent of node `k`.
    pub open spec fn parent(&self, k: int) -> Option<usize> {
        self.parents@[k]
    }

    /// The field name of node `k` under its parent.
    pub open spec fn field(&self, k: int) -> Option<Seq<u8>> {
        self.fields.deep_view()[k]
    }

    /// The end of the subtree of node `k`.
    pub open spec fn subtree_end(&self, k: int) -> int {
        self.subtree_ends@[k] as int
    }

    /// The text of node `k` in `code`.
    pub open spec fn text(&self, code: Seq<u8>, k: int) -> Seq<u8> {
        code.subrange(self.node(k).start_byte as int, self.node(k).end_byte as int)
    }

    /// The tree is usable with source code of `code_len` bytes: node 0 is
    /// the root, every other node has an earlier parent, every subtree ends
    /// after its node and within the tree, and every node's bytes lie in
    /// the code.
    pub open spec fn wf(&self, code_len: int) -> bool {
        &&& self.len() > 0
        &&& self.parents@.len() == self.len()
        &&& self.fields@.len() == self.len()
        &&& self.subtree_ends@.len() == self.len()
        &&& self.parent(0) is None
        &&& forall|k: int|
            #![trigger self.node(k)]
            #![trigger self.subtree_end(k)]
            #![trigger self.parent(k)]
            0 <= k < self.len() ==> {
                &&& self.node(k).start_byte <= self.node(k).end_byte <= code_len
                &&& k < self.subtree_end(k) <= self.len()
                &&& (k > 0 ==> (self.parent(k) matches Some(p) && p < k))
            }
    }

    /// The children of `p` among the nodes in `p + 1 .. j`, in order.
    pub open spec fn children_upto(&self, p: int, j: int) -> Seq<int>
        decreases j - p,
    {
        if j <= p + 1 {
            seq![]
        } else if self.parent(j - 1) == Some(p as usize) {
            self.children_upto(p, j - 1).push(j - 1)
        } else {
            self.children_upto(p, j - 1)
        }
    }

    /// The children of `p`, in order.
    pub open spec fn children(&self, p: int) -> Seq<int> {
        self.children_upto(p, self.subtree_end(p))
    }

    /// The `i`-th child of `p`, anonymous children included (`Node::child`).
    pub open spec fn child(&self, p: int, i: int) -> Option<int> {
        if 0 <= i < self.children(p).len() {
            Some(self.children(p)[i])
        } else {
            None
        }
    }

    /// The first child of `p` among the first `i` children whose field is
    /// `name`.
    pub open spec fn field_child_upto(&self, p: int, name: Seq<u8>, i: int) -> Option<int>
        decreases i,
    {
        if i <= 0 {
            None
        } else {
            match self.field_child_upto(p, name, i - 1) {
                Some(c) => Some(c),
                None => if self.field(self.children(p)[i - 1]) == Some(name) {
                    Some(self.children(p)[i - 1])
                } else {
                    None
                },
            }
        }
    }

    /// The first child of `p` under the field `name`
    /// (`Node::child_by_field_name`).
    pub open spec fn field_child(&self, p: int, name: Seq<u8>) -> Option<int> {
        self.field_child_upto(p, name, self.children(p).len() as int)
    }
}

/// The children of `p` among the nodes `p + 1 .. j`, in order, by a list
/// of parents.
pub open spec fn kids(parents: Seq<Option<usize>>, p: int, j: int) -> Seq<int>
    decreases j - p,
{
    if j <= p + 1 {
        seq![]
    } else if parents[j - 1] == Some(p as usize) {
        kids(parents, p, j - 1).push(j - 1)
    } else {
        kids(parents, p, j - 1)
    }
}

/// The field name of the `i`-th child of the parsed node `nd`, as
/// tree-sitter's `field_name_for_child` gives it.
pub open spec fn field_at(nd: ParsedNodeView, i: int) -> Option<Seq<u8>> {
    if 0 <= i < nd.child_fields.len() {
        nd.child_fields[i]
    } else {
        None
    }
}

impl SyntaxTree {
    /// The tree is the one whose preorder is its node list and whose nodes
    /// have the child counts and child field names that the parse reports:
    /// each node has as many children as it counts, each child hangs under
    /// the field its parent names for it, and the nodes after a node up to
    /// its subtree end are its descendants, its children among them.
    pub open spec fn fits_parse(&self) -> bool {
        &&& forall|p: int| 0 <= p < self.len() ==> #[trigger] self.children(p).len() == self.node(p).child_count
        &&& forall|p: int, i: int|
            0 <= p < self.len() && 0 <= i < self.children(p).len() ==> self.field(#[trigger] self.children(p)[i])
                == field_at(self.node(p), i)
        &&& forall|p: int, j: int|
            #![trigger self.subtree_end(p), self.parent(j)]
            0 <= p < self.len() && p < j < self.subtree_end(p) ==> (self.parent(j) matches Some(q) && p <= q)
        &&& forall|j: int|
            0 <= j < self.len() ==> (#[trigger] self.parent(j) matches Some(q) ==> j < self.subtree_end(q as int))
    }
}

/// `children_upto` reads the parent list as `kids` does.
pub proof fn lemma_children_kids(t: &SyntaxTree, p: int, j: int)
    ensures
        t.children_upto(p, j) == kids(t.parents@, p, j),
    decreases j - p,
{
    if j > p + 1 {
        lemma_children_kids(t, p, j - 1);
    }
}

/// `kids` below `j` only reads the parents below `j`.
proof fn lemma_kids_agree(a: Seq<Option<usize>>, b: Seq<Option<usize>>, p: int, j: int)
    requires
        0 <= p,
        j <= a.len(),
        j <= b.len(),
        forall|m: int| 0 <= m < j ==> a[m] == b[m],
    ensures
        kids(a, p, j) == kids(b, p, j),
    decreases j - p,
{
    if j > p + 1 {
        lemma_kids_agree(a, b, p, j - 1);
        assert(a[j - 1] == b[j - 1]);
    }
}

/// The children found below `j` lie strictly between `p` and `j`.
proof fn lemma_kids_range(a: Seq<Option<usize>>, p: int, j: int)
    ensures
        forall|m: int| 0 <= m < kids(a, p, j).len() ==> p < #[trigger] kids(a, p, j)[m] < j,
    decreases j - p,
{
    if j > p + 1 {
        lemma_kids_range(a, p, j - 1);
        let prev = kids(a, p, j - 1);
        let cur = kids(a, p, j);
        assert forall|m: int| 0 <= m < cur.len() implies p < #[trigger] cur[m] < j by {
            if m < prev.len() {
                assert(cur[m] == prev[m]);
            }
        }
    }
}

/// What holds after `build_tree` has placed the first `k` nodes: the
/// stack holds the open nodes in increasing order, each node's children so
/// far plus the children it still expects make its child count, closed
/// nodes expect none and end where their last child's subtree ends, each
/// child carries its field, and subtree ranges hold only descendants.
spec fn build_inv(
    pv: Seq<ParsedNodeView>,
    parents: Seq<Option<usize>>,
    fields: Seq<Option<Seq<u8>>>,
    ends: Seq<usize>,
    rem: Seq<usize>,
    stack: Seq<usize>,
    k: int,
) -> bool {
    &&& 0 <= k <= pv.len()
    &&& parents.len() == k
    &&& fields.len() == k
    &&& ends.len() == k
    &&& rem.len() == k
    &&& forall|i: int, j: int| 0 <= i < j < stack.len() ==> stack[i] < stack[j]
    &&& forall|i: int| 0 <= i < stack.len() ==> #[trigger] stack[i] < k && ends[stack[i] as int] == pv.len()
    &&& forall|p: int| 0 <= p < k ==> #[trigger] kids(parents, p, k).len() + rem[p] == pv[p].child_count
    &&& forall|p: int|
        0 <= p < k && !stack.contains(p as usize) ==> {
            &&& rem[p] == 0
            &&& ends[p] <= k
            &&& #[trigger] kids(parents, p, k) == kids(parents, p, ends[p] as int)
        }
    &&& forall|p: int, i: int|
        0 <= p < k && 0 <= i < kids(parents, p, k).len() ==> fields[#[trigger] kids(parents, p, k)[i]]
            == field_at(pv[p], i)
    &&& forall|p: int, j: int|
        #![trigger ends[p], parents[j]]
        0 <= p < j < k && j < ends[p] ==> (parents[j] matches Some(q) && p <= q)
    &&& forall|j: int| 0 <= j < k ==> (#[trigger] parents[j] matches Some(q) ==> q < j && j < ends[q as int])
}

/// Placing the root: it opens, with no parent and no field.
proof fn lemma_build_root(pv: Seq<ParsedNodeView>, stack: Seq<usize>)
    requires
        build_inv(pv, seq![], seq![], seq![], seq![], stack, 0),
        0 < pv.len() <= usize::MAX,
    ensures
        build_inv(pv, seq![None], seq![None], seq![pv.len() as usize], seq![pv[0].child_count], seq![0usize], 1),
{
    if stack.len() > 0 {
        assert(stack[0] < 0);
    }
    let ss = seq![0usize];
    assert(kids(seq![None], 0, 1) == Seq::<int>::empty());
    assert forall|p: int| 0 <= p < 1 implies #[trigger] ss.contains(p as usize) by {
        assert(ss[0] == 0usize);
    }
}

/// Placing node `k` after the root: it becomes a child of the stack's top,
/// takes the field its parent names for that child, and opens.
proof fn lemma_build_push(
    pv: Seq<ParsedNodeView>,
    parents: Seq<Option<usize>>,
    fields: Seq<Option<Seq<u8>>>,
    ends: Seq<usize>,
    rem: Seq<usize>,
    stack: Seq<usize>,
    k: int,
    f: Option<Seq<u8>>,
)
    requires
        build_inv(pv, parents, fields, ends, rem, stack, k),
        0 < k < pv.len() <= usize::MAX,
        stack.len() > 0,
        rem[stack.last() as int] > 0,
        f == field_at(pv[stack.last() as int], pv[stack.last() as int].child_count - rem[stack.last() as int]),
    ensures
        build_inv(
            pv,
            parents.push(Some(stack.last())),
            fields.push(f),
            ends.push(pv.len() as usize),
            rem.update(stack.last() as int, (rem[stack.last() as int] - 1) as usize).push(pv[k].child_count),
            stack.push(k as usize),
            k + 1,
        ),
{
    let n = pv.len();
    let top: int = stack.last() as int;
    let pp = parents.push(Some(stack.last()));
    let ff = fields.push(f);
    let ee = ends.push(n as usize);
    let rr = rem.update(top, (rem[top] - 1) as usize).push(pv[k].child_count);
    let ss = stack.push(k as usize);
    assert(stack[stack.len() - 1] < k);
    assert(ends[stack[stack.len() - 1] as int] == n);
    assert(stack.contains(top as usize)) by {
        assert(stack[stack.len() - 1] == top as usize);
    }
    assert forall|p: int| 0 <= p < k implies #[trigger] kids(pp, p, k) == kids(parents, p, k) by {
        lemma_kids_agree(pp, parents, p, k);
    }
    assert forall|p: int| 0 <= p < k + 1 implies #[trigger] kids(pp, p, k + 1) == (if p == top {
        kids(parents, p, k).push(k)
    } else if p == k {
        seq![]
    } else {
        kids(parents, p, k)
    }) by {
        if p < k {
            assert(kids(pp, p, k) == kids(parents, p, k));
        }
    }
    assert forall|p: int| 0 <= p < k + 1 implies #[trigger] ss.contains(p as usize) == (stack.contains(p as usize)
        || p == k) by {
        if p == k {
            assert(ss[stack.len() as int] == p as usize);
        } else if stack.contains(p as usize) {
            let i = choose|i: int| 0 <= i < stack.len() && stack[i] == p as usize;
            assert(ss[i] == p as usize);
        } else if ss.contains(p as usize) {
            let i = choose|i: int| 0 <= i < ss.len() && ss[i] == p as usize;
            assert(stack[i] == p as usize);
        }
    }
    assert forall|i: int, j: int| 0 <= i < j < ss.len() implies ss[i] < ss[j] by {
        if j < stack.len() {
            assert(ss[i] == stack[i] && ss[j] == stack[j]);
        } else {
            assert(stack[i] < k);
        }
    }
    assert forall|i: int| 0 <= i < ss.len() implies #[trigger] ss[i] < k + 1 && ee[ss[i] as int] == n by {
        if i < stack.len() {
            assert(ss[i] == stack[i]);
            assert(stack[i] < k && ends[stack[i] as int] == n);
        }
    }
    assert forall|p: int| 0 <= p < k + 1 implies #[trigger] kids(pp, p, k + 1).len() + rr[p] == pv[p].child_count by {
        if p < k {
            assert(kids(parents, p, k).len() + rem[p] == pv[p].child_count);
        }
    }
    assert forall|p: int|
        #![trigger rr[p]]
        #![trigger ee[p]]
        #![trigger kids(pp, p, k + 1)]
        0 <= p < k + 1 && !ss.contains(p as usize) implies {
        &&& rr[p] == 0
        &&& ee[p] <= k + 1
        &&& kids(pp, p, k + 1) == kids(pp, p, ee[p] as int)
    } by {
        assert(ss.contains(p as usize) == (stack.contains(p as usize) || p == k));
        assert(p < k && !stack.contains(p as usize));
        assert(p != top);
        assert(kids(parents, p, k) == kids(parents, p, ends[p] as int));
        assert(rr[p] == rem[p]);
        assert(ee[p] == ends[p]);
        lemma_kids_agree(pp, parents, p, ends[p] as int);
    }
    assert forall|p: int, i: int| 0 <= p < k + 1 && 0 <= i < kids(pp, p, k + 1).len() implies ff[#[trigger] kids(
        pp,
        p,
        k + 1,
    )[i]] == field_at(pv[p], i) by {
        if p < k {
            lemma_kids_range(parents, p, k);
            if i < kids(parents, p, k).len() {
                assert(kids(pp, p, k + 1)[i] == kids(parents, p, k)[i]);
                assert(fields[kids(parents, p, k)[i]] == field_at(pv[p], i));
            } else {
                assert(p == top);
                assert(kids(parents, p, k).len() + rem[p] == pv[p].child_count);
            }
        }
    }
    assert forall|p: int, j: int|
        #![trigger ee[p], pp[j]]
        0 <= p < j < k + 1 && j < ee[p] implies (pp[j] matches Some(q) && p <= q) by {
        assert(ee[p] == ends[p]);
        if j < k {
            assert(pp[j] == parents[j]);
        } else {
            assert(stack.contains(p as usize)) by {
                if !stack.contains(p as usize) {
                    assert(kids(parents, p, k) == kids(parents, p, ends[p] as int));
                }
            }
            let i = choose|i: int| 0 <= i < stack.len() && stack[i] == p as usize;
            if i < stack.len() - 1 {
                assert(stack[i] < stack[stack.len() - 1]);
            }
        }
    }
    assert forall|j: int| 0 <= j < k + 1 implies (#[trigger] pp[j] matches Some(q) ==> q < j && j < ee[q as int]) by {
        if j < k {
            assert(pp[j] == parents[j]);
            if let Some(q) = parents[j] {
                assert(q < j && j < ends[q as int]);
            }
        }
    }
}

/// Closing the stack's top once it expects no more children: its subtree
/// ends after the last node placed.
proof fn lemma_build_pop(
    pv: Seq<ParsedNodeView>,
    parents: Seq<Option<usize>>,
    fields: Seq<Option<Seq<u8>>>,
    ends: Seq<usize>,
    rem: Seq<usize>,
    stack: Seq<usize>,
    k: int,
)
    requires
        build_inv(pv, parents, fields, ends, rem, stack, k),
        k <= usize::MAX,
        stack.len() > 0,
        rem[stack.last() as int] == 0,
    ensures
        build_inv(pv, parents, fields, ends.update(stack.last() as int, k as usize), rem, stack.drop_last(), k),
{
    let n = pv.len();
    let t = stack.last() as int;
    let ee = ends.update(t, k as usize);
    let ss = stack.drop_last();
    assert(stack[stack.len() - 1] < k);
    assert forall|i: int| 0 <= i < ss.len() implies ss[i] != t as usize by {
        assert(stack[i] < stack[stack.len() - 1]);
    }
    assert forall|p: int| 0 <= p < k implies #[trigger] ss.contains(p as usize) == (stack.contains(p as usize) && p != t) by {
        if ss.contains(p as usize) {
            let i = choose|i: int| 0 <= i < ss.len() && ss[i] == p as usize;
            assert(stack[i] == p as usize);
        } else if stack.contains(p as usize) && p != t {
            let i = choose|i: int| 0 <= i < stack.len() && stack[i] == p as usize;
            assert(i != stack.len() - 1);
            assert(ss[i] == p as usize);
        }
    }
    assert forall|i: int| 0 <= i < ss.len() implies #[trigger] ss[i] < k && ee[ss[i] as int] == n by {
        assert(ss[i] == stack[i]);
        assert(stack[i] < k && ends[stack[i] as int] == n);
    }
    assert forall|p: int|
        #![trigger rem[p]]
        #![trigger ee[p]]
        #![trigger kids(parents, p, k)]
        0 <= p < k && !ss.contains(p as usize) implies {
        &&& rem[p] == 0
        &&& ee[p] <= k
        &&& kids(parents, p, k) == kids(parents, p, ee[p] as int)
    } by {
        assert(ss.contains(p as usize) == (stack.contains(p as usize) && p != t));
        if p != t {
            assert(kids(parents, p, k) == kids(parents, p, ends[p] as int));
        }
    }
    assert forall|p: int, j: int|
        #![trigger ee[p], parents[j]]
        0 <= p < j < k && j < ee[p] implies (parents[j] matches Some(q) && p <= q) by {
        if p == t {
            assert(ends[stack[stack.len() - 1] as int] == n);
        }
        assert(j < ends[p]);
    }
    assert forall|j: int| 0 <= j < k implies (#[trigger] parents[j] matches Some(q) ==> q < j && j < ee[q as int]) by {
        if let Some(q) = parents[j] {
            assert(q < j && j < ends[q as int]);
        }
    }
}

/// Once every node is placed and closed, the tree fits the parse.
proof fn lemma_build_done(
    t: &SyntaxTree,
    pv: Seq<ParsedNodeView>,
    rem: Seq<usize>,
    stack: Seq<usize>,
)
    requires
        build_inv(pv, t.parents@, t.fields.deep_view(), t.subtree_ends@, rem, stack, pv.len() as int),
        pv.len() <= usize::MAX,
        stack.len() == 0,
        t.len() == pv.len(),
        forall|p: int| 0 <= p < pv.len() ==> #[trigger] t.node(p) == pv[p],
    ensures
        t.fits_parse(),
{
    let n = pv.len() as int;
    let ps = t.parents@;
    assert forall|p: int| 0 <= p < n implies #[trigger] t.children(p) == kids(ps, p, n) by {
        lemma_children_kids(t, p, t.subtree_end(p));
        assert(!stack.contains(p as usize));
        assert(kids(ps, p, n) == kids(ps, p, t.subtree_ends@[p] as int));
    }
    assert forall|p: int| 0 <= p < t.len() implies #[trigger] t.children(p).len() == t.node(p).child_count by {
        assert(t.children(p) == kids(ps, p, n));
        assert(kids(ps, p, n).len() + rem[p] == pv[p].child_count);
        assert(!stack.contains(p as usize));
    }
    assert forall|p: int, i: int|
        0 <= p < t.len() && 0 <= i < t.children(p).len() implies t.field(#[trigger] t.children(p)[i])
            == field_at(t.node(p), i) by {
        assert(t.children(p) == kids(ps, p, n));
        assert(t.fields.deep_view()[kids(ps, p, n)[i]] == field_at(pv[p], i));
        assert(t.field(kids(ps, p, n)[i]) == t.fields.deep_view()[kids(ps, p, n)[i]]);
    }
    assert forall|p: int, j: int|
        #![trigger t.subtree_end(p), t.parent(j)]
        0 <= p < t.len() && p < j < t.subtree_end(p) implies (t.parent(j) matches Some(q) && p <= q) by {
        assert(t.subtree_ends@[p] <= n) by {
            assert(!stack.contains(p as usize));
            assert(kids(ps, p, n) == kids(ps, p, t.subtree_ends@[p] as int));
        }
        assert(j < t.subtree_ends@[p]);
        assert(ps[j] matches Some(q) && p <= q);
    }
    assert forall|j: int| 0 <= j < t.len() implies (#[trigger] t.parent(j) matches Some(q) ==> j < t.subtree_end(
        q as int,
    )) by {
        assert(ps[j] matches Some(q) ==> j < t.subtree_ends@[q as int]);
    }
}

/// Copies an optional byte string.
fn copy_opt_bytes(v: &Option<Vec<u8>>) -> (res: Option<Vec<u8>>)
    ensures
        res.deep_view() == v.deep_view(),
{
    match v {
        Some(b) => Some(copy_bytes(b)),
        None => None,
    }
}

/// The sum of the child counts of the first `k` nodes.
pub open spec fn count_sum(pv: Seq<ParsedNodeView>, k: int) -> int
    decreases k,
{
    if k <= 0 {
        0
    } else {
        count_sum(pv, k - 1) + pv[k - 1].child_count
    }
}

/// The child counts describe one tree in preorder: every node after the
/// first fills a child slot that an earlier node opened, and no slot is
/// left open at the end.
pub open spec fn counts_fit(pv: Seq<ParsedNodeView>) -> bool {
    &&& pv.len() > 0
    &&& forall|k: int| 1 <= k < pv.len() ==> #[trigger] count_sum(pv, k) >= k
    &&& count_sum(pv, pv.len() as int) == pv.len() - 1
}

/// Every node's bytes lie in code of `code_len` bytes.
pub open spec fn bytes_fit(pv: Seq<ParsedNodeView>, code_len: int) -> bool {
    forall|k: int| 0 <= k < pv.len() ==> #[trigger] pv[k].start_byte <= pv[k].end_byte <= code_len
}

/// The child slots still open: the sum of `rem` over the stack.
spec fn rem_sum(rem: Seq<usize>, stack: Seq<usize>) -> int
    decreases stack.len(),
{
    if stack.len() == 0 {
        0
    } else {
        rem_sum(rem, stack.drop_last()) + rem[stack.last() as int]
    }
}

/// `rem_sum` only reads `rem` at the stack's entries.
proof fn lemma_rem_sum_agree(a: Seq<usize>, b: Seq<usize>, stack: Seq<usize>)
    requires
        forall|i: int| 0 <= i < stack.len() ==> a[#[trigger] stack[i] as int] == b[stack[i] as int],
    ensures
        rem_sum(a, stack) == rem_sum(b, stack),
    decreases stack.len(),
{
    if stack.len() > 0 {
        let s = stack.drop_last();
        assert forall|i: int| 0 <= i < s.len() implies a[#[trigger] s[i] as int] == b[s[i] as int] by {
            assert(s[i] == stack[i]);
        }
        lemma_rem_sum_agree(a, b, s);
        assert(a[stack[stack.len() - 1] as int] == b[stack[stack.len() - 1] as int]);
    }
}

/// Open slots are never negative, and the top's are among them.
proof fn lemma_rem_sum_top(rem: Seq<usize>, stack: Seq<usize>)
    requires
        stack.len() > 0,
    ensures
        rem_sum(rem, stack) >= rem[stack.last() as int],
    decreases stack.len(),
{
    lemma_rem_sum_nonneg(rem, stack.drop_last());
}

/// Open slots are never negative.
proof fn lemma_rem_sum_nonneg(rem: Seq<usize>, stack: Seq<usize>)
    ensures
        rem_sum(rem, stack) >= 0,
    decreases stack.len(),
{
    if stack.len() > 0 {
        lemma_rem_sum_nonneg(rem, stack.drop_last());
    }
}

/// Changing the top's open slots changes the sum by as much, on a stack
/// without repeats.
proof fn lemma_rem_sum_update_top(rem: Seq<usize>, stack: Seq<usize>, v: usize)
    requires
        stack.len() > 0,
        forall|i: int, j: int| 0 <= i < j < stack.len() ==> stack[i] < stack[j],
        forall|i: int| 0 <= i < stack.len() ==> #[trigger] stack[i] < rem.len(),
    ensures
        rem_sum(rem.update(stack.last() as int, v), stack) == rem_sum(rem, stack) - rem[stack.last() as int] + v,
{
    let t = stack.last() as int;
    let s = stack.drop_last();
    let r2 = rem.update(t, v);
    assert(stack[stack.len() - 1] < rem.len());
    assert forall|i: int| 0 <= i < s.len() implies r2[#[trigger] s[i] as int] == rem[s[i] as int] by {
        assert(s[i] == stack[i]);
        assert(stack[i] < stack[stack.len() - 1]);
        assert(stack[i] < rem.len());
    }
    lemma_rem_sum_agree(r2, rem, s);
}

/// The node's bytes lie in code of `code_len` bytes.
spec fn node_in_code(nd: ParsedNode, code_len: int) -> bool {
    nd.start_byte <= nd.end_byte <= code_len
}

/// Rebuilds the tree structure of a preorder node list from the child
/// counts: each node's parent is the nearest open node before it that
/// still expects children. The tree fits the parse (see
/// [`SyntaxTree::fits_parse`]). `None` exactly when the counts do not
/// describe one tree in preorder or a node's bytes lie outside code of
/// `code_len` bytes.
pub fn build_tree(parsed: Vec<ParsedNode>, code_len: usize) -> (res: Option<SyntaxTree>)
    ensures
        res is Some <==> counts_fit(nodes_view(parsed@)) && bytes_fit(nodes_view(parsed@), code_len as int),
        res matches Some(t) ==> t.wf(code_len as int) && t.nodes@ == parsed@ && t.fits_parse(),
{
    let n = parsed.len();
    if n == 0 {
        return None;
    }
    let ghost pv = nodes_view(parsed@);
    let mut parents: Vec<Option<usize>> = Vec::new();
    let mut fields: Vec<Option<Vec<u8>>> = Vec::new();
    let mut ends: Vec<usize> = Vec::new();
    let mut rem: Vec<usize> = Vec::new();
    let mut stack: Vec<usize> = Vec::new();
    let mut k: usize = 0;
    assert(fields.deep_view() =~= Seq::<Option<Seq<u8>>>::empty());
    while k < n
        invariant
            n == parsed@.len(),
            pv == nodes_view(parsed@),
            k <= n,
            parents@.len() == k,
            fields@.len() == k,
            ends@.len() == k,
            rem@.len() == k,
            k > 0 ==> parents@[0] is None,
            forall|j: int| 0 < j < k ==> (#[trigger] parents@[j] matches Some(p) && p < j),
            forall|j: int| 0 <= j < k ==> node_in_code(#[trigger] parsed@[j], code_len as int),
            forall|j: int| 0 <= j < k ==> j < #[trigger] ends@[j] <= n,
            forall|j: int| 0 <= j < k ==> #[trigger] rem@[j] <= parsed@[j].child_count,
            forall|i: int| 0 <= i < stack@.len() ==> #[trigger] stack@[i] < k,
            stack@.len() > 0 ==> rem@[stack@.last() as int] > 0,
            build_inv(pv, parents@, fields.deep_view(), ends@, rem@, stack@, k as int),
            k >= 1 ==> rem_sum(rem@, stack@) == count_sum(pv, k as int) - k + 1,
            forall|j: int| 1 <= j < k ==> #[trigger] count_sum(pv, j) >= j,
        decreases n - k,
    {
        let ghost p0 = parents@;
        let ghost f0 = fields.deep_view();
        let ghost e0 = ends@;
        let ghost r0 = rem@;
        let ghost s0 = stack@;
        let nd = &parsed[k];
        if nd.start_byte > nd.end_byte || nd.end_byte > code_len {
            assert(pv[k as int] == parsed@[k as int]@);
            assert(!(pv[k as int].start_byte <= pv[k as int].end_byte <= code_len));
            assert(!bytes_fit(pv, code_len as int));
            return None;
        }
        assert(parsed@[k as int].start_byte <= parsed@[k as int].end_byte <= code_len);
        if k == 0 {
            parents.push(None);
            fields.push(None);
        } else {
            if stack.len() == 0 {
                assert(count_sum(pv, k as int) < k);
                return None;
            }
            proof {
                lemma_rem_sum_top(r0, s0);
                assert(count_sum(pv, k as int) >= k);
            }
            let top = stack[stack.len() - 1];
            let pos = parsed[top].child_count - rem[top];
            let f = if pos < parsed[top].child_fields.len() {
                copy_opt_bytes(&parsed[top].child_fields[pos])
            } else {
                None
            };
            let ghost fv = f.deep_view();
            proof {
                assert(pv[top as int] == parsed@[top as int]@);
                if pos < parsed[top as int].child_fields.len() {
                    assert(fv == parsed@[top as int].child_fields.deep_view()[pos as int]);
                }
                assert(fv == field_at(pv[top as int], pos as int));
            }
            parents.push(Some(top));
            fields.push(f);
            let r = rem[top] - 1;
            rem.set(top, r);
            proof {
                assert(fields.deep_view() =~= f0.push(fv));
            }
        }
        ends.push(n);
        rem.push(nd.child_count);
        stack.push(k);
        proof {
            assert(pv[k as int] == parsed@[k as int]@);
            if k == 0 {
                lemma_build_root(pv, s0);
                assert(parents@ =~= seq![None]);
                assert(fields.deep_view() =~= seq![None]);
                assert(ends@ =~= seq![n]);
                assert(rem@ =~= seq![pv[0].child_count]);
                assert(stack@ =~= seq![0usize]);
                assert(count_sum(pv, 0) == 0);
                assert(count_sum(pv, 1) == pv[0].child_count);
                assert(rem_sum(rem@, stack@) == rem_sum(rem@, seq![]) + rem@[0]) by {
                    assert(stack@.drop_last() =~= Seq::<usize>::empty());
                }
            } else {
                lemma_build_push(pv, p0, f0, e0, r0, s0, k as int, fields.deep_view().last());
                assert(parents@ =~= p0.push(Some(s0.last())));
                assert(ends@ =~= e0.push(n));
                let r1 = r0.update(s0.last() as int, (r0[s0.last() as int] - 1) as usize);
                assert(rem@ =~= r1.push(pv[k as int].child_count));
                assert(stack@ =~= s0.push(k));
                assert forall|i: int| 0 <= i < s0.len() implies #[trigger] s0[i] < r0.len() by {
                    assert(s0[i] < k);
                }
                lemma_rem_sum_update_top(r0, s0, (r0[s0.last() as int] - 1) as usize);
                assert forall|i: int| 0 <= i < s0.len() implies rem@[#[trigger] s0[i] as int] == r1[s0[i] as int] by {
                    assert(s0[i] < k);
                }
                lemma_rem_sum_agree(rem@, r1, s0);
                assert(stack@.drop_last() =~= s0);
                assert(rem_sum(rem@, stack@) == rem_sum(rem@, s0) + rem@[k as int]);
                assert(count_sum(pv, k + 1) == count_sum(pv, k as int) + pv[k as int].child_count);
            }
        }
        assert forall|j: int| 0 <= j < k + 1 implies node_in_code(#[trigger] parsed@[j], code_len as int) by {
            if j < k {
                assert(node_in_code(parsed@[j], code_len as int));
            }
        }
        while stack.len() > 0 && rem[stack[stack.len() - 1]] == 0
            invariant
                n == parsed@.len(),
                forall|j: int| 0 <= j < k + 1 ==> node_in_code(#[trigger] parsed@[j], code_len as int),
                pv == nodes_view(parsed@),
                k < n,
                rem@.len() == k + 1,
                ends@.len() == k + 1,
                forall|j: int| 0 <= j <= k ==> j < #[trigger] ends@[j] <= n,
                forall|i: int| 0 <= i < stack@.len() ==> #[trigger] stack@[i] <= k,
                build_inv(pv, parents@, fields.deep_view(), ends@, rem@, stack@, k + 1),
                rem_sum(rem@, stack@) == count_sum(pv, k + 1) - (k + 1) + 1,
                forall|j: int| 1 <= j < k + 1 ==> #[trigger] count_sum(pv, j) >= j,
            decreases stack@.len(),
        {
            let ghost s1 = stack@;
            let ghost e1 = ends@;
            proof {
                lemma_build_pop(pv, parents@, fields.deep_view(), e1, rem@, s1, k + 1);
            }
            let t = stack.pop().unwrap();
            ends.set(t, k + 1);
            assert(stack@ =~= s1.drop_last());
        }
        k = k + 1;
    }
    if stack.len() > 0 {
        proof {
            lemma_rem_sum_top(rem@, stack@);
        }
        return None;
    }
    assert forall|j: int| 0 <= j < pv.len() implies #[trigger] pv[j].start_byte <= pv[j].end_byte <= code_len by {
        assert(node_in_code(parsed@[j], code_len as int));
        assert(pv[j] == parsed@[j]@);
    }
    let t = SyntaxTree { nodes: parsed, parents, fields, subtree_ends: ends };
    assert forall|j: int| 0 <= j < t.len() implies #[trigger] t.node(j).start_byte <= t.node(j).end_byte
        <= code_len by {
        assert(node_in_code(t.nodes@[j], code_len as int));
    }
    assert forall|j: int| 0 <= j < t.len() implies j < #[trigger] t.subtree_end(j) <= t.len() by {
        assert(j < t.subtree_ends@[j] <= n);
    }
    assert forall|j: int| 0 < j < t.len() implies (#[trigger] t.parent(j) matches Some(p) && p < j) by {
        assert(t.parents@[j] matches Some(p) && p < j);
    }
    proof {
        lemma_build_done(&t, pv, rem@, stack@);
    }
    Some(t)
}

/// `children_upto` grows by appending: the children below `i` are a
/// prefix of those below `j`.
pub proof fn lemma_children_prefix(t: &SyntaxTree, p: int, i: int, j: int)
    requires
        i <= j,
    ensures
        t.children_upto(p, i).len() <= t.children_upto(p, j).len(),
        forall|m: int|
            0 <= m < t.children_upto(p, i).len() ==> t.children_upto(p, i)[m] == t.children_upto(
                p,
                j,
            )[m],
    decreases j - i,
{
    if i < j {
        lemma_children_prefix(t, p, i, j - 1);
    }
}

/// The children of `p` below `j` lie strictly between `p` and `j`.
pub proof fn lemma_children_range(t: &SyntaxTree, p: int, j: int)
    ensures
        forall|m: int|
            0 <= m < t.children_upto(p, j).len() ==> p < #[trigger] t.children_upto(p, j)[m] < j,
    decreases j - p,
{
    if j > p + 1 {
        lemma_children_range(t, p, j - 1);
        let prev = t.children_upto(p, j - 1);
        let cur = t.children_upto(p, j);
        assert forall|m: int| 0 <= m < cur.len() implies p < #[trigger] cur[m] < j by {
            if m < prev.len() {
                assert(cur[m] == prev[m]);
            }
        }
    }
}

impl SyntaxTree {
    /// Whether node `k` is of the kind `lit`.
    pub fn kind_is(&self, k: usize, lit: &[u8]) -> (res: bool)
        requires
            k < self.len(),
        ensures
            res == (self.node(k as int).kind == lit@),
    {
        bytes_eq(self.nodes[k].kind.as_slice(), lit)
    }

    /// The text of node `k` in `code`.
    pub fn text_of(&self, code: &[u8], k: usize) -> (res: Vec<u8>)
        requires
            self.wf(code@.len() as int),
            k < self.len(),
        ensures
            res@ == self.text(code@, k as int),
    {
        assert(self.node(k as int).start_byte <= self.node(k as int).end_byte <= code@.len());
        crate::text::copy_range(code, self.nodes[k].start_byte, self.nodes[k].end_byte)
    }

    /// The parent of node `k`.
    pub fn parent_of(&self, k: usize) -> (res: Option<usize>)
        requires
            self.parents@.len() == self.len(),
            k < self.len(),
        ensures
            res == self.parent(k as int),
    {
        self.parents[k]
    }

    /// The end of the subtree of node `k`.
    pub fn subtree_end_of(&self, k: usize) -> (res: usize)
        requires
            self.subtree_ends@.len() == self.len(),
            k < self.len(),
        ensures
            res == self.subtree_end(k as int),
    {
        self.subtree_ends[k]
    }

    /// The `i`-th child of node `p`.
    pub fn child_of(&self, p: usize, i: usize) -> (res: Option<usize>)
        requires
            self.parents@.len() == self.len(),
            self.subtree_ends@.len() == self.len(),
            p < self.len(),
            p < self.subtree_end(p as int) <= self.len(),
        ensures
            match res {
                Some(c) => self.child(p as int, i as int) == Some(c as int),
                None => self.child(p as int, i as int) is None,
            },
    {
        let end = self.subtree_ends[p];
        assert(end <= self.nodes@.len());
        let mut j: usize = p + 1;
        let mut count: usize = 0;
        proof {
            lemma_children_prefix(self, p as int, j as int, end as int);
        }
        while j < end
            invariant
                self.parents@.len() == self.len(),
                p < j <= end,
                end == self.subtree_end(p as int),
                end <= self.len(),
                count == self.children_upto(p as int, j as int).len(),
                count <= i,
            decreases end - j,
        {
            if self.parents[j] == Some(p) {
                if count == i {
                    proof {
                        lemma_children_prefix(self, p as int, j + 1, end as int);
                    }
                    return Some(j);
                }
                count = count + 1;
            }
            j = j + 1;
        }
        None
    }

    /// The first child of `p` under the field `name`.
    pub fn field_child_of(&self, p: usize, name: &[u8]) -> (res: Option<usize>)
        requires
            self.parents@.len() == self.len(),
            self.fields@.len() == self.len(),
            self.subtree_ends@.len() == self.len(),
            p < self.len(),
            p < self.subtree_end(p as int) <= self.len(),
        ensures
            match res {
                Some(c) => self.field_child(p as int, name@) == Some(c as int),
                None => self.field_child(p as int, name@) is None,
            },
    {
        let end = self.subtree_ends[p];
        assert(end <= self.nodes@.len());
        let mut j: usize = p + 1;
        let mut count: usize = 0;
        proof {
            lemma_children_prefix(self, p as int, j as int, end as int);
        }
        while j < end
            invariant
                self.parents@.len() == self.len(),
                self.fields@.len() == self.len(),
                p < j <= end,
                end == self.subtree_end(p as int),
                end <= self.len(),
                count == self.children_upto(p as int, j as int).len(),
                count + p < j,
                count <= self.children(p as int).len(),
                forall|m: int| 0 <= m < count ==> self.children_upto(p as int, j as int)[m] == self.children(p as int)[m],
                self.field_child_upto(p as int, name@, count as int) is None,
            decreases end - j,
        {
            if self.parents[j] == Some(p) {
                proof {
                    lemma_children_prefix(self, p as int, j + 1, end as int);
                    assert(self.children_upto(p as int, j + 1) == self.children_upto(p as int, j as int).push(j as int));
                    assert(self.children(p as int)[count as int] == j);
                }
                let hit = match &self.fields[j] {
                    Some(f) => bytes_eq(f.as_slice(), name),
                    None => false,
                };
                assert(self.field(j as int) == self.fields@[j as int].deep_view());
                if hit {
                    proof {
                        lemma_field_child_stable(self, p as int, name@, count + 1, self.children(p as int).len() as int);
                    }
                    return Some(j);
                }
                count = count + 1;
            }
            j = j + 1;
        }
        None
    }
}

/// Once found among the first `i` children, the field child stays the
/// same among more.
pub proof fn lemma_field_child_stable(t: &SyntaxTree, p: int, name: Seq<u8>, i: int, j: int)
    requires
        i <= j,
        t.field_child_upto(p, name, i) is Some,
    ensures
        t.field_child_upto(p, name, j) == t.field_child_upto(p, name, i),
    decreases j - i,
{
    if i < j {
        lemma_field_child_stable(t, p, name, i, j - 1);
    }
}

} // verus!
