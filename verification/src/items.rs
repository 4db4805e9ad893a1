//! The items of a source file that the analysis looks up: its functions
//! with their return types, grouped by `impl` block.

use crate::syntax::{lemma_children_range, SyntaxTree};
use crate::text::{bytes_eq, copy_bytes, lemma_bytes_deep_view, literal};
use vstd::prelude::*;
use vstd::string::StringSliceAdditionalSpecFns;

verus! {

broadcast use lemma_bytes_deep_view;

/// Why the analysis of a program stops where the analysis would panic.
#[derive(Debug, PartialEq, Eq, Structural)]
pub enum AnalysisError {
    /// A syntax node that the analysis expects is missing.
    MissingNode,
    /// A manifest line lacks the quoted value it should hold (such a
    /// manifest is not read: see `FileVector::manifest_quoted_exec`).
    MissingQuote,
    /// A called function has no body in its file.
    MissingBlock,
    /// No file of the program holds its `main`.
    NoMainFile,
    /// The main file has no `main` function.
    NoMainBlock,
    /// A slice of a name falls outside it or inside a character.
    BadSlice,
    /// A thread, block or symbol counter would overflow.
    CounterOverflow,
    /// The analysis recurses deeper than its budget.
    TooDeep,
    /// A source file could not be parsed.
    ParseFailed,
}

/// An item of a source file.
pub enum ItemType {
    /// A module with its items (not produced by the analysis).
    ModFunc(Vec<ItemType>, Vec<u8>),
    /// An `impl` block: its functions and the implemented type.
    ImplFunc(Vec<ItemType>, Vec<u8>),
    /// A function: its name and its return type (empty if none).
    Func(Vec<u8>, Vec<u8>),
    /// Nothing (not produced by the analysis).
    Other,
}

/// The value of an [`ItemType`].
pub enum ItemView {
    ModFunc(Seq<ItemView>, Seq<u8>),
    ImplFunc(Seq<ItemView>, Seq<u8>),
    Func(Seq<u8>, Seq<u8>),
    Other,
}

/// The value of an item.
pub open spec fn item_view(it: ItemType) -> ItemView
    decreases it,
{
    match it {
        ItemType::ModFunc(l, n) => ItemView::ModFunc(
            Seq::new(
                l@.len(),
                |i: int|
                    if 0 <= i < l@.len() {
                        item_view(l@[i])
                    } else {
                        ItemView::Other
                    },
            ),
            n@,
        ),
        ItemType::ImplFunc(l, n) => ItemView::ImplFunc(
            Seq::new(
                l@.len(),
                |i: int|
                    if 0 <= i < l@.len() {
                        item_view(l@[i])
                    } else {
                        ItemView::Other
                    },
            ),
            n@,
        ),
        ItemType::Func(n, r) => ItemView::Func(n@, r@),
        ItemType::Other => ItemView::Other,
    }
}

/// The values of a list of items.
pub open spec fn items_view(l: Seq<ItemType>) -> Seq<ItemView> {
    Seq::new(l.len(), |i: int| item_view(l[i]))
}

/// The text of node `c`, or nothing when there is no node.
pub open spec fn text_or_empty(t: SyntaxTree, code: Seq<u8>, c: Option<int>) -> Seq<u8> {
    match c {
        Some(k) => t.text(code, k),
        None => seq![],
    }
}

/// The item for the `function_item` node `node`: its name and return type.
/// A return type of `Self` is replaced by the type the enclosing `impl`
/// names (the second child of the node's grandparent).
pub open spec fn item_new_spec(t: SyntaxTree, code: Seq<u8>, node: int) -> Result<ItemView, AnalysisError> {
    let ret = text_or_empty(t, code, t.field_child(node, "return_type".spec_bytes()));
    let name = text_or_empty(t, code, t.field_child(node, "name".spec_bytes()));
    if ret == "Self".spec_bytes() {
        match t.parent(node) {
            Some(p1) => match t.parent(p1 as int) {
                Some(p2) => match t.child(p2 as int, 1) {
                    Some(c) => Ok(ItemView::Func(name, t.text(code, c))),
                    None => Err(AnalysisError::MissingNode),
                },
                None => Err(AnalysisError::MissingNode),
            },
            None => Err(AnalysisError::MissingNode),
        }
    } else {
        Ok(ItemView::Func(name, ret))
    }
}

/// A function declared to return `Self` is listed with the type its `impl`
/// names instead: the text of the second child of the function's
/// grandparent (the `impl` item around its declaration list).
pub proof fn law_self_return_is_the_impl_type(t: SyntaxTree, code: Seq<u8>, node: int, p1: usize, p2: usize, c: int)
    requires
        text_or_empty(t, code, t.field_child(node, "return_type".spec_bytes())) == "Self".spec_bytes(),
        t.parent(node) == Some(p1),
        t.parent(p1 as int) == Some(p2),
        t.child(p2 as int, 1) == Some(c),
    ensures
        item_new_spec(t, code, node) == Ok::<ItemView, AnalysisError>(
            ItemView::Func(text_or_empty(t, code, t.field_child(node, "name".spec_bytes())), t.text(code, c)),
        ),
{
}

/// The items among the children of `node`: a function for each
/// `function_item` child and an `impl` with its items for each `impl_item`
/// child (its name is its second child, its items those of its third).
pub open spec fn new_vec_spec(t: SyntaxTree, code: Seq<u8>, node: int) -> Result<Seq<ItemView>, AnalysisError>
    decreases t.len() - node, 1int, 0int,
    when t.wf(code.len() as int) && 0 <= node < t.len()
{
    new_vec_from(t, code, node, 0)
}

/// The items among the children of `node` from the `k`-th on.
pub open spec fn new_vec_from(t: SyntaxTree, code: Seq<u8>, node: int, k: int) -> Result<Seq<ItemView>, AnalysisError>
    decreases t.len() - node, 0int, t.children(node).len() - k,
    when t.wf(code.len() as int) && 0 <= node < t.len()
{
    if k < 0 || k >= t.children(node).len() {
        Ok(seq![])
    } else {
        let c = t.children(node)[k];
        proof {
            lemma_children_range(&t, node, t.subtree_end(node));
        }
        let fst = if t.node(c).kind == "function_item".spec_bytes() {
            match item_new_spec(t, code, c) {
                Ok(it) => Ok(seq![it]),
                Err(e) => Err(e),
            }
        } else {
            Ok(seq![])
        };
        let snd = if t.node(c).kind == "impl_item".spec_bytes() {
            match t.child(c, 1) {
                Some(nm) => match t.child(c, 2) {
                    Some(b) => {
                        proof {
                            lemma_children_range(&t, c, t.subtree_end(c));
                        }
                        match new_vec_spec(t, code, b) {
                            Ok(l) => Ok(seq![ItemView::ImplFunc(l, t.text(code, nm))]),
                            Err(e) => Err(e),
                        }
                    },
                    None => Err(AnalysisError::MissingNode),
                },
                None => Err(AnalysisError::MissingNode),
            }
        } else {
            Ok(seq![])
        };
        match fst {
            Err(e) => Err(e),
            Ok(a) => match snd {
                Err(e) => Err(e),
                Ok(b) => match new_vec_from(t, code, node, k + 1) {
                    Err(e) => Err(e),
                    Ok(r) => Ok(a + b + r),
                },
            },
        }
    }
}

/// The return type of the last function named `key` among `list` and the
/// `impl` blocks in it, or nothing.
pub open spec fn return_type_spec(list: Seq<ItemView>, key: Seq<u8>) -> Seq<u8>
    decreases list,
{
    if list.len() == 0 {
        seq![]
    } else {
        let prev = return_type_spec(list.drop_last(), key);
        match list.last() {
            ItemView::Func(name, ret) => if key == name {
                ret
            } else {
                prev
            },
            ItemView::ImplFunc(l, _) => {
                let re = return_type_spec(l, key);
                if re != Seq::<u8>::empty() {
                    re
                } else {
                    prev
                }
            },
            _ => prev,
        }
    }
}

/// The text of node `c` in `code`, or nothing when there is no node.
fn text_or_empty_exec(t: &SyntaxTree, code: &[u8], c: Option<usize>) -> (res: Vec<u8>)
    requires
        t.wf(code@.len() as int),
        c matches Some(k) ==> k < t.len(),
    ensures
        res@ == text_or_empty(*t, code@, match c {
            Some(k) => Some(k as int),
            None => None,
        }),
{
    match c {
        Some(k) => t.text_of(code, k),
        None => {
            let v: Vec<u8> = Vec::new();
            assert(v@ =~= seq![]);
            v
        },
    }
}

/// Converts an optional index.
pub open spec fn opt_int(c: Option<usize>) -> Option<int> {
    match c {
        Some(k) => Some(k as int),
        None => None,
    }
}

/// The children of a node lie in the tree, after it.
pub proof fn lemma_child_in_tree(t: SyntaxTree, code_len: int, p: int, i: int)
    requires
        t.wf(code_len),
        0 <= p < t.len(),
    ensures
        t.child(p, i) matches Some(c) ==> p < c < t.len(),
        forall|m: int| 0 <= m < t.children(p).len() ==> p < #[trigger] t.children(p)[m] < t.len(),
{
    assert(p < t.subtree_end(p) <= t.len());
    lemma_children_range(&t, p, t.subtree_end(p));
}

/// The first child of `p` under the field `name` lies in the tree.
pub proof fn lemma_field_child_in_tree(t: SyntaxTree, code_len: int, p: int, name: Seq<u8>, i: int)
    requires
        t.wf(code_len),
        0 <= p < t.len(),
        0 <= i <= t.children(p).len(),
    ensures
        t.field_child_upto(p, name, i) matches Some(c) ==> p < c < t.len(),
    decreases i,
{
    lemma_child_in_tree(t, code_len, p, 0);
    if i > 0 {
        lemma_field_child_in_tree(t, code_len, p, name, i - 1);
    }
}

/// The value of an `impl` item is made of the values of its items.
pub proof fn lemma_impl_view(l: Vec<ItemType>, n: Vec<u8>)
    ensures
        item_view(ItemType::ImplFunc(l, n)) == ItemView::ImplFunc(items_view(l@), n@),
{
    let v = item_view(ItemType::ImplFunc(l, n));
    assert(v->ImplFunc_0 =~= items_view(l@));
}

impl ItemType {
    /// The item of the `function_item` node `node` (see [`item_new_spec`]).
    #[allow(unused_variables)]
    pub fn new(t: &SyntaxTree, code: &[u8], node: usize, parent: &[u8]) -> (res: Result<ItemType, AnalysisError>)
        requires
            t.wf(code@.len() as int),
            node < t.len(),
        ensures
            match res {
                Ok(it) => item_new_spec(*t, code@, node as int) == Ok::<ItemView, AnalysisError>(item_view(it)),
                Err(e) => item_new_spec(*t, code@, node as int) == Err::<ItemView, AnalysisError>(e),
            },
            res matches Err(e) ==> e == AnalysisError::MissingNode,
    {
        assert(node < t.subtree_end(node as int) <= t.len());
        let ret_node = t.field_child_of(node, literal("return_type"));
        proof {
            lemma_field_child_in_tree(*t, code@.len() as int, node as int, "return_type".spec_bytes(), t.children(node as int).len() as int);
        }
        let mut func_return = text_or_empty_exec(t, code, ret_node);
        if bytes_eq(func_return.as_slice(), literal("Self")) {
            let p1 = match t.parent_of(node) {
                Some(p) => p,
                None => return Err(AnalysisError::MissingNode),
            };
            assert(t.parent(node as int) matches Some(p) && p < node);
            let p2 = match t.parent_of(p1) {
                Some(p) => p,
                None => return Err(AnalysisError::MissingNode),
            };
            assert(t.parent(p1 as int) matches Some(p) && p < p1);
            assert(p2 < t.subtree_end(p2 as int) <= t.len());
            let impl_node = match t.child_of(p2, 1) {
                Some(c) => c,
                None => return Err(AnalysisError::MissingNode),
            };
            proof {
                lemma_child_in_tree(*t, code@.len() as int, p2 as int, 1);
            }
            func_return = t.text_of(code, impl_node);
        }
        let name_node = t.field_child_of(node, literal("name"));
        proof {
            lemma_field_child_in_tree(*t, code@.len() as int, node as int, "name".spec_bytes(), t.children(node as int).len() as int);
        }
        let func_name = text_or_empty_exec(t, code, name_node);
        Ok(ItemType::Func(func_name, func_return))
    }

    /// The items among the children of `node` (see [`new_vec_spec`]).
    #[allow(unused_variables)]
    pub fn new_vec(t: &SyntaxTree, code: &[u8], node: usize, parent: &[u8]) -> (res: Result<Vec<ItemType>, AnalysisError>)
        requires
            t.wf(code@.len() as int),
            node < t.len(),
        ensures
            match res {
                Ok(v) => new_vec_spec(*t, code@, node as int) == Ok::<Seq<ItemView>, AnalysisError>(items_view(v@)),
                Err(e) => new_vec_spec(*t, code@, node as int) == Err::<Seq<ItemView>, AnalysisError>(e),
            },
            res matches Err(e) ==> e == AnalysisError::MissingNode,
        decreases t.len() - node,
    {
        let ghost tv = *t;
        let ghost cv = code@;
        let mut item_list: Vec<ItemType> = Vec::new();
        assert(node < t.subtree_end(node as int) <= t.len());
        let end = t.subtree_end_of(node);
        let mut j: usize = node + 1;
        let ghost mut count: int = 0;
        proof {
            lemma_child_in_tree(tv, cv.len() as int, node as int, 0);
            crate::syntax::lemma_children_prefix(t, node as int, j as int, end as int);
        }
        while j < end
            invariant
                t.wf(code@.len() as int),
                tv == *t,
                cv == code@,
                node < j <= end,
                end == t.subtree_end(node as int),
                end <= t.len(),
                count == t.children_upto(node as int, j as int).len(),
                count <= t.children(node as int).len(),
                forall|m: int| 0 <= m < count ==> t.children_upto(node as int, j as int)[m] == t.children(node as int)[m],
                forall|m: int| 0 <= m < t.children(node as int).len() ==> node < #[trigger] t.children(node as int)[m] < t.len(),
                new_vec_from(tv, cv, node as int, 0) == match new_vec_from(tv, cv, node as int, count) {
                    Ok(r) => Ok::<Seq<ItemView>, AnalysisError>(items_view(item_list@) + r),
                    Err(e) => Err(e),
                },
            decreases end - j,
        {
            if t.parents[j] == Some(node) {
                proof {
                    crate::syntax::lemma_children_prefix(t, node as int, j + 1, end as int);
                    assert(t.children_upto(node as int, j + 1) == t.children_upto(node as int, j as int).push(j as int));
                    assert(t.children(node as int)[count] == j);
                }
                let ghost before = items_view(item_list@);
                let ghost mut added: Seq<ItemView> = seq![];
                if t.kind_is(j, literal("function_item")) {
                    match ItemType::new(t, code, j, parent) {
                        Ok(it) => {
                            item_list.push(it);
                            proof {
                                added = seq![item_view(it)];
                            }
                        },
                        Err(e) => {
                            return Err(e);
                        },
                    }
                }
                if t.kind_is(j, literal("impl_item")) {
                    assert(j < t.subtree_end(j as int) <= t.len());
                    let name = match t.child_of(j, 1) {
                        Some(c) => {
                            proof {
                                lemma_child_in_tree(tv, cv.len() as int, j as int, 1);
                            }
                            t.text_of(code, c)
                        },
                        None => {
                            return Err(AnalysisError::MissingNode);
                        },
                    };
                    let body = match t.child_of(j, 2) {
                        Some(c) => c,
                        None => {
                            return Err(AnalysisError::MissingNode);
                        },
                    };
                    proof {
                        lemma_child_in_tree(tv, cv.len() as int, j as int, 2);
                    }
                    let inner = match ItemType::new_vec(t, code, body, name.as_slice()) {
                        Ok(v) => v,
                        Err(e) => {
                            return Err(e);
                        },
                    };
                    let it = ItemType::ImplFunc(inner, name);
                    item_list.push(it);
                    proof {
                        lemma_impl_view(inner, name);
                        added = added + seq![item_view(it)];
                    }
                }
                proof {
                    assert(items_view(item_list@) =~= before + added);
                    assert(new_vec_from(tv, cv, node as int, count) == match new_vec_from(tv, cv, node as int, count + 1) {
                        Ok(r) => Ok::<Seq<ItemView>, AnalysisError>(added + r),
                        Err(e) => Err(e),
                    });
                    match new_vec_from(tv, cv, node as int, count + 1) {
                        Ok(r) => {
                            assert(before + (added + r) =~= items_view(item_list@) + r);
                        },
                        Err(e) => {},
                    }
                    count = count + 1;
                }
            }
            j = j + 1;
        }
        proof {
            assert(items_view(item_list@) + seq![] =~= items_view(item_list@));
        }
        Ok(item_list)
    }
}

/// The return type of the last function named `key` in `list` and the
/// `impl` blocks in it, or nothing (see [`return_type_spec`]).
pub fn find_return_type(list: &Vec<ItemType>, key: &[u8]) -> (res: Vec<u8>)
    ensures
        res@ == return_type_spec(items_view(list@), key@),
    decreases list@,
{
    let ghost lv = items_view(list@);
    let mut return_value: Vec<u8> = Vec::new();
    assert(return_value@ =~= return_type_spec(lv.take(0), key@));
    let mut k: usize = 0;
    while k < list.len()
        invariant
            k <= list@.len(),
            lv == items_view(list@),
            return_value@ == return_type_spec(lv.take(k as int), key@),
        decreases list@.len() - k,
    {
        assert(lv.take(k + 1).drop_last() =~= lv.take(k as int));
        assert(lv.take(k + 1).last() == item_view(list@[k as int]));
        match &list[k] {
            ItemType::Func(name, ret) => {
                if bytes_eq(key, name.as_slice()) {
                    return_value = copy_bytes(ret);
                }
            },
            ItemType::ImplFunc(new_list, _) => {
                assert(decreases_to!(list@ => list@[k as int]));
                let re = find_return_type(new_list, key);
                proof {
                    lemma_impl_view(*new_list, list@[k as int]->ImplFunc_1);
                }
                if re.len() != 0 {
                    return_value = re;
                } else {
                    assert(re@ =~= Seq::<u8>::empty());
                }
            },
            _ => {},
        }
        k = k + 1;
    }
    assert(lv.take(k as int) =~= lv);
    return_value
}

} // verus!
