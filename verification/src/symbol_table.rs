//! The symbol table of one analysed block: the variables in scope, each
//! with an id and the type it was given.

use crate::text::{bytes_eq, copy_bytes, lemma_bytes_deep_view};
use vstd::prelude::*;

verus! {

broadcast use lemma_bytes_deep_view;

/// A symbol: its name, id and type.
pub type SymbolView = (Seq<u8>, i32, Seq<u8>);

/// The first symbol at or after `k` named `name`.
pub open spec fn first_named_from(v: Seq<SymbolView>, name: Seq<u8>, k: int) -> Option<int>
    decreases v.len() - k,
{
    if k < 0 || k >= v.len() {
        None
    } else if v[k].0 == name {
        Some(k)
    } else {
        first_named_from(v, name, k + 1)
    }
}

/// A symbol found by `first_named_from` is in range and has the name.
pub proof fn lemma_first_named(v: Seq<SymbolView>, name: Seq<u8>, k: int)
    requires
        0 <= k,
    ensures
        match first_named_from(v, name, k) {
            Some(i) => k <= i < v.len() && v[i].0 == name && forall|j: int|
                k <= j < i ==> v[j].0 != name,
            None => forall|j: int| k <= j < v.len() ==> v[j].0 != name,
        },
    decreases v.len() - k,
{
    if k < v.len() && v[k].0 != name {
        lemma_first_named(v, name, k + 1);
    }
}

/// The first symbol named `name`.
pub open spec fn first_named(v: Seq<SymbolView>, name: Seq<u8>) -> Option<int> {
    first_named_from(v, name, 0)
}

/// The table after `append(name, ty)` with the id counter at `id`: the
/// first symbol with that name, if any, takes the next id and the type;
/// then the symbol is added again with the id after that.
pub open spec fn append_spec(v: Seq<SymbolView>, name: Seq<u8>, ty: Seq<u8>, id: i32) -> (Seq<SymbolView>, i32) {
    match first_named(v, name) {
        Some(k) => (
            v.update(k, (name, (id + 1) as i32, ty)).push((name, (id + 2) as i32, ty)),
            (id + 2) as i32,
        ),
        None => (v.push((name, (id + 1) as i32, ty)), (id + 1) as i32),
    }
}

/// What `get(name)` returns: the first symbol with that name, or an empty
/// name and type with id -1.
pub open spec fn get_spec(v: Seq<SymbolView>, name: Seq<u8>) -> SymbolView {
    match first_named(v, name) {
        Some(k) => v[k],
        None => (seq![], -1i32, seq![]),
    }
}

/// What `appendArc(name, target)` does: a variable bound to a shared
/// reference to `target` gets the id and type of the first symbol named
/// `target`; nothing happens when there is none.
pub open spec fn append_arc_spec(v: Seq<SymbolView>, name: Seq<u8>, target: Seq<u8>) -> Seq<SymbolView> {
    match first_named(v, target) {
        Some(k) => v.push((name, v[k].1, v[k].2)),
        None => v,
    }
}

/// The symbol table of a block.
#[allow(non_camel_case_types)]
pub struct symbolTable {
    /// The symbols, in the order they were added.
    #[allow(non_snake_case)]
    pub symbolVec: Vec<(Vec<u8>, i32, Vec<u8>)>,
}

impl symbolTable {
    /// The symbols as values.
    pub open spec fn symbols(&self) -> Seq<SymbolView> {
        self.symbolVec.deep_view()
    }

    /// An empty table.
    pub fn new() -> (res: symbolTable)
        ensures
            res.symbols() == Seq::<SymbolView>::empty(),
    {
        let mt_vector: Vec<(Vec<u8>, i32, Vec<u8>)> = Vec::new();
        let res = symbolTable { symbolVec: mt_vector };
        assert(res.symbols() =~= Seq::<SymbolView>::empty());
        res
    }

    /// The index of the first symbol named `name`.
    fn find(&self, name: &[u8]) -> (res: Option<usize>)
        ensures
            match res {
                Some(k) => first_named(self.symbols(), name@) == Some(k as int) && k
                    < self.symbols().len() && self.symbols()[k as int].0 == name@,
                None => first_named(self.symbols(), name@) is None,
            },
    {
        proof {
            lemma_first_named(self.symbols(), name@, 0);
        }
        let mut k: usize = 0;
        while k < self.symbolVec.len()
            invariant
                k <= self.symbols().len(),
                first_named(self.symbols(), name@) == first_named_from(self.symbols(), name@, k as int),
            decreases self.symbols().len() - k,
        {
            assert(self.symbols()[k as int].0 == self.symbolVec@[k as int].0@);
            if bytes_eq(self.symbolVec[k].0.as_slice(), name) {
                return Some(k);
            }
            k = k + 1;
        }
        None
    }

    /// Adds the variable `name` of type `_type`, taking ids from the
    /// counter `id`; a symbol already named so is renumbered and retyped
    /// first.
    pub fn append(&mut self, name: Vec<u8>, _type: Vec<u8>, id: &mut i32)
        requires
            *old(id) <= i32::MAX - 2,
        ensures
            (final(self).symbols(), *final(id)) == append_spec(old(self).symbols(), name@, _type@, *old(id)),
    {
        let ghost v = self.symbols();
        match self.find(name.as_slice()) {
            Some(k) => {
                *id = *id + 1;
                let entry = (copy_bytes(&name), *id, copy_bytes(&_type));
                self.symbolVec.set(k, entry);
                assert(self.symbols() =~= v.update(k as int, (name@, *id, _type@)));
            },
            None => {},
        }
        let ghost mid = self.symbols();
        *id = *id + 1;
        let a_variable = (name, *id, _type);
        self.symbolVec.push(a_variable);
        assert(self.symbols() =~= mid.push((name@, *id, _type@)));
    }

    /// The first symbol named `name`, or an empty name and type with id -1.
    pub fn get(&self, name: &[u8]) -> (res: (Vec<u8>, i32, Vec<u8>))
        ensures
            res.deep_view() == get_spec(self.symbols(), name@),
    {
        match self.find(name) {
            Some(k) => {
                let e = &self.symbolVec[k];
                (copy_bytes(&e.0), e.1, copy_bytes(&e.2))
            },
            None => {
                let r: (Vec<u8>, i32, Vec<u8>) = (Vec::new(), -1, Vec::new());
                assert(r.0@ =~= seq![] && r.2@ =~= seq![]);
                r
            },
        }
    }

    /// Binds `name` to what `target` is bound to: a copy of the id and type
    /// of the first symbol named `target`, if there is one.
    #[allow(non_snake_case)]
    pub fn appendArc(&mut self, name: Vec<u8>, target: Vec<u8>)
        ensures
            final(self).symbols() == append_arc_spec(old(self).symbols(), name@, target@),
    {
        let ghost v = self.symbols();
        match self.find(target.as_slice()) {
            Some(k) => {
                let id = self.symbolVec[k].1;
                let ty = copy_bytes(&self.symbolVec[k].2);
                self.symbolVec.push((name, id, ty));
                assert(self.symbols() =~= v.push((name@, v[k as int].1, v[k as int].2)));
            },
            None => {},
        }
    }

    /// A copy of the symbols.
    pub fn clone_symbols(&self) -> (res: Vec<(Vec<u8>, i32, Vec<u8>)>)
        ensures
            res.deep_view() == self.symbols(),
    {
        let mut res: Vec<(Vec<u8>, i32, Vec<u8>)> = Vec::new();
        let mut i: usize = 0;
        while i < self.symbolVec.len()
            invariant
                i <= self.symbols().len(),
                res.deep_view() == self.symbols().take(i as int),
            decreases self.symbols().len() - i,
        {
            let ghost before = res.deep_view();
            let e = &self.symbolVec[i];
            res.push((copy_bytes(&e.0), e.1, copy_bytes(&e.2)));
            assert(res.deep_view() =~= self.symbols().take(i + 1)) by {
                assert(res.deep_view() =~= before.push(self.symbolVec@[i as int].deep_view()));
            }
            i = i + 1;
        }
        assert(self.symbols().take(i as int) =~= self.symbols());
        res
    }
}

/// Reading a variable right after appending it gives it back with the type
/// it was given and the next id: either the earlier symbol of that name was
/// renumbered to it, or the new symbol is the first of its name.
pub proof fn law_get_after_append(v: Seq<SymbolView>, name: Seq<u8>, ty: Seq<u8>, id: i32)
    requires
        id <= i32::MAX - 2,
    ensures
        get_spec(append_spec(v, name, ty, id).0, name) == (name, (id + 1) as i32, ty),
{
    lemma_first_named(v, name, 0);
    let after = append_spec(v, name, ty, id).0;
    lemma_first_named(after, name, 0);
    match first_named(v, name) {
        Some(k) => {
            assert(after[k] == (name, (id + 1) as i32, ty));
            if first_named(after, name) != Some(k) {
                let j = first_named(after, name)->0;
                if j < k {
                    assert(after[j] == v[j]);
                }
            }
        },
        None => {
            let n = v.len() as int;
            assert(after[n] == (name, (id + 1) as i32, ty));
            if first_named(after, name) != Some(n) {
                let j = first_named(after, name)->0;
                assert(0 <= j < n ==> after[j] == v[j]);
            }
        },
    }
}

/// A variable bound to a shared reference to `target` reads as an alias of
/// it: same id and type, when `target` is known and the variable's name is
/// new.
pub proof fn law_get_after_append_arc(v: Seq<SymbolView>, name: Seq<u8>, target: Seq<u8>)
    requires
        first_named(v, target) is Some,
        first_named(v, name) is None,
    ensures
        ({
            let t = get_spec(v, target);
            get_spec(append_arc_spec(v, name, target), name) == (name, t.1, t.2)
        }),
{
    lemma_first_named(v, name, 0);
    lemma_first_named(v, target, 0);
    let k = first_named(v, target)->0;
    let n = v.len() as int;
    let after = append_arc_spec(v, name, target);
    assert(after == v.push((name, v[k].1, v[k].2)));
    lemma_first_named(after, name, 0);
    assert(after[n].0 == name);
    assert forall|j: int| 0 <= j < n implies after[j].0 != name by {
        assert(after[j] == v[j]);
    }
    assert(first_named(after, name) == Some(n));
}

} // verus!
