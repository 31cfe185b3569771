//! The decoded resource tree: a flat, index-addressed store of nodes.
use vstd::prelude::*;
use crate::bytes::bytes_eq;
use crate::error::Error;

verus! {

/// A typed attribute payload, one variant per kind the format carries.
#[derive(Debug, Clone, PartialEq, Eq)]
pub enum AttrValue {
    Bool(bool),
    U8(u8),
    I32(i32),
    U32(u32),
    Text(Vec<u8>),
    Binary(Vec<u8>),
}

/// One region node: a name, its attributes in stored order, and its named
/// groups of child indices in stored order.
#[derive(Debug, Clone)]
pub struct Node {
    pub name: Vec<u8>,
    pub attributes: Vec<(Vec<u8>, AttrValue)>,
    pub children: Vec<(Vec<u8>, Vec<usize>)>,
}

/// All nodes decoded from one entry, plus the table from region name to
/// root node index.
#[derive(Debug, Clone)]
pub struct RegionArena {
    pub nodes: Vec<Node>,
    pub roots: Vec<(Vec<u8>, usize)>,
}

/// The mathematical content of an attribute value.
pub enum AttrModel {
    Bool(bool),
    U8(u8),
    I32(i32),
    U32(u32),
    Text(Seq<u8>),
    Binary(Seq<u8>),
}

/// The mathematical content of a node.
pub struct NodeModel {
    pub name: Seq<u8>,
    pub attributes: Seq<(Seq<u8>, AttrModel)>,
    pub children: Seq<(Seq<u8>, Seq<usize>)>,
}

/// The mathematical content of an arena.
pub struct ArenaModel {
    pub nodes: Seq<NodeModel>,
    pub roots: Seq<(Seq<u8>, usize)>,
}

impl View for AttrValue {
    type V = AttrModel;

    open spec fn view(&self) -> AttrModel {
        match self {
            AttrValue::Bool(b) => AttrModel::Bool(*b),
            AttrValue::U8(v) => AttrModel::U8(*v),
            AttrValue::I32(v) => AttrModel::I32(*v),
            AttrValue::U32(v) => AttrModel::U32(*v),
            AttrValue::Text(t) => AttrModel::Text(t@),
            AttrValue::Binary(b) => AttrModel::Binary(b@),
        }
    }
}

/// The views of a sequence of attribute pairs.
pub open spec fn attrs_view(s: Seq<(Vec<u8>, AttrValue)>) -> Seq<(Seq<u8>, AttrModel)> {
    Seq::new(s.len(), |k: int| (s[k].0@, s[k].1@))
}

/// The views of a sequence of child groups.
pub open spec fn groups_view(s: Seq<(Vec<u8>, Vec<usize>)>) -> Seq<(Seq<u8>, Seq<usize>)> {
    Seq::new(s.len(), |k: int| (s[k].0@, s[k].1@))
}

/// The views of a sequence of nodes.
pub open spec fn nodes_view(s: Seq<Node>) -> Seq<NodeModel> {
    Seq::new(s.len(), |k: int| s[k]@)
}

/// The views of a root table.
pub open spec fn roots_view(s: Seq<(Vec<u8>, usize)>) -> Seq<(Seq<u8>, usize)> {
    Seq::new(s.len(), |k: int| (s[k].0@, s[k].1))
}

impl View for Node {
    type V = NodeModel;

    open spec fn view(&self) -> NodeModel {
        NodeModel {
            name: self.name@,
            attributes: attrs_view(self.attributes@),
            children: groups_view(self.children@),
        }
    }
}

impl View for RegionArena {
    type V = ArenaModel;

    open spec fn view(&self) -> ArenaModel {
        ArenaModel { nodes: nodes_view(self.nodes@), roots: roots_view(self.roots@) }
    }
}

/// No two pairs of `s` share a key.
pub open spec fn keys_unique<T>(s: Seq<(Vec<u8>, T)>) -> bool {
    forall|a: int, b: int| 0 <= a < b < s.len() ==> s[a].0@ != s[b].0@
}

/// Some pair of `s` has the key `k`.
pub open spec fn has_key<T>(s: Seq<(Vec<u8>, T)>, k: Seq<u8>) -> bool {
    exists|a: int| 0 <= a < s.len() && s[a].0@ == k
}

/// Whether some pair of `v` has the key `k`.
pub fn contains_key<T>(v: &Vec<(Vec<u8>, T)>, k: &[u8]) -> (r: bool)
    ensures
        r == has_key(v@, k@),
{
    let mut i: usize = 0;
    while i < v.len()
        invariant
            i <= v@.len(),
            forall|m: int| 0 <= m < i ==> v@[m].0@ != k@,
        decreases v@.len() - i,
    {
        if bytes_eq(v[i].0.as_slice(), k) {
            return true;
        }
        i = i + 1;
    }
    false
}

/// Pushing a pair whose key is new keeps the keys unique.
pub proof fn lemma_push_unique<T>(s: Seq<(Vec<u8>, T)>, p: (Vec<u8>, T))
    requires
        keys_unique(s),
        !has_key(s, p.0@),
    ensures
        keys_unique(s.push(p)),
{
    assert forall|a: int, b: int| 0 <= a < b < s.push(p).len() implies s.push(p)[a].0@ != s.push(p)[b].0@ by {
        if b == s.len() {
            assert(s[a].0@ != p.0@);
        }
    }
}

impl Node {
    /// Attribute and group names are unique, and every child index lies
    /// below `bound`.
    pub open spec fn wf_below(&self, bound: int) -> bool {
        &&& keys_unique(self.attributes@)
        &&& keys_unique(self.children@)
        &&& forall|g: int, j: int|
            0 <= g < self.children@.len() && 0 <= j < self.children@[g].1@.len()
                ==> self.children@[g].1@[j] < bound
    }
}

impl RegionArena {
    /// Every child of node `i` has an index below `i`, so the tree is
    /// acyclic by construction; every root names a node; names are unique.
    pub open spec fn wf(&self) -> bool {
        &&& forall|i: int| 0 <= i < self.nodes@.len() ==> #[trigger] self.nodes@[i].wf_below(i)
        &&& forall|r: int| 0 <= r < self.roots@.len() ==> #[trigger] self.roots@[r].1 < self.nodes@.len()
        &&& keys_unique(self.roots@)
    }

    /// Number of nodes in the arena.
    pub fn node_count(&self) -> (r: usize)
        ensures
            r == self.nodes@.len(),
    {
        self.nodes.len()
    }

    /// The node at `index`, or `Error::Index` when it is out of bounds.
    pub fn get_node(&self, index: usize) -> (r: Result<&Node, Error>)
        ensures
            index < self.nodes@.len() <==> r is Ok,
            r is Ok ==> *r->Ok_0 == self.nodes@[index as int],
            r is Err ==> r->Err_0 == Error::Index,
    {
        if index < self.nodes.len() {
            Ok(&self.nodes[index])
        } else {
            Err(Error::Index)
        }
    }

    /// The region names of the root table, in table order.
    pub fn root_names(&self) -> (r: Vec<Vec<u8>>)
        ensures
            r@.len() == self.roots@.len(),
            forall|k: int| 0 <= k < r@.len() ==> #[trigger] r@[k]@ == self.roots@[k].0@,
    {
        let mut out: Vec<Vec<u8>> = Vec::new();
        let mut k: usize = 0;
        while k < self.roots.len()
            invariant
                k <= self.roots@.len(),
                out@.len() == k,
                forall|m: int| 0 <= m < k ==> #[trigger] out@[m]@ == self.roots@[m].0@,
            decreases self.roots@.len() - k,
        {
            out.push(self.roots[k].0.clone());
            k = k + 1;
        }
        out
    }

    /// The node index of the region called `name`, or `Error::NotFound`.
    pub fn root_index(&self, name: &[u8]) -> (r: Result<usize, Error>)
        ensures
            r is Ok <==> has_key(self.roots@, name@),
            r is Ok ==> exists|k: int|
                0 <= k < self.roots@.len() && self.roots@[k].0@ == name@ && self.roots@[k].1
                    == r->Ok_0,
            r is Err ==> r->Err_0 == Error::NotFound,
    {
        let mut k: usize = 0;
        while k < self.roots.len()
            invariant
                k <= self.roots@.len(),
                forall|m: int| 0 <= m < k ==> self.roots@[m].0@ != name@,
            decreases self.roots@.len() - k,
        {
            if bytes_eq(self.roots[k].0.as_slice(), name) {
                return Ok(self.roots[k].1);
            }
            k = k + 1;
        }
        Err(Error::NotFound)
    }
}

} // verus!
