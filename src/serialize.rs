//! Projection of a region arena into a generic nested value.
use vstd::prelude::*;
use crate::arena::{AttrValue, Node, RegionArena};
use crate::bytes::copy_bytes;
use crate::error::Error;
use crate::value::{lemma_list_view, lemma_table_view, Value, ValueModel};

verus! {

broadcast use vstd::std_specs::vec::group_vec_axioms, vstd::seq::group_seq_axioms;

/// The key under which a node's attributes appear: the ASCII text `attributes`.
pub open spec fn attributes_key() -> Seq<u8> {
    seq![97u8, 116, 116, 114, 105, 98, 117, 116, 101, 115]
}

/// The key under which a node's child groups appear: the ASCII text `children`.
pub open spec fn children_key() -> Seq<u8> {
    seq![99u8, 104, 105, 108, 100, 114, 101, 110]
}

/// How one attribute value is rendered: its content in full mode, the flag
/// `true` in shape mode.
pub open spec fn attr_model(a: AttrValue, shape: bool) -> ValueModel {
    if shape {
        ValueModel::Bool(true)
    } else {
        match a {
            AttrValue::Bool(b) => ValueModel::Bool(b),
            AttrValue::U8(v) => ValueModel::Int(v as int),
            AttrValue::I32(v) => ValueModel::Int(v as int),
            AttrValue::U32(v) => ValueModel::Int(v as int),
            AttrValue::Text(t) => ValueModel::Text(t@),
            AttrValue::Binary(b) => ValueModel::Bytes(b@),
        }
    }
}

/// The attribute table of node `n`, in stored order.
pub open spec fn attrs_model(n: Node, shape: bool) -> ValueModel {
    ValueModel::Table(
        Seq::new(
            n.attributes@.len(),
            |k: int| (n.attributes@[k].0@, attr_model(n.attributes@[k].1, shape)),
        ),
    )
}

/// The rendering of node `idx` of `nodes`: a table with exactly the keys
/// `attributes` and `children`; the latter maps each group name, in stored
/// order, to the list of the renderings of its children, in stored order.
pub open spec fn node_model(nodes: Seq<Node>, idx: nat, shape: bool) -> ValueModel
    decreases idx,
{
    if idx < nodes.len() {
        let n = nodes[idx as int];
        ValueModel::Table(
            seq![
                (attributes_key(), attrs_model(n, shape)),
                (
                    children_key(),
                    ValueModel::Table(
                        Seq::new(
                            n.children@.len(),
                            |g: int|
                                (
                                    n.children@[g].0@,
                                    ValueModel::List(
                                        Seq::new(
                                            n.children@[g].1@.len(),
                                            |j: int|
                                                if 0 <= g < n.children@.len() && 0 <= j
                                                    < n.children@[g].1@.len()
                                                    && n.children@[g].1@[j] < idx {
                                                    node_model(
                                                        nodes,
                                                        n.children@[g].1@[j] as nat,
                                                        shape,
                                                    )
                                                } else {
                                                    ValueModel::Bool(false)
                                                },
                                        ),
                                    ),
                                ),
                        ),
                    ),
                ),
            ],
        )
    } else {
        ValueModel::Bool(false)
    }
}

/// The deepest nesting of nodes that the serializer descends through.
pub const MAX_DEPTH: usize = 512;

/// `c` is the index of a child of node `idx`.
pub open spec fn is_child(nodes: Seq<Node>, idx: nat, c: usize) -> bool {
    exists|g: int, j: int|
        0 <= g < nodes[idx as int].children@.len() && 0 <= j < nodes[idx as int].children@[g].1@.len()
            && nodes[idx as int].children@[g].1@[j] == c
}

/// The subtree rooted at node `idx` has no path of more than `depth` nodes.
pub open spec fn within_depth(nodes: Seq<Node>, idx: nat, depth: nat) -> bool
    decreases depth,
{
    &&& idx < nodes.len()
    &&& depth > 0
    &&& forall|c: usize| #[trigger] is_child(nodes, idx, c) ==> within_depth(nodes, c as nat, (depth - 1) as nat)
}

/// The error that marks a tree nested deeper than `MAX_DEPTH`: a format
/// error of the tree as a whole, at offset `0`.
pub open spec fn too_deep() -> Error {
    Error::Format { offset: 0 }
}

/// The rendering of every root of `a`, keyed by region name in root-table
/// order.
pub open spec fn arena_model(a: RegionArena, shape: bool) -> ValueModel {
    ValueModel::Table(
        Seq::new(
            a.roots@.len(),
            |r: int| (a.roots@[r].0@, node_model(a.nodes@, a.roots@[r].1 as nat, shape)),
        ),
    )
}

/// Two values have the same shape: the same tables with the same keys in the
/// same order and the same lists with the same lengths, at every level; they
/// differ at most in leaves.
pub open spec fn same_shape(a: ValueModel, b: ValueModel) -> bool
    decreases a,
{
    match a {
        ValueModel::Table(x) => match b {
            ValueModel::Table(y) => x.len() == y.len() && forall|k: int|
                0 <= k < x.len() ==> x[k].0 == y[k].0 && same_shape(x[k].1, y[k].1),
            _ => false,
        },
        ValueModel::List(x) => match b {
            ValueModel::List(y) => x.len() == y.len() && forall|k: int|
                0 <= k < x.len() ==> same_shape(x[k], y[k]),
            _ => false,
        },
        _ => !(b is Table) && !(b is List),
    }
}

/// Rendering the same node of the same arena twice gives the same value.
pub proof fn lemma_serialize_deterministic(a: RegionArena, idx: usize, shape: bool, v1: Value, v2: Value)
    requires
        v1@ == node_model(a.nodes@, idx as nat, shape),
        v2@ == node_model(a.nodes@, idx as nat, shape),
    ensures
        v1@ == v2@,
{
}

/// Every child index of every node, and every root index, names a node of
/// the arena, so `get_node` succeeds on each index reachable from a root.
pub proof fn lemma_reachable_in_bounds(a: RegionArena)
    requires
        a.wf(),
    ensures
        forall|i: int, g: int, j: int|
            0 <= i < a.nodes@.len() && 0 <= g < a.nodes@[i].children@.len() && 0 <= j
                < a.nodes@[i].children@[g].1@.len() ==> #[trigger] a.nodes@[i].children@[g].1@[j]
                < a.nodes@.len(),
        forall|r: int| 0 <= r < a.roots@.len() ==> #[trigger] a.roots@[r].1 < a.nodes@.len(),
{
    assert forall|i: int, g: int, j: int|
        0 <= i < a.nodes@.len() && 0 <= g < a.nodes@[i].children@.len() && 0 <= j
            < a.nodes@[i].children@[g].1@.len() implies #[trigger] a.nodes@[i].children@[g].1@[j]
            < a.nodes@.len() by {
        assert(a.nodes@[i].wf_below(i));
    }
}

/// Shape mode and full mode render each node with the same keys (attribute
/// names, group names) and the same list lengths at every level.
pub proof fn lemma_shape_matches_full(a: RegionArena, idx: nat)
    requires
        a.wf(),
        idx < a.nodes@.len(),
    ensures
        same_shape(node_model(a.nodes@, idx, false), node_model(a.nodes@, idx, true)),
    decreases idx,
{
    let n = a.nodes@[idx as int];
    assert(n.wf_below(idx as int));
    let full = node_model(a.nodes@, idx, false);
    let flag = node_model(a.nodes@, idx, true);
    let fa = attrs_model(n, false);
    let sa = attrs_model(n, true);
    assert forall|k: int| 0 <= k < n.attributes@.len() implies same_shape(
        fa->Table_0[k].1,
        sa->Table_0[k].1,
    ) by {
        let v = n.attributes@[k].1;
        assert(sa->Table_0[k].1 == ValueModel::Bool(true));
        match v {
            AttrValue::Bool(_) => {},
            AttrValue::U8(_) => {},
            AttrValue::I32(_) => {},
            AttrValue::U32(_) => {},
            AttrValue::Text(_) => {},
            AttrValue::Binary(_) => {},
        }
    }
    assert(same_shape(fa, sa));
    let fc = full->Table_0[1].1;
    let sc = flag->Table_0[1].1;
    assert forall|g: int| 0 <= g < n.children@.len() implies same_shape(
        fc->Table_0[g].1,
        sc->Table_0[g].1,
    ) by {
        let fl = fc->Table_0[g].1;
        let sl = sc->Table_0[g].1;
        assert forall|j: int| 0 <= j < n.children@[g].1@.len() implies same_shape(
            fl->List_0[j],
            sl->List_0[j],
        ) by {
            lemma_shape_matches_full(a, n.children@[g].1@[j] as nat);
        }
    }
    assert(same_shape(fc, sc));
    assert(full->Table_0[0].1 == fa);
    assert(flag->Table_0[0].1 == sa);
}

/// The `children` table of a node's rendering lists exactly the node's
/// stored group names, in stored order, each with as many items as the group
/// has children.
pub proof fn lemma_children_keys_match_groups(a: RegionArena, idx: nat, shape: bool)
    requires
        a.wf(),
        idx < a.nodes@.len(),
    ensures
        ({
            let n = a.nodes@[idx as int];
            let t = node_model(a.nodes@, idx, shape)->Table_0;
            &&& t.len() == 2
            &&& t[1].0 == children_key()
            &&& t[1].1->Table_0.len() == n.children@.len()
            &&& forall|g: int|
                0 <= g < n.children@.len() ==> #[trigger] t[1].1->Table_0[g].0 == n.children@[g].0@
                    && t[1].1->Table_0[g].1->List_0.len() == n.children@[g].1@.len()
        }),
{
}

/// The same relation between shape mode and full mode, over a whole arena.
pub proof fn lemma_shape_matches_full_all(a: RegionArena)
    requires
        a.wf(),
    ensures
        same_shape(arena_model(a, false), arena_model(a, true)),
{
    assert forall|r: int| 0 <= r < a.roots@.len() implies same_shape(
        arena_model(a, false)->Table_0[r].1,
        arena_model(a, true)->Table_0[r].1,
    ) by {
        lemma_shape_matches_full(a, a.roots@[r].1 as nat);
    }
}

fn attributes_key_exec() -> (r: Vec<u8>)
    ensures
        r@ == attributes_key(),
{
    let r = vec![97u8, 116, 116, 114, 105, 98, 117, 116, 101, 115];
    assert(r@ =~= attributes_key());
    r
}

fn children_key_exec() -> (r: Vec<u8>)
    ensures
        r@ == children_key(),
{
    let r = vec![99u8, 104, 105, 108, 100, 114, 101, 110];
    assert(r@ =~= children_key());
    r
}

/// Renders one attribute value.
pub fn render_attr(a: &AttrValue, shape: bool) -> (r: Value)
    ensures
        r@ == attr_model(*a, shape),
{
    if shape {
        return Value::Bool(true);
    }
    match a {
        AttrValue::Bool(b) => Value::Bool(*b),
        AttrValue::U8(v) => Value::Int(*v as i64),
        AttrValue::I32(v) => Value::Int(*v as i64),
        AttrValue::U32(v) => Value::Int(*v as i64),
        AttrValue::Text(t) => Value::Text(t.clone()),
        AttrValue::Binary(b) => Value::Bytes(b.clone()),
    }
}

impl RegionArena {
    /// Renders the subtree rooted at node `idx`, depth first, descending
    /// through at most `depth` nodes.
    fn serialize_within(&self, idx: usize, shape: bool, depth: usize) -> (r: Result<Value, Error>)
        requires
            self.wf(),
            idx < self.nodes@.len(),
        ensures
            r is Ok <==> within_depth(self.nodes@, idx as nat, depth as nat),
            r is Ok ==> r->Ok_0@ == node_model(self.nodes@, idx as nat, shape),
            r is Err ==> r->Err_0 == too_deep(),
        decreases depth,
    {
        if depth == 0 {
            return Err(Error::Format { offset: 0 });
        }
        let node = &self.nodes[idx];
        assert(node.wf_below(idx as int));
        let mut attrs: Vec<(Vec<u8>, Value)> = Vec::new();
        let mut k: usize = 0;
        while k < node.attributes.len()
            invariant
                k <= node.attributes@.len(),
                attrs@.len() == k,
                forall|m: int|
                    0 <= m < k ==> #[trigger] attrs@[m].0@ == node.attributes@[m].0@
                        && attrs@[m].1@ == attr_model(node.attributes@[m].1, shape),
            decreases node.attributes@.len() - k,
        {
            let v = render_attr(&node.attributes[k].1, shape);
            attrs.push((copy_bytes(&node.attributes[k].0), v));
            k = k + 1;
        }
        proof {
            lemma_table_view(attrs);
            assert(Value::Table(attrs)@->Table_0 =~= attrs_model(*node, shape)->Table_0);
        }
        let attrs_value = Value::Table(attrs);
        let ghost expected_groups = match node_model(self.nodes@, idx as nat, shape) {
            ValueModel::Table(t) => t[1].1,
            _ => ValueModel::Bool(false),
        };
        let ghost eg = match expected_groups {
            ValueModel::Table(t) => t,
            _ => Seq::empty(),
        };
        assert(eg.len() == node.children@.len());
        let mut groups: Vec<(Vec<u8>, Value)> = Vec::new();
        let mut g: usize = 0;
        while g < node.children.len()
            invariant
                self.wf(),
                idx < self.nodes@.len(),
                *node == self.nodes@[idx as int],
                node.wf_below(idx as int),
                eg.len() == node.children@.len(),
                forall|m: int| 0 <= m < eg.len() ==> #[trigger] eg[m] == node_model(self.nodes@, idx as nat, shape)->Table_0[1].1->Table_0[m],
                g <= node.children@.len(),
                groups@.len() == g,
                forall|m: int| 0 <= m < g ==> (#[trigger] groups@[m].0@, groups@[m].1@) == eg[m],
                depth > 0,
                forall|m: int, i: int|
                    0 <= m < g && 0 <= i < node.children@[m].1@.len() ==> #[trigger] within_depth(
                        self.nodes@,
                        node.children@[m].1@[i] as nat,
                        (depth as nat - 1) as nat,
                    ),
            decreases node.children@.len() - g,
        {
            let list = &node.children[g].1;
            let mut items: Vec<Value> = Vec::new();
            let mut j: usize = 0;
            while j < list.len()
                invariant
                    self.wf(),
                    idx < self.nodes@.len(),
                    *node == self.nodes@[idx as int],
                    node.wf_below(idx as int),
                    g < node.children@.len(),
                    *list == node.children@[g as int].1,
                    j <= list@.len(),
                    items@.len() == j,
                    depth > 0,
                    forall|i: int|
                        0 <= i < j ==> #[trigger] within_depth(
                            self.nodes@,
                            list@[i] as nat,
                            (depth as nat - 1) as nat,
                        ),
                    forall|m: int|
                        0 <= m < j ==> #[trigger] items@[m]@ == node_model(
                            self.nodes@,
                            list@[m] as nat,
                            shape,
                        ),
                decreases list@.len() - j,
            {
                assert(list@[j as int] < idx);
                let child = match self.serialize_within(list[j], shape, depth - 1) {
                    Ok(v) => v,
                    Err(e) => {
                        proof {
                            let i: nat = idx as nat;
                            let d: nat = depth as nat;
                            let c = self.nodes@[i as int].children@[g as int].1@[j as int];
                            assert(is_child(self.nodes@, i, c));
                            assert(!within_depth(self.nodes@, c as nat, (d - 1) as nat));
                            assert(!within_depth(self.nodes@, i, d));
                        }
                        return Err(e);
                    },
                };
                items.push(child);
                j = j + 1;
            }
            let ghost expected = eg[g as int];
            proof {
                lemma_list_view(items);
                assert(expected.0 == node.children@[g as int].0@);
                assert(Value::List(items)@->List_0 =~= expected.1->List_0);
            }
            let group_value = Value::List(items);
            groups.push((copy_bytes(&node.children[g].0), group_value));
            g = g + 1;
        }
        proof {
            lemma_table_view(groups);
            assert(Value::Table(groups)@->Table_0 =~= eg);
        }
        let groups_value = Value::Table(groups);
        let mut top: Vec<(Vec<u8>, Value)> = Vec::new();
        top.push((attributes_key_exec(), attrs_value));
        top.push((children_key_exec(), groups_value));
        proof {
            let nodes = self.nodes@;
            let i: nat = idx as nat;
            let d: nat = depth as nat;
            assert forall|c: usize| #[trigger] is_child(nodes, i, c) implies within_depth(
                nodes,
                c as nat,
                (d - 1) as nat,
            ) by {
                let (g, j) = choose|g: int, j: int|
                    0 <= g < nodes[i as int].children@.len() && 0 <= j < nodes[i as int].children@[g].1@.len()
                        && nodes[i as int].children@[g].1@[j] == c;
                assert(within_depth(self.nodes@, node.children@[g].1@[j] as nat, (depth as nat - 1) as nat));
            }
            assert(within_depth(nodes, i, d));
            lemma_table_view(top);
            assert(Value::Table(top)@->Table_0 =~= node_model(self.nodes@, idx as nat, shape)->Table_0);
        }
        Ok(Value::Table(top))
    }

    /// Renders the subtree rooted at node `idx`, depth first. An index out of
    /// bounds is `Error::Index`; a tree nested deeper than `MAX_DEPTH` nodes
    /// is `too_deep()`, so adversarial input cannot exhaust the stack.
    pub fn serialize(&self, idx: usize, shape: bool) -> (r: Result<Value, Error>)
        requires
            self.wf(),
        ensures
            idx >= self.nodes@.len() ==> r == Err::<Value, Error>(Error::Index),
            idx < self.nodes@.len() ==> (r is Ok <==> within_depth(
                self.nodes@,
                idx as nat,
                MAX_DEPTH as nat,
            )),
            r is Ok ==> r->Ok_0@ == node_model(self.nodes@, idx as nat, shape),
            idx < self.nodes@.len() && r is Err ==> r->Err_0 == too_deep(),
    {
        if idx >= self.nodes.len() {
            return Err(Error::Index);
        }
        self.serialize_within(idx, shape, MAX_DEPTH)
    }

    /// Renders every root, keyed by region name, in root-table order.
    pub fn serialize_all(&self, shape: bool) -> (r: Result<Value, Error>)
        requires
            self.wf(),
        ensures
            r is Ok <==> forall|m: int|
                0 <= m < self.roots@.len() ==> #[trigger] within_depth(
                    self.nodes@,
                    self.roots@[m].1 as nat,
                    MAX_DEPTH as nat,
                ),
            r is Ok ==> r->Ok_0@ == arena_model(*self, shape),
            r is Err ==> r->Err_0 == too_deep(),
    {
        let mut out: Vec<(Vec<u8>, Value)> = Vec::new();
        let mut k: usize = 0;
        while k < self.roots.len()
            invariant
                self.wf(),
                k <= self.roots@.len(),
                out@.len() == k,
                forall|m: int|
                    0 <= m < k ==> (#[trigger] out@[m].0@, out@[m].1@) == arena_model(
                        *self,
                        shape,
                    )->Table_0[m],
                forall|m: int|
                    0 <= m < k ==> #[trigger] within_depth(
                        self.nodes@,
                        self.roots@[m].1 as nat,
                        MAX_DEPTH as nat,
                    ),
            decreases self.roots@.len() - k,
        {
            let v = match self.serialize(self.roots[k].1, shape) {
                Ok(v) => v,
                Err(e) => return Err(e),
            };
            out.push((copy_bytes(&self.roots[k].0), v));
            k = k + 1;
        }
        proof {
            lemma_table_view(out);
            assert(Value::Table(out)@->Table_0 =~= arena_model(*self, shape)->Table_0);
        }
        Ok(Value::Table(out))
    }
}

} // verus!
