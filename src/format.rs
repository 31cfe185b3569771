//! The resource-tree format as a specification: what each field at a given
//! position decodes to, and where decoding goes on. `Err(p)` marks a buffer
//! that the format rejects, `p` being the position at which the offending
//! field starts (for an unknown attribute tag, the position of its payload;
//! for a duplicate name or an out-of-range root, the start of its record).
use vstd::prelude::*;
use crate::arena::{has_key, ArenaModel, AttrModel, NodeModel};
use crate::bytes::le_value;

verus! {

/// The signature that opens a resource-tree buffer: the ASCII text `LSOF`.
pub open spec fn lsf_signature() -> Seq<u8> {
    seq![76u8, 83, 79, 70]
}

/// Some pair of `s` has the key `k`.
pub open spec fn seq_has_key<T>(s: Seq<(Seq<u8>, T)>, k: Seq<u8>) -> bool {
    exists|a: int| 0 <= a < s.len() && s[a].0 == k
}

/// A key occurs among pairs exactly when it occurs among their views.
pub proof fn lemma_has_key_view<T, M>(s: Seq<(Vec<u8>, T)>, v: Seq<(Seq<u8>, M)>, k: Seq<u8>)
    requires
        s.len() == v.len(),
        forall|a: int| 0 <= a < s.len() ==> #[trigger] v[a].0 == s[a].0@,
    ensures
        has_key(s, k) <==> seq_has_key(v, k),
{
    if has_key(s, k) {
        let a = choose|a: int| 0 <= a < s.len() && s[a].0@ == k;
        assert(v[a].0 == k);
    }
    if seq_has_key(v, k) {
        let a = choose|a: int| 0 <= a < v.len() && v[a].0 == k;
        assert(s[a].0@ == k);
    }
}

/// A byte at `p`, and the position after it.
pub open spec fn u8_at(d: Seq<u8>, p: int) -> Result<(u8, int), int> {
    if 0 <= p < d.len() {
        Ok((d[p], p + 1))
    } else {
        Err(p)
    }
}

/// A little-endian `u16` at `p`, and the position after it.
pub open spec fn u16_at(d: Seq<u8>, p: int) -> Result<(nat, int), int> {
    if 0 <= p && p + 2 <= d.len() {
        Ok((le_value(d, p, 2), p + 2))
    } else {
        Err(p)
    }
}

/// A little-endian `u32` at `p`, and the position after it.
pub open spec fn u32_at(d: Seq<u8>, p: int) -> Result<(u32, int), int> {
    if 0 <= p && p + 4 <= d.len() {
        Ok((le_value(d, p, 4) as u32, p + 4))
    } else {
        Err(p)
    }
}

/// The `n` bytes at `p`, and the position after them.
pub open spec fn bytes_at(d: Seq<u8>, p: int, n: nat) -> Result<(Seq<u8>, int), int> {
    if 0 <= p && p + n <= d.len() {
        Ok((d.subrange(p, p + n), p + n))
    } else {
        Err(p)
    }
}

/// A `u32` reference into the string table `st`, resolved.
pub open spec fn name_at(d: Seq<u8>, p: int, st: Seq<Seq<u8>>) -> Result<(Seq<u8>, int), int> {
    match u32_at(d, p) {
        Ok((k, q)) => if (k as int) < st.len() {
            Ok((st[k as int], q))
        } else {
            Err(p)
        },
        Err(e) => Err(e),
    }
}

/// A string of the string table: a `u16` length and its bytes.
pub open spec fn string_at(d: Seq<u8>, p: int) -> Result<(Seq<u8>, int), int> {
    match u16_at(d, p) {
        Ok((n, q)) => bytes_at(d, q, n),
        Err(e) => Err(e),
    }
}

/// The first `n` strings of a string table whose strings start at `p0`.
pub open spec fn strings_n(d: Seq<u8>, p0: int, n: nat) -> Result<(Seq<Seq<u8>>, int), int>
    decreases n,
{
    if n == 0 {
        Ok((Seq::empty(), p0))
    } else {
        match strings_n(d, p0, (n - 1) as nat) {
            Ok((acc, p)) => match string_at(d, p) {
                Ok((s, q)) => Ok((acc.push(s), q)),
                Err(e) => Err(e),
            },
            Err(e) => Err(e),
        }
    }
}

/// A `u32`-length-prefixed payload.
pub open spec fn payload_at(d: Seq<u8>, p: int) -> Result<(Seq<u8>, int), int> {
    match u32_at(d, p) {
        Ok((n, q)) => bytes_at(d, q, n as nat),
        Err(e) => Err(e),
    }
}

/// The payload of an attribute of kind `tag`.
pub open spec fn attr_value_at(d: Seq<u8>, p: int, tag: u8) -> Result<(AttrModel, int), int> {
    if tag == 0 {
        match u8_at(d, p) {
            Ok((b, q)) => if b <= 1 {
                Ok((AttrModel::Bool(b == 1), q))
            } else {
                Err(p)
            },
            Err(e) => Err(e),
        }
    } else if tag == 1 {
        match u8_at(d, p) {
            Ok((b, q)) => Ok((AttrModel::U8(b), q)),
            Err(e) => Err(e),
        }
    } else if tag == 2 {
        match u32_at(d, p) {
            Ok((v, q)) => Ok((AttrModel::I32(v as i32), q)),
            Err(e) => Err(e),
        }
    } else if tag == 3 {
        match u32_at(d, p) {
            Ok((v, q)) => Ok((AttrModel::U32(v), q)),
            Err(e) => Err(e),
        }
    } else if tag == 4 {
        match payload_at(d, p) {
            Ok((t, q)) => Ok((AttrModel::Text(t), q)),
            Err(e) => Err(e),
        }
    } else if tag == 5 {
        match payload_at(d, p) {
            Ok((t, q)) => Ok((AttrModel::Binary(t), q)),
            Err(e) => Err(e),
        }
    } else {
        Err(p)
    }
}

/// One attribute: a name reference, a type tag and the payload.
pub open spec fn attr_at(d: Seq<u8>, p: int, st: Seq<Seq<u8>>) -> Result<((Seq<u8>, AttrModel), int), int> {
    match name_at(d, p, st) {
        Ok((k, q)) => match u8_at(d, q) {
            Ok((tag, q2)) => match attr_value_at(d, q2, tag) {
                Ok((v, q3)) => Ok(((k, v), q3)),
                Err(e) => Err(e),
            },
            Err(e) => Err(e),
        },
        Err(e) => Err(e),
    }
}

/// The first `n` attributes of a node, from `p0`; names must be unique.
pub open spec fn attrs_n(d: Seq<u8>, p0: int, st: Seq<Seq<u8>>, n: nat) -> Result<(Seq<(Seq<u8>, AttrModel)>, int), int>
    decreases n,
{
    if n == 0 {
        Ok((Seq::empty(), p0))
    } else {
        match attrs_n(d, p0, st, (n - 1) as nat) {
            Ok((acc, p)) => match attr_at(d, p, st) {
                Ok((a, q)) => if seq_has_key(acc, a.0) {
                    Err(p)
                } else {
                    Ok((acc.push(a), q))
                },
                Err(e) => Err(e),
            },
            Err(e) => Err(e),
        }
    }
}

/// The first `n` child indices of a group, from `p0`; each must lie below
/// `bound`.
pub open spec fn children_n(d: Seq<u8>, p0: int, bound: nat, n: nat) -> Result<(Seq<usize>, int), int>
    decreases n,
{
    if n == 0 {
        Ok((Seq::empty(), p0))
    } else {
        match children_n(d, p0, bound, (n - 1) as nat) {
            Ok((acc, p)) => match u32_at(d, p) {
                Ok((c, q)) => if (c as nat) < bound {
                    Ok((acc.push(c as usize), q))
                } else {
                    Err(p)
                },
                Err(e) => Err(e),
            },
            Err(e) => Err(e),
        }
    }
}

/// One child group: a name reference, a `u32` count and the indices.
pub open spec fn group_at(d: Seq<u8>, p: int, st: Seq<Seq<u8>>, bound: nat) -> Result<((Seq<u8>, Seq<usize>), int), int> {
    match name_at(d, p, st) {
        Ok((k, q)) => match u32_at(d, q) {
            Ok((n, q2)) => match children_n(d, q2, bound, n as nat) {
                Ok((c, q3)) => Ok(((k, c), q3)),
                Err(e) => Err(e),
            },
            Err(e) => Err(e),
        },
        Err(e) => Err(e),
    }
}

/// The first `n` child groups of a node, from `p0`; names must be unique.
pub open spec fn groups_n(d: Seq<u8>, p0: int, st: Seq<Seq<u8>>, bound: nat, n: nat) -> Result<(Seq<(Seq<u8>, Seq<usize>)>, int), int>
    decreases n,
{
    if n == 0 {
        Ok((Seq::empty(), p0))
    } else {
        match groups_n(d, p0, st, bound, (n - 1) as nat) {
            Ok((acc, p)) => match group_at(d, p, st, bound) {
                Ok((g, q)) => if seq_has_key(acc, g.0) {
                    Err(p)
                } else {
                    Ok((acc.push(g), q))
                },
                Err(e) => Err(e),
            },
            Err(e) => Err(e),
        }
    }
}

/// One node record, whose children must lie below `bound`.
pub open spec fn node_at(d: Seq<u8>, p: int, st: Seq<Seq<u8>>, bound: nat) -> Result<(NodeModel, int), int> {
    match name_at(d, p, st) {
        Ok((name, q)) => match u32_at(d, q) {
            Ok((na, q2)) => match attrs_n(d, q2, st, na as nat) {
                Ok((attributes, q3)) => match u32_at(d, q3) {
                    Ok((ng, q4)) => match groups_n(d, q4, st, bound, ng as nat) {
                        Ok((children, q5)) => Ok(
                            (NodeModel { name, attributes, children }, q5),
                        ),
                        Err(e) => Err(e),
                    },
                    Err(e) => Err(e),
                },
                Err(e) => Err(e),
            },
            Err(e) => Err(e),
        },
        Err(e) => Err(e),
    }
}

/// The first `n` nodes, from `p0`; node `k` may only refer to nodes below `k`.
pub open spec fn nodes_n(d: Seq<u8>, p0: int, st: Seq<Seq<u8>>, n: nat) -> Result<(Seq<NodeModel>, int), int>
    decreases n,
{
    if n == 0 {
        Ok((Seq::empty(), p0))
    } else {
        match nodes_n(d, p0, st, (n - 1) as nat) {
            Ok((acc, p)) => match node_at(d, p, st, acc.len()) {
                Ok((node, q)) => Ok((acc.push(node), q)),
                Err(e) => Err(e),
            },
            Err(e) => Err(e),
        }
    }
}

/// The first `n` roots, from `p0`; each names one of `count` nodes and
/// region names are unique.
pub open spec fn roots_n(d: Seq<u8>, p0: int, st: Seq<Seq<u8>>, count: nat, n: nat) -> Result<(Seq<(Seq<u8>, usize)>, int), int>
    decreases n,
{
    if n == 0 {
        Ok((Seq::empty(), p0))
    } else {
        match roots_n(d, p0, st, count, (n - 1) as nat) {
            Ok((acc, p)) => match name_at(d, p, st) {
                Ok((k, q)) => match u32_at(d, q) {
                    Ok((i, q2)) => if (i as nat) < count && !seq_has_key(acc, k) {
                        Ok((acc.push((k, i as usize)), q2))
                    } else {
                        Err(p)
                    },
                    Err(e) => Err(e),
                },
                Err(e) => Err(e),
            },
            Err(e) => Err(e),
        }
    }
}

/// The arena that the buffer `d` encodes, if it is well formed.
pub open spec fn decode_spec(d: Seq<u8>) -> Result<ArenaModel, int> {
    if d.len() < 4 || d.subrange(0, 4) != lsf_signature() {
        Err(0)
    } else {
        match u32_at(d, 4) {
            Ok((ns, p)) => match strings_n(d, p, ns as nat) {
                Ok((st, q)) => match u32_at(d, q) {
                    Ok((nn, q2)) => match nodes_n(d, q2, st, nn as nat) {
                        Ok((nodes, q3)) => match u32_at(d, q3) {
                            Ok((nr, q4)) => match roots_n(d, q4, st, nodes.len(), nr as nat) {
                                Ok((roots, q5)) => if q5 == d.len() {
                                    Ok(ArenaModel { nodes, roots })
                                } else {
                                    Err(q5)
                                },
                                Err(e) => Err(e),
                            },
                            Err(e) => Err(e),
                        },
                        Err(e) => Err(e),
                    },
                    Err(e) => Err(e),
                },
                Err(e) => Err(e),
            },
            Err(e) => Err(e),
        }
    }
}

} // verus!
