//! Decoder of the binary resource-tree format.
//!
//! Layout, all integers little-endian:
//! - the signature `LSOF`;
//! - the string table: a `u32` count, then each string as a `u16` length and
//!   its bytes;
//! - the node table: a `u32` count, then each node as a `u32` name reference,
//!   its attributes (a `u32` count; each a `u32` name reference, a `u8` type
//!   tag and the payload) and its child groups (a `u32` count; each a `u32`
//!   name reference, a `u32` child count and that many `u32` node indices);
//! - the root table: a `u32` count, then each root as a `u32` name reference
//!   and a `u32` node index.
//!
//! A child index must name a node stored before its parent, and a root index
//! a stored node. Nothing may follow the root table.
use vstd::prelude::*;
use crate::arena::{
    attrs_view, contains_key, groups_view, has_key, keys_unique, lemma_push_unique, nodes_view,
    roots_view, AttrValue, Node, RegionArena,
};
use crate::bytes::{copy_bytes, read_u16, read_u32, read_u8};
use crate::format::{
    attr_value_at, attrs_n, bytes_at, children_n, decode_spec, groups_n,
    lemma_has_key_view, lsf_signature, name_at, node_at, nodes_n, payload_at, roots_n, seq_has_key, strings_n, u32_at,
    u8_at,
};
use vstd::slice::{slice_subrange, slice_to_vec};
use crate::error::Error;

verus! {

/// Attribute type tags.
pub const TAG_BOOL: u8 = 0;
pub const TAG_U8: u8 = 1;
pub const TAG_I32: u8 = 2;
pub const TAG_U32: u8 = 3;
pub const TAG_TEXT: u8 = 4;
pub const TAG_BINARY: u8 = 5;

/// A decoding step agrees with the specification `want`: it succeeds exactly
/// when `want` does, with the same next position, and otherwise fails with
/// `Error::Format` at the offset that `want` gives.
pub open spec fn step_ok<T, M>(r: Result<(T, usize), Error>, want: Result<(M, int), int>) -> bool {
    &&& r is Ok <==> want is Ok
    &&& r is Ok ==> r->Ok_0.1 as int == want->Ok_0.1
    &&& r is Err ==> r->Err_0 == (Error::Format { offset: want->Err_0 as usize })
}

/// The views of a string table.
pub open spec fn strings_view(s: Seq<Vec<u8>>) -> Seq<Seq<u8>> {
    Seq::new(s.len(), |k: int| s[k]@)
}

fn fmt(at: usize) -> (r: Error)
    ensures
        r == (Error::Format { offset: at }),
{
    Error::Format { offset: at }
}

pub(crate) fn get_u8(data: &[u8], pos: usize) -> (r: Result<(u8, usize), Error>)
    ensures
        step_ok(r, u8_at(data@, pos as int)),
        r is Ok ==> r->Ok_0.0 == u8_at(data@, pos as int)->Ok_0.0,
{
    match read_u8(data, pos) {
        Some(v) => Ok((v, pos + 1)),
        None => Err(fmt(pos)),
    }
}

pub(crate) fn get_u32(data: &[u8], pos: usize) -> (r: Result<(u32, usize), Error>)
    ensures
        step_ok(r, u32_at(data@, pos as int)),
        r is Ok ==> r->Ok_0.0 == u32_at(data@, pos as int)->Ok_0.0,
        r is Ok ==> r->Ok_0.1 <= data@.len(),
{
    match read_u32(data, pos) {
        Some(v) => Ok((v, pos + 4)),
        None => Err(fmt(pos)),
    }
}

/// Copies `n` bytes starting at `pos`.
pub(crate) fn get_bytes(data: &[u8], pos: usize, n: usize) -> (r: Result<(Vec<u8>, usize), Error>)
    ensures
        step_ok(r, bytes_at(data@, pos as int, n as nat)),
        r is Ok ==> r->Ok_0.0@ == bytes_at(data@, pos as int, n as nat)->Ok_0.0,
        r is Ok ==> r->Ok_0.1 <= data@.len(),
{
    if pos > data.len() || data.len() - pos < n {
        return Err(fmt(pos));
    }
    let out = slice_to_vec(slice_subrange(data, pos, pos + n));
    Ok((out, pos + n))
}

/// Resolves a reference into the string table.
fn get_name(data: &[u8], pos: usize, strings: &Vec<Vec<u8>>) -> (r: Result<(Vec<u8>, usize), Error>)
    ensures
        step_ok(r, name_at(data@, pos as int, strings_view(strings@))),
        r is Ok ==> r->Ok_0.0@ == name_at(data@, pos as int, strings_view(strings@))->Ok_0.0,
        r is Ok ==> r->Ok_0.1 <= data@.len(),
{
    let (k, next) = get_u32(data, pos)?;
    if (k as usize) < strings.len() {
        Ok((copy_bytes(&strings[k as usize]), next))
    } else {
        Err(fmt(pos))
    }
}

/// Decodes a `u32`-length-prefixed byte payload.
fn get_payload(data: &[u8], pos: usize) -> (r: Result<(Vec<u8>, usize), Error>)
    ensures
        step_ok(r, payload_at(data@, pos as int)),
        r is Ok ==> r->Ok_0.0@ == payload_at(data@, pos as int)->Ok_0.0,
        r is Ok ==> r->Ok_0.1 <= data@.len(),
{
    let (n, next) = get_u32(data, pos)?;
    get_bytes(data, next, n as usize)
}

/// Decodes one attribute payload of the kind `tag`; an unknown tag fails.
pub fn decode_attr_value(data: &[u8], pos: usize, tag: u8) -> (r: Result<(AttrValue, usize), Error>)
    ensures
        step_ok(r, attr_value_at(data@, pos as int, tag)),
        r is Ok ==> r->Ok_0.0@ == attr_value_at(data@, pos as int, tag)->Ok_0.0,
        r is Ok ==> r->Ok_0.1 <= data@.len(),
{
    if tag == TAG_BOOL {
        let (b, next) = get_u8(data, pos)?;
        if b > 1 {
            return Err(fmt(pos));
        }
        Ok((AttrValue::Bool(b == 1), next))
    } else if tag == TAG_U8 {
        let (b, next) = get_u8(data, pos)?;
        Ok((AttrValue::U8(b), next))
    } else if tag == TAG_I32 {
        let (v, next) = get_u32(data, pos)?;
        Ok((AttrValue::I32(v as i32), next))
    } else if tag == TAG_U32 {
        let (v, next) = get_u32(data, pos)?;
        Ok((AttrValue::U32(v), next))
    } else if tag == TAG_TEXT {
        let (t, next) = get_payload(data, pos)?;
        Ok((AttrValue::Text(t), next))
    } else if tag == TAG_BINARY {
        let (t, next) = get_payload(data, pos)?;
        Ok((AttrValue::Binary(t), next))
    } else {
        Err(fmt(pos))
    }
}

/// Once a list decoder fails after `i` items, it fails for every longer list.
proof fn lemma_strings_fail(d: Seq<u8>, p0: int, i: nat, n: nat)
    requires
        i <= n,
        strings_n(d, p0, i) is Err,
    ensures
        strings_n(d, p0, n) == strings_n(d, p0, i),
    decreases n,
{
    if n > i {
        lemma_strings_fail(d, p0, i, (n - 1) as nat);
    }
}

/// Decodes the string table that starts at `pos`.
pub fn decode_strings(data: &[u8], at: usize) -> (r: Result<(Vec<Vec<u8>>, usize), Error>)
    ensures
        ({
            let want = match u32_at(data@, at as int) {
                Ok((n, q)) => strings_n(data@, q, n as nat),
                Err(e) => Err(e),
            };
            &&& step_ok(r, want)
            &&& r is Ok ==> strings_view(r->Ok_0.0@) == want->Ok_0.0
            &&& r is Ok ==> r->Ok_0.1 <= data@.len()
        }),
{
    let (count, start) = get_u32(data, at)?;
    let mut pos = start;
    let mut strings: Vec<Vec<u8>> = Vec::new();
    assert(strings_view(strings@) =~= Seq::empty());
    let mut i: u32 = 0;
    let len = data.len();
    while i < count
        invariant
            len == data@.len(),
            pos <= data@.len(),
            u32_at(data@, at as int) == Ok::<_, int>((count, start as int)),
            i <= count,
            strings_n(data@, start as int, i as nat) == Ok::<_, int>((strings_view(strings@), pos as int)),
        decreases count - i,
    {
        let n = match read_u16(data, pos) {
            Some(n) => n,
            None => {
                proof {
                    lemma_strings_fail(data@, start as int, (i + 1) as nat, count as nat);
                }
                return Err(fmt(pos));
            },
        };
        let (s, next) = match get_bytes(data, pos + 2, n as usize) {
            Ok(x) => x,
            Err(e) => {
                proof {
                    lemma_strings_fail(data@, start as int, (i + 1) as nat, count as nat);
                }
                return Err(e);
            },
        };
        proof {
            assert(strings_view(strings@.push(s)) =~= strings_view(strings@).push(s@));
        }
        strings.push(s);
        pos = next;
        i = i + 1;
    }
    Ok((strings, pos))
}

/// As `lemma_strings_fail`, for its list.
proof fn lemma_attrs_fail(d: Seq<u8>, p0: int, st: Seq<Seq<u8>>, i: nat, n: nat)
    requires
        i <= n,
        attrs_n(d, p0, st, i) is Err,
    ensures
        attrs_n(d, p0, st, n) == attrs_n(d, p0, st, i),
    decreases n,
{
    if n > i {
        lemma_attrs_fail(d, p0, st, i, (n - 1) as nat);
    }
}

/// As `lemma_strings_fail`, for its list.
proof fn lemma_children_fail(d: Seq<u8>, p0: int, bound: nat, i: nat, n: nat)
    requires
        i <= n,
        children_n(d, p0, bound, i) is Err,
    ensures
        children_n(d, p0, bound, n) == children_n(d, p0, bound, i),
    decreases n,
{
    if n > i {
        lemma_children_fail(d, p0, bound, i, (n - 1) as nat);
    }
}

/// As `lemma_strings_fail`, for its list.
proof fn lemma_groups_fail(d: Seq<u8>, p0: int, st: Seq<Seq<u8>>, bound: nat, i: nat, n: nat)
    requires
        i <= n,
        groups_n(d, p0, st, bound, i) is Err,
    ensures
        groups_n(d, p0, st, bound, n) == groups_n(d, p0, st, bound, i),
    decreases n,
{
    if n > i {
        lemma_groups_fail(d, p0, st, bound, i, (n - 1) as nat);
    }
}

/// As `lemma_strings_fail`, for its list.
proof fn lemma_nodes_fail(d: Seq<u8>, p0: int, st: Seq<Seq<u8>>, i: nat, n: nat)
    requires
        i <= n,
        nodes_n(d, p0, st, i) is Err,
    ensures
        nodes_n(d, p0, st, n) == nodes_n(d, p0, st, i),
    decreases n,
{
    if n > i {
        lemma_nodes_fail(d, p0, st, i, (n - 1) as nat);
    }
}

/// As `lemma_strings_fail`, for its list.
proof fn lemma_roots_fail(d: Seq<u8>, p0: int, st: Seq<Seq<u8>>, count: nat, i: nat, n: nat)
    requires
        i <= n,
        roots_n(d, p0, st, count, i) is Err,
    ensures
        roots_n(d, p0, st, count, n) == roots_n(d, p0, st, count, i),
    decreases n,
{
    if n > i {
        lemma_roots_fail(d, p0, st, count, i, (n - 1) as nat);
    }
}

/// Decodes the `n` attributes of a node that start at `pos`.
pub fn decode_attrs(data: &[u8], start: usize, strings: &Vec<Vec<u8>>, n: u32) -> (r: Result<
    (Vec<(Vec<u8>, AttrValue)>, usize),
    Error,
>)
    requires
        start <= data@.len(),
    ensures
        step_ok(r, attrs_n(data@, start as int, strings_view(strings@), n as nat)),
        r is Ok ==> attrs_view(r->Ok_0.0@) == attrs_n(
            data@,
            start as int,
            strings_view(strings@),
            n as nat,
        )->Ok_0.0,
        r is Ok ==> keys_unique(r->Ok_0.0@) && r->Ok_0.1 <= data@.len(),
{
    let ghost st = strings_view(strings@);
    let mut pos = start;
    let mut attributes: Vec<(Vec<u8>, AttrValue)> = Vec::new();
    assert(attrs_view(attributes@) =~= Seq::empty());
    let mut i: u32 = 0;
    while i < n
        invariant
            i <= n,
            pos <= data@.len(),
            st == strings_view(strings@),
            keys_unique(attributes@),
            attrs_n(data@, start as int, st, i as nat) == Ok::<_, int>((attrs_view(attributes@), pos as int)),
        decreases n - i,
    {
        let at = pos;
        let (key, next) = match get_name(data, pos, strings) {
            Ok(x) => x,
            Err(e) => {
                proof { lemma_attrs_fail(data@, start as int, st, (i + 1) as nat, n as nat); }
                return Err(e);
            },
        };
        let (tag, next) = match get_u8(data, next) {
            Ok(x) => x,
            Err(e) => {
                proof { lemma_attrs_fail(data@, start as int, st, (i + 1) as nat, n as nat); }
                return Err(e);
            },
        };
        let (value, next) = match decode_attr_value(data, next, tag) {
            Ok(x) => x,
            Err(e) => {
                proof { lemma_attrs_fail(data@, start as int, st, (i + 1) as nat, n as nat); }
                return Err(e);
            },
        };
        let dup = contains_key(&attributes, key.as_slice());
        proof {
            lemma_has_key_view(attributes@, attrs_view(attributes@), key@);
        }
        if dup {
            proof { lemma_attrs_fail(data@, start as int, st, (i + 1) as nat, n as nat); }
            return Err(fmt(at));
        }
        proof {
            lemma_push_unique(attributes@, (key, value));
            assert(attrs_view(attributes@.push((key, value))) =~= attrs_view(attributes@).push(
                (key@, value@),
            ));
        }
        attributes.push((key, value));
        pos = next;
        i = i + 1;
    }
    Ok((attributes, pos))
}

/// Decodes the `n` child indices of a group that start at `pos`; each must
/// lie below `bound`.
pub fn decode_children(data: &[u8], start: usize, bound: usize, n: u32) -> (r: Result<
    (Vec<usize>, usize),
    Error,
>)
    requires
        start <= data@.len(),
    ensures
        step_ok(r, children_n(data@, start as int, bound as nat, n as nat)),
        r is Ok ==> r->Ok_0.0@ == children_n(data@, start as int, bound as nat, n as nat)->Ok_0.0,
        r is Ok ==> r->Ok_0.1 <= data@.len(),
        r is Ok ==> forall|m: int| 0 <= m < r->Ok_0.0@.len() ==> r->Ok_0.0@[m] < bound,
{
    let mut pos = start;
    let mut list: Vec<usize> = Vec::new();
    assert(list@ =~= Seq::empty());
    let mut j: u32 = 0;
    while j < n
        invariant
            j <= n,
            pos <= data@.len(),
            children_n(data@, start as int, bound as nat, j as nat) == Ok::<_, int>((list@, pos as int)),
            forall|m: int| 0 <= m < list@.len() ==> list@[m] < bound,
        decreases n - j,
    {
        let (c, next) = match get_u32(data, pos) {
            Ok(x) => x,
            Err(e) => {
                proof { lemma_children_fail(data@, start as int, bound as nat, (j + 1) as nat, n as nat); }
                return Err(e);
            },
        };
        if c as usize >= bound {
            proof { lemma_children_fail(data@, start as int, bound as nat, (j + 1) as nat, n as nat); }
            return Err(fmt(pos));
        }
        list.push(c as usize);
        pos = next;
        j = j + 1;
    }
    Ok((list, pos))
}

/// Decodes the `n` child groups of a node that start at `pos`; every child
/// index must lie below `bound`.
pub fn decode_groups(data: &[u8], start: usize, strings: &Vec<Vec<u8>>, bound: usize, n: u32) -> (r:
    Result<(Vec<(Vec<u8>, Vec<usize>)>, usize), Error>)
    requires
        start <= data@.len(),
    ensures
        step_ok(r, groups_n(data@, start as int, strings_view(strings@), bound as nat, n as nat)),
        r is Ok ==> groups_view(r->Ok_0.0@) == groups_n(
            data@,
            start as int,
            strings_view(strings@),
            bound as nat,
            n as nat,
        )->Ok_0.0,
        r is Ok ==> keys_unique(r->Ok_0.0@) && r->Ok_0.1 <= data@.len(),
        r is Ok ==> forall|a: int, j: int|
            0 <= a < r->Ok_0.0@.len() && 0 <= j < r->Ok_0.0@[a].1@.len() ==> r->Ok_0.0@[a].1@[j]
                < bound,
{
    let ghost st = strings_view(strings@);
    let mut pos = start;
    let mut children: Vec<(Vec<u8>, Vec<usize>)> = Vec::new();
    assert(groups_view(children@) =~= Seq::empty());
    let mut g: u32 = 0;
    while g < n
        invariant
            g <= n,
            pos <= data@.len(),
            st == strings_view(strings@),
            keys_unique(children@),
            groups_n(data@, start as int, st, bound as nat, g as nat) == Ok::<_, int>(
                (groups_view(children@), pos as int),
            ),
            forall|a: int, j: int|
                0 <= a < children@.len() && 0 <= j < children@[a].1@.len() ==> children@[a].1@[j]
                    < bound,
        decreases n - g,
    {
        let at = pos;
        let (key, next) = match get_name(data, pos, strings) {
            Ok(x) => x,
            Err(e) => {
                proof { lemma_groups_fail(data@, start as int, st, bound as nat, (g + 1) as nat, n as nat); }
                return Err(e);
            },
        };
        let (count, next) = match get_u32(data, next) {
            Ok(x) => x,
            Err(e) => {
                proof { lemma_groups_fail(data@, start as int, st, bound as nat, (g + 1) as nat, n as nat); }
                return Err(e);
            },
        };
        let (list, next) = match decode_children(data, next, bound, count) {
            Ok(x) => x,
            Err(e) => {
                proof { lemma_groups_fail(data@, start as int, st, bound as nat, (g + 1) as nat, n as nat); }
                return Err(e);
            },
        };
        let dup = contains_key(&children, key.as_slice());
        proof {
            lemma_has_key_view(children@, groups_view(children@), key@);
        }
        if dup {
            proof { lemma_groups_fail(data@, start as int, st, bound as nat, (g + 1) as nat, n as nat); }
            return Err(fmt(at));
        }
        proof {
            let grown = children@.push((key, list));
            assert forall|a: int, j: int|
                0 <= a < grown.len() && 0 <= j < grown[a].1@.len() implies grown[a].1@[j] < bound by {
                if a < children@.len() {
                    assert(grown[a] == children@[a]);
                }
            }
            lemma_push_unique(children@, (key, list));
            assert(groups_view(children@.push((key, list))) =~= groups_view(children@).push(
                (key@, list@),
            ));
        }
        children.push((key, list));
        pos = next;
        g = g + 1;
    }
    Ok((children, pos))
}

/// Decodes the node record at `pos`; every child index must lie below
/// `bound`, the number of nodes decoded before it.
pub fn decode_node(data: &[u8], pos: usize, strings: &Vec<Vec<u8>>, bound: usize) -> (r: Result<
    (Node, usize),
    Error,
>)
    ensures
        step_ok(r, node_at(data@, pos as int, strings_view(strings@), bound as nat)),
        r is Ok ==> r->Ok_0.0@ == node_at(
            data@,
            pos as int,
            strings_view(strings@),
            bound as nat,
        )->Ok_0.0,
        r is Ok ==> r->Ok_0.0.wf_below(bound as int) && r->Ok_0.1 <= data@.len(),
{
    let (name, next) = get_name(data, pos, strings)?;
    let (n_attrs, next) = get_u32(data, next)?;
    let (attributes, next) = decode_attrs(data, next, strings, n_attrs)?;
    let (n_groups, next) = get_u32(data, next)?;
    let (children, next) = decode_groups(data, next, strings, bound, n_groups)?;
    Ok((Node { name, attributes, children }, next))
}

/// Decodes the `n` node records that start at `pos`.
pub fn decode_nodes(data: &[u8], start: usize, strings: &Vec<Vec<u8>>, n: u32) -> (r: Result<
    (Vec<Node>, usize),
    Error,
>)
    requires
        start <= data@.len(),
    ensures
        step_ok(r, nodes_n(data@, start as int, strings_view(strings@), n as nat)),
        r is Ok ==> nodes_view(r->Ok_0.0@) == nodes_n(
            data@,
            start as int,
            strings_view(strings@),
            n as nat,
        )->Ok_0.0,
        r is Ok ==> r->Ok_0.1 <= data@.len(),
        r is Ok ==> forall|k: int| 0 <= k < r->Ok_0.0@.len() ==> #[trigger] r->Ok_0.0@[k].wf_below(k),
{
    let ghost st = strings_view(strings@);
    let mut pos = start;
    let mut nodes: Vec<Node> = Vec::new();
    assert(nodes_view(nodes@) =~= Seq::empty());
    let mut i: u32 = 0;
    while i < n
        invariant
            i <= n,
            pos <= data@.len(),
            st == strings_view(strings@),
            nodes@.len() == i,
            nodes_n(data@, start as int, st, i as nat) == Ok::<_, int>((nodes_view(nodes@), pos as int)),
            forall|k: int| 0 <= k < nodes@.len() ==> #[trigger] nodes@[k].wf_below(k),
        decreases n - i,
    {
        let (node, next) = match decode_node(data, pos, strings, nodes.len()) {
            Ok(x) => x,
            Err(e) => {
                proof { lemma_nodes_fail(data@, start as int, st, (i + 1) as nat, n as nat); }
                return Err(e);
            },
        };
        proof {
            assert(nodes_view(nodes@.push(node)) =~= nodes_view(nodes@).push(node@));
        }
        nodes.push(node);
        pos = next;
        i = i + 1;
    }
    Ok((nodes, pos))
}

/// Decodes the `n` roots that start at `pos`; each must name one of `count`
/// nodes.
pub fn decode_roots(data: &[u8], start: usize, strings: &Vec<Vec<u8>>, count: usize, n: u32) -> (r:
    Result<(Vec<(Vec<u8>, usize)>, usize), Error>)
    requires
        start <= data@.len(),
    ensures
        step_ok(r, roots_n(data@, start as int, strings_view(strings@), count as nat, n as nat)),
        r is Ok ==> roots_view(r->Ok_0.0@) == roots_n(
            data@,
            start as int,
            strings_view(strings@),
            count as nat,
            n as nat,
        )->Ok_0.0,
        r is Ok ==> keys_unique(r->Ok_0.0@) && r->Ok_0.1 <= data@.len(),
        r is Ok ==> forall|m: int| 0 <= m < r->Ok_0.0@.len() ==> #[trigger] r->Ok_0.0@[m].1 < count,
{
    let ghost st = strings_view(strings@);
    let mut pos = start;
    let mut roots: Vec<(Vec<u8>, usize)> = Vec::new();
    assert(roots_view(roots@) =~= Seq::empty());
    let mut k: u32 = 0;
    while k < n
        invariant
            k <= n,
            pos <= data@.len(),
            st == strings_view(strings@),
            keys_unique(roots@),
            roots_n(data@, start as int, st, count as nat, k as nat) == Ok::<_, int>(
                (roots_view(roots@), pos as int),
            ),
            forall|m: int| 0 <= m < roots@.len() ==> #[trigger] roots@[m].1 < count,
        decreases n - k,
    {
        let at = pos;
        let (key, next) = match get_name(data, pos, strings) {
            Ok(x) => x,
            Err(e) => {
                proof { lemma_roots_fail(data@, start as int, st, count as nat, (k + 1) as nat, n as nat); }
                return Err(e);
            },
        };
        let (idx, next) = match get_u32(data, next) {
            Ok(x) => x,
            Err(e) => {
                proof { lemma_roots_fail(data@, start as int, st, count as nat, (k + 1) as nat, n as nat); }
                return Err(e);
            },
        };
        let dup = contains_key(&roots, key.as_slice());
        proof {
            lemma_has_key_view(roots@, roots_view(roots@), key@);
        }
        if idx as usize >= count || dup {
            proof { lemma_roots_fail(data@, start as int, st, count as nat, (k + 1) as nat, n as nat); }
            return Err(fmt(at));
        }
        proof {
            lemma_push_unique(roots@, (key, idx as usize));
            assert(roots_view(roots@.push((key, idx as usize))) =~= roots_view(roots@).push(
                (key@, idx as usize),
            ));
        }
        roots.push((key, idx as usize));
        pos = next;
        k = k + 1;
    }
    Ok((roots, pos))
}

/// Decodes a whole resource-tree buffer into an arena: the result is exactly
/// the arena that the buffer encodes, and the decoder fails, with
/// `Error::Format`, exactly on the buffers that the format rejects (a
/// truncation, an unknown tag, a bad reference, a duplicate name, a trailing
/// byte), at the offset that `decode_spec` gives. No partial arena is ever returned.
pub fn decode(data: &[u8]) -> (r: Result<RegionArena, Error>)
    ensures
        r is Ok <==> decode_spec(data@) is Ok,
        r is Ok ==> r->Ok_0@ == decode_spec(data@)->Ok_0,
        r is Ok ==> r->Ok_0.wf(),
        r is Err ==> r->Err_0 == (Error::Format { offset: decode_spec(data@)->Err_0 as usize }),
{
    if data.len() < 4 || data[0] != 76 || data[1] != 83 || data[2] != 79 || data[3] != 70 {
        proof {
            if data@.len() >= 4 {
                assert(data@.subrange(0, 4) =~= lsf_signature() ==> false);
            }
        }
        return Err(fmt(0));
    }
    assert(data@.subrange(0, 4) =~= lsf_signature());
    let (strings, pos) = decode_strings(data, 4)?;
    let (n_nodes, pos) = get_u32(data, pos)?;
    let (nodes, pos) = decode_nodes(data, pos, &strings, n_nodes)?;
    let (n_roots, pos) = get_u32(data, pos)?;
    let (roots, pos) = decode_roots(data, pos, &strings, nodes.len(), n_roots)?;
    if pos != data.len() {
        return Err(fmt(pos));
    }
    let r = RegionArena { nodes, roots };
    assert(r@ == decode_spec(data@)->Ok_0);
    Ok(r)
}

} // verus!
