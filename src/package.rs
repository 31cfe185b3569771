//! Reader of the package container: a signature, an index of named entries,
//! and the entries' stored bytes.
//!
//! Layout, all integers little-endian: the signature `LSPK`; a `u32` entry
//! count; then each entry as a `u16` name length, the name bytes, a `u32`
//! offset, a `u32` stored length, a `u32` uncompressed length and a `u8`
//! compression kind (`0` stored, `1` LZ4 block). Offsets count from the start
//! of the package.
use vstd::prelude::*;
use vstd::slice::{slice_subrange, slice_to_vec};
use crate::bytes::{bytes_eq, copy_bytes, read_u16};
use crate::format::{bytes_at, u16_at, u32_at, u8_at};
use crate::lsf::{get_bytes, get_u32, get_u8};
use crate::error::Error;

verus! {

/// How an entry's bytes are stored.
#[derive(Debug, Clone, Copy, PartialEq, Eq, Structural)]
pub enum Compression {
    Stored,
    Lz4,
}

/// One descriptor of the package index.
#[derive(Debug, Clone)]
pub struct Entry {
    pub name: Vec<u8>,
    pub offset: usize,
    pub stored_len: usize,
    pub uncompressed_len: usize,
    pub compression: Compression,
}

/// An opened package: the whole container and its parsed index.
#[derive(Debug, Clone)]
pub struct Package {
    pub data: Vec<u8>,
    pub entries: Vec<Entry>,
}

/// The signature that opens a package: the ASCII text `LSPK`.
pub open spec fn package_signature() -> Seq<u8> {
    seq![76u8, 83, 80, 75]
}

/// The smallest encoded size of one index record.
pub const MIN_RECORD_LEN: usize = 15;

/// The mathematical content of an index record.
pub struct EntryModel {
    pub name: Seq<u8>,
    pub offset: usize,
    pub stored_len: usize,
    pub uncompressed_len: usize,
    pub compression: Compression,
}

impl View for Entry {
    type V = EntryModel;

    open spec fn view(&self) -> EntryModel {
        EntryModel {
            name: self.name@,
            offset: self.offset,
            stored_len: self.stored_len,
            uncompressed_len: self.uncompressed_len,
            compression: self.compression,
        }
    }
}

/// The views of a sequence of entries.
pub open spec fn entries_view(s: Seq<Entry>) -> Seq<EntryModel> {
    Seq::new(s.len(), |k: int| s[k]@)
}

/// One index record at `p` of the package `d`: it must name a known
/// compression kind, lie within the package, and, when stored, declare equal
/// lengths.
pub open spec fn record_at(d: Seq<u8>, p: int) -> Option<(EntryModel, int)> {
    match u16_at(d, p) {
        Ok((nl, q)) => match bytes_at(d, q, nl) {
            Ok((name, q1)) => match u32_at(d, q1) {
                Ok((off, q2)) => match u32_at(d, q2) {
                    Ok((sl, q3)) => match u32_at(d, q3) {
                        Ok((ul, q4)) => match u8_at(d, q4) {
                            Ok((kind, q5)) => if kind > 1 || off + sl > d.len() || (kind == 0
                                && sl != ul) {
                                None
                            } else {
                                Some(
                                    (
                                        EntryModel {
                                            name,
                                            offset: off as usize,
                                            stored_len: sl as usize,
                                            uncompressed_len: ul as usize,
                                            compression: if kind == 0 {
                                                Compression::Stored
                                            } else {
                                                Compression::Lz4
                                            },
                                        },
                                        q5,
                                    ),
                                )
                            },
                            Err(_) => None,
                        },
                        Err(_) => None,
                    },
                    Err(_) => None,
                },
                Err(_) => None,
            },
            Err(_) => None,
        },
        Err(_) => None,
    }
}

/// The first `n` index records, from `p0`; names must be unique.
pub open spec fn records_n(d: Seq<u8>, p0: int, n: nat) -> Option<(Seq<EntryModel>, int)>
    decreases n,
{
    if n == 0 {
        Some((Seq::empty(), p0))
    } else {
        match records_n(d, p0, (n - 1) as nat) {
            Some((acc, p)) => match record_at(d, p) {
                Some((e, q)) => if exists|a: int| 0 <= a < acc.len() && acc[a].name == e.name {
                    None
                } else {
                    Some((acc.push(e), q))
                },
                None => None,
            },
            None => None,
        }
    }
}

/// The index that the package `d` holds, if it is well formed. A declared
/// count whose smallest encoding exceeds the package is rejected at once.
pub open spec fn index_spec(d: Seq<u8>) -> Option<Seq<EntryModel>> {
    if d.len() < 4 || d.subrange(0, 4) != package_signature() {
        None
    } else {
        match u32_at(d, 4) {
            Ok((c, p)) => if (c as int) * (MIN_RECORD_LEN as int) > d.len() - 8 {
                None
            } else {
                match records_n(d, p, c as nat) {
                    Some((entries, _)) => Some(entries),
                    None => None,
                }
            },
            Err(_) => None,
        }
    }
}

/// A name occurs among entries exactly when it occurs among their views.
proof fn lemma_has_entry_view(s: Seq<Entry>, k: Seq<u8>)
    ensures
        has_entry(s, k) <==> exists|a: int|
            0 <= a < entries_view(s).len() && entries_view(s)[a].name == k,
{
    let ev = entries_view(s);
    if has_entry(s, k) {
        let a = choose|a: int| 0 <= a < s.len() && s[a].name@ == k;
        assert(ev[a].name == k);
    }
    if exists|a: int| 0 <= a < ev.len() && ev[a].name == k {
        let a = choose|a: int| 0 <= a < ev.len() && ev[a].name == k;
        assert(s[a].name@ == k);
    }
}

/// Once the record list fails after `i` records, it fails for every longer
/// list.
proof fn lemma_records_fail(d: Seq<u8>, p0: int, i: nat, n: nat)
    requires
        i <= n,
        records_n(d, p0, i) is None,
    ensures
        records_n(d, p0, n) is None,
    decreases n,
{
    if n > i {
        lemma_records_fail(d, p0, i, (n - 1) as nat);
    }
}

/// No two entries of `s` share a name.
pub open spec fn names_unique(s: Seq<Entry>) -> bool {
    forall|a: int, b: int| 0 <= a < b < s.len() ==> s[a].name@ != s[b].name@
}

/// Some entry of `s` is called `name`.
pub open spec fn has_entry(s: Seq<Entry>, name: Seq<u8>) -> bool {
    exists|k: int| 0 <= k < s.len() && s[k].name@ == name
}

/// What LZ4 block decompression of `input` into at most `capacity` bytes
/// yields, if it succeeds.
pub uninterp spec fn lz4_block(input: Seq<u8>, capacity: nat) -> Option<Seq<u8>>;

/// The largest compressed payload handed to the LZ4 decoder, exclusive. The
/// decoder sums run-length bytes of up to 255 each into a `u32` and adds the
/// result to an output position; below these bounds neither addition can
/// overflow on any target.
pub const LZ4_MAX_INPUT: usize = 8388608;

/// The largest output capacity handed to the LZ4 decoder, exclusive.
pub const LZ4_MAX_OUTPUT: usize = 2147483648;

/// Relies on lz4_flex::block::decompress (safe decoder): it fails, rather than
/// overrunning, on a corrupt stream or an output longer than `capacity`, and
/// returns the bytes written, at most `capacity`; the result depends on the
/// arguments alone. Its length sums (`read_integer`) cannot overflow for
/// inputs within the bounds required here.
#[verifier::external_body]
fn lz4_decompress(input: &[u8], capacity: usize) -> (r: Option<Vec<u8>>)
    requires
        input@.len() < LZ4_MAX_INPUT,
        capacity < LZ4_MAX_OUTPUT,
    ensures
        r is Some <==> lz4_block(input@, capacity as nat) is Some,
        r is Some ==> r->Some_0@ == lz4_block(input@, capacity as nat)->Some_0,
        r is Some ==> r->Some_0@.len() <= capacity,
{
    lz4_flex::block::decompress(input, capacity).ok()
}

/// The outcome owed for an inflated payload `out` whose declared size is
/// `declared`.
pub open spec fn inflated_result(out: Option<Seq<u8>>, declared: nat) -> Option<Seq<u8>> {
    match out {
        Some(v) => if v.len() == declared {
            Some(v)
        } else {
            None
        },
        None => None,
    }
}

/// Accepts an inflated payload only when it holds exactly the declared
/// number of bytes; anything else is a decompression failure.
pub fn check_inflated(out: Option<Vec<u8>>, declared: usize) -> (r: Result<Vec<u8>, Error>)
    ensures
        r is Ok <==> inflated_result(
            match out {
                Some(v) => Some(v@),
                None => None,
            },
            declared as nat,
        ) is Some,
        r is Ok ==> out is Some && r->Ok_0@ == out->Some_0@,
        r is Err ==> r->Err_0 == Error::Decompression,
{
    match out {
        Some(v) => if v.len() == declared {
            Ok(v)
        } else {
            Err(Error::Decompression)
        },
        None => Err(Error::Decompression),
    }
}

/// The bytes that entry `e` holds in `data`, before decompression.
pub open spec fn stored_bytes(data: Seq<u8>, e: Entry) -> Seq<u8> {
    data.subrange(e.offset as int, e.offset + e.stored_len)
}

/// What reading entry `e` of `data` yields: its stored bytes, or its
/// inflated bytes when those have exactly the declared length. A compressed
/// entry beyond the decoder's bounds is not inflated.
pub open spec fn entry_contents(data: Seq<u8>, e: Entry) -> Option<Seq<u8>> {
    match e.compression {
        Compression::Stored => Some(stored_bytes(data, e)),
        Compression::Lz4 => if e.stored_len < LZ4_MAX_INPUT && e.uncompressed_len
            < LZ4_MAX_OUTPUT {
            inflated_result(
                lz4_block(stored_bytes(data, e), e.uncompressed_len as nat),
                e.uncompressed_len as nat,
            )
        } else {
            None
        },
    }
}

impl Package {
    /// Entry names are unique and every entry lies within the package; a
    /// stored entry's two lengths agree.
    pub open spec fn wf(&self) -> bool {
        &&& names_unique(self.entries@)
        &&& forall|k: int|
            0 <= k < self.entries@.len() ==> {
                let e = #[trigger] self.entries@[k];
                &&& e.offset + e.stored_len <= self.data@.len()
                &&& e.compression == Compression::Stored ==> e.stored_len == e.uncompressed_len
            }
    }

    /// Parses the signature and the full index of a package. Fails with
    /// `Error::Format` on a bad signature, a truncated index, an unknown
    /// compression kind, a duplicate name, or an entry outside the package.
    pub fn open(data: Vec<u8>) -> (r: Result<Package, Error>)
        ensures
            r is Ok <==> index_spec(data@) is Some,
            r is Ok ==> entries_view(r->Ok_0.entries@) == index_spec(data@)->Some_0,
            r is Ok ==> r->Ok_0.wf() && r->Ok_0.data@ == data@,
            r is Err ==> r->Err_0 is Format,
    {
        let len = data.len();
        if len < 4 || data[0] != 76 || data[1] != 83 || data[2] != 80 || data[3] != 75 {
            proof {
                if data@.len() >= 4 {
                    assert(data@.subrange(0, 4) =~= package_signature() ==> false);
                }
            }
            return Err(Error::Format { offset: 0 });
        }
        assert(data@.subrange(0, 4) =~= package_signature());
        let (count, start) = get_u32(data.as_slice(), 4)?;
        if count as usize > (len - 8) / MIN_RECORD_LEN {
            assert((count as int) * 15 > len - 8) by (nonlinear_arith)
                requires
                    count as int > (len - 8) / 15,
                    len >= 8,
            ;
            return Err(Error::Format { offset: 4 });
        }
        assert((count as int) * 15 <= len - 8) by (nonlinear_arith)
            requires
                count as int <= (len - 8) / 15,
                len >= 8,
        ;
        let mut pos: usize = start;
        let mut entries: Vec<Entry> = Vec::new();
        assert(entries_view(entries@) =~= Seq::empty());
        let mut i: u32 = 0;
        while i < count
            invariant
                len == data@.len(),
                len >= 8,
                data@.subrange(0, 4) == package_signature(),
                u32_at(data@, 4) == Ok::<_, int>((count, start as int)),
                (count as int) * 15 <= len - 8,
                pos <= len,
                i <= count,
                records_n(data@, start as int, i as nat) == Some((entries_view(entries@), pos as int)),
                names_unique(entries@),
                forall|k: int|
                    0 <= k < entries@.len() ==> {
                        let e = #[trigger] entries@[k];
                        &&& e.offset + e.stored_len <= data@.len()
                        &&& e.compression == Compression::Stored ==> e.stored_len
                            == e.uncompressed_len
                    },
            decreases count - i,
        {
            let at = pos;
            let name_len = match read_u16(data.as_slice(), pos) {
                Some(n) => n as usize,
                None => {
                    proof { lemma_records_fail(data@, start as int, (i + 1) as nat, count as nat); }
                    return Err(Error::Format { offset: at });
                },
            };
            let fields = match get_bytes(data.as_slice(), pos + 2, name_len) {
                Ok((name, q1)) => match get_u32(data.as_slice(), q1) {
                    Ok((offset, q2)) => match get_u32(data.as_slice(), q2) {
                        Ok((stored_len, q3)) => match get_u32(data.as_slice(), q3) {
                            Ok((uncompressed_len, q4)) => match get_u8(data.as_slice(), q4) {
                                Ok((kind, q5)) => Some((name, offset, stored_len, uncompressed_len, kind, q5)),
                                Err(_) => None,
                            },
                            Err(_) => None,
                        },
                        Err(_) => None,
                    },
                    Err(_) => None,
                },
                Err(_) => None,
            };
            let (name, offset, stored_len, uncompressed_len, kind, next) = match fields {
                Some(f) => f,
                None => {
                    proof { lemma_records_fail(data@, start as int, (i + 1) as nat, count as nat); }
                    return Err(Error::Format { offset: at });
                },
            };
            if kind > 1 || offset as usize > len || len - (offset as usize) < stored_len as usize
                || (kind == 0 && stored_len != uncompressed_len) {
                proof { lemma_records_fail(data@, start as int, (i + 1) as nat, count as nat); }
                return Err(Error::Format { offset: at });
            }
            let compression = if kind == 0 {
                Compression::Stored
            } else {
                Compression::Lz4
            };
            let found = find_entry(&entries, name.as_slice());
            proof {
                lemma_has_entry_view(entries@, name@);
            }
            if found.is_some() {
                proof { lemma_records_fail(data@, start as int, (i + 1) as nat, count as nat); }
                return Err(Error::Format { offset: at });
            }
            let e = Entry {
                name,
                offset: offset as usize,
                stored_len: stored_len as usize,
                uncompressed_len: uncompressed_len as usize,
                compression,
            };
            proof {
                assert forall|a: int, b: int|
                    0 <= a < b < entries@.push(e).len() implies entries@.push(e)[a].name@
                    != entries@.push(e)[b].name@ by {
                    if b == entries@.len() {
                        assert(entries@[a].name@ != e.name@);
                    }
                }
                assert(entries_view(entries@.push(e)) =~= entries_view(entries@).push(e@));
            }
            entries.push(e);
            pos = next;
            i = i + 1;
        }
        Ok(Package { data, entries })
    }

    /// The entry names, in index order.
    pub fn list_entries(&self) -> (r: Vec<Vec<u8>>)
        ensures
            r@.len() == self.entries@.len(),
            forall|k: int| 0 <= k < r@.len() ==> #[trigger] r@[k]@ == self.entries@[k].name@,
    {
        let mut out: Vec<Vec<u8>> = Vec::new();
        let mut k: usize = 0;
        while k < self.entries.len()
            invariant
                k <= self.entries@.len(),
                out@.len() == k,
                forall|m: int| 0 <= m < k ==> #[trigger] out@[m]@ == self.entries@[m].name@,
            decreases self.entries@.len() - k,
        {
            out.push(copy_bytes(&self.entries[k].name));
            k = k + 1;
        }
        out
    }

    /// Reads the entry called `name` (exact, case-sensitive match) and
    /// inflates it when it is compressed. A missing name is
    /// `Error::NotFound`, before any byte is read; a corrupt stream, an
    /// inflated size that differs from the declared one, or a compressed entry
    /// beyond `LZ4_MAX_INPUT` / `LZ4_MAX_OUTPUT` is `Error::Decompression`.
    pub fn read_entry(&self, name: &[u8]) -> (r: Result<Vec<u8>, Error>)
        requires
            self.wf(),
        ensures
            !has_entry(self.entries@, name@) <==> r == Err::<Vec<u8>, Error>(Error::NotFound),
            forall|k: int|
                0 <= k < self.entries@.len() && #[trigger] self.entries@[k].name@ == name@ ==> {
                    let want = entry_contents(self.data@, self.entries@[k]);
                    &&& r is Ok <==> want is Some
                    &&& r is Ok ==> r->Ok_0@ == want->Some_0
                    &&& r is Err ==> r->Err_0 == Error::Decompression
                },
    {
        let k = match find_entry(&self.entries, name) {
            Some(k) => k,
            None => return Err(Error::NotFound),
        };
        let e = &self.entries[k];
        assert(self.entries@[k as int].offset + self.entries@[k as int].stored_len <= self.data@.len());
        let len = self.data.len();
        assert(e.offset + e.stored_len <= len);
        let stored = slice_subrange(self.data.as_slice(), e.offset, e.offset + e.stored_len);
        assert forall|j: int|
            0 <= j < self.entries@.len() && self.entries@[j].name@ == name@ implies j == k by {
            if j != k as int {
                if j < k {
                    assert(self.entries@[j].name@ != self.entries@[k as int].name@);
                } else {
                    assert(self.entries@[k as int].name@ != self.entries@[j].name@);
                }
            }
        }
        match e.compression {
            Compression::Stored => Ok(slice_to_vec(stored)),
            Compression::Lz4 => {
                if e.stored_len >= LZ4_MAX_INPUT || e.uncompressed_len >= LZ4_MAX_OUTPUT {
                    return Err(Error::Decompression);
                }
                let out = lz4_decompress(stored, e.uncompressed_len);
                check_inflated(out, e.uncompressed_len)
            },
        }
    }
}

/// The position of the entry called `name`, if any.
pub fn find_entry(entries: &Vec<Entry>, name: &[u8]) -> (r: Option<usize>)
    ensures
        r is None <==> !has_entry(entries@, name@),
        r is Some ==> r->Some_0 < entries@.len() && entries@[r->Some_0 as int].name@ == name@,
{
    let mut i: usize = 0;
    while i < entries.len()
        invariant
            i <= entries@.len(),
            forall|m: int| 0 <= m < i ==> entries@[m].name@ != name@,
        decreases entries@.len() - i,
    {
        if bytes_eq(entries[i].name.as_slice(), name) {
            return Some(i);
        }
        i = i + 1;
    }
    None
}

} // verus!
