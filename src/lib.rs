//! Reader for Larian save packages: the package container, the binary
//! resource-tree decoder with its index-addressed arena, and the projection
//! of a decoded tree into a generic nested value.
use vstd::prelude::*;

pub mod arena;
pub mod bytes;
pub mod error;
pub mod format;
pub mod lsf;
pub mod package;
pub mod serialize;
pub mod value;

use crate::arena::RegionArena;
use crate::error::Error;
use crate::lsf::decode;
use crate::format::decode_spec;
use crate::package::{entries_view, entry_contents, has_entry, index_spec, Package};
use crate::serialize::{arena_model, too_deep, within_depth, MAX_DEPTH};
use crate::value::Value;

verus! {

/// The name of the entry that holds a save's global resources: the ASCII
/// text `globals.lsf`.
pub open spec fn globals_name() -> Seq<u8> {
    seq![103u8, 108, 111, 98, 97, 108, 115, 46, 108, 115, 102]
}

/// An opened save package.
pub struct LarianSaveFile(pub Package);

/// A decoded resource of a save package.
pub struct LarianResource(pub RegionArena);

impl LarianSaveFile {
    /// Opens a save package from its bytes; see `Package::open`.
    pub fn open(data: Vec<u8>) -> (r: Result<LarianSaveFile, Error>)
        ensures
            r is Ok <==> index_spec(data@) is Some,
            r is Ok ==> entries_view(r->Ok_0.0.entries@) == index_spec(data@)->Some_0,
            r is Ok ==> r->Ok_0.0.wf() && r->Ok_0.0.data@ == data@,
            r is Err ==> r->Err_0 is Format,
    {
        match Package::open(data) {
            Ok(p) => Ok(LarianSaveFile(p)),
            Err(e) => Err(e),
        }
    }

    /// Reads the entry called `name` and decodes it as a resource tree.
    pub fn load_resource(&self, name: &[u8]) -> (r: Result<LarianResource, Error>)
        requires
            self.0.wf(),
        ensures
            !has_entry(self.0.entries@, name@) <==> r == Err::<LarianResource, Error>(
                Error::NotFound,
            ),
            r is Ok ==> r->Ok_0.0.wf(),
            r is Err ==> r->Err_0 == Error::NotFound || r->Err_0 == Error::Decompression
                || r->Err_0 is Format,
            forall|k: int|
                0 <= k < self.0.entries@.len() && #[trigger] self.0.entries@[k].name@ == name@
                    ==> {
                    let c = entry_contents(self.0.data@, self.0.entries@[k]);
                    &&& r is Ok <==> c is Some && decode_spec(c->Some_0) is Ok
                    &&& r is Ok ==> r->Ok_0.0@ == decode_spec(c->Some_0)->Ok_0
                    &&& c is None ==> r == Err::<LarianResource, Error>(Error::Decompression)
                    &&& c is Some ==> (r is Err ==> r->Err_0 == (Error::Format {
                        offset: decode_spec(c->Some_0)->Err_0 as usize,
                    }))
                },
    {
        let bytes = self.0.read_entry(name)?;
        match decode(bytes.as_slice()) {
            Ok(a) => Ok(LarianResource(a)),
            Err(e) => Err(e),
        }
    }

    /// Reads and decodes the `globals.lsf` entry.
    pub fn load_globals(&self) -> (r: Result<LarianResource, Error>)
        requires
            self.0.wf(),
        ensures
            !has_entry(self.0.entries@, globals_name()) <==> r == Err::<LarianResource, Error>(
                Error::NotFound,
            ),
            r is Ok ==> r->Ok_0.0.wf(),
            r is Err ==> r->Err_0 == Error::NotFound || r->Err_0 == Error::Decompression
                || r->Err_0 is Format,
            forall|k: int|
                0 <= k < self.0.entries@.len() && #[trigger] self.0.entries@[k].name@
                    == globals_name() ==> {
                    let c = entry_contents(self.0.data@, self.0.entries@[k]);
                    &&& r is Ok <==> c is Some && decode_spec(c->Some_0) is Ok
                    &&& r is Ok ==> r->Ok_0.0@ == decode_spec(c->Some_0)->Ok_0
                    &&& c is None ==> r == Err::<LarianResource, Error>(Error::Decompression)
                    &&& c is Some ==> (r is Err ==> r->Err_0 == (Error::Format {
                        offset: decode_spec(c->Some_0)->Err_0 as usize,
                    }))
                },
    {
        let name = vec![103u8, 108, 111, 98, 97, 108, 115, 46, 108, 115, 102];
        assert(name@ =~= globals_name());
        self.load_resource(name.as_slice())
    }
}

impl LarianResource {
    /// Every root of the resource, keyed by region name, as a generic nested
    /// value; `shape` renders each attribute as the flag `true`.
    /// A tree nested deeper than `MAX_DEPTH` is `too_deep()`.
    pub fn to_value(&self, shape: bool) -> (r: Result<Value, Error>)
        requires
            self.0.wf(),
        ensures
            r is Ok <==> forall|m: int|
                0 <= m < self.0.roots@.len() ==> #[trigger] within_depth(
                    self.0.nodes@,
                    self.0.roots@[m].1 as nat,
                    MAX_DEPTH as nat,
                ),
            r is Ok ==> r->Ok_0@ == arena_model(self.0, shape),
            r is Err ==> r->Err_0 == too_deep(),
    {
        self.0.serialize_all(shape)
    }
}

} // verus!
