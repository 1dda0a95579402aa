//! The set of tables, one for each tag, and the resolution of links in it.

use crate::host::Host;
use crate::invalid::InvaPrimVal;
use crate::link::Link;
use crate::registry::Registry;
use crate::table::allocate_cells;
use crate::table::allocate_outcome;
use crate::table::read_outcome;
use crate::table::write_cells;
use crate::table::write_outcome;
use crate::table::RegistryError;
use crate::table::TypeRegistry;
use crate::table::MAX_CELLS;
use vstd::prelude::*;

verus! {

/// Why a link did not resolve.
#[derive(Debug, Clone, Copy, PartialEq, Eq, Structural)]
pub enum ResolveError {
    /// The link names this host, and its identifier was never allocated.
    UnknownIdentifier,
    /// The link names another host, which nothing here can reach.
    RemoteUnsupported,
}

/// What a link resolves to in the table with the cells `cells`, which is
/// the table of the link's tag: the cell of its identifier, where the link
/// names this host and the identifier is allocated.
pub open spec fn resolve_outcome(cells: Seq<InvaPrimVal>, link: Link) -> Result<
    InvaPrimVal,
    ResolveError,
> {
    if link.host != Host::Local {
        Err(ResolveError::RemoteUnsupported)
    } else {
        match read_outcome(cells, link.id) {
            Ok(cell) => Ok(cell),
            Err(_) => Err(ResolveError::UnknownIdentifier),
        }
    }
}

/// What `link` resolves to in `table`, which is the table of the link's
/// tag.
pub fn resolve_in(table: &TypeRegistry, link: &Link) -> (r: Result<InvaPrimVal, ResolveError>)
    requires
        table.tag() == link.registry,
    ensures
        r == resolve_outcome(table@, *link),
{
    match link.host {
        Host::Local => match table.read(link.id) {
            Ok(cell) => Ok(cell),
            Err(_) => Err(ResolveError::UnknownIdentifier),
        },
        _ => Err(ResolveError::RemoteUnsupported),
    }
}

/// The tables of this host, one for each tag.
pub struct RegistrySet {
    bln: TypeRegistry,
    u32: TypeRegistry,
    i32: TypeRegistry,
    flt32: TypeRegistry,
    i64: TypeRegistry,
    u64: TypeRegistry,
    flt64: TypeRegistry,
    enu: TypeRegistry,
    str: TypeRegistry,
}

impl RegistrySet {
    /// The table with the tag `tag`.
    pub closed spec fn table(&self, tag: Registry) -> TypeRegistry {
        match tag {
            Registry::BLN => self.bln,
            Registry::U32 => self.u32,
            Registry::I32 => self.i32,
            Registry::F32 => self.flt32,
            Registry::I64 => self.i64,
            Registry::U64 => self.u64,
            Registry::F64 => self.flt64,
            Registry::ENU => self.enu,
            Registry::STR => self.str,
        }
    }

    /// The invariant of a set: each table is sound and carries its tag.
    pub open spec fn wf(&self) -> bool {
        forall|tag: Registry| (#[trigger] self.table(tag)).wf() && self.table(tag).tag() == tag
    }

    /// Whether nothing but the table with the tag `tag` differs between
    /// `self` and `before`, and that table has kept its limit.
    pub open spec fn differs_in(&self, before: &RegistrySet, tag: Registry) -> bool {
        &&& self.table(tag).limit() == before.table(tag).limit()
        &&& forall|other: Registry| other != tag ==> #[trigger] self.table(other) == before.table(other)
    }

    /// The tables without cells.
    pub fn new() -> (s: RegistrySet)
        ensures
            s.wf(),
            forall|tag: Registry|
                {
                    &&& (#[trigger] s.table(tag))@ == Seq::<InvaPrimVal>::empty()
                    &&& s.table(tag).limit() == MAX_CELLS
                },
    {
        RegistrySet {
            bln: TypeRegistry::new(Registry::BLN),
            u32: TypeRegistry::new(Registry::U32),
            i32: TypeRegistry::new(Registry::I32),
            flt32: TypeRegistry::new(Registry::F32),
            i64: TypeRegistry::new(Registry::I64),
            u64: TypeRegistry::new(Registry::U64),
            flt64: TypeRegistry::new(Registry::F64),
            enu: TypeRegistry::new(Registry::ENU),
            str: TypeRegistry::new(Registry::STR),
        }
    }

    /// The table with the tag `tag`.
    pub fn registry(&self, tag: Registry) -> (t: &TypeRegistry)
        ensures
            *t == self.table(tag),
    {
        match tag {
            Registry::BLN => &self.bln,
            Registry::U32 => &self.u32,
            Registry::I32 => &self.i32,
            Registry::F32 => &self.flt32,
            Registry::I64 => &self.i64,
            Registry::U64 => &self.u64,
            Registry::F64 => &self.flt64,
            Registry::ENU => &self.enu,
            Registry::STR => &self.str,
        }
    }

    /// The table with the tag `tag`, to change.
    fn table_mut(&mut self, tag: Registry) -> (t: &mut TypeRegistry)
        ensures
            *t == old(self).table(tag),
            final(self).table(tag) == *final(t),
            forall|other: Registry|
                other != tag ==> #[trigger] final(self).table(other) == old(self).table(other),
    {
        match tag {
            Registry::BLN => &mut self.bln,
            Registry::U32 => &mut self.u32,
            Registry::I32 => &mut self.i32,
            Registry::F32 => &mut self.flt32,
            Registry::I64 => &mut self.i64,
            Registry::U64 => &mut self.u64,
            Registry::F64 => &mut self.flt64,
            Registry::ENU => &mut self.enu,
            Registry::STR => &mut self.str,
        }
    }

    /// Allocates an identifier in the table with the tag `tag`, as that
    /// table does. The other tables stay as they are.
    pub fn allocate(&mut self, tag: Registry, explicit_id: Option<u32>) -> (r: Result<
        u32,
        RegistryError,
    >)
        requires
            old(self).wf(),
        ensures
            final(self).wf(),
            final(self).differs_in(old(self), tag),
            r == allocate_outcome(old(self).table(tag)@, old(self).table(tag).limit(), explicit_id),
            final(self).table(tag)@ == allocate_cells(
                old(self).table(tag)@,
                old(self).table(tag).limit(),
                explicit_id,
            ),
    {
        self.table_mut(tag).allocate(explicit_id)
    }

    /// The cell of `id` in the table with the tag `tag`, as it stands.
    pub fn read(&self, tag: Registry, id: u32) -> (r: Result<InvaPrimVal, RegistryError>)
        ensures
            r == read_outcome(self.table(tag)@, id),
    {
        self.registry(tag).read(id)
    }

    /// Replaces the cell of `id` in the table with the tag `tag` by `value`.
    /// The other tables stay as they are.
    pub fn write(&mut self, tag: Registry, id: u32, value: InvaPrimVal) -> (r: Result<
        (),
        RegistryError,
    >)
        requires
            old(self).wf(),
        ensures
            final(self).wf(),
            final(self).differs_in(old(self), tag),
            r == write_outcome(old(self).table(tag)@, tag, id, value),
            final(self).table(tag)@ == write_cells(old(self).table(tag)@, tag, id, value),
    {
        self.table_mut(tag).write(id, value)
    }

    /// Replaces the cell of `id` in the table with the tag `tag` by what `f`
    /// makes of it. The other tables stay as they are.
    pub fn update<F: FnOnce(InvaPrimVal) -> InvaPrimVal>(
        &mut self,
        tag: Registry,
        id: u32,
        f: F,
    ) -> (r: Result<(), RegistryError>)
        requires
            old(self).wf(),
            old(self).table(tag).is_allocated(id) ==> f.requires((old(self).table(tag)@[id as int],)),
        ensures
            final(self).wf(),
            final(self).differs_in(old(self), tag),
            !old(self).table(tag).is_allocated(id) ==> r == Err::<(), RegistryError>(
                RegistryError::UnknownIdentifier,
            ) && final(self).table(tag)@ == old(self).table(tag)@,
            old(self).table(tag).is_allocated(id) ==> exists|v: InvaPrimVal|
                {
                    &&& f.ensures((old(self).table(tag)@[id as int],), v)
                    &&& r == write_outcome(old(self).table(tag)@, tag, id, v)
                    &&& final(self).table(tag)@ == write_cells(old(self).table(tag)@, tag, id, v)
                },
    {
        self.table_mut(tag).update(id, f)
    }

    /// The cell that `link` names, as it stands. A link to another host
    /// does not resolve here.
    pub fn resolve(&self, link: &Link) -> (r: Result<InvaPrimVal, ResolveError>)
        requires
            self.wf(),
        ensures
            r == resolve_outcome(self.table(link.registry)@, *link),
    {
        resolve_in(self.registry(link.registry), link)
    }
}

} // verus!
