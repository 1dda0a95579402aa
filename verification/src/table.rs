//! The table of one registry: a dense, growable sequence of cells.
//!
//! A cell is unallocated (`NOEX`) until its identifier is allocated, and
//! from then on holds a value that fits the table. The table grows by whole
//! chunks of unallocated cells, and no cell is ever taken away.
//!
//! A table is read through a shared borrow and changed through an exclusive
//! one: each operation sees the table as the operation before it left it.
//! A program that shares a table among threads gives it a lock of its own.

use crate::invalid::Inva;
use crate::invalid::InvaPrimVal;
use crate::invalid::InvaVal;
use crate::registry::Registry;
use crate::store::store_cells;
use crate::store::store_limit;
use crate::store::CellStore;
use vstd::prelude::*;

verus! {

/// The number of cells by which a table grows.
pub const CHUNK: usize = 64;

/// No table holds more cells than this: the greatest multiple of `CHUNK`
/// that the store of a table can reach on every target.
pub const MAX_CELLS: usize = 0x7fff_ffc0;

/// Why an operation on a table did not happen.
#[derive(Debug, Clone, Copy, PartialEq, Eq, Structural)]
pub enum RegistryError {
    /// The identifier asked for is allocated already.
    IdentifierInUse,
    /// The identifier was never allocated.
    UnknownIdentifier,
    /// The value cannot stand in this table.
    TypeMismatch,
    /// The table cannot grow to hold the identifier.
    CapacityExhausted,
}

/// Whether `cell` can be written to a table with the tag `tag`: its state
/// is not `NOEX`, which marks what was never allocated, and its payload, if
/// it has one, is of the table's kind.
pub open spec fn fits(tag: Registry, cell: InvaPrimVal) -> bool {
    &&& cell.code() != Inva::NOEX
    &&& match cell.payload() {
        Some(v) => v.kind() == tag.prim(),
        None => true,
    }
}

/// Whether the identifier `id` is allocated in `cells`.
pub open spec fn allocated_in(cells: Seq<InvaPrimVal>, id: int) -> bool {
    0 <= id < cells.len() && cells[id].code() != Inva::NOEX
}

/// Whether every cell is unallocated or fits a table with the tag `tag`.
pub open spec fn all_sound(cells: Seq<InvaPrimVal>, tag: Registry) -> bool {
    forall|i: int| 0 <= i < cells.len() ==> cells[i] == InvaPrimVal::NOEX || fits(tag, #[trigger] cells[i])
}

/// Whether every identifier below `bound` is allocated.
pub open spec fn all_allocated_below(cells: Seq<InvaPrimVal>, bound: int) -> bool {
    forall|i: int| 0 <= i < bound ==> allocated_in(cells, i)
}

/// The number of allocated identifiers.
pub open spec fn count_allocated(cells: Seq<InvaPrimVal>) -> nat
    decreases cells.len(),
{
    if cells.len() == 0 {
        0
    } else {
        count_allocated(cells.drop_last()) + (if cells.last().code() != Inva::NOEX {
            1nat
        } else {
            0nat
        })
    }
}

/// The first identifier from `from` on that is not allocated.
pub open spec fn first_free_from(cells: Seq<InvaPrimVal>, from: int) -> int
    decreases cells.len() - from,
{
    if allocated_in(cells, from) {
        first_free_from(cells, from + 1)
    } else {
        from
    }
}

/// The least identifier that is not allocated.
pub open spec fn first_free(cells: Seq<InvaPrimVal>) -> int {
    first_free_from(cells, 0)
}

/// The length that a table of `len` cells must have to hold `id`: its own
/// where it holds `id` already, else the least multiple of `CHUNK` above
/// `id`.
pub open spec fn needed_len(len: nat, id: int) -> int {
    if id < len {
        len as int
    } else {
        (id / (CHUNK as int) + 1) * (CHUNK as int)
    }
}

/// `cells`, followed by unallocated cells up to the length `len`.
pub open spec fn grown(cells: Seq<InvaPrimVal>, len: int) -> Seq<InvaPrimVal> {
    cells + Seq::new((len - cells.len()) as nat, |i: int| InvaVal::NOEX)
}

/// The identifier that an allocation is about: the one asked for, or the
/// least that is free.
pub open spec fn wanted_id(cells: Seq<InvaPrimVal>, explicit_id: Option<u32>) -> int {
    match explicit_id {
        Some(e) => e as int,
        None => first_free(cells),
    }
}

/// What an allocation returns.
pub open spec fn allocate_outcome(
    cells: Seq<InvaPrimVal>,
    limit: nat,
    explicit_id: Option<u32>,
) -> Result<u32, RegistryError> {
    let id = wanted_id(cells, explicit_id);
    if allocated_in(cells, id) {
        Err(RegistryError::IdentifierInUse)
    } else if needed_len(cells.len(), id) > limit {
        Err(RegistryError::CapacityExhausted)
    } else {
        Ok(id as u32)
    }
}

/// The cells after an allocation: on success the table has grown to hold
/// the identifier, whose cell is `NORE`; on failure nothing has changed.
pub open spec fn allocate_cells(
    cells: Seq<InvaPrimVal>,
    limit: nat,
    explicit_id: Option<u32>,
) -> Seq<InvaPrimVal> {
    let id = wanted_id(cells, explicit_id);
    match allocate_outcome(cells, limit, explicit_id) {
        Ok(_) => grown(cells, needed_len(cells.len(), id)).update(id, InvaVal::NORE),
        Err(_) => cells,
    }
}

/// What reading `id` returns.
pub open spec fn read_outcome(cells: Seq<InvaPrimVal>, id: u32) -> Result<
    InvaPrimVal,
    RegistryError,
> {
    if allocated_in(cells, id as int) {
        Ok(cells[id as int])
    } else {
        Err(RegistryError::UnknownIdentifier)
    }
}

/// What storing `value` under `id` returns.
pub open spec fn write_outcome(
    cells: Seq<InvaPrimVal>,
    tag: Registry,
    id: u32,
    value: InvaPrimVal,
) -> Result<(), RegistryError> {
    if !allocated_in(cells, id as int) {
        Err(RegistryError::UnknownIdentifier)
    } else if !fits(tag, value) {
        Err(RegistryError::TypeMismatch)
    } else {
        Ok(())
    }
}

/// The cells after storing `value` under `id`: that cell is replaced on
/// success, and nothing has changed on failure.
pub open spec fn write_cells(
    cells: Seq<InvaPrimVal>,
    tag: Registry,
    id: u32,
    value: InvaPrimVal,
) -> Seq<InvaPrimVal> {
    if write_outcome(cells, tag, id, value) is Ok {
        cells.update(id as int, value)
    } else {
        cells
    }
}

/// The least free identifier is free, and every identifier below it is
/// allocated: no identifier is skipped and none is handed out twice.
pub proof fn lemma_first_free_is_least(cells: Seq<InvaPrimVal>)
    ensures
        0 <= first_free(cells) <= cells.len(),
        !allocated_in(cells, first_free(cells)),
        forall|j: int| 0 <= j < first_free(cells) ==> allocated_in(cells, j),
{
    lemma_first_free_from(cells, 0);
}

proof fn lemma_first_free_from(cells: Seq<InvaPrimVal>, from: int)
    requires
        0 <= from <= cells.len(),
    ensures
        from <= first_free_from(cells, from) <= cells.len(),
        !allocated_in(cells, first_free_from(cells, from)),
        forall|j: int| from <= j < first_free_from(cells, from) ==> allocated_in(cells, j),
    decreases cells.len() - from,
{
    if allocated_in(cells, from) {
        lemma_first_free_from(cells, from + 1);
    }
}

/// An identifier that is free, with every identifier below it allocated,
/// is the least free one.
pub proof fn lemma_first_free_unique(cells: Seq<InvaPrimVal>, id: int)
    requires
        0 <= id,
        !allocated_in(cells, id),
        forall|j: int| 0 <= j < id ==> allocated_in(cells, j),
    ensures
        first_free(cells) == id,
{
    lemma_first_free_is_least(cells);
    let f = first_free(cells);
    if f < id {
        assert(allocated_in(cells, f));
    } else if id < f {
        assert(allocated_in(cells, id));
    }
}

proof fn lemma_count_bound(cells: Seq<InvaPrimVal>)
    ensures
        count_allocated(cells) <= cells.len(),
    decreases cells.len(),
{
    if cells.len() > 0 {
        lemma_count_bound(cells.drop_last());
    }
}

proof fn lemma_count_push(cells: Seq<InvaPrimVal>, cell: InvaPrimVal)
    ensures
        count_allocated(cells.push(cell)) == count_allocated(cells) + (if cell.code()
            != Inva::NOEX {
            1nat
        } else {
            0nat
        }),
{
    assert(cells.push(cell).drop_last() == cells);
}

proof fn lemma_count_update(cells: Seq<InvaPrimVal>, i: int, cell: InvaPrimVal)
    requires
        0 <= i < cells.len(),
    ensures
        count_allocated(cells.update(i, cell)) + (if cells[i].code() != Inva::NOEX {
            1nat
        } else {
            0nat
        }) == count_allocated(cells) + (if cell.code() != Inva::NOEX {
            1nat
        } else {
            0nat
        }),
    decreases cells.len(),
{
    let after = cells.update(i, cell);
    if i == cells.len() - 1 {
        assert(after.drop_last() == cells.drop_last());
    } else {
        assert(after.drop_last() == cells.drop_last().update(i, cell));
        lemma_count_update(cells.drop_last(), i, cell);
    }
}

proof fn lemma_grown_step(cells: Seq<InvaPrimVal>, len: int)
    requires
        cells.len() <= len,
    ensures
        grown(cells, len).push(InvaVal::NOEX) == grown(cells, len + 1),
        grown(cells, cells.len() as int) == cells,
{
    assert(grown(cells, len).push(InvaVal::NOEX) =~= grown(cells, len + 1));
    assert(grown(cells, cells.len() as int) =~= cells);
}

/// Overwriting a cell by a value that fits keeps every cell sound and every
/// identifier allocated that was.
proof fn lemma_store_keeps(cells: Seq<InvaPrimVal>, tag: Registry, bound: int, id: int, value: InvaPrimVal)
    requires
        0 <= id < cells.len(),
        fits(tag, value),
    ensures
        all_sound(cells, tag) ==> all_sound(cells.update(id, value), tag),
        all_allocated_below(cells, bound) ==> all_allocated_below(cells.update(id, value), bound),
{
    let after = cells.update(id, value);
    if all_sound(cells, tag) {
        assert forall|i: int| 0 <= i < after.len() implies after[i] == InvaPrimVal::NOEX || fits(
            tag,
            #[trigger] after[i],
        ) by {
            if i != id {
                assert(after[i] == cells[i]);
            }
        }
    }
    if all_allocated_below(cells, bound) {
        assert forall|i: int| 0 <= i < bound implies allocated_in(after, i) by {
            assert(allocated_in(cells, i));
        }
    }
}

/// Growing keeps every cell sound and every identifier allocated that was.
proof fn lemma_grow_keeps(cells: Seq<InvaPrimVal>, tag: Registry, bound: int, len: int)
    requires
        cells.len() <= len,
    ensures
        all_sound(cells, tag) ==> all_sound(grown(cells, len), tag),
        all_allocated_below(cells, bound) ==> all_allocated_below(grown(cells, len), bound),
{
    let after = grown(cells, len);
    if all_sound(cells, tag) {
        assert forall|i: int| 0 <= i < after.len() implies after[i] == InvaPrimVal::NOEX || fits(
            tag,
            #[trigger] after[i],
        ) by {
            if i < cells.len() {
                assert(after[i] == cells[i]);
            }
        }
    }
    if all_allocated_below(cells, bound) {
        assert forall|i: int| 0 <= i < bound implies allocated_in(after, i) by {
            assert(allocated_in(cells, i));
            assert(after[i] == cells[i]);
        }
    }
}

/// The least multiple of `CHUNK` above `id` is a multiple of `CHUNK`, lies
/// above `id`, and by at most `CHUNK`.
pub proof fn lemma_needed_len(len: nat, id: int)
    requires
        0 <= id,
        len % (CHUNK as nat) == 0,
    ensures
        needed_len(len, id) % (CHUNK as int) == 0,
        id < needed_len(len, id),
        len <= needed_len(len, id),
        id >= len ==> needed_len(len, id) <= id + (CHUNK as int),
{
    if id >= len {
        let q = id / (CHUNK as int);
        assert(needed_len(len, id) == (q + 1) * 64);
        assert(id == q * 64 + id % 64);
        assert(len == (len as int / 64) * 64);
    }
}

/// One table: the cells of one registry, in the order of their identifiers.
pub struct TypeRegistry {
    tag: Registry,
    cells: CellStore,
    /// Every identifier below is allocated.
    cursor: usize,
    allocated: usize,
    limit: usize,
}

impl View for TypeRegistry {
    type V = Seq<InvaPrimVal>;

    closed spec fn view(&self) -> Seq<InvaPrimVal> {
        store_cells(self.cells)
    }
}

impl TypeRegistry {
    /// The tag of the table.
    pub closed spec fn tag(&self) -> Registry {
        self.tag
    }

    /// The number of cells beyond which the table does not grow.
    pub closed spec fn limit(&self) -> nat {
        self.limit as nat
    }

    /// What holds of the fields that no caller sees.
    pub closed spec fn bookkeeping(&self) -> bool {
        &&& self.limit <= store_limit(self.cells)
        &&& self.cursor <= self@.len()
        &&& all_allocated_below(self@, self.cursor as int)
        &&& self.allocated == count_allocated(self@)
    }

    /// The invariant of a table: it has grown by whole chunks and within
    /// its limit, and every cell is either unallocated or fits the table.
    pub open spec fn wf(&self) -> bool {
        &&& self@.len() % (CHUNK as nat) == 0
        &&& self@.len() <= self.limit()
        &&& self.limit() <= MAX_CELLS
        &&& all_sound(self@, self.tag())
        &&& self.bookkeeping()
    }

    /// Whether `id` is allocated.
    pub open spec fn is_allocated(&self, id: u32) -> bool {
        allocated_in(self@, id as int)
    }

    /// A table without cells, with the tag `tag`, that grows up to
    /// `MAX_CELLS` cells.
    pub fn new(tag: Registry) -> (t: TypeRegistry)
        ensures
            t.wf(),
            t.tag() == tag,
            t@ == Seq::<InvaPrimVal>::empty(),
            t.limit() == MAX_CELLS,
    {
        TypeRegistry::with_limit(tag, MAX_CELLS)
    }

    /// A table without cells, with the tag `tag`, that grows up to
    /// `max_cells` cells, and no further than `MAX_CELLS`.
    pub fn with_limit(tag: Registry, max_cells: usize) -> (t: TypeRegistry)
        ensures
            t.wf(),
            t.tag() == tag,
            t@ == Seq::<InvaPrimVal>::empty(),
            t.limit() == if max_cells < MAX_CELLS {
                max_cells
            } else {
                MAX_CELLS
            },
    {
        let limit = if max_cells < MAX_CELLS {
            max_cells
        } else {
            MAX_CELLS
        };
        TypeRegistry { tag, cells: CellStore::new(), cursor: 0, allocated: 0, limit }
    }

    /// The number of cells, allocated or not.
    pub fn len(&self) -> (n: usize)
        ensures
            n == self@.len(),
    {
        self.cells.len()
    }

    /// The tag of the table.
    pub fn registry(&self) -> (tag: Registry)
        ensures
            tag == self.tag(),
    {
        self.tag
    }

    /// The number of cells beyond which the table does not grow.
    pub fn capacity_limit(&self) -> (n: usize)
        ensures
            n == self.limit(),
    {
        self.limit
    }

    /// The number of identifiers allocated so far.
    pub fn allocation_count(&self) -> (n: usize)
        requires
            self.wf(),
        ensures
            n == count_allocated(self@),
    {
        self.allocated
    }

    /// The cell of `id` as it stands, if `id` is allocated.
    pub fn read(&self, id: u32) -> (r: Result<InvaPrimVal, RegistryError>)
        ensures
            r == read_outcome(self@, id),
    {
        match self.cells.get_copied(id as usize) {
            Some(cell) => {
                if cell.as_reg_inv() == Inva::NOEX {
                    Err(RegistryError::UnknownIdentifier)
                } else {
                    Ok(cell)
                }
            },
            None => Err(RegistryError::UnknownIdentifier),
        }
    }

    /// Replaces the cell of `id` by `value`.
    pub fn write(&mut self, id: u32, value: InvaPrimVal) -> (r: Result<(), RegistryError>)
        requires
            old(self).wf(),
        ensures
            final(self).wf(),
            final(self).tag() == old(self).tag(),
            final(self).limit() == old(self).limit(),
            r == write_outcome(old(self)@, old(self).tag(), id, value),
            final(self)@ == write_cells(old(self)@, old(self).tag(), id, value),
    {
        match self.read(id) {
            Err(e) => Err(e),
            Ok(_) => {
                if !fits_table(self.tag, &value) {
                    Err(RegistryError::TypeMismatch)
                } else {
                    proof {
                        lemma_count_update(self@, id as int, value);
                        lemma_store_keeps(self@, self.tag, self.cursor as int, id as int, value);
                    }
                    self.cells.set(id as usize, value);
                    Ok(())
                }
            },
        }
    }

    /// Allocates an identifier: `explicit_id` where one is given, else the
    /// least that is free. The table grows by whole chunks of unallocated
    /// cells as far as the identifier needs, and the new cell is `NORE`.
    /// Every other cell stays as it is.
    pub fn allocate(&mut self, explicit_id: Option<u32>) -> (r: Result<u32, RegistryError>)
        requires
            old(self).wf(),
        ensures
            final(self).wf(),
            final(self).tag() == old(self).tag(),
            final(self).limit() == old(self).limit(),
            r == allocate_outcome(old(self)@, old(self).limit(), explicit_id),
            final(self)@ == allocate_cells(old(self)@, old(self).limit(), explicit_id),
    {
        let ghost before = self@;
        let len = self.cells.len();
        let id: usize = match explicit_id {
            Some(e) => e as usize,
            None => {
                let free = self.find_free();
                proof {
                    lemma_first_free_is_least(self@);
                }
                self.cursor = free;
                free
            },
        };
        if id < len {
            match self.cells.get_copied(id) {
                Some(cell) => {
                    if cell.as_reg_inv() != Inva::NOEX {
                        return Err(RegistryError::IdentifierInUse);
                    }
                },
                None => {},
            }
        }
        let needed: u64 = if id < len {
            len as u64
        } else {
            (id as u64 / CHUNK as u64 + 1) * CHUNK as u64
        };
        proof {
            lemma_needed_len(before.len(), id as int);
        }
        if needed > self.limit as u64 {
            return Err(RegistryError::CapacityExhausted);
        }
        let needed = needed as usize;
        self.grow_to(needed);
        let ghost wide = self@;
        proof {
            lemma_count_update(wide, id as int, InvaVal::NORE);
            lemma_count_bound(wide.update(id as int, InvaVal::NORE));
            lemma_grow_keeps(before, self.tag, self.cursor as int, needed as int);
            lemma_store_keeps(wide, self.tag, self.cursor as int, id as int, InvaVal::NORE);
        }
        self.cells.set(id, InvaVal::NORE);
        self.allocated = self.allocated + 1;
        Ok(id as u32)
    }

    /// Replaces the cell of `id` by what `f` makes of it. The cell is read
    /// once and `f` is called once; what `f` returns is stored as `write`
    /// stores it.
    pub fn update<F: FnOnce(InvaPrimVal) -> InvaPrimVal>(&mut self, id: u32, f: F) -> (r: Result<
        (),
        RegistryError,
    >)
        requires
            old(self).wf(),
            old(self).is_allocated(id) ==> f.requires((old(self)@[id as int],)),
        ensures
            final(self).wf(),
            final(self).tag() == old(self).tag(),
            final(self).limit() == old(self).limit(),
            !old(self).is_allocated(id) ==> r == Err::<(), RegistryError>(
                RegistryError::UnknownIdentifier,
            ) && final(self)@ == old(self)@,
            old(self).is_allocated(id) ==> exists|v: InvaPrimVal|
                {
                    &&& f.ensures((old(self)@[id as int],), v)
                    &&& r == write_outcome(old(self)@, old(self).tag(), id, v)
                    &&& final(self)@ == write_cells(old(self)@, old(self).tag(), id, v)
                },
    {
        match self.read(id) {
            Err(e) => Err(e),
            Ok(cell) => {
                let v = f(cell);
                self.write(id, v)
            },
        }
    }

    /// The least identifier that is free.
    fn find_free(&self) -> (free: usize)
        requires
            self.wf(),
        ensures
            free == first_free(self@),
            free <= self@.len(),
    {
        let len = self.cells.len();
        let mut i = self.cursor;
        while i < len
            invariant
                i <= len,
                len == self@.len(),
                forall|j: int| 0 <= j < i ==> allocated_in(self@, j),
            ensures
                i <= len,
                !allocated_in(self@, i as int),
                forall|j: int| 0 <= j < i ==> allocated_in(self@, j),
            decreases len - i,
        {
            let free = match self.cells.get_copied(i) {
                Some(cell) => cell.as_reg_inv() == Inva::NOEX,
                None => true,
            };
            if free {
                break ;
            }
            i = i + 1;
        }
        proof {
            lemma_first_free_unique(self@, i as int);
        }
        i
    }

    /// Appends unallocated cells up to the length `needed`.
    fn grow_to(&mut self, needed: usize)
        requires
            old(self)@.len() <= needed <= old(self).limit(),
            old(self).bookkeeping(),
        ensures
            final(self)@ == grown(old(self)@, needed as int),
            final(self).bookkeeping(),
            final(self).tag() == old(self).tag(),
            final(self).limit() == old(self).limit(),
            final(self).cursor == old(self).cursor,
            final(self).allocated == old(self).allocated,
    {
        let ghost before = self@;
        proof {
            lemma_grown_step(before, before.len() as int);
        }
        while self.cells.len() < needed
            invariant
                before.len() <= self@.len() <= needed <= self.limit,
                self@ == grown(before, self@.len() as int),
                self.limit <= store_limit(self.cells),
                self.allocated == count_allocated(self@),
                self.cursor <= before.len(),
                all_allocated_below(before, self.cursor as int),
                self.tag == old(self).tag,
                self.limit == old(self).limit,
                self.cursor == old(self).cursor,
                self.allocated == old(self).allocated,
            decreases needed - self@.len(),
        {
            proof {
                lemma_grown_step(before, self@.len() as int);
                lemma_count_push(self@, InvaVal::NOEX);
            }
            self.cells.push(InvaVal::NOEX);
        }
        proof {
            lemma_grow_keeps(before, self.tag, self.cursor as int, needed as int);
        }
    }
}

/// Whether `cell` can be written to a table with the tag `tag`.
pub fn fits_table(tag: Registry, cell: &InvaPrimVal) -> (b: bool)
    ensures
        b == fits(tag, *cell),
{
    match cell.value() {
        Some(v) => v.as_reg_prim() == tag.as_prim(),
        None => cell.as_reg_inv() != Inva::NOEX,
    }
}

/// The cells after `n` allocations of the least free identifier.
pub open spec fn after_auto(cells: Seq<InvaPrimVal>, limit: nat, n: nat) -> Seq<InvaPrimVal>
    decreases n,
{
    if n == 0 {
        cells
    } else {
        allocate_cells(after_auto(cells, limit, (n - 1) as nat), limit, None)
    }
}

/// `f` applied `n` times to `cell`.
pub open spec fn applied(f: spec_fn(InvaPrimVal) -> InvaPrimVal, n: nat, cell: InvaPrimVal) -> InvaPrimVal
    decreases n,
{
    if n == 0 {
        cell
    } else {
        f(applied(f, (n - 1) as nat, cell))
    }
}

/// The cells after `n` updates of `id` by `f`, each of which stores what `f`
/// makes of the cell as it stands.
pub open spec fn after_updates(
    cells: Seq<InvaPrimVal>,
    tag: Registry,
    id: u32,
    f: spec_fn(InvaPrimVal) -> InvaPrimVal,
    n: nat,
) -> Seq<InvaPrimVal>
    decreases n,
{
    if n == 0 {
        cells
    } else {
        let before = after_updates(cells, tag, id, f, (n - 1) as nat);
        write_cells(before, tag, id, f(before[id as int]))
    }
}

proof fn lemma_fresh_shape(limit: nat, k: nat)
    requires
        limit <= MAX_CELLS,
        k > 0 ==> needed_len(0, k - 1) <= limit,
    ensures
        ({
            let c = after_auto(Seq::empty(), limit, k);
            &&& c.len() == (if k == 0 {
                0
            } else {
                needed_len(0, k - 1)
            })
            &&& c.len() % (CHUNK as nat) == 0
            &&& forall|i: int| 0 <= i < k ==> c[i] == InvaPrimVal::NORE
            &&& forall|i: int| k <= i < c.len() ==> c[i] == InvaPrimVal::NOEX
            &&& first_free(c) == k
            &&& k > 0 ==> allocate_outcome(after_auto(Seq::empty(), limit, (k - 1) as nat), limit, None)
                == Ok::<u32, RegistryError>((k - 1) as u32)
        }),
    decreases k,
{
    let c = after_auto(Seq::empty(), limit, k);
    if k > 0 {
        let b = after_auto(Seq::empty(), limit, (k - 1) as nat);
        if k > 1 {
            lemma_needed_len(0, k - 2);
            lemma_needed_len(0, k - 1);
            assert(needed_len(0, k - 2) <= needed_len(0, k - 1)) by {
                assert((k - 2) / 64 <= (k - 1) / 64);
            }
        }
        lemma_fresh_shape(limit, (k - 1) as nat);
        lemma_needed_len(b.len(), k - 1);
        lemma_needed_len(0, k - 1);
        assert(needed_len(b.len(), k - 1) == needed_len(0, k - 1)) by {
            if k - 1 < b.len() {
                assert(b.len() == needed_len(0, k - 2));
                assert((k - 2) / 64 == (k - 1) / 64) by {
                    assert(b.len() == ((k - 2) / 64 + 1) * 64);
                }
            }
        }
        assert(!allocated_in(b, k - 1));
        assert(allocate_outcome(b, limit, None) == Ok::<u32, RegistryError>((k - 1) as u32));
        assert(c == grown(b, needed_len(b.len(), k - 1)).update(k - 1, InvaPrimVal::NORE));
        assert forall|j: int| 0 <= j < k implies allocated_in(c, j) by {
            if j < k - 1 {
                assert(c[j] == b[j]);
            }
        }
        if k < c.len() {
            assert(c[k as int] == InvaPrimVal::NOEX);
        }
        lemma_first_free_unique(c, k as int);
    } else {
        lemma_first_free_unique(c, 0);
    }
}

/// In a table without cells, allocations of the least free identifier hand
/// out 0, 1, 2 and so on, as long as the table can grow: the first `n` of
/// them hand out `n` identifiers without a gap, each of them once.
pub proof fn lemma_fresh_table_allocates_in_order(limit: nat, n: nat, k: nat)
    requires
        limit <= MAX_CELLS,
        k < n,
        needed_len(0, n - 1) <= limit,
    ensures
        allocate_outcome(after_auto(Seq::empty(), limit, k), limit, None) == Ok::<u32, RegistryError>(
            k as u32,
        ),
{
    lemma_needed_len(0, k as int);
    lemma_needed_len(0, n - 1);
    assert(needed_len(0, k as int) <= needed_len(0, n - 1)) by {
        assert(k / 64 <= (n - 1) / 64);
    }
    lemma_fresh_shape(limit, k + 1);
}

/// An allocation changes one cell at most: the identifier that it returns
/// becomes allocated, every identifier that was allocated keeps its cell,
/// and no other identifier becomes allocated.
pub proof fn lemma_allocate_frame(cells: Seq<InvaPrimVal>, limit: nat, explicit_id: Option<u32>)
    requires
        cells.len() % (CHUNK as nat) == 0,
        limit <= MAX_CELLS,
    ensures
        ({
            let after = allocate_cells(cells, limit, explicit_id);
            let r = allocate_outcome(cells, limit, explicit_id);
            &&& cells.len() <= after.len()
            &&& forall|i: int| allocated_in(cells, i) ==> after[i] == cells[i]
            &&& forall|i: int|
                allocated_in(after, i) <==> allocated_in(cells, i) || (r matches Ok(id) && i == id)
            &&& r matches Ok(id) ==> !allocated_in(cells, id as int) && after[id as int]
                == InvaPrimVal::NORE
        }),
{
    let after = allocate_cells(cells, limit, explicit_id);
    let id = wanted_id(cells, explicit_id);
    lemma_first_free_is_least(cells);
    if allocate_outcome(cells, limit, explicit_id) is Ok {
        lemma_needed_len(cells.len(), id);
        let wide = grown(cells, needed_len(cells.len(), id));
        assert forall|i: int| allocated_in(after, i) implies allocated_in(cells, i) || i == id by {
            if i != id {
                assert(after[i] == wide[i]);
            }
        }
    }
}

/// Of two allocations of the least free identifier, one after the other,
/// the second returns the greater identifier.
pub proof fn lemma_auto_ids_increase(cells: Seq<InvaPrimVal>, limit: nat)
    requires
        cells.len() % (CHUNK as nat) == 0,
        limit <= MAX_CELLS,
        allocate_outcome(cells, limit, None) is Ok,
        allocate_outcome(allocate_cells(cells, limit, None), limit, None) is Ok,
    ensures
        allocate_outcome(cells, limit, None)->Ok_0 < allocate_outcome(
            allocate_cells(cells, limit, None),
            limit,
            None,
        )->Ok_0,
{
    let after = allocate_cells(cells, limit, None);
    lemma_allocate_frame(cells, limit, None);
    lemma_first_free_grows(cells, after);
    lemma_first_free_is_least(cells);
    lemma_first_free_is_least(after);
    lemma_needed_len(cells.len(), first_free(cells));
}

/// Stores under two different identifiers do not touch each other: after
/// both, each cell holds what was stored under its identifier, in whichever
/// order the stores came.
pub proof fn lemma_writes_are_isolated(
    cells: Seq<InvaPrimVal>,
    tag: Registry,
    a: u32,
    x: InvaPrimVal,
    b: u32,
    y: InvaPrimVal,
)
    requires
        a != b,
        write_outcome(cells, tag, a, x) is Ok,
        write_outcome(cells, tag, b, y) is Ok,
    ensures
        ({
            let ab = write_cells(write_cells(cells, tag, a, x), tag, b, y);
            let ba = write_cells(write_cells(cells, tag, b, y), tag, a, x);
            &&& ab == ba
            &&& read_outcome(ab, a) == Ok::<InvaPrimVal, RegistryError>(x)
            &&& read_outcome(ab, b) == Ok::<InvaPrimVal, RegistryError>(y)
            &&& forall|i: int| 0 <= i < cells.len() && i != a && i != b ==> ab[i] == cells[i]
        }),
{
    let ab = write_cells(write_cells(cells, tag, a, x), tag, b, y);
    let ba = write_cells(write_cells(cells, tag, b, y), tag, a, x);
    assert(ab =~= ba);
}

/// No update is lost: after `n` updates of one cell by `f`, the cell holds
/// `f` applied `n` times to what it held, where each of these values fits
/// the table; the other cells are as they were.
pub proof fn lemma_updates_accumulate(
    cells: Seq<InvaPrimVal>,
    tag: Registry,
    id: u32,
    f: spec_fn(InvaPrimVal) -> InvaPrimVal,
    n: nat,
)
    requires
        allocated_in(cells, id as int),
        forall|k: nat| 1 <= k <= n ==> fits(tag, #[trigger] applied(f, k, cells[id as int])),
    ensures
        after_updates(cells, tag, id, f, n) == cells.update(
            id as int,
            applied(f, n, cells[id as int]),
        ),
    decreases n,
{
    if n > 0 {
        lemma_updates_accumulate(cells, tag, id, f, (n - 1) as nat);
        let before = after_updates(cells, tag, id, f, (n - 1) as nat);
        let next = applied(f, n, cells[id as int]);
        assert(fits(tag, next));
        assert(before[id as int] == applied(f, (n - 1) as nat, cells[id as int]));
        if n > 1 {
            assert(fits(tag, applied(f, (n - 1) as nat, cells[id as int])));
        }
        assert(allocated_in(before, id as int));
        assert(before.update(id as int, next) =~= cells.update(id as int, next));
    } else {
        assert(cells.update(id as int, cells[id as int]) =~= cells);
    }
}

/// Reading and storing under an identifier that is not allocated fail with
/// `UnknownIdentifier`, and in a table without cells no identifier is
/// allocated.
pub proof fn lemma_unknown_identifier(
    cells: Seq<InvaPrimVal>,
    tag: Registry,
    id: u32,
    value: InvaPrimVal,
)
    requires
        !allocated_in(cells, id as int),
    ensures
        read_outcome(cells, id) == Err::<InvaPrimVal, RegistryError>(
            RegistryError::UnknownIdentifier,
        ),
        write_outcome(cells, tag, id, value) == Err::<(), RegistryError>(
            RegistryError::UnknownIdentifier,
        ),
        write_cells(cells, tag, id, value) == cells,
        !allocated_in(Seq::<InvaPrimVal>::empty(), id as int),
{
}

/// Storing changes no cell but the one stored under, and leaves every
/// identifier allocated or free as it was.
pub proof fn lemma_write_frame(cells: Seq<InvaPrimVal>, tag: Registry, id: u32, value: InvaPrimVal)
    ensures
        ({
            let after = write_cells(cells, tag, id, value);
            &&& after.len() == cells.len()
            &&& forall|i: int| 0 <= i < cells.len() && i != id ==> after[i] == cells[i]
            &&& forall|i: int| allocated_in(after, i) <==> allocated_in(cells, i)
            &&& count_allocated(after) == count_allocated(cells)
        }),
{
    if write_outcome(cells, tag, id, value) is Ok {
        lemma_count_update(cells, id as int, value);
    }
}

/// The number of allocated identifiers is at most the number of cells, and
/// grows by one with each allocation that succeeds.
pub proof fn lemma_allocate_counts(cells: Seq<InvaPrimVal>, limit: nat, explicit_id: Option<u32>)
    requires
        cells.len() % (CHUNK as nat) == 0,
    ensures
        count_allocated(cells) <= cells.len(),
        count_allocated(allocate_cells(cells, limit, explicit_id)) == count_allocated(cells) + (
        if allocate_outcome(cells, limit, explicit_id) is Ok {
            1nat
        } else {
            0nat
        }),
{
    lemma_count_bound(cells);
    let id = wanted_id(cells, explicit_id);
    lemma_first_free_is_least(cells);
    if allocate_outcome(cells, limit, explicit_id) is Ok {
        lemma_needed_len(cells.len(), id);
        let len = needed_len(cells.len(), id);
        lemma_count_grown(cells, len);
        lemma_count_update(grown(cells, len), id, InvaVal::NORE);
    }
}

proof fn lemma_count_grown(cells: Seq<InvaPrimVal>, len: int)
    requires
        cells.len() <= len,
    ensures
        count_allocated(grown(cells, len)) == count_allocated(cells),
    decreases len - cells.len(),
{
    if cells.len() < len {
        lemma_count_grown(cells, len - 1);
        lemma_grown_step(cells, len - 1);
        lemma_count_push(grown(cells, len - 1), InvaVal::NOEX);
    } else {
        lemma_grown_step(cells, len);
    }
}

/// Where no identifier becomes free, the least free identifier does not
/// become less: identifiers are handed out in growing order and none is
/// handed out again.
pub proof fn lemma_first_free_grows(cells: Seq<InvaPrimVal>, after: Seq<InvaPrimVal>)
    requires
        forall|i: int| allocated_in(cells, i) ==> allocated_in(after, i),
    ensures
        first_free(cells) <= first_free(after),
        allocated_in(after, first_free(cells)) ==> first_free(cells) < first_free(after),
{
    lemma_first_free_is_least(cells);
    lemma_first_free_is_least(after);
    let a = first_free(cells);
    let b = first_free(after);
    if b < a {
        assert(allocated_in(cells, b));
    }
}

} // verus!
