//! The heap: numbered cells with reference counts.
//!
//! Misuse is detected. To read, count or release a cell that has been freed is a reported
//! error, and an address is never given out twice, so a stale address stays stale.

use vstd::prelude::*;
use crate::ir::Name;
use crate::names::{decimal, decimal_text, join_text};
use super::value::{vals, Val, Value};

verus! {

/// What a cell holds.
#[derive(Debug, PartialEq)]
enum CellData {
    Ctor { tag: String, fields: Vec<Value> },
    Str(String),
}

#[derive(Debug, PartialEq)]
struct HeapCell {
    data: CellData,
    refcount: usize,
}

/// What a cell holds, borrowed.
#[derive(Debug, PartialEq)]
pub enum CellView<'a> {
    Ctor(&'a str, &'a [Value]),
    Str(&'a str),
}

/// The model of what a cell holds.
#[verifier::ext_equal]
pub enum Contents {
    Ctor(Name, Seq<Val>),
    Str(Name),
}

/// The model of a live cell.
#[verifier::ext_equal]
pub struct Cell {
    pub contents: Contents,
    pub refcount: nat,
}

/// The model of a heap: what stands at each address ever given out, and nothing at those
/// that have been freed.
pub type Cells = Seq<Option<Cell>>;

impl<'a> CellView<'a> {
    pub open spec fn view(self) -> Contents {
        match self {
            CellView::Ctor(tag, fields) => Contents::Ctor(tag@, vals(fields@)),
            CellView::Str(s) => Contents::Str(s@),
        }
    }
}

impl CellData {
    spec fn view(self) -> Contents {
        match self {
            CellData::Ctor { tag, fields } => Contents::Ctor(tag@, vals(fields@)),
            CellData::Str(s) => Contents::Str(s@),
        }
    }
}

impl HeapCell {
    spec fn view(self) -> Cell {
        Cell { contents: self.data@, refcount: self.refcount as nat }
    }
}

/// Why a heap operation failed.
#[derive(Debug, Clone, Copy, PartialEq, Eq, Structural)]
pub enum HeapError {
    UseAfterFree(usize),
    InvalidAddress(usize),
    NotACtor(usize),
    NotAString(usize),
}

impl HeapError {
    /// The text of the error.
    pub open spec fn text(self) -> Name {
        match self {
            HeapError::UseAfterFree(a) => "use after free at heap address "@ + decimal(a as nat),
            HeapError::InvalidAddress(a) => "invalid heap address "@ + decimal(a as nat),
            HeapError::NotACtor(a) => "expected a constructor value, found a string at heap address "@
                + decimal(a as nat),
            HeapError::NotAString(a) => "expected a string value, found a constructor at heap address "@
                + decimal(a as nat),
        }
    }

    pub fn message(&self) -> (r: String)
        ensures
            r@ == self.text(),
    {
        match self {
            HeapError::UseAfterFree(a) => {
                let n: String = decimal_text(*a as u64);
                join_text("use after free at heap address ", n.as_str())
            },
            HeapError::InvalidAddress(a) => {
                let n: String = decimal_text(*a as u64);
                join_text("invalid heap address ", n.as_str())
            },
            HeapError::NotACtor(a) => {
                let n: String = decimal_text(*a as u64);
                join_text(
                    "expected a constructor value, found a string at heap address ",
                    n.as_str(),
                )
            },
            HeapError::NotAString(a) => {
                let n: String = decimal_text(*a as u64);
                join_text(
                    "expected a string value, found a constructor at heap address ",
                    n.as_str(),
                )
            },
        }
    }
}

/// Whether there is a live cell at an address.
pub open spec fn live(h: Cells, addr: int) -> bool {
    0 <= addr < h.len() && h[addr] is Some
}

/// The error of using an address without a live cell.
pub open spec fn dead(h: Cells, addr: usize) -> HeapError {
    if addr < h.len() {
        HeapError::UseAfterFree(addr)
    } else {
        HeapError::InvalidAddress(addr)
    }
}

/// The live cell at an address.
pub open spec fn cell_at(h: Cells, addr: usize) -> Result<Cell, HeapError> {
    if live(h, addr as int) {
        Ok(h[addr as int]->0)
    } else {
        Err(dead(h, addr))
    }
}

/// The tag and fields at an address.
pub open spec fn ctor_at(h: Cells, addr: usize) -> Result<(Name, Seq<Val>), HeapError> {
    match cell_at(h, addr) {
        Ok(c) => match c.contents {
            Contents::Ctor(tag, fields) => Ok((tag, fields)),
            Contents::Str(_) => Err(HeapError::NotACtor(addr)),
        },
        Err(e) => Err(e),
    }
}

/// The string at an address.
pub open spec fn str_at(h: Cells, addr: usize) -> Result<Name, HeapError> {
    match cell_at(h, addr) {
        Ok(c) => match c.contents {
            Contents::Str(s) => Ok(s),
            Contents::Ctor(_, _) => Err(HeapError::NotAString(addr)),
        },
        Err(e) => Err(e),
    }
}

/// A heap with a fresh cell, counted once, at the next address.
pub open spec fn with_new(h: Cells, contents: Contents) -> Cells {
    h.push(Some(Cell { contents, refcount: 1 }))
}

/// A heap with one more reference counted at a live address.
pub open spec fn with_inc(h: Cells, addr: usize) -> Cells {
    let c = h[addr as int]->0;
    h.update(addr as int, Some(Cell { refcount: c.refcount + 1, ..c }))
}

/// A heap with one reference fewer at a live address. The last one frees the cell.
pub open spec fn with_dec(h: Cells, addr: usize) -> Cells {
    let c = h[addr as int]->0;
    h.update(
        addr as int,
        if c.refcount == 1 {
            None
        } else {
            Some(Cell { refcount: (c.refcount - 1) as nat, ..c })
        },
    )
}

/// Gives up a reference to a live address and stores new contents: in the same cell if it
/// was the last reference, in a fresh cell otherwise. Yields the heap and the address.
pub open spec fn with_reuse(h: Cells, addr: usize, contents: Contents) -> (Cells, int) {
    if h[addr as int]->0.refcount == 1 {
        (h.update(addr as int, Some(Cell { contents, refcount: 1 })), addr as int)
    } else {
        (with_new(with_dec(h, addr), contents), h.len() as int)
    }
}

#[derive(Debug)]
pub struct Heap {
    cells: Vec<Option<HeapCell>>,
}

spec fn cells_of(s: Seq<Option<HeapCell>>) -> Cells {
    s.map_values(
        |c: Option<HeapCell>|
            match c {
                Some(c) => Some(c@),
                None => None,
            },
    )
}

spec fn all_counted(s: Seq<Option<HeapCell>>) -> bool {
    forall|i: int| 0 <= i < s.len() && #[trigger] s[i] is Some ==> (s[i]->0).refcount >= 1
}

impl Heap {
    pub closed spec fn view(self) -> Cells {
        cells_of(self.cells@)
    }

    /// Every live cell has at least one reference.
    #[verifier::type_invariant]
    spec fn counted(self) -> bool {
        all_counted(self.cells@)
    }

    pub fn new() -> (r: Self)
        ensures
            r@ == Seq::<Option<Cell>>::empty(),
    {
        let cells: Vec<Option<HeapCell>> = Vec::new();
        let r: Heap = Heap { cells };
        assert(r@ =~= Seq::<Option<Cell>>::empty());
        r
    }

    /// How many cells have been allocated, freed ones included. Reuse allocates none.
    pub fn alloc_count(&self) -> (r: usize)
        ensures
            r == self@.len(),
    {
        self.cells.len()
    }

    fn alloc_data(&mut self, data: CellData) -> (r: usize)
        ensures
            final(self)@ == with_new(old(self)@, data@),
            r == old(self)@.len(),
    {
        proof {
            use_type_invariant(&*self);
        }
        let mut cells: Vec<Option<HeapCell>> = Vec::new();
        std::mem::swap(&mut cells, &mut self.cells);
        let addr: usize = cells.len();
        let ghost before: Seq<Option<HeapCell>> = cells@;
        cells.push(Some(HeapCell { data, refcount: 1 }));
        proof {
            assert(cells_of(cells@) =~= with_new(cells_of(before), data@));
            assert(all_counted(cells@)) by {
                assert forall|i: int| 0 <= i < cells@.len() && #[trigger] cells@[i] is Some implies (
                cells@[i]->0).refcount >= 1 by {
                    if i < before.len() {
                        assert(cells@[i] == before[i]);
                    }
                }
            }
        }
        self.cells = cells;
        addr
    }

    /// Allocates a constructed value, counted once.
    pub fn alloc_ctor(&mut self, tag: String, fields: Vec<Value>) -> (r: usize)
        ensures
            final(self)@ == with_new(old(self)@, Contents::Ctor(tag@, vals(fields@))),
            r == old(self)@.len(),
    {
        self.alloc_data(CellData::Ctor { tag, fields })
    }

    /// Allocates a string, counted once.
    pub fn alloc_str(&mut self, s: String) -> (r: usize)
        ensures
            final(self)@ == with_new(old(self)@, Contents::Str(s@)),
            r == old(self)@.len(),
    {
        self.alloc_data(CellData::Str(s))
    }

    fn cell(&self, addr: usize) -> (r: Result<&HeapCell, HeapError>)
        ensures
            match r {
                Ok(c) => cell_at(self@, addr) == Ok::<Cell, HeapError>(c@) && addr
                    < self.cells@.len() && self.cells@[addr as int] == Some(*c) && c.refcount >= 1,
                Err(e) => cell_at(self@, addr) == Err::<Cell, HeapError>(e),
            },
    {
        proof {
            use_type_invariant(self);
        }
        if addr >= self.cells.len() {
            return Err(HeapError::InvalidAddress(addr));
        }
        assert(self@[addr as int] == cells_of(self.cells@)[addr as int]);
        match &self.cells[addr] {
            Some(c) => Ok(c),
            None => Err(HeapError::UseAfterFree(addr)),
        }
    }

    /// Reads the tag and fields of a constructed value.
    pub fn read(&self, addr: usize) -> (r: Result<(&str, &[Value]), HeapError>)
        ensures
            match r {
                Ok((tag, fields)) => ctor_at(self@, addr) == Ok::<_, HeapError>(
                    (tag@, vals(fields@)),
                ),
                Err(e) => ctor_at(self@, addr) == Err::<(Name, Seq<Val>), _>(e),
            },
    {
        match self.cell(addr) {
            Ok(c) => match &c.data {
                CellData::Ctor { tag, fields } => Ok((tag.as_str(), fields.as_slice())),
                CellData::Str(_) => Err(HeapError::NotACtor(addr)),
            },
            Err(e) => Err(e),
        }
    }

    /// Reads a string.
    pub fn read_str(&self, addr: usize) -> (r: Result<&str, HeapError>)
        ensures
            match r {
                Ok(s) => str_at(self@, addr) == Ok::<_, HeapError>(s@),
                Err(e) => str_at(self@, addr) == Err::<Name, _>(e),
            },
    {
        match self.cell(addr) {
            Ok(c) => match &c.data {
                CellData::Str(s) => Ok(s.as_str()),
                CellData::Ctor { .. } => Err(HeapError::NotAString(addr)),
            },
            Err(e) => Err(e),
        }
    }

    /// Reads a cell, whichever it holds.
    pub fn read_any(&self, addr: usize) -> (r: Result<CellView<'_>, HeapError>)
        ensures
            match r {
                Ok(v) => cell_at(self@, addr) is Ok && (cell_at(self@, addr)->Ok_0).contents
                    == v@,
                Err(e) => cell_at(self@, addr) == Err::<Cell, HeapError>(e),
            },
    {
        match self.cell(addr) {
            Ok(c) => match &c.data {
                CellData::Ctor { tag, fields } => Ok(
                    CellView::Ctor(tag.as_str(), fields.as_slice()),
                ),
                CellData::Str(s) => Ok(CellView::Str(s.as_str())),
            },
            Err(e) => Err(e),
        }
    }

    /// The number of references to a live cell.
    pub fn refcount(&self, addr: usize) -> (r: Result<usize, HeapError>)
        ensures
            match r {
                Ok(n) => cell_at(self@, addr) is Ok && (cell_at(self@, addr)->Ok_0).refcount == n
                    && n >= 1,
                Err(e) => cell_at(self@, addr) == Err::<Cell, HeapError>(e),
            },
    {
        match self.cell(addr) {
            Ok(c) => Ok(c.refcount),
            Err(e) => Err(e),
        }
    }

    /// Replaces what stands at an address that has been given out.
    fn put(&mut self, addr: usize, cell: Option<HeapCell>)
        requires
            addr < old(self)@.len(),
            cell matches Some(c) ==> c.refcount >= 1,
        ensures
            final(self)@ == old(self)@.update(
                addr as int,
                match cell {
                    Some(c) => Some(c@),
                    None => None,
                },
            ),
    {
        proof {
            use_type_invariant(&*self);
        }
        let mut cells: Vec<Option<HeapCell>> = Vec::new();
        std::mem::swap(&mut cells, &mut self.cells);
        let ghost before: Seq<Option<HeapCell>> = cells@;
        cells.set(addr, cell);
        proof {
            assert(cells_of(cells@) =~= cells_of(before).update(
                addr as int,
                match cell {
                    Some(c) => Some(c@),
                    None => None,
                },
            ));
            assert forall|i: int| 0 <= i < cells@.len() && #[trigger] cells@[i] is Some implies (
            cells@[i]->0).refcount >= 1 by {
                if i != addr {
                    assert(cells@[i] == before[i]);
                }
            }
        }
        self.cells = cells;
    }

    /// Takes out what stands at a live address, leaving it free.
    fn take(&mut self, addr: usize) -> (r: HeapCell)
        requires
            live(old(self)@, addr as int),
        ensures
            final(self)@ == old(self)@.update(addr as int, None),
            Some(r@) == old(self)@[addr as int],
            r.refcount >= 1,
    {
        proof {
            use_type_invariant(&*self);
        }
        let mut cells: Vec<Option<HeapCell>> = Vec::new();
        std::mem::swap(&mut cells, &mut self.cells);
        let ghost before: Seq<Option<HeapCell>> = cells@;
        assert(cells_of(before)[addr as int] is Some);
        assert(before[addr as int] is Some);
        cells.push(None);
        let taken: Option<HeapCell> = cells.swap_remove(addr);
        proof {
            assert(cells@ =~= before.update(addr as int, None));
            assert(cells_of(cells@) =~= cells_of(before).update(addr as int, None));
            assert forall|i: int| 0 <= i < cells@.len() && #[trigger] cells@[i] is Some implies (
            cells@[i]->0).refcount >= 1 by {
                assert(cells@[i] == before[i]);
            }
        }
        self.cells = cells;
        match taken {
            Some(c) => c,
            None => HeapCell { data: CellData::Str(String::new()), refcount: 1 },
        }
    }

    /// Counts one more reference.
    pub fn inc(&mut self, addr: usize) -> (r: Result<(), HeapError>)
        requires
            cell_at(old(self)@, addr) matches Ok(c) ==> c.refcount < usize::MAX,
        ensures
            match r {
                Ok(()) => live(old(self)@, addr as int) && final(self)@ == with_inc(
                    old(self)@,
                    addr,
                ),
                Err(e) => cell_at(old(self)@, addr) == Err::<Cell, HeapError>(e) && final(self)@
                    == old(self)@,
            },
    {
        match self.cell(addr) {
            Ok(_) => {},
            Err(e) => {
                return Err(e);
            },
        }
        let c: HeapCell = self.take(addr);
        self.put(addr, Some(HeapCell { data: c.data, refcount: c.refcount + 1 }));
        assert(self@ =~= with_inc(old(self)@, addr));
        Ok(())
    }

    /// Gives up one reference. The last one frees the cell.
    pub fn dec(&mut self, addr: usize) -> (r: Result<(), HeapError>)
        ensures
            match r {
                Ok(()) => live(old(self)@, addr as int) && final(self)@ == with_dec(
                    old(self)@,
                    addr,
                ),
                Err(e) => cell_at(old(self)@, addr) == Err::<Cell, HeapError>(e) && final(self)@
                    == old(self)@,
            },
    {
        match self.cell(addr) {
            Ok(_) => {},
            Err(e) => {
                return Err(e);
            },
        }
        let c: HeapCell = self.take(addr);
        if c.refcount > 1 {
            self.put(addr, Some(HeapCell { data: c.data, refcount: c.refcount - 1 }));
        }
        assert(self@ =~= with_dec(old(self)@, addr));
        Ok(())
    }

    fn reuse_data(&mut self, addr: usize, data: CellData) -> (r: Result<usize, HeapError>)
        ensures
            match r {
                Ok(a) => live(old(self)@, addr as int) && (final(self)@, a as int) == with_reuse(
                    old(self)@,
                    addr,
                    data@,
                ),
                Err(e) => cell_at(old(self)@, addr) == Err::<Cell, HeapError>(e) && final(self)@
                    == old(self)@,
            },
    {
        let count: usize = match self.refcount(addr) {
            Ok(n) => n,
            Err(e) => {
                return Err(e);
            },
        };
        if count == 1 {
            self.put(addr, Some(HeapCell { data, refcount: 1 }));
            Ok(addr)
        } else {
            let _done: Result<(), HeapError> = self.dec(addr);
            Ok(self.alloc_data(data))
        }
    }

    /// Gives up one reference and stores a constructed value: in the same cell if that was
    /// the last reference, in a fresh one otherwise.
    pub fn dec_and_maybe_reuse(&mut self, addr: usize, tag: String, fields: Vec<Value>) -> (r:
        Result<usize, HeapError>)
        ensures
            match r {
                Ok(a) => live(old(self)@, addr as int) && (final(self)@, a as int) == with_reuse(
                    old(self)@,
                    addr,
                    Contents::Ctor(tag@, vals(fields@)),
                ),
                Err(e) => cell_at(old(self)@, addr) == Err::<Cell, HeapError>(e) && final(self)@
                    == old(self)@,
            },
    {
        self.reuse_data(addr, CellData::Ctor { tag, fields })
    }

    /// Gives up one reference and stores a string: in the same cell if that was the last
    /// reference, in a fresh one otherwise.
    pub fn dec_and_maybe_reuse_str(&mut self, addr: usize, new_str: String) -> (r: Result<
        usize,
        HeapError,
    >)
        ensures
            match r {
                Ok(a) => live(old(self)@, addr as int) && (final(self)@, a as int) == with_reuse(
                    old(self)@,
                    addr,
                    Contents::Str(new_str@),
                ),
                Err(e) => cell_at(old(self)@, addr) == Err::<Cell, HeapError>(e) && final(self)@
                    == old(self)@,
            },
    {
        self.reuse_data(addr, CellData::Str(new_str))
    }
}

impl Default for Heap {
    fn default() -> (r: Self)
        ensures
            r@ == Seq::<Option<Cell>>::empty(),
    {
        Heap::new()
    }
}

/// What has been allocated is there, counted once, and nothing else changes.
pub proof fn alloc_then_read(h: Cells, contents: Contents, addr: usize)
    requires
        addr == h.len(),
    ensures
        cell_at(with_new(h, contents), addr) == Ok::<_, HeapError>(
            Cell { contents, refcount: 1 },
        ),
        forall|a: usize| a != addr ==> cell_at(with_new(h, contents), a) == #[trigger] cell_at(h, a)
            || a > addr,
{
}

/// Giving up a reference undoes counting one.
pub proof fn dec_undoes_inc(h: Cells, addr: usize)
    requires
        live(h, addr as int),
        h[addr as int]->0.refcount >= 1,
    ensures
        live(with_inc(h, addr), addr as int),
        with_dec(with_inc(h, addr), addr) == h,
{
    assert(with_dec(with_inc(h, addr), addr) =~= h);
}

/// After the last reference is given up, every use of the address is an error, however the
/// heap grows.
pub proof fn freed_stays_freed(h: Cells, addr: usize, contents: Contents)
    requires
        live(h, addr as int),
        h[addr as int]->0.refcount == 1,
    ensures
        cell_at(with_dec(h, addr), addr) == Err::<Cell, _>(HeapError::UseAfterFree(addr)),
        cell_at(with_new(with_dec(h, addr), contents), addr) == Err::<Cell, _>(
            HeapError::UseAfterFree(addr),
        ),
{
}

/// Reuse of a cell with one reference keeps the address and allocates nothing.
pub proof fn unique_is_reused(h: Cells, addr: usize, contents: Contents)
    requires
        live(h, addr as int),
        h[addr as int]->0.refcount == 1,
    ensures
        with_reuse(h, addr, contents).1 == addr,
        with_reuse(h, addr, contents).0.len() == h.len(),
        with_reuse(h, addr, contents).0[addr as int] == Some(Cell { contents, refcount: 1 }),
{
}

/// Reuse of a shared cell leaves its contents as they were and stores the new ones
/// elsewhere.
pub proof fn shared_is_preserved(h: Cells, addr: usize, contents: Contents)
    requires
        live(h, addr as int),
        h[addr as int]->0.refcount > 1,
    ensures
        with_reuse(h, addr, contents).1 == h.len(),
        with_reuse(h, addr, contents).0[addr as int] == Some(
            Cell { refcount: (h[addr as int]->0.refcount - 1) as nat, ..h[addr as int]->0 },
        ),
        with_reuse(h, addr, contents).0[h.len() as int] == Some(Cell { contents, refcount: 1 }),
{
}

/// No operation touches a cell other than the one it is given.
pub proof fn others_are_untouched(h: Cells, addr: usize, contents: Contents, other: int)
    requires
        live(h, addr as int),
        0 <= other < h.len(),
        other != addr,
    ensures
        with_new(h, contents)[other] == h[other],
        with_inc(h, addr)[other] == h[other],
        with_dec(h, addr)[other] == h[other],
        with_reuse(h, addr, contents).0[other] == h[other],
{
}

} // verus!
