use vstd::prelude::*;

verus! {

use crate::Num;
use crate::op::ParamMode;
use crate::status::ErrorStatus;
use vstd::arithmetic::div_mod::lemma_fundamental_div_mod;
use vstd::arithmetic::div_mod::lemma_div_is_ordered;
use vstd::arithmetic::div_mod::lemma_mod_bound;
use vstd::arithmetic::mul::lemma_mul_inequality;
use vstd::pervasive::VecAdditionalExecFns;

/// The mathematical shape of a memory: an unbounded, total store of cells
/// (every address holds a value, zero until written), the page size, the
/// highest page ever touched, and the relative base register. Materialization
/// of pages is an implementation matter and is deliberately not part of the
/// model: an unmaterialized cell and a cell written with zero are
/// indistinguishable to every reader.
#[verifier::ext_equal]
pub ghost struct MemModel {
    pub page_size: nat,
    pub last_page: nat,
    pub relative_base: nat,
    pub cells: Map<nat, Num>,
}

/// The highest page index that can still be paged in: pages are capped so
/// that the virtual size, plus the widest instruction, fits in a usize.
pub open spec fn page_cap(page_size: nat) -> nat {
    ((usize::MAX - 4) as nat) / page_size
}

impl MemModel {
    pub open spec fn wf(self) -> bool {
        &&& self.page_size >= 1
        &&& (self.last_page + 1) * self.page_size <= usize::MAX - 4
        &&& forall|a: nat| #[trigger] self.cells.dom().contains(a)
    }

    /// The address range implied by the highest touched page.
    pub open spec fn virtual_size(self) -> nat {
        (self.last_page + 1) * self.page_size
    }

    /// The value stored at address `a`.
    pub open spec fn cell(self, a: nat) -> Num {
        self.cells[a]
    }

    /// The effect of a raw write: the cell is updated and the highest touched
    /// page grows monotonically; an address whose page lies beyond the page
    /// cap is refused.
    pub open spec fn store_raw(self, a: nat, v: Num) -> Result<MemModel, ErrorStatus> {
        let page = a / self.page_size;
        if page >= page_cap(self.page_size) {
            Err(ErrorStatus::OutOfBounds)
        } else {
            Ok(
                MemModel {
                    cells: self.cells.insert(a, v),
                    last_page: if page > self.last_page {
                        page
                    } else {
                        self.last_page
                    },
                    ..self
                },
            )
        }
    }

    /// Resolves a signed offset against the relative base; fails when the
    /// result would leave the address space on either side.
    pub open spec fn rel_addr(self, offset: Num) -> Result<nat, ErrorStatus> {
        let t = self.relative_base + offset;
        if t < 0 || t > usize::MAX {
            Err(ErrorStatus::IllegalMemoryAccess)
        } else {
            Ok(t as nat)
        }
    }

    /// The address a read at `a` under `mode` finally fetches from.
    pub open spec fn read_target(self, a: nat, mode: ParamMode) -> Result<nat, ErrorStatus> {
        match mode {
            ParamMode::Immediate => Ok(a),
            ParamMode::Position => if self.cell(a) < 0 {
                Err(ErrorStatus::IllegalMemoryAccess)
            } else {
                Ok(self.cell(a) as nat)
            },
            ParamMode::Relative => self.rel_addr(self.cell(a)),
        }
    }

    /// The address a write at `a` under `mode` finally stores to. There is no
    /// immediate-mode write: Immediate is treated exactly like Position.
    pub open spec fn write_target(self, a: nat, mode: ParamMode) -> Result<nat, ErrorStatus> {
        match mode {
            ParamMode::Immediate | ParamMode::Position => if self.cell(a) < 0 {
                Err(ErrorStatus::IllegalMemoryAccess)
            } else {
                Ok(self.cell(a) as nat)
            },
            ParamMode::Relative => self.rel_addr(self.cell(a)),
        }
    }

    /// The value a mode-qualified read returns.
    pub open spec fn load(self, a: nat, mode: ParamMode) -> Result<Num, ErrorStatus> {
        match self.read_target(a, mode) {
            Ok(t) => Ok(self.cell(t)),
            Err(e) => Err(e),
        }
    }

    /// The effect of a mode-qualified write.
    pub open spec fn store(self, a: nat, v: Num, mode: ParamMode) -> Result<MemModel, ErrorStatus> {
        match self.write_target(a, mode) {
            Ok(t) => self.store_raw(t, v),
            Err(e) => Err(e),
        }
    }

    /// The effect of moving the relative base by a signed offset.
    pub open spec fn adjust(self, offset: Num) -> Result<MemModel, ErrorStatus> {
        let t = self.relative_base + offset;
        if t < 0 || t > usize::MAX {
            Err(ErrorStatus::IllegalMemoryAccess)
        } else {
            Ok(MemModel { relative_base: t as nat, ..self })
        }
    }

    /// The memory a program occupies before the first instruction runs: the
    /// program itself from address zero, zero everywhere beyond it, and
    /// enough pages touched to cover the program.
    pub open spec fn init(data: Seq<Num>, page_size: nat) -> MemModel {
        MemModel {
            page_size,
            relative_base: 0,
            last_page: if data.len() == 0 {
                0
            } else {
                ((data.len() - 1) as nat) / page_size
            },
            cells: Map::new(
                |a: nat| true,
                |a: nat|
                    if a < data.len() {
                        data[a as int]
                    } else {
                        0
                    },
            ),
        }
    }

    /// The whole virtual address range as one contiguous sequence.
    pub open spec fn flat(self) -> Seq<Num> {
        Seq::new(self.virtual_size(), |i: int| self.cell(i as nat))
    }
}

/// A sparse, paged store of machine words. Reading an address whose page was
/// never materialized yields zero without allocating; writing materializes
/// exactly the target page, zero-filled except for the written cell.
#[derive(Debug, Clone, PartialEq)]
pub struct Memory {
    pub page_size: usize,
    pub relative_base: usize,
    pub pages: Vec<Option<Vec<Num>>>,
    pub last_page: usize,
}

impl Memory {
    /// Structural well-formedness: a positive page size, a virtual size that
    /// leaves room for one instruction below `usize::MAX`, no materialized
    /// page beyond the highest touched one, and full-sized pages.
    pub open spec fn wf(self) -> bool {
        &&& self.page_size >= 1
        &&& (self.last_page + 1) * self.page_size <= usize::MAX - 4
        &&& self.pages@.len() <= self.last_page + 1
        &&& forall|i: int|
            0 <= i < self.pages@.len() ==> match #[trigger] self.pages@[i] {
                Some(p) => p@.len() == self.page_size,
                None => true,
            }
    }

    /// The value at address `a`, zero for any cell never materialized.
    pub open spec fn spec_cell(self, a: nat) -> Num {
        let p = a / (self.page_size as nat);
        let o = a % (self.page_size as nat);
        if p < self.pages@.len() && self.pages@[p as int] is Some {
            self.pages@[p as int]->Some_0@[o as int]
        } else {
            0
        }
    }

    /// The mathematical memory this value represents.
    pub open spec fn model(self) -> MemModel {
        MemModel {
            page_size: self.page_size as nat,
            last_page: self.last_page as nat,
            relative_base: self.relative_base as nat,
            cells: Map::new(|a: nat| true, |a: nat| self.spec_cell(a)),
        }
    }

    /// Builds a memory from an initial program: the program is chunked into
    /// pages, the last partial chunk zero-padded.
    #[verifier::loop_isolation(false)]
    pub fn from_vec(page_size: usize, data: Vec<Num>) -> (m: Memory)
        requires
            1 <= page_size,
            data@.len() + page_size <= usize::MAX - 4,
        ensures
            m.wf(),
            m.model() == MemModel::init(data@, page_size as nat),
    {
        let len = data.len();
        let n_pages = if len == 0 {
            0
        } else {
            (len - 1) / page_size + 1
        };
        proof {
            if len > 0 {
                lemma_fundamental_div_mod((len - 1) as int, page_size as int);
                lemma_mod_bound((len - 1) as int, page_size as int);
            }
        }
        let mut pages: Vec<Option<Vec<Num>>> = Vec::new();
        let mut p: usize = 0;
        while p < n_pages
            invariant
                pages@.len() == p,
                p <= n_pages,
                forall|q: int|
                    0 <= q < p ==> (#[trigger] pages@[q]) is Some && pages@[q]->Some_0@.len()
                        == page_size,
                forall|q: int, j: int|
                    0 <= q < p && 0 <= j < page_size ==> #[trigger] pages@[q]->Some_0@[j] == (
                    if q * page_size + j < len {
                        data@[q * page_size + j]
                    } else {
                        0
                    }),
            decreases n_pages - p,
        {
            proof {
                lemma_mul_inequality(p as int, (n_pages - 1) as int, page_size as int);
                lemma_fundamental_div_mod((len - 1) as int, page_size as int);
                lemma_mod_bound((len - 1) as int, page_size as int);
                assert((n_pages - 1) * page_size <= len - 1) by (nonlinear_arith)
                    requires
                        n_pages - 1 == (len - 1) as int / page_size as int,
                        page_size >= 1,
                        len >= 1,
                        (len - 1) as int == page_size * ((len - 1) as int / page_size as int) + (
                        len - 1) as int % page_size as int,
                        (len - 1) as int % page_size as int >= 0,
                ;
                assert(p * page_size <= len - 1);
            }
            let base = p * page_size;
            let mut page: Vec<Num> = Vec::new();
            let mut j: usize = 0;
            while j < page_size
                invariant
                    page@.len() == j,
                    j <= page_size,
                    base == p * page_size,
                    base + page_size <= usize::MAX,
                    forall|k: int|
                        0 <= k < j ==> #[trigger] page@[k] == (if base + k < len {
                            data@[base + k]
                        } else {
                            0
                        }),
                decreases page_size - j,
            {
                let idx = base + j;
                if idx < len {
                    page.push(data[idx]);
                } else {
                    page.push(0);
                }
                j = j + 1;
            }
            pages.push(Some(page));
            p = p + 1;
        }
        let last_page = if n_pages == 0 {
            0
        } else {
            n_pages - 1
        };
        let m = Memory { page_size, relative_base: 0, pages, last_page };
        proof {
            if len == 0 {
                assert((last_page + 1) * page_size == page_size) by (nonlinear_arith)
                    requires
                        last_page == 0,
                ;
            } else {
                let q = (len - 1) as int / page_size as int;
                lemma_fundamental_div_mod((len - 1) as int, page_size as int);
                lemma_mod_bound((len - 1) as int, page_size as int);
                assert((q + 1) * page_size <= (len - 1) + page_size) by (nonlinear_arith)
                    requires
                        page_size >= 1,
                        len >= 1,
                        q == (len - 1) as int / page_size as int,
                        (len - 1) as int == page_size * q + (len - 1) as int % page_size as int,
                        (len - 1) as int % page_size as int >= 0,
                ;
            }
            assert(m.wf());
            let init = MemModel::init(data@, page_size as nat);
            assert forall|a: nat|
                m.spec_cell(a) == (if a < data@.len() {
                    data@[a as int]
                } else {
                    0
                }) by {
                let ps = page_size as nat;
                let q = a / ps;
                let o = a % ps;
                lemma_fundamental_div_mod(a as int, ps as int);
                lemma_mod_bound(a as int, ps as int);
                if a < len {
                    lemma_div_is_ordered(a as int, (len - 1) as int, ps as int);
                    assert(q < n_pages);
                    assert(m.spec_cell(a) == data@[(q * ps + o) as int]);
                } else {
                    if q < n_pages {
                        assert(m.spec_cell(a) == 0);
                    } else {
                        assert(m.spec_cell(a) == 0);
                    }
                }
            }
            assert(m.model().cells =~= init.cells);
            assert(m.model() =~= init);
        }
        m
    }

    /// Raw read: no mode interpretation, never fails, never materializes.
    pub fn read_raw(&self, address: usize) -> (r: Result<Num, ErrorStatus>)
        requires
            self.wf(),
        ensures
            r == Ok::<Num, ErrorStatus>(self.model().cell(address as nat)),
    {
        let page_index = address / self.page_size;
        let page_offset = address % self.page_size;
        proof {
            lemma_mod_bound(address as int, self.page_size as int);
        }
        if page_index < self.pages.len() {
            match &self.pages[page_index] {
                Some(page) => Ok(page[page_offset]),
                None => Ok(0),
            }
        } else {
            Ok(0)
        }
    }

    /// Raw write: materializes the target page if needed and stores the value.
    #[verifier::loop_isolation(false)]
    pub fn write_raw(&mut self, address: usize, value: Num) -> (r: Result<(), ErrorStatus>)
        requires
            old(self).wf(),
        ensures
            final(self).wf(),
            match old(self).model().store_raw(address as nat, value) {
                Ok(mm) => r is Ok && final(self).model() == mm,
                Err(e) => r == Err::<(), ErrorStatus>(e) && *final(self) == *old(self),
            },
    {
        let page_index = address / self.page_size;
        let page_offset = address % self.page_size;
        proof {
            lemma_mod_bound(address as int, self.page_size as int);
        }
        if page_index >= (usize::MAX - 4) / self.page_size {
            return Err(ErrorStatus::OutOfBounds);
        }
        proof {
            lemma_mul_inequality(
                (page_index + 1) as int,
                page_cap(self.page_size as nat) as int,
                self.page_size as int,
            );
            lemma_fundamental_div_mod((usize::MAX - 4) as int, self.page_size as int);
            lemma_mod_bound((usize::MAX - 4) as int, self.page_size as int);
            assert((page_index + 1) * self.page_size <= usize::MAX - 4);
        }
        if page_index > self.last_page {
            self.last_page = page_index;
        }
        while self.pages.len() <= page_index
            invariant
                self.page_size == old(self).page_size,
                self.relative_base == old(self).relative_base,
                self.last_page == (if page_index > old(self).last_page {
                    page_index
                } else {
                    old(self).last_page
                }),
                self.pages@.len() <= (if old(self).pages@.len() >= page_index + 1 {
                    old(self).pages@.len() as int
                } else {
                    page_index + 1
                }),
                old(self).pages@.len() <= self.pages@.len(),
                forall|i: int|
                    0 <= i < old(self).pages@.len() ==> #[trigger] self.pages@[i] == old(
                        self,
                    ).pages@[i],
                forall|i: int|
                    old(self).pages@.len() <= i < self.pages@.len() ==> (
                    #[trigger] self.pages@[i]) is None,
            decreases page_index + 1 - self.pages@.len(),
        {
            self.pages.push(None);
        }
        let mut entry: Option<Vec<Num>> = None;
        self.pages.set_and_swap(page_index, &mut entry);
        let mut page: Vec<Num>;
        match entry {
            Some(existing) => {
                page = existing;
            },
            None => {
                page = Vec::new();
                while page.len() < self.page_size
                    invariant
                        page@.len() <= self.page_size,
                        forall|k: int| 0 <= k < page@.len() ==> #[trigger] page@[k] == 0,
                    decreases self.page_size - page@.len(),
                {
                    page.push(0);
                }
            },
        }
        page.set(page_offset, value);
        self.pages.set(page_index, Some(page));
        proof {
            let a = address as nat;
            let ps = old(self).page_size as nat;
            let m0 = old(self).model();
            let mm = m0.store_raw(a, value)->Ok_0;
            assert forall|a2: nat|
                self.spec_cell(a2) == (if a2 == a {
                    value
                } else {
                    old(self).spec_cell(a2)
                }) by {
                let q = a2 / ps;
                let o = a2 % ps;
                lemma_fundamental_div_mod(a2 as int, ps as int);
                lemma_mod_bound(a2 as int, ps as int);
                lemma_fundamental_div_mod(address as int, ps as int);
            }
            assert(self.model().cells =~= mm.cells);
            assert(self.model() =~= mm);
        }
        Ok(())
    }

    /// Resolves a signed relative offset to an absolute address.
    fn relative_address(&self, offset: Num) -> (r: Result<usize, ErrorStatus>)
        requires
            self.wf(),
        ensures
            match self.model().rel_addr(offset) {
                Ok(t) => r is Ok && r->Ok_0 as nat == t,
                Err(e) => r == Err::<usize, ErrorStatus>(e),
            },
    {
        if offset < 0 {
            let mag_wide: i128 = -(offset as i128);
            let mag: usize = mag_wide as usize;
            if self.relative_base >= mag {
                Ok(self.relative_base - mag)
            } else {
                Err(ErrorStatus::IllegalMemoryAccess)
            }
        } else {
            let off = offset as usize;
            if self.relative_base <= usize::MAX - off {
                Ok(self.relative_base + off)
            } else {
                Err(ErrorStatus::IllegalMemoryAccess)
            }
        }
    }

    /// Moves the relative base by a signed offset; under- and overflow of the
    /// address space are detected and reported, not wrapped.
    pub fn adjust_relative_base(&mut self, offset: Num) -> (r: Result<(), ErrorStatus>)
        requires
            old(self).wf(),
        ensures
            final(self).wf(),
            match old(self).model().adjust(offset) {
                Ok(mm) => r is Ok && final(self).model() == mm,
                Err(e) => r == Err::<(), ErrorStatus>(e) && *final(self) == *old(self),
            },
    {
        let target = match self.relative_address(offset) {
            Ok(t) => t,
            Err(e) => return Err(e),
        };
        self.relative_base = target;
        proof {
            let mm = old(self).model().adjust(offset)->Ok_0;
            assert(self.model().cells =~= mm.cells);
            assert(self.model() =~= mm);
        }
        Ok(())
    }

    /// Mode-qualified read, as the semantics table prescribes.
    pub fn read(&self, address: usize, mode: ParamMode) -> (r: Result<Num, ErrorStatus>)
        requires
            self.wf(),
        ensures
            r == self.model().load(address as nat, mode),
    {
        match mode {
            ParamMode::Immediate => self.read_raw(address),
            ParamMode::Position => {
                let t = match self.read_raw(address) {
                    Ok(v) => v,
                    Err(e) => return Err(e),
                };
                if t < 0 {
                    return Err(ErrorStatus::IllegalMemoryAccess);
                }
                self.read_raw(t as usize)
            },
            ParamMode::Relative => {
                let off = match self.read_raw(address) {
                    Ok(v) => v,
                    Err(e) => return Err(e),
                };
                match self.relative_address(off) {
                    Ok(t) => self.read_raw(t),
                    Err(e) => Err(e),
                }
            },
        }
    }

    /// Mode-qualified write. Position and Immediate are treated identically:
    /// both dereference the cell at `address` as the target.
    pub fn write(&mut self, address: usize, value: Num, mode: ParamMode) -> (r: Result<
        (),
        ErrorStatus,
    >)
        requires
            old(self).wf(),
        ensures
            final(self).wf(),
            match old(self).model().store(address as nat, value, mode) {
                Ok(mm) => r is Ok && final(self).model() == mm,
                Err(e) => r == Err::<(), ErrorStatus>(e) && *final(self) == *old(self),
            },
    {
        match mode {
            ParamMode::Immediate | ParamMode::Position => {
                let t = match self.read_raw(address) {
                    Ok(v) => v,
                    Err(e) => return Err(e),
                };
                if t < 0 {
                    return Err(ErrorStatus::IllegalMemoryAccess);
                }
                self.write_raw(t as usize, value)
            },
            ParamMode::Relative => {
                let off = match self.read_raw(address) {
                    Ok(v) => v,
                    Err(e) => return Err(e),
                };
                match self.relative_address(off) {
                    Ok(t) => self.write_raw(t, value),
                    Err(e) => Err(e),
                }
            },
        }
    }

    /// How many cells are actually materialized (as opposed to implied).
    #[verifier::loop_isolation(false)]
    pub fn size(&self) -> (r: usize)
        requires
            self.wf(),
        ensures
            r as nat == count_some(self.pages@) * self.page_size,
    {
        let mut count: usize = 0;
        let mut i: usize = 0;
        while i < self.pages.len()
            invariant
                i <= self.pages@.len(),
                count as nat == count_some(self.pages@.take(i as int)),
                count <= i,
            decreases self.pages@.len() - i,
        {
            proof {
                lemma_count_some_le(self.pages@.take(i as int));
                assert(self.pages@.take(i + 1).drop_last() =~= self.pages@.take(i as int));
                assert(self.pages@.take(i + 1).last() == self.pages@[i as int]);
            }
            if self.pages[i].is_some() {
                count = count + 1;
            }
            i = i + 1;
        }
        proof {
            assert(self.pages@.take(self.pages@.len() as int) =~= self.pages@);
            lemma_count_some_le(self.pages@);
            lemma_mul_inequality(
                count_some(self.pages@) as int,
                (self.last_page + 1) as int,
                self.page_size as int,
            );
        }
        count * self.page_size
    }

    /// The address range implied by the highest touched page.
    pub fn virtual_size(&self) -> (r: usize)
        requires
            self.wf(),
        ensures
            r as nat == self.model().virtual_size(),
            r <= usize::MAX - 4,
    {
        proof {
            assert((self.last_page + 1) <= (self.last_page + 1) * self.page_size)
                by (nonlinear_arith)
                requires
                    self.page_size >= 1,
            ;
        }
        (self.last_page + 1) * self.page_size
    }

    /// The whole virtual address range, read out as one contiguous vector,
    /// with zero standing in for every unmaterialized cell.
    #[verifier::loop_isolation(false)]
    pub fn flatten(&self) -> (r: Vec<Num>)
        requires
            self.wf(),
        ensures
            r@ == self.model().flat(),
    {
        let vsize = self.virtual_size();
        let mut out: Vec<Num> = Vec::new();
        let mut a: usize = 0;
        while a < vsize
            invariant
                out@.len() == a,
                a <= vsize,
                vsize as nat == self.model().virtual_size(),
                forall|i: int| 0 <= i < a ==> #[trigger] out@[i] == self.model().cell(i as nat),
            decreases vsize - a,
        {
            let v = match self.read_raw(a) {
                Ok(v) => v,
                Err(_) => 0,
            };
            out.push(v);
            a = a + 1;
        }
        proof {
            assert(out@ =~= self.model().flat());
        }
        out
    }
}

/// Law: flattening a memory freshly built from a program yields the program
/// itself, zero-padded to the next multiple of the page size. (An empty
/// program is the one exception: it still occupies one page, so it flattens
/// to a single zero-filled page.)
pub proof fn lemma_flatten_is_padded_program(data: Seq<Num>, page_size: nat)
    requires
        1 <= page_size,
        1 <= data.len(),
    ensures
        ({
            let m = MemModel::init(data, page_size);
            &&& data.len() <= m.virtual_size() < data.len() + page_size
            &&& m.virtual_size() % page_size == 0
            &&& m.flat() == data + Seq::new((m.virtual_size() - data.len()) as nat, |i: int| 0)
        }),
{
    let m = MemModel::init(data, page_size);
    let q = ((data.len() - 1) as nat) / page_size;
    lemma_fundamental_div_mod((data.len() - 1) as int, page_size as int);
    lemma_mod_bound((data.len() - 1) as int, page_size as int);
    assert(data.len() <= (q + 1) * page_size < data.len() + page_size) by (nonlinear_arith)
        requires
            page_size >= 1,
            data.len() >= 1,
            q == ((data.len() - 1) as nat) / page_size,
            (data.len() - 1) as int == page_size * q + ((data.len() - 1) as int) % (
            page_size as int),
            0 <= ((data.len() - 1) as int) % (page_size as int) && ((data.len() - 1) as int) % (
            page_size as int) < page_size,
    ;
    assert(((q + 1) * page_size) % page_size == 0) by (nonlinear_arith)
        requires
            page_size >= 1,
    ;
    assert(m.flat() =~= data + Seq::new((m.virtual_size() - data.len()) as nat, |i: int| 0));
}

/// Law: an address at or beyond the program was never written, so a read
/// whose resolved target lands there returns zero under every mode. (And no
/// read can materialize a page: `read_raw` and `read` borrow the memory
/// immutably, so `size()` cannot change across them.)
pub proof fn lemma_unwritten_reads_zero(
    data: Seq<Num>,
    page_size: nat,
    a: nat,
    mode: ParamMode,
    t: nat,
)
    requires
        1 <= page_size,
        MemModel::init(data, page_size).read_target(a, mode) == Ok::<nat, ErrorStatus>(t),
        data.len() <= t,
    ensures
        MemModel::init(data, page_size).load(a, mode) == Ok::<Num, ErrorStatus>(0),
{
}

/// Law: a raw write followed by a raw read of the same address returns the
/// written value, at every address the memory can page in.
pub proof fn lemma_raw_write_read_round_trip(m: MemModel, a: nat, v: Num, m2: MemModel)
    requires
        m.store_raw(a, v) == Ok::<MemModel, ErrorStatus>(m2),
    ensures
        m2.cell(a) == v,
{
}

/// Law: what each addressing mode reads. Immediate returns the cell itself;
/// Position dereferences the cell as a further address; Relative offsets the
/// relative base by the cell, signed. A target outside the address space is
/// an illegal access, not a wrapped read.
pub proof fn lemma_mode_read_semantics(m: MemModel, a: nat)
    ensures
        m.load(a, ParamMode::Immediate) == Ok::<Num, ErrorStatus>(m.cell(a)),
        m.cell(a) >= 0 ==> m.load(a, ParamMode::Position) == Ok::<Num, ErrorStatus>(
            m.cell(m.cell(a) as nat),
        ),
        m.cell(a) < 0 ==> m.load(a, ParamMode::Position) == Err::<Num, ErrorStatus>(
            ErrorStatus::IllegalMemoryAccess,
        ),
        0 <= m.relative_base + m.cell(a) <= usize::MAX ==> m.load(a, ParamMode::Relative)
            == Ok::<Num, ErrorStatus>(m.cell((m.relative_base + m.cell(a)) as nat)),
        !(0 <= m.relative_base + m.cell(a) <= usize::MAX) ==> m.load(a, ParamMode::Relative)
            == Err::<Num, ErrorStatus>(ErrorStatus::IllegalMemoryAccess),
{
}

/// How many entries of a page table are materialized.
pub open spec fn count_some(s: Seq<Option<Vec<Num>>>) -> nat
    decreases s.len(),
{
    if s.len() == 0 {
        0nat
    } else {
        count_some(s.drop_last()) + (if s.last() is Some {
            1nat
        } else {
            0nat
        })
    }
}

proof fn lemma_count_some_le(s: Seq<Option<Vec<Num>>>)
    ensures
        count_some(s) <= s.len(),
    decreases s.len(),
{
    if s.len() > 0 {
        lemma_count_some_le(s.drop_last());
    }
}

} // verus!
