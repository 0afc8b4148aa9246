//! A stage-1 identity-mapping page table: which pages are mapped and with
//! which access, drawn from a fixed budget of pages.
use std::collections::HashMap;
use vstd::prelude::*;

verus! {

broadcast use vstd::std_specs::hash::group_hash_axioms;

/// Size in bytes of one page.
pub const PAGE_SIZE: u64 = 4096;

/// Access granted to a mapped page.
#[derive(Clone, Copy, PartialEq, Eq, Structural, Debug)]
pub enum Mode {
    Read,
    ReadWrite,
}

/// First page of the byte range `[b, e)`.
pub open spec fn page_lo(b: int) -> int {
    b / PAGE_SIZE as int
}

/// One past the last page of the byte range `[b, e)`; equal to the first
/// page when the range is empty.
pub open spec fn page_hi(b: int, e: int) -> int {
    if b < e {
        (e - 1) / PAGE_SIZE as int + 1
    } else {
        page_lo(b)
    }
}

/// Page `p` holds a byte of `[b, e)`.
pub open spec fn in_range(p: u64, b: int, e: int) -> bool {
    page_lo(b) <= p < page_hi(b, e)
}

/// Pages of `[b, e)` that `m` does not map yet, counted from `lo` below `hi`.
pub open spec fn fresh_count(m: Map<u64, Mode>, lo: int, hi: int) -> nat
    decreases hi - lo,
{
    if hi <= lo {
        0
    } else {
        fresh_count(m, lo, hi - 1) + if m.contains_key((hi - 1) as u64) {
            0nat
        } else {
            1nat
        }
    }
}

/// `m` with every page of `[b, e)` mapped with `mode`.
pub open spec fn mapped(m: Map<u64, Mode>, b: int, e: int, mode: Mode) -> Map<u64, Mode> {
    Map::new(
        |p: u64| m.contains_key(p) || in_range(p, b, e),
        |p: u64|
            if in_range(p, b, e) {
                mode
            } else {
                m[p]
            },
    )
}

/// `m` without the pages of `[b, e)`.
pub open spec fn unmapped(m: Map<u64, Mode>, b: int, e: int) -> Map<u64, Mode> {
    Map::new(|p: u64| m.contains_key(p) && !in_range(p, b, e), |p: u64| m[p])
}

/// No page of `[b, e)` is mapped in `m`.
pub open spec fn unmapped_range(m: Map<u64, Mode>, b: int, e: int) -> bool {
    forall|p: u64| #[trigger] m.contains_key(p) ==> !in_range(p, b, e)
}

/// Mapping `[b, e)` on top of `m` needs at most `limit` pages in all.
pub open spec fn fits_in(m: Map<u64, Mode>, limit: nat, b: int, e: int) -> bool {
    m.len() + fresh_count(m, page_lo(b), page_hi(b, e)) <= limit
}

/// Unmapping a range just mapped is unmapping it from what was there before.
pub proof fn lemma_unmap_mapped(m: Map<u64, Mode>, b: int, e: int, mode: Mode)
    ensures
        unmapped(mapped(m, b, e, mode), b, e) == unmapped(m, b, e),
{
    assert(unmapped(mapped(m, b, e, mode), b, e) =~= unmapped(m, b, e));
}

/// Unmapping a range that covers one just mapped from the same start is
/// unmapping it from what was there before.
pub proof fn lemma_unmap_covers(m: Map<u64, Mode>, b: int, e1: int, e2: int, mode: Mode)
    requires
        0 <= b,
        e1 <= e2,
    ensures
        unmapped(mapped(m, b, e1, mode), b, e2) == unmapped(m, b, e2),
{
    assert forall|p: u64| #[trigger] unmapped(mapped(m, b, e1, mode), b, e2).contains_key(p)
        == unmapped(m, b, e2).contains_key(p) by {
        if in_range(p, b, e1) {
            lemma_range_grows(p, b, e1, e2);
        }
    }
    assert(unmapped(mapped(m, b, e1, mode), b, e2) =~= unmapped(m, b, e2));
}

/// Unmapping a range of which nothing is mapped changes nothing.
pub proof fn lemma_unmap_untouched(m: Map<u64, Mode>, b: int, e: int)
    requires
        unmapped_range(m, b, e),
    ensures
        unmapped(m, b, e) == m,
{
    assert(unmapped(m, b, e) =~= m);
}

/// A range that ends later covers at least the same pages.
pub proof fn lemma_range_grows(p: u64, b: int, e1: int, e2: int)
    requires
        0 <= b,
        e1 <= e2,
        in_range(p, b, e1),
    ensures
        in_range(p, b, e2),
{
    if b < e1 {
        vstd::arithmetic::div_mod::lemma_div_is_ordered(e1 - 1, e2 - 1, PAGE_SIZE as int);
    }
}

pub struct PageTable {
    pages: HashMap<u64, Mode>,
    capacity: u64,
}

impl View for PageTable {
    type V = Map<u64, Mode>;

    closed spec fn view(&self) -> Map<u64, Mode> {
        self.pages@
    }
}

impl PageTable {
    /// Pages this table may hold at most.
    pub closed spec fn limit(&self) -> nat {
        self.capacity as nat
    }

    /// Mapping `[b, e)` stays within the budget.
    pub open spec fn fits(&self, b: int, e: int) -> bool {
        fits_in(self@, self.limit(), b, e)
    }

    /// An empty table that may hold up to `capacity` pages.
    pub fn new(capacity: u64) -> (r: Self)
        ensures
            r@ == Map::<u64, Mode>::empty(),
            r.limit() == capacity,
    {
        PageTable { pages: HashMap::new(), capacity }
    }

    /// Whether page `p` is mapped, and how.
    pub fn lookup(&self, p: u64) -> (r: Option<Mode>)
        ensures
            r == (if self@.contains_key(p) {
                Some(self@[p])
            } else {
                None
            }),
    {
        match self.pages.get(&p) {
            Some(m) => Some(*m),
            None => None,
        }
    }

    /// Identity-maps every page of `[begin, end)` with `mode`, or fails,
    /// changing nothing, when that would exceed the budget.
    pub fn identity_map(&mut self, begin: u64, end: u64, mode: Mode) -> (r: Result<(), ()>)
        ensures
            r is Ok <==> old(self).fits(begin as int, end as int),
            r is Ok ==> final(self)@ == mapped(old(self)@, begin as int, end as int, mode),
            r is Err ==> final(self)@ == old(self)@,
            final(self).limit() == old(self).limit(),
    {
        let lo = begin / PAGE_SIZE;
        let hi = if begin < end {
            (end - 1) / PAGE_SIZE + 1
        } else {
            lo
        };
        let mut fresh: u64 = 0;
        let mut p: u64 = lo;
        while p < hi
            invariant
                lo <= p <= hi,
                fresh == fresh_count(self@, lo as int, p as int),
                fresh <= p - lo,
            decreases hi - p,
        {
            if !self.pages.contains_key(&p) {
                fresh = fresh + 1;
            }
            p = p + 1;
        }
        let held = self.pages.len() as u64;
        if fresh > self.capacity || held > self.capacity - fresh {
            return Err(());
        }
        let ghost m0 = self@;
        let mut q: u64 = lo;
        while q < hi
            invariant
                lo <= q <= hi,
                self.capacity == old(self).capacity,
                self@ == Map::new(
                    |x: u64| m0.contains_key(x) || (lo <= x < q),
                    |x: u64|
                        if lo <= x < q {
                            mode
                        } else {
                            m0[x]
                        },
                ),
            decreases hi - q,
        {
            self.pages.insert(q, mode);
            q = q + 1;
            proof {
                assert(self@ =~= Map::new(
                    |x: u64| m0.contains_key(x) || (lo <= x < q),
                    |x: u64|
                        if lo <= x < q {
                            mode
                        } else {
                            m0[x]
                        },
                ));
            }
        }
        proof {
            assert(self@ =~= mapped(m0, begin as int, end as int, mode));
        }
        Ok(())
    }

    /// Removes every page of `[begin, end)` from the table.
    pub fn unmap(&mut self, begin: u64, end: u64) -> (r: Result<(), ()>)
        ensures
            r is Ok,
            final(self)@ == unmapped(old(self)@, begin as int, end as int),
            final(self).limit() == old(self).limit(),
    {
        let lo = begin / PAGE_SIZE;
        let hi = if begin < end {
            (end - 1) / PAGE_SIZE + 1
        } else {
            lo
        };
        let ghost m0 = self@;
        let mut q: u64 = lo;
        while q < hi
            invariant
                lo <= q <= hi,
                self.capacity == old(self).capacity,
                self@ == Map::new(|x: u64| m0.contains_key(x) && !(lo <= x < q), |x: u64| m0[x]),
            decreases hi - q,
        {
            self.pages.remove(&q);
            q = q + 1;
            proof {
                assert(self@ =~= Map::new(
                    |x: u64| m0.contains_key(x) && !(lo <= x < q),
                    |x: u64| m0[x],
                ));
            }
        }
        proof {
            assert(self@ =~= unmapped(m0, begin as int, end as int));
        }
        Ok(())
    }
}

} // verus!
