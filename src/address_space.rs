use vstd::prelude::*;

verus! {

/// A virtual address: an unsigned offset within an address space.
pub type VirtualAddress = u64;

/// Upper bound of the addressable range: every region ends at or below it
/// (the top of a 39-bit range, `2^39 - 1`).
pub const LIMIT: u64 = 0x7f_ffff_ffff;

/// Identity of a shared, reference-counted backing provider.
///
/// The address space only compares and hands back these handles; reading from
/// the provider and releasing it are the owner's business.
#[derive(Clone, Copy, Debug, PartialEq, Eq, Hash, Structural)]
pub struct SourceId(pub u64);

/// One occupied region `[addr, addr + span)`, backed by
/// `source[offset, offset + span)`.
#[derive(Clone, Copy, Debug, PartialEq, Eq, Structural)]
pub struct MapEntry {
    pub source: SourceId,
    pub offset: u64,
    pub span: u64,
    pub addr: VirtualAddress,
}

/// Why a request on an address space was refused.
#[derive(Clone, Copy, Debug, PartialEq, Eq, Structural)]
pub enum MapError {
    /// No gap is large enough for an anywhere-placement request.
    NoSpace,
    /// A fixed placement would end beyond `LIMIT`.
    OutOfRange,
    /// A fixed placement collides with an existing region.
    Overlap,
    /// No region matches the removal request.
    NotFound,
}

/// End of an entry's region (one past its last address).
pub open spec fn end_of(e: MapEntry) -> int {
    e.addr + e.span
}

/// Whether `[a, a + len)` and the region of `e` share an address.
pub open spec fn overlaps(a: int, len: int, e: MapEntry) -> bool {
    a < end_of(e) && e.addr < a + len
}

/// An entry on its own is valid: non-empty, ending at or below `LIMIT`, and
/// with a source range `offset + span` that fits in 64 bits.
pub open spec fn entry_valid(e: MapEntry) -> bool {
    &&& e.span > 0
    &&& end_of(e) <= LIMIT
    &&& e.offset + e.span <= u64::MAX
}

/// A catalog is valid: every entry is valid and entries are sorted by address
/// with each one ending at or before the next one starts.
pub open spec fn entries_wf(s: Seq<MapEntry>) -> bool {
    &&& forall|i: int| 0 <= i < s.len() ==> #[trigger] entry_valid(s[i])
    &&& forall|i: int, j: int|
        0 <= i < j < s.len() ==> end_of(#[trigger] s[i]) <= (#[trigger] s[j]).addr
}

/// Start of the `i`-th gap, `0 <= i <= s.len()`: the gap before entry `i`.
pub open spec fn gap_start(s: Seq<MapEntry>, i: int) -> int {
    if i == 0 {
        0
    } else {
        end_of(s[i - 1])
    }
}

/// End of the `i`-th gap: the start of entry `i`, or `LIMIT` after the last.
pub open spec fn gap_end(s: Seq<MapEntry>, i: int) -> int {
    if i < s.len() {
        s[i].addr as int
    } else {
        LIMIT as int
    }
}

/// Whether the `i`-th gap can hold `span` addresses.
pub open spec fn gap_fits(s: Seq<MapEntry>, span: int, i: int) -> bool {
    0 <= i <= s.len() && gap_end(s, i) - gap_start(s, i) >= span
}

/// The `i`-th gap is the lowest one that can hold `span` addresses.
pub open spec fn is_first_fit(s: Seq<MapEntry>, span: int, i: int) -> bool {
    &&& gap_fits(s, span, i)
    &&& forall|j: int| 0 <= j < i ==> !#[trigger] gap_fits(s, span, j)
}

/// Some gap can hold `span` addresses.
pub open spec fn has_fit(s: Seq<MapEntry>, span: int) -> bool {
    exists|i: int| #[trigger] gap_fits(s, span, i)
}

/// Some entry shares an address with `[a, a + len)`.
pub open spec fn any_overlap(s: Seq<MapEntry>, a: int, len: int) -> bool {
    exists|j: int| 0 <= j < s.len() && #[trigger] overlaps(a, len, s[j])
}

/// Entry `i` is backed by `source` and starts at `start`.
pub open spec fn matches_at(s: Seq<MapEntry>, source: SourceId, start: int, i: int) -> bool {
    0 <= i < s.len() && s[i].source == source && s[i].addr == start
}

/// The region of `e` holds `address`.
pub open spec fn holds(e: MapEntry, address: int) -> bool {
    e.addr <= address < end_of(e)
}

/// Inserting a valid entry at position `i` keeps a catalog valid when the
/// entry lies between its neighbours.
proof fn lemma_insert_wf(s: Seq<MapEntry>, i: int, e: MapEntry)
    requires
        entries_wf(s),
        0 <= i <= s.len(),
        entry_valid(e),
        i > 0 ==> end_of(s[i - 1]) <= e.addr,
        i < s.len() ==> end_of(e) <= s[i].addr,
    ensures
        entries_wf(s.insert(i, e)),
{
    let t = s.insert(i, e);
    assert forall|a: int| 0 <= a < t.len() implies #[trigger] entry_valid(t[a]) by {
        if a < i {
            assert(t[a] == s[a]);
        } else if a > i {
            assert(t[a] == s[a - 1]);
        }
    }
    assert forall|a: int, b: int| 0 <= a < b < t.len() implies end_of(#[trigger] t[a]) <= (
    #[trigger] t[b]).addr by {
        if b < i {
            assert(t[a] == s[a] && t[b] == s[b]);
        } else if b == i {
            assert(t[a] == s[a]);
            if a < i - 1 {
                assert(end_of(s[a]) <= s[i - 1].addr);
            }
        } else if a < i {
            assert(t[a] == s[a] && t[b] == s[b - 1]);
            if b - 1 > i {
                assert(end_of(s[i]) <= s[b - 1].addr);
            }
        } else if a == i {
            assert(t[b] == s[b - 1]);
            if b - 1 > i {
                assert(end_of(s[i]) <= s[b - 1].addr);
            }
        } else {
            assert(t[a] == s[a - 1] && t[b] == s[b - 1]);
        }
    }
}

/// A range that lies inside the `i`-th gap meets no entry.
proof fn lemma_in_gap_disjoint(s: Seq<MapEntry>, i: int, a: int, len: int)
    requires
        entries_wf(s),
        0 <= i <= s.len(),
        gap_start(s, i) <= a,
        a + len <= gap_end(s, i),
        len > 0,
    ensures
        !any_overlap(s, a, len),
{
    assert forall|j: int| 0 <= j < s.len() implies !#[trigger] overlaps(a, len, s[j]) by {
        if j < i - 1 {
            assert(end_of(s[j]) <= s[i - 1].addr);
        } else if j > i {
            assert(end_of(s[i]) <= s[j].addr);
        }
    }
}

/// Removing an entry keeps a catalog valid.
proof fn lemma_remove_wf(s: Seq<MapEntry>, i: int)
    requires
        entries_wf(s),
        0 <= i < s.len(),
    ensures
        entries_wf(s.remove(i)),
{
    let t = s.remove(i);
    assert forall|a: int| 0 <= a < t.len() implies #[trigger] entry_valid(t[a]) by {
        if a < i {
            assert(t[a] == s[a]);
        } else {
            assert(t[a] == s[a + 1]);
        }
    }
    assert forall|a: int, b: int| 0 <= a < b < t.len() implies end_of(#[trigger] t[a]) <= (
    #[trigger] t[b]).addr by {
        let a0 = if a < i { a } else { a + 1 };
        let b0 = if b < i { b } else { b + 1 };
        assert(t[a] == s[a0] && t[b] == s[b0]);
    }
}

/// A named, sorted collection of non-overlapping regions.
pub struct AddressSpace {
    name: String,
    entries: Vec<MapEntry>,
}

impl View for AddressSpace {
    type V = Seq<MapEntry>;

    closed spec fn view(&self) -> Seq<MapEntry> {
        self.entries@
    }
}

impl AddressSpace {
    /// The address space's identifier.
    pub closed spec fn spec_name(&self) -> Seq<char> {
        self.name@
    }

    /// The catalog invariant holds.
    pub open spec fn wf(&self) -> bool {
        entries_wf(self@)
    }

    /// An empty address space called `name`.
    pub fn new(name: &str) -> (r: Self)
        ensures
            r@ == Seq::<MapEntry>::empty(),
            r.spec_name() == name@,
            r.wf(),
    {
        AddressSpace { name: name.to_string(), entries: Vec::new() }
    }
    /// Places a region of `span` addresses backed by `source[offset, offset + span)`
    /// at the start of the lowest gap that can hold it, and returns that address.
    ///
    /// Fails with `NoSpace`, changing nothing, when no gap is large enough.
    pub fn add_mapping(&mut self, source: SourceId, offset: u64, span: u64) -> (r: Result<
        VirtualAddress,
        MapError,
    >)
        requires
            old(self).wf(),
            span > 0,
            offset + span <= u64::MAX,
        ensures
            final(self).wf(),
            final(self).spec_name() == old(self).spec_name(),
            r is Ok <==> has_fit(old(self)@, span as int),
            match r {
                Ok(a) => exists|i: int|
                    is_first_fit(old(self)@, span as int, i) && a == gap_start(old(self)@, i)
                        && final(self)@ == old(self)@.insert(
                        i,
                        (MapEntry { source, offset, span, addr: a }),
                    ),
                Err(e) => e == MapError::NoSpace && final(self)@ == old(self)@,
            },
            r is Ok ==> !any_overlap(old(self)@, r->Ok_0 as int, span as int),
    {
        let ghost s = self@;
        let n = self.entries.len();
        let mut i: usize = 0;
        let mut start: u64 = 0;
        loop
            invariant
                self@ == s,
                s == old(self)@,
                self.name == old(self).name,
                entries_wf(s),
                n == s.len(),
                span > 0,
                offset + span <= u64::MAX,
                0 <= i <= n,
                start == gap_start(s, i as int),
                forall|j: int| 0 <= j < i ==> !#[trigger] gap_fits(s, span as int, j),
            decreases n - i,
        {
            let end: u64 = if i < n {
                self.entries[i].addr
            } else {
                LIMIT
            };
            proof {
                if i < n && i > 0 {
                    assert(end_of(s[i - 1]) <= s[i as int].addr);
                }
                if i == n && i > 0 {
                    assert(entry_valid(s[i - 1]));
                }
                if i < n {
                    assert(entry_valid(s[i as int]));
                }
                assert(gap_end(s, i as int) == end);
            }
            if end - start >= span {
                let e = MapEntry { source, offset, span, addr: start };
                proof {
                    lemma_insert_wf(s, i as int, e);
                    lemma_in_gap_disjoint(s, i as int, start as int, span as int);
                }
                self.entries.insert(i, e);
                assert(gap_fits(s, span as int, i as int));
                assert(is_first_fit(s, span as int, i as int));
                assert(has_fit(s, span as int));
                assert(self@ == s.insert(i as int, e));
                return Ok(start);
            }
            if i == n {
                assert(!has_fit(s, span as int));
                return Err(MapError::NoSpace);
            }
            proof {
                assert(entry_valid(s[i as int]));
            }
            start = self.entries[i].addr + self.entries[i].span;
            i = i + 1;
        }
    }
    /// Places a region of `span` addresses backed by `source[offset, offset + span)`
    /// exactly at `start`.
    ///
    /// Fails with `OutOfRange` when the region would end beyond `LIMIT`, else
    /// with `Overlap` when it shares an address with any existing region; a
    /// failure changes nothing.
    pub fn add_mapping_at(
        &mut self,
        source: SourceId,
        offset: u64,
        span: u64,
        start: VirtualAddress,
    ) -> (r: Result<(), MapError>)
        requires
            old(self).wf(),
            span > 0,
            offset + span <= u64::MAX,
        ensures
            final(self).wf(),
            final(self).spec_name() == old(self).spec_name(),
            start + span > LIMIT ==> r == Err::<(), MapError>(MapError::OutOfRange),
            start + span <= LIMIT && any_overlap(old(self)@, start as int, span as int) ==> r
                == Err::<(), MapError>(MapError::Overlap),
            r is Err ==> final(self)@ == old(self)@,
            r is Ok <==> start + span <= LIMIT && !any_overlap(
                old(self)@,
                start as int,
                span as int,
            ),
            r is Ok ==> exists|i: int|
                0 <= i <= old(self)@.len() && final(self)@ == old(self)@.insert(
                    i,
                    (MapEntry { source, offset, span, addr: start }),
                ),
    {
        if start > LIMIT || span > LIMIT - start {
            return Err(MapError::OutOfRange);
        }
        let ghost s = self@;
        let n = self.entries.len();
        let mut i: usize = 0;
        let mut k: usize = 0;
        while i < n
            invariant
                self@ == s,
                s == old(self)@,
                self.name == old(self).name,
                entries_wf(s),
                n == s.len(),
                0 <= k <= i <= n,
                span > 0,
                offset + span <= u64::MAX,
                start + span <= LIMIT,
                forall|j: int| 0 <= j < i ==> !#[trigger] overlaps(start as int, span as int, s[j]),
                forall|j: int| 0 <= j < k ==> #[trigger] s[j].addr < start,
                forall|j: int| k <= j < i ==> #[trigger] s[j].addr >= start,
            decreases n - i,
        {
            let e = self.entries[i];
            proof {
                assert(entry_valid(s[i as int]));
            }
            if start < e.addr + e.span && e.addr < start + span {
                assert(overlaps(start as int, span as int, s[i as int]));
                return Err(MapError::Overlap);
            }
            if e.addr < start {
                proof {
                    assert forall|j: int| k <= j < i implies #[trigger] s[j].addr < start by {
                        assert(end_of(s[j]) <= s[i as int].addr);
                    }
                }
                k = i + 1;
            }
            i = i + 1;
        }
        let e = MapEntry { source, offset, span, addr: start };
        proof {
            if k > 0 {
                assert(!overlaps(start as int, span as int, s[k - 1]));
            }
            if k < n {
                assert(!overlaps(start as int, span as int, s[k as int]));
                assert(entry_valid(s[k as int]));
            }
            lemma_insert_wf(s, k as int, e);
        }
        self.entries.insert(k, e);
        assert(self@ == s.insert(k as int, e));
        Ok(())
    }

    /// Removes the region that starts at `start` and is backed by `source`,
    /// and hands it back so that its source can be released.
    ///
    /// Fails with `NotFound`, changing nothing, when no region matches both.
    pub fn remove_mapping(&mut self, source: SourceId, start: VirtualAddress) -> (r: Result<
        MapEntry,
        MapError,
    >)
        requires
            old(self).wf(),
        ensures
            final(self).wf(),
            final(self).spec_name() == old(self).spec_name(),
            r is Ok <==> exists|i: int| #[trigger] matches_at(old(self)@, source, start as int, i),
            match r {
                Ok(e) => exists|i: int|
                    #[trigger] matches_at(old(self)@, source, start as int, i) && e == old(self)@[i]
                        && final(self)@ == old(self)@.remove(i),
                Err(x) => x == MapError::NotFound && final(self)@ == old(self)@,
            },
    {
        let ghost s = self@;
        let n = self.entries.len();
        let mut i: usize = 0;
        while i < n
            invariant
                self@ == s,
                s == old(self)@,
                self.name == old(self).name,
                entries_wf(s),
                n == s.len(),
                0 <= i <= n,
                forall|j: int| 0 <= j < i ==> !#[trigger] matches_at(s, source, start as int, j),
            decreases n - i,
        {
            let e = self.entries[i];
            if e.source == source && e.addr == start {
                assert(matches_at(s, source, start as int, i as int));
                proof {
                    lemma_remove_wf(s, i as int);
                }
                let removed = self.entries.remove(i);
                return Ok(removed);
            }
            i = i + 1;
        }
        Err(MapError::NotFound)
    }

    /// The source and the offset into it that back `address`, or `None` when
    /// no region holds it.
    pub fn lookup(&self, address: VirtualAddress) -> (r: Option<(SourceId, u64)>)
        requires
            self.wf(),
        ensures
            match r {
                Some((src, off)) => exists|i: int|
                    0 <= i < self@.len() && #[trigger] holds(self@[i], address as int) && src
                        == self@[i].source && off == self@[i].offset + (address - self@[i].addr),
                None => forall|i: int|
                    0 <= i < self@.len() ==> !#[trigger] holds(self@[i], address as int),
            },
    {
        let n = self.entries.len();
        let mut i: usize = 0;
        while i < n
            invariant
                self.wf(),
                n == self@.len(),
                0 <= i <= n,
                forall|j: int| 0 <= j < i ==> !#[trigger] holds(self@[j], address as int),
            decreases n - i,
        {
            let e = self.entries[i];
            proof {
                assert(entry_valid(self@[i as int]));
            }
            if e.addr <= address && address < e.addr + e.span {
                assert(holds(self@[i as int], address as int));
                return Some((e.source, e.offset + (address - e.addr)));
            }
            i = i + 1;
        }
        None
    }
    /// The address space's identifier.
    pub fn name(&self) -> (r: &str)
        ensures
            r@ == self.spec_name(),
    {
        self.name.as_str()
    }

    /// The regions, sorted by address.
    pub fn entries(&self) -> (r: &Vec<MapEntry>)
        ensures
            r@ == self@,
    {
        &self.entries
    }

    /// Dismantles the address space, handing back every remaining region so
    /// that each one's source can be released.
    pub fn into_entries(self) -> (r: Vec<MapEntry>)
        ensures
            r@ == self@,
    {
        self.entries
    }
}

/// No two regions of a well-formed address space share an address.
pub proof fn lemma_entries_disjoint(space: &AddressSpace)
    requires
        space.wf(),
    ensures
        forall|i: int, j: int|
            #![trigger space@[i], space@[j]]
            0 <= i < space@.len() && 0 <= j < space@.len() && i != j ==> !overlaps(
                space@[i].addr as int,
                space@[i].span as int,
                space@[j],
            ),
{
    let s = space@;
    assert forall|i: int, j: int|
        #![trigger s[i], s[j]]
        0 <= i < s.len() && 0 <= j < s.len() && i != j implies !overlaps(
        s[i].addr as int,
        s[i].span as int,
        s[j],
    ) by {
        assert(entry_valid(s[i]) && entry_valid(s[j]));
        if i < j {
            assert(end_of(s[i]) <= s[j].addr);
        } else {
            assert(end_of(s[j]) <= s[i].addr);
        }
    }
}

/// Every region of a well-formed address space ends at or below `LIMIT`.
pub proof fn lemma_entries_below_limit(space: &AddressSpace)
    requires
        space.wf(),
    ensures
        forall|i: int| 0 <= i < space@.len() ==> end_of(#[trigger] space@[i]) <= LIMIT,
{
    assert forall|i: int| 0 <= i < space@.len() implies end_of(#[trigger] space@[i]) <= LIMIT by {
        assert(entry_valid(space@[i]));
    }
}

/// Once the region at position `i` is removed, its range is free again: it
/// stays within `LIMIT`, meets no remaining region, and some gap of the
/// remaining catalog can hold its span.
pub proof fn lemma_removed_range_free(s: Seq<MapEntry>, i: int)
    requires
        entries_wf(s),
        0 <= i < s.len(),
    ensures
        end_of(s[i]) <= LIMIT,
        !any_overlap(s.remove(i), s[i].addr as int, s[i].span as int),
        has_fit(s.remove(i), s[i].span as int),
{
    let t = s.remove(i);
    assert(entry_valid(s[i]));
    lemma_remove_wf(s, i);
    if i > 0 {
        assert(t[i - 1] == s[i - 1]);
        assert(end_of(s[i - 1]) <= s[i].addr);
    }
    if i < t.len() {
        assert(t[i] == s[i + 1]);
        assert(end_of(s[i]) <= s[i + 1].addr);
    }
    assert(gap_fits(t, s[i].span as int, i));
    lemma_in_gap_disjoint(t, i, s[i].addr as int, s[i].span as int);
}

} // verus!
