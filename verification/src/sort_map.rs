//! The spatial index: a uniform grid whose cells are hashed onto as many
//! buckets as there are particles.

use vstd::prelude::*;
use crate::object::Object;
use crate::scanner::{pass_slot, scanned, slot_pass};
use crate::sort_map_laws::lemma_indexes_wf;
pub use crate::scanner::UpdateScanner;

verus! {

/// Multiplier of the row coordinate in the cell hash.
pub const HASH_STRIDE: i32 = 32121;

/// Offset stored for a bucket that holds no entry.
pub const NO_ENTRY: usize = usize::MAX;

/// The bucket of grid cell `(gx, gy)` in an index of `len` buckets.
pub open spec fn cell_hash(gx: int, gy: int, len: int) -> int {
    (gx + gy * HASH_STRIDE) % len
}

/// One slot together with the bucket its cell hashes to.
#[derive(Default, Clone, Copy, Debug, PartialEq, Eq)]
pub struct HashEntry {
    pub particle_idx: usize,
    pub cell_hash: usize,
}

impl HashEntry {
    /// The entry that an index holds before it is built.
    pub open spec fn zero() -> HashEntry {
        HashEntry { particle_idx: 0, cell_hash: 0 }
    }
}

/// Entries sorted by bucket, and for every bucket the offset of its first entry.
pub struct SortMap {
    pub hash_table: Vec<HashEntry>,
    pub start_offsets: Vec<usize>,
}

/// An array cut off at `len`, or filled up to `len` with `fill`.
pub open spec fn resized<T>(before: Seq<T>, len: nat, fill: T) -> Seq<T> {
    Seq::new(
        len,
        |k: int|
            if k < before.len() {
                before[k]
            } else {
                fill
            },
    )
}

/// The entries are in ascending order of bucket.
pub open spec fn sorted_by_bucket(entries: Seq<HashEntry>) -> bool {
    forall|a: int, b: int|
        0 <= a <= b < entries.len() ==> entries[a].cell_hash <= entries[b].cell_hash
}

/// `at` is the position of the first entry of `bucket`.
pub open spec fn is_run_start(entries: Seq<HashEntry>, bucket: int, at: int) -> bool {
    &&& 0 <= at < entries.len()
    &&& entries[at].cell_hash == bucket
    &&& forall|k: int| 0 <= k < at ==> entries[k].cell_hash != bucket
}

/// `offset` is what a freshly built index stores for `bucket`: the position
/// of its first entry, or the sentinel when it has none.
pub open spec fn offset_exact(entries: Seq<HashEntry>, bucket: int, offset: usize) -> bool {
    if offset == NO_ENTRY {
        forall|k: int| 0 <= k < entries.len() ==> entries[k].cell_hash != bucket
    } else {
        is_run_start(entries, bucket, offset as int)
    }
}

/// The entry of slot `i` before sorting: the slot and the bucket of its cell.
pub open spec fn entry_of(cells: Seq<(i32, i32)>, i: int) -> HashEntry {
    HashEntry {
        particle_idx: i as usize,
        cell_hash: cell_hash(cells[i].0 as int, cells[i].1 as int, cells.len() as int) as usize,
    }
}

/// The unsorted table of a particle table whose slots lie in `cells`.
pub open spec fn entries_of(cells: Seq<(i32, i32)>) -> Seq<HashEntry> {
    Seq::new(cells.len(), |i: int| entry_of(cells, i))
}

/// The `k`-th cell of the 3x3 block around `cell`: rows upward from the one
/// below, each row rightward from the cell to the left.
pub open spec fn block_cell(cell: (i32, i32), k: int) -> (int, int) {
    (cell.0 + k % 3 - 1, cell.1 + k / 3 - 1)
}

/// The cells `a` and `b` are the same cell or touch, along an edge or at a
/// corner.
pub open spec fn touching(a: (i32, i32), b: (i32, i32)) -> bool {
    -1 <= b.0 - a.0 <= 1 && -1 <= b.1 - a.1 <= 1
}

/// No cell of the block around slot `i` shares its bucket with a different
/// cell that holds a slot.
pub open spec fn collision_free(cells: Seq<(i32, i32)>, i: int) -> bool {
    forall|k: int, m: int|
        0 <= k < 9 && 0 <= m < cells.len() && cell_hash(
            block_cell(cells[i], k).0,
            block_cell(cells[i], k).1,
            cells.len() as int,
        ) == #[trigger] cell_hash(cells[m].0 as int, cells[m].1 as int, cells.len() as int)
            ==> #[trigger] block_cell(cells[i], k) == (cells[m].0 as int, cells[m].1 as int)
}

/// Keeps the slot of an entry of `bucket` unless the slot is `skip`.
pub open spec fn member_of(bucket: int, skip: usize) -> spec_fn(HashEntry) -> Option<usize> {
    |e: HashEntry|
        if e.cell_hash == bucket && e.particle_idx != skip {
            Some(e.particle_idx)
        } else {
            None
        }
}

/// The slots other than `skip` whose entry lies in `bucket`, in table order.
pub open spec fn members(entries: Seq<HashEntry>, bucket: int, skip: usize) -> Seq<usize> {
    entries.filter_map(member_of(bucket, skip))
}

/// A stretch of the table without entries of `bucket` adds no member.
proof fn lemma_members_stretch(
    entries: Seq<HashEntry>,
    bucket: int,
    skip: usize,
    lo: int,
    hi: int,
)
    requires
        0 <= lo <= hi <= entries.len(),
        forall|k: int| lo <= k < hi ==> entries[k].cell_hash != bucket,
    ensures
        members(entries.take(hi), bucket, skip) == members(entries.take(lo), bucket, skip),
    decreases hi - lo,
{
    if lo < hi {
        lemma_members_stretch(entries, bucket, skip, lo, hi - 1);
        entries.lemma_filter_map_take_succ(member_of(bucket, skip), hi - 1);
    }
}

/// `slice::sort_unstable_by_key` with the bucket as key: afterwards the table
/// holds the same entries in ascending order of bucket. The order among
/// entries of one bucket is left open.
#[verifier::external_body]
fn sort_by_bucket(table: &mut Vec<HashEntry>)
    ensures
        final(table)@.to_multiset() == old(table)@.to_multiset(),
        sorted_by_bucket(final(table)@),
{
    table.sort_unstable_by_key(|entry| entry.cell_hash);
}

/// `slice::binary_search_by_key` with the bucket as key, on a table sorted by
/// bucket: `Ok` carries the position of some entry of `bucket`, not
/// necessarily the first; `Err` means that no entry has it, and carries the
/// position at which such an entry would keep the table sorted.
#[verifier::external_body]
fn search_bucket(table: &Vec<HashEntry>, bucket: usize) -> (found: Result<usize, usize>)
    requires
        sorted_by_bucket(table@),
    ensures
        match found {
            Ok(at) => at < table@.len() && table@[at as int].cell_hash == bucket,
            Err(at) => {
                &&& at <= table@.len()
                &&& forall|k: int| 0 <= k < at ==> table@[k].cell_hash < bucket
                &&& forall|k: int| at <= k < table@.len() ==> table@[k].cell_hash > bucket
            },
        },
{
    table.binary_search_by_key(&bucket, |entry| entry.cell_hash)
}

impl Default for SortMap {
    /// The index for no slots.
    fn default() -> (map: SortMap)
        ensures
            map.hash_table@.len() == 0,
            map.start_offsets@.len() == 0,
            map.wf(),
    {
        SortMap { hash_table: Vec::new(), start_offsets: Vec::new() }
    }
}

impl SortMap {
    /// Number of slots the index is sized for.
    pub open spec fn size(&self) -> nat {
        self.hash_table@.len()
    }

    /// What every scan relies on: both arrays have one length, the entries
    /// are sorted by bucket and name slots of the table, and every offset
    /// that is not the sentinel is the start of its bucket's run.
    pub open spec fn wf(&self) -> bool {
        &&& self.start_offsets@.len() == self.hash_table@.len()
        &&& sorted_by_bucket(self.hash_table@)
        &&& forall|k: int|
            0 <= k < self.hash_table@.len() ==> (#[trigger] self.hash_table@[k]).particle_idx
                < self.hash_table@.len()
        &&& forall|b: int|
            0 <= b < self.start_offsets@.len() ==> {
                ||| #[trigger] self.start_offsets@[b] == NO_ENTRY
                ||| is_run_start(self.hash_table@, b, self.start_offsets@[b] as int)
            }
    }

    /// The index was built from a table whose slots lie in `cells`: it holds
    /// exactly one entry per slot, sorted by bucket, and every offset is exact.
    pub open spec fn indexes(&self, cells: Seq<(i32, i32)>) -> bool {
        &&& self.hash_table@.len() == cells.len()
        &&& self.start_offsets@.len() == cells.len()
        &&& sorted_by_bucket(self.hash_table@)
        &&& self.hash_table@.to_multiset() == entries_of(cells).to_multiset()
        &&& forall|b: int|
            0 <= b < cells.len() ==> offset_exact(
                self.hash_table@,
                b,
                #[trigger] self.start_offsets@[b],
            )
    }

    /// What the run of `bucket` contributes to a scan that skips `skip`:
    /// its members, or nothing where the bucket is marked empty.
    pub open spec fn bucket_run(&self, bucket: int, skip: usize) -> Seq<usize> {
        if 0 <= bucket < self.start_offsets@.len() && self.start_offsets@[bucket] != NO_ENTRY {
            members(self.hash_table@, bucket, skip)
        } else {
            Seq::empty()
        }
    }

    /// The runs of the nine buckets that the block around `cell` hashes to.
    pub open spec fn block_runs(&self, cell: (i32, i32), skip: usize) -> Seq<Seq<usize>> {
        Seq::new(
            9,
            |k: int|
                self.bucket_run(
                    cell_hash(block_cell(cell, k).0, block_cell(cell, k).1, self.size() as int),
                    skip,
                ),
        )
    }

    /// The candidates that a scan offers to the slot `skip` lying in `cell`,
    /// in the order in which it offers them. Two cells of the block that
    /// share a bucket contribute its run twice.
    pub open spec fn candidates(&self, cell: (i32, i32), skip: usize) -> Seq<usize> {
        self.block_runs(cell, skip).flatten()
    }

    /// For every slot of a table lying in `cells`, its candidates.
    pub open spec fn plan(&self, cells: Seq<(i32, i32)>) -> Seq<Seq<usize>> {
        Seq::new(cells.len(), |i: int| self.candidates(cells[i], i as usize))
    }

    /// An index for `num_objs` slots that has not been built yet: every
    /// entry is zero and every bucket is marked empty.
    pub fn new(num_objs: usize) -> (map: SortMap)
        ensures
            map.hash_table@ == Seq::new(num_objs as nat, |i: int| HashEntry::zero()),
            map.start_offsets@ == Seq::new(num_objs as nat, |i: int| NO_ENTRY),
            map.wf(),
    {
        let zero = HashEntry { particle_idx: 0, cell_hash: 0 };
        let map = SortMap {
            hash_table: vec![zero; num_objs],
            start_offsets: vec![NO_ENTRY; num_objs],
        };
        assert(map.hash_table@ =~= Seq::new(num_objs as nat, |i: int| HashEntry::zero()));
        assert(map.start_offsets@ =~= Seq::new(num_objs as nat, |i: int| NO_ENTRY));
        map
    }

    /// Resizes both arrays to `len`: what they held below `len` stays, and
    /// new positions get a zero entry and the sentinel offset. The index has
    /// to be rebuilt by `update` before it is scanned again.
    pub fn resize(&mut self, len: usize)
        ensures
            final(self).hash_table@ == resized(
                old(self).hash_table@,
                len as nat,
                HashEntry::zero(),
            ),
            final(self).start_offsets@ == resized(
                old(self).start_offsets@,
                len as nat,
                NO_ENTRY,
            ),
    {
        let ghost old_table = self.hash_table@;
        let ghost old_offsets = self.start_offsets@;
        self.hash_table.resize(len, HashEntry { particle_idx: 0, cell_hash: 0 });
        self.start_offsets.resize(len, NO_ENTRY);
        proof {
            if len > old_table.len() {
                let kept = self.hash_table@.subrange(0, old_table.len() as int);
                assert forall|k: int| 0 <= k < old_table.len() implies self.hash_table@[k]
                    == old_table[k] by {
                    assert(kept[k] == old_table[k]);
                }
            }
            if len > old_offsets.len() {
                let kept = self.start_offsets@.subrange(0, old_offsets.len() as int);
                assert forall|k: int| 0 <= k < old_offsets.len() implies self.start_offsets@[k]
                    == old_offsets[k] by {
                    assert(kept[k] == old_offsets[k]);
                }
            }
            assert(self.hash_table@ =~= resized(old_table, len as nat, HashEntry::zero()));
            assert(self.start_offsets@ =~= resized(old_offsets, len as nat, NO_ENTRY));
        }
    }

    /// The bucket of a cell whose coordinates may lie one step outside the
    /// 32-bit range, as the cells around a particle do.
    pub fn bucket_of(gx: i64, gy: i64, len: usize) -> (bucket: usize)
        requires
            len > 0,
        ensures
            bucket == cell_hash(gx as int, gy as int, len as int),
            bucket < len,
    {
        let stride: i128 = HASH_STRIDE as i128;
        assert(stride == 32121);
        let sum: i128 = gx as i128 + gy as i128 * stride;
        proof {
            vstd::arithmetic::div_mod::lemma_mod_bound(sum as int, len as int);
        }
        let rem: i128 = sum.checked_rem_euclid(len as i128).unwrap();
        rem as usize
    }

    /// The bucket of grid cell `grid_pos` among `len` buckets.
    pub fn hash(grid_pos: (i32, i32), len: usize) -> (bucket: usize)
        requires
            len > 0,
        ensures
            bucket == cell_hash(grid_pos.0 as int, grid_pos.1 as int, len as int),
            bucket < len,
    {
        Self::bucket_of(grid_pos.0 as i64, grid_pos.1 as i64, len)
    }

    /// Rebuilds the index for a table whose slot `i` lies in grid cell
    /// `cells[i]`.
    pub fn update(&mut self, cells: &Vec<(i32, i32)>)
        requires
            old(self).hash_table@.len() == cells@.len(),
            old(self).start_offsets@.len() == cells@.len(),
        ensures
            final(self).indexes(cells@),
            final(self).wf(),
    {
        let len = cells.len();
        let mut i: usize = 0;
        while i < len
            invariant
                i <= len,
                len == cells@.len(),
                self.hash_table@.len() == len,
                self.start_offsets@.len() == len,
                forall|k: int| 0 <= k < i ==> self.hash_table@[k] == entry_of(cells@, k),
            decreases len - i,
        {
            let cell_hash = Self::hash(cells[i], len);
            self.hash_table[i] = HashEntry { particle_idx: i, cell_hash };
            i += 1;
        }
        assert(self.hash_table@ =~= entries_of(cells@));
        sort_by_bucket(&mut self.hash_table);
        proof {
            vstd::seq_lib::to_multiset_len(self.hash_table@);
            vstd::seq_lib::to_multiset_len(entries_of(cells@));
        }
        let mut bucket: usize = 0;
        while bucket < len
            invariant
                bucket <= len,
                len == cells@.len(),
                self.hash_table@.len() == len,
                self.start_offsets@.len() == len,
                sorted_by_bucket(self.hash_table@),
                self.hash_table@.to_multiset() == entries_of(cells@).to_multiset(),
                forall|b: int|
                    0 <= b < bucket ==> offset_exact(
                        self.hash_table@,
                        b,
                        #[trigger] self.start_offsets@[b],
                    ),
            decreases len - bucket,
        {
            match search_bucket(&self.hash_table, bucket) {
                Ok(found) => {
                    let mut first: usize = found;
                    while first > 0 && self.hash_table[first - 1].cell_hash == bucket
                        invariant
                            first <= found < len,
                            self.hash_table@.len() == len,
                            self.hash_table@[first as int].cell_hash == bucket,
                        decreases first,
                    {
                        first -= 1;
                    }
                    self.start_offsets[bucket] = first;
                },
                Err(_) => {
                    self.start_offsets[bucket] = NO_ENTRY;
                },
            }
            bucket += 1;
        }
        proof {
            lemma_indexes_wf(*self, cells@);
        }
    }

    /// Tells whether the index is well formed, for callers that cannot know
    /// how it was last built or resized.
    pub fn is_well_formed(&self) -> (ok: bool)
        ensures
            ok == self.wf(),
    {
        let len = self.hash_table.len();
        if self.start_offsets.len() != len {
            return false;
        }
        let mut k: usize = 0;
        while k < len
            invariant
                k <= len,
                len == self.hash_table@.len(),
                forall|a: int, b: int|
                    0 <= a <= b < k ==> self.hash_table@[a].cell_hash
                        <= self.hash_table@[b].cell_hash,
                forall|m: int|
                    0 <= m < k ==> (#[trigger] self.hash_table@[m]).particle_idx < len,
            decreases len - k,
        {
            if self.hash_table[k].particle_idx >= len {
                return false;
            }
            if k > 0 && self.hash_table[k - 1].cell_hash > self.hash_table[k].cell_hash {
                return false;
            }
            k += 1;
        }
        let mut bucket: usize = 0;
        while bucket < len
            invariant
                bucket <= len,
                len == self.hash_table@.len(),
                len == self.start_offsets@.len(),
                sorted_by_bucket(self.hash_table@),
                forall|b: int|
                    0 <= b < bucket ==> {
                        ||| #[trigger] self.start_offsets@[b] == NO_ENTRY
                        ||| is_run_start(self.hash_table@, b, self.start_offsets@[b] as int)
                    },
            decreases len - bucket,
        {
            let start = self.start_offsets[bucket];
            if start != NO_ENTRY {
                if start >= len || self.hash_table[start].cell_hash != bucket {
                    return false;
                }
                if start > 0 && self.hash_table[start - 1].cell_hash == bucket {
                    return false;
                }
            }
            bucket += 1;
        }
        true
    }

    /// Appends the run of `bucket`, without `skip`, to `found`.
    fn push_run(&self, bucket: usize, skip: usize, found: &mut Vec<usize>)
        requires
            self.wf(),
            bucket < self.size(),
            forall|k: int| 0 <= k < old(found)@.len() ==> old(found)@[k] < self.size(),
        ensures
            final(found)@ == old(found)@ + self.bucket_run(bucket as int, skip),
            forall|k: int| 0 <= k < final(found)@.len() ==> final(found)@[k] < self.size(),
    {
        let start = self.start_offsets[bucket];
        if start == NO_ENTRY {
            assert(found@ =~= old(found)@ + self.bucket_run(bucket as int, skip));
            return ;
        }
        let len = self.hash_table.len();
        let ghost entries = self.hash_table@;
        let mut k: usize = start;
        proof {
            lemma_members_stretch(entries, bucket as int, skip, 0, start as int);
            assert(members(entries.take(0), bucket as int, skip) =~= Seq::<usize>::empty());
        }
        while k < len && self.hash_table[k].cell_hash == bucket
            invariant
                start <= k <= len,
                len == entries.len(),
                entries == self.hash_table@,
                self.wf(),
                found@ == old(found)@ + members(entries.take(k as int), bucket as int, skip),
                forall|m: int| 0 <= m < found@.len() ==> found@[m] < self.size(),
            decreases len - k,
        {
            let slot = self.hash_table[k].particle_idx;
            if slot != skip {
                found.push(slot);
            }
            proof {
                entries.lemma_filter_map_take_succ(member_of(bucket as int, skip), k as int);
            }
            k += 1;
        }
        proof {
            lemma_members_stretch(entries, bucket as int, skip, k as int, len as int);
            assert(entries.take(len as int) =~= entries);
        }
    }

    /// The candidates for the slot `skip` lying in `cell`: the runs of the
    /// nine buckets of the block around the cell, the slot itself left out.
    pub fn neighbors(&self, cell: (i32, i32), skip: usize) -> (found: Vec<usize>)
        requires
            self.wf(),
        ensures
            found@ == self.candidates(cell, skip),
            forall|k: int| 0 <= k < found@.len() ==> found@[k] < self.size(),
    {
        let len = self.hash_table.len();
        let mut found: Vec<usize> = Vec::new();
        let ghost runs = self.block_runs(cell, skip);
        let mut k: i64 = 0;
        assert(runs.take(0).flatten() =~= Seq::<usize>::empty());
        while k < 9
            invariant
                0 <= k <= 9,
                self.wf(),
                len == self.size(),
                runs == self.block_runs(cell, skip),
                found@ == runs.take(k as int).flatten(),
                forall|m: int| 0 <= m < found@.len() ==> found@[m] < self.size(),
            decreases 9 - k,
        {
            if len > 0 {
                let gx = cell.0 as i64 + k % 3 - 1;
                let gy = cell.1 as i64 + k / 3 - 1;
                let bucket = Self::bucket_of(gx, gy, len);
                self.push_run(bucket, skip, &mut found);
            }
            proof {
                assert(runs.take(k + 1) =~= runs.take(k as int).push(runs[k as int]));
                runs.take(k as int).lemma_flatten_push(runs[k as int]);
                assert(len == 0 ==> runs[k as int] =~= Seq::<usize>::empty());
            }
            k += 1;
        }
        assert(runs.take(9) =~= runs);
        found
    }

    /// One pass over the table: every slot in turn is offered its
    /// candidates. `cells[i]` is the grid cell in which slot `i` lies as the
    /// pass begins.
    pub fn scan<V: UpdateScanner>(
        &self,
        cells: &Vec<(i32, i32)>,
        objs: &mut Vec<Object>,
        update_scanner: &mut V,
    )
        requires
            self.wf(),
            cells@.len() == self.size(),
            old(objs)@.len() == self.size(),
        ensures
            final(objs)@.len() == old(objs)@.len(),
            scanned(
                *old(update_scanner),
                old(objs)@,
                self.plan(cells@),
                cells@.len(),
                *final(update_scanner),
                final(objs)@,
            ),
    {
        let len = cells.len();
        let ghost plan = self.plan(cells@);
        let ghost from = *update_scanner;
        let mut i: usize = 0;
        while i < len
            invariant
                i <= len,
                len == cells@.len(),
                self.wf(),
                cells@.len() == self.size(),
                objs@.len() == self.size(),
                plan == self.plan(cells@),
                scanned(from, old(objs)@, plan, i as nat, *update_scanner, objs@),
            decreases len - i,
        {
            let ghost before = *update_scanner;
            let ghost before_objs = objs@;
            let found = self.neighbors(cells[i], i);
            pass_slot(objs, update_scanner, i, &found);
            proof {
                let n = (i + 1) as nat;
                assert(scanned(from, old(objs)@, plan, (n - 1) as nat, before, before_objs));
                assert(slot_pass(before, before_objs, n - 1, plan[n - 1], *update_scanner, objs@));
            }
            i += 1;
        }
    }
}

} // verus!
