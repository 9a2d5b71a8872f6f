//! What holds of the spatial index: a built index is well formed, a scan
//! misses no neighbour, it offers a slot only other slots, and where no
//! buckets collide it offers exactly the neighbours, each once.

use vstd::prelude::*;
use crate::sort_map::{
    block_cell, cell_hash, collision_free, entries_of, entry_of, member_of, members,
    offset_exact, touching, HashEntry, SortMap, HASH_STRIDE,
};

verus! {

/// Every entry of `bucket` that is not the skipped slot is among the members.
proof fn lemma_members_cover(entries: Seq<HashEntry>, bucket: int, skip: usize, at: int)
    requires
        0 <= at < entries.len(),
        entries[at].cell_hash == bucket,
        entries[at].particle_idx != skip,
    ensures
        members(entries, bucket, skip).contains(entries[at].particle_idx),
    decreases entries.len(),
{
    let rest = members(entries.drop_last(), bucket, skip);
    if at == entries.len() - 1 {
        let all = rest + seq![entries[at].particle_idx];
        assert(all[rest.len() as int] == entries[at].particle_idx);
    } else {
        lemma_members_cover(entries.drop_last(), bucket, skip, at);
        let hit = choose|k: int| 0 <= k < rest.len() && rest[k] == entries[at].particle_idx;
        assert(members(entries, bucket, skip)[hit] == entries[at].particle_idx);
    }
}

/// Every member is the slot of an entry of `bucket`, and is not the skipped slot.
proof fn lemma_members_sound(entries: Seq<HashEntry>, bucket: int, skip: usize, slot: usize)
    requires
        members(entries, bucket, skip).contains(slot),
    ensures
        slot != skip,
        exists|at: int|
            0 <= at < entries.len() && #[trigger] entries[at].cell_hash == bucket
                && entries[at].particle_idx == slot,
{
    entries.lemma_filter_map_contains(member_of(bucket, skip), slot);
    let e = choose|e: HashEntry| #[trigger]
        entries.contains(e) && member_of(bucket, skip)(e) == Some(slot);
    let at = choose|at: int| 0 <= at < entries.len() && entries[at] == e;
    assert(entries[at].cell_hash == bucket && entries[at].particle_idx == slot);
}

/// What one of the runs holds, the concatenation of all runs holds.
proof fn lemma_flatten_covers(runs: Seq<Seq<usize>>, k: int, slot: usize)
    requires
        0 <= k < runs.len(),
        runs[k].contains(slot),
    ensures
        runs.flatten().contains(slot),
    decreases runs.len(),
{
    let front = runs.drop_last();
    front.lemma_flatten_push(runs.last());
    assert(front.push(runs.last()) =~= runs);
    if k == runs.len() - 1 {
        let hit = choose|m: int| 0 <= m < runs[k].len() && runs[k][m] == slot;
        assert(runs.flatten()[front.flatten().len() + hit] == slot);
    } else {
        lemma_flatten_covers(front, k, slot);
        let hit = choose|m: int| 0 <= m < front.flatten().len() && front.flatten()[m] == slot;
        assert(runs.flatten()[hit] == slot);
    }
}

/// What the concatenation of the runs holds, one of the runs holds.
proof fn lemma_flatten_sound(runs: Seq<Seq<usize>>, slot: usize) -> (k: int)
    requires
        runs.flatten().contains(slot),
    ensures
        0 <= k < runs.len(),
        runs[k].contains(slot),
    decreases runs.len(),
{
    if runs.len() == 0 {
        assert(runs.flatten() =~= Seq::<usize>::empty());
        0
    } else {
        let front = runs.drop_last();
        front.lemma_flatten_push(runs.last());
        assert(front.push(runs.last()) =~= runs);
        let hit = choose|m: int| 0 <= m < runs.flatten().len() && runs.flatten()[m] == slot;
        if hit < front.flatten().len() {
            assert(front.flatten()[hit] == slot);
            lemma_flatten_sound(front, slot)
        } else {
            assert(runs.last()[hit - front.flatten().len()] == slot);
            runs.len() - 1
        }
    }
}

/// A built index holds, for every slot, an entry with that slot and the
/// bucket of its cell; and every entry is such an entry.
proof fn lemma_indexed_entries(map: SortMap, cells: Seq<(i32, i32)>)
    requires
        map.indexes(cells),
    ensures
        forall|i: int|
            0 <= i < cells.len() ==> map.hash_table@.contains(#[trigger] entry_of(cells, i)),
        forall|k: int|
            0 <= k < map.hash_table@.len() ==> {
                let e = #[trigger] map.hash_table@[k];
                e.particle_idx < cells.len() && e == entry_of(cells, e.particle_idx as int)
            },
{
    let table = map.hash_table@;
    let fresh = entries_of(cells);
    assert(map.hash_table.len() == table.len());
    assert forall|i: int| 0 <= i < cells.len() implies table.contains(
        #[trigger] entry_of(cells, i),
    ) by {
        assert(fresh[i] == entry_of(cells, i));
        assert(fresh.contains(fresh[i]));
        vstd::seq_lib::to_multiset_contains(fresh, fresh[i]);
        vstd::seq_lib::to_multiset_contains(table, fresh[i]);
    }
    assert forall|k: int| 0 <= k < table.len() implies {
        let e = #[trigger] table[k];
        e.particle_idx < cells.len() && e == entry_of(cells, e.particle_idx as int)
    } by {
        let e = table[k];
        assert(table.contains(e));
        vstd::seq_lib::to_multiset_contains(table, e);
        vstd::seq_lib::to_multiset_contains(fresh, e);
        let i = choose|i: int| 0 <= i < fresh.len() && fresh[i] == e;
        assert(e == entry_of(cells, i));
    }
}

/// A scan offers a slot only other slots of the table: no candidate of a
/// well-formed index is the slot itself or lies beyond the table.
pub proof fn lemma_candidates_are_others(
    map: SortMap,
    cell: (i32, i32),
    skip: usize,
    slot: usize,
)
    requires
        map.wf(),
        map.candidates(cell, skip).contains(slot),
    ensures
        slot != skip,
        slot < map.size(),
{
    let runs = map.block_runs(cell, skip);
    let k = lemma_flatten_sound(runs, slot);
    let bucket = cell_hash(block_cell(cell, k).0, block_cell(cell, k).1, map.size() as int);
    assert(runs[k] == map.bucket_run(bucket, skip));
    lemma_members_sound(map.hash_table@, bucket, skip, slot);
}

/// A built index is well formed.
pub proof fn lemma_indexes_wf(map: SortMap, cells: Seq<(i32, i32)>)
    requires
        map.indexes(cells),
    ensures
        map.wf(),
{
    lemma_indexed_entries(map, cells);
}

/// No neighbour is missed: in an index built from `cells`, the candidates
/// of slot `i` include every other slot `j` whose cell is the cell of `i`
/// or touches it.
pub proof fn lemma_scan_reaches_neighbours(
    map: SortMap,
    cells: Seq<(i32, i32)>,
    i: int,
    j: int,
)
    requires
        map.indexes(cells),
        0 <= i < cells.len(),
        0 <= j < cells.len(),
        i != j,
        touching(cells[i], cells[j]),
    ensures
        map.candidates(cells[i], i as usize).contains(j as usize),
        map.plan(cells)[i].contains(j as usize),
{
    let table = map.hash_table@;
    let len = cells.len() as int;
    assert(map.hash_table.len() == table.len());
    let k = (cells[j].1 - cells[i].1 + 1) * 3 + (cells[j].0 - cells[i].0 + 1);
    assert(block_cell(cells[i], k) == (cells[j].0 as int, cells[j].1 as int));
    let bucket = cell_hash(cells[j].0 as int, cells[j].1 as int, len);
    vstd::arithmetic::div_mod::lemma_mod_bound(cells[j].0 + cells[j].1 * HASH_STRIDE, len);
    lemma_indexed_entries(map, cells);
    let at = choose|at: int| 0 <= at < table.len() && table[at] == entry_of(cells, j);
    assert(table[at].cell_hash == bucket);
    assert(offset_exact(table, bucket, map.start_offsets@[bucket]));
    lemma_members_cover(table, bucket, i as usize, at);
    let runs = map.block_runs(cells[i], i as usize);
    assert(runs[k] == map.bucket_run(bucket, i as usize));
    lemma_flatten_covers(runs, k, j as usize);
}

/// Without collisions nothing else is offered: if, in an index built from
/// `cells`, no cell of the block around slot `i` shares its bucket with a
/// different cell that holds a slot, then every candidate of slot `i` is
/// another slot whose cell is the cell of `i` or touches it.
pub proof fn lemma_collision_free_candidates(
    map: SortMap,
    cells: Seq<(i32, i32)>,
    i: int,
    j: usize,
)
    requires
        map.indexes(cells),
        0 <= i < cells.len(),
        collision_free(cells, i),
        map.candidates(cells[i], i as usize).contains(j),
    ensures
        j < cells.len(),
        j != i,
        touching(cells[i], cells[j as int]),
{
    let table = map.hash_table@;
    let len = cells.len() as int;
    assert(map.hash_table.len() == table.len());
    let runs = map.block_runs(cells[i], i as usize);
    let k = lemma_flatten_sound(runs, j);
    let bucket = cell_hash(block_cell(cells[i], k).0, block_cell(cells[i], k).1, len);
    assert(runs[k] == map.bucket_run(bucket, i as usize));
    lemma_members_sound(table, bucket, i as usize, j);
    let at = choose|at: int|
        0 <= at < table.len() && #[trigger] table[at].cell_hash == bucket
            && table[at].particle_idx == j;
    lemma_indexed_entries(map, cells);
    assert(table[at] == entry_of(cells, j as int));
    vstd::arithmetic::div_mod::lemma_mod_bound(
        cells[j as int].0 + cells[j as int].1 * HASH_STRIDE,
        len,
    );
    assert(bucket == cell_hash(cells[j as int].0 as int, cells[j as int].1 as int, len));
    assert(block_cell(cells[i], k) == (cells[j as int].0 as int, cells[j as int].1 as int));
}

/// The members of a bucket hold a slot as often as the table holds the
/// entry of that slot and bucket.
proof fn lemma_members_count(entries: Seq<HashEntry>, bucket: usize, skip: usize, slot: usize)
    requires
        slot != skip,
    ensures
        members(entries, bucket as int, skip).to_multiset().count(slot)
            == entries.to_multiset().count(HashEntry { particle_idx: slot, cell_hash: bucket }),
    decreases entries.len(),
{
    broadcast use vstd::multiset::group_multiset_axioms;

    if entries.len() == 0 {
        vstd::seq_lib::to_multiset_len(entries);
        vstd::seq_lib::to_multiset_len(members(entries, bucket as int, skip));
    } else {
        let rest = entries.drop_last();
        let last = entries.last();
        lemma_members_count(rest, bucket, skip, slot);
        assert(rest.push(last) =~= entries);
        vstd::seq_lib::to_multiset_build(rest, last);
        if last.cell_hash == bucket && last.particle_idx != skip {
            let before = members(rest, bucket as int, skip);
            assert(before + seq![last.particle_idx] =~= before.push(last.particle_idx));
            vstd::seq_lib::to_multiset_build(before, last.particle_idx);
        }
    }
}

/// If one run holds a slot some number of times and no other run holds it,
/// the concatenation holds it that number of times.
proof fn lemma_flatten_count(runs: Seq<Seq<usize>>, k: int, slot: usize)
    requires
        0 <= k < runs.len(),
        forall|m: int| 0 <= m < runs.len() && m != k ==> !(#[trigger] runs[m]).contains(slot),
    ensures
        runs.flatten().to_multiset().count(slot) == runs[k].to_multiset().count(slot),
    decreases runs.len(),
{
    broadcast use vstd::multiset::group_multiset_axioms;

    let front = runs.drop_last();
    let last = runs.last();
    front.lemma_flatten_push(last);
    assert(front.push(last) =~= runs);
    vstd::seq_lib::lemma_multiset_commutative(front.flatten(), last);
    if k == runs.len() - 1 {
        if front.flatten().contains(slot) {
            let m = lemma_flatten_sound(front, slot);
            assert(runs[m].contains(slot));
        }
        vstd::seq_lib::to_multiset_contains(front.flatten(), slot);
    } else {
        lemma_flatten_count(front, k, slot);
        vstd::seq_lib::to_multiset_contains(last, slot);
    }
}

/// Without collisions the index offers exactly the neighbours: if, in an
/// index built from `cells`, no cell of the block around slot `i` shares
/// its bucket with a different cell that holds a slot, then the candidates
/// of slot `i` hold every other slot whose cell is the cell of `i` or
/// touches it exactly once, and hold no other slot.
pub proof fn lemma_collision_free_plan(map: SortMap, cells: Seq<(i32, i32)>, i: int, j: int)
    requires
        map.indexes(cells),
        0 <= i < cells.len(),
        0 <= j < cells.len(),
        collision_free(cells, i),
    ensures
        map.candidates(cells[i], i as usize).to_multiset().count(j as usize) == if j != i
            && touching(cells[i], cells[j]) {
            1nat
        } else {
            0nat
        },
{
    let table = map.hash_table@;
    let fresh = entries_of(cells);
    let len = cells.len() as int;
    let skip = i as usize;
    let slot = j as usize;
    let found = map.candidates(cells[i], skip);
    assert(map.hash_table.len() == table.len());
    vstd::seq_lib::to_multiset_contains(found, slot);
    if j != i && touching(cells[i], cells[j]) {
        let runs = map.block_runs(cells[i], skip);
        let k = (cells[j].1 - cells[i].1 + 1) * 3 + (cells[j].0 - cells[i].0 + 1);
        assert(block_cell(cells[i], k) == (cells[j].0 as int, cells[j].1 as int));
        let bucket = cell_hash(cells[j].0 as int, cells[j].1 as int, len);
        vstd::arithmetic::div_mod::lemma_mod_bound(cells[j].0 + cells[j].1 * HASH_STRIDE, len);
        lemma_indexed_entries(map, cells);
        let entry = entry_of(cells, j);
        assert(fresh[j] == entry);
        // The table holds the entry of slot `j` once.
        assert(fresh.no_duplicates()) by {
            assert forall|a: int, b: int|
                0 <= a < fresh.len() && 0 <= b < fresh.len() && a != b implies fresh[a]
                != fresh[b] by {
                assert(fresh[a].particle_idx == a && fresh[b].particle_idx == b);
            }
        }
        fresh.lemma_multiset_has_no_duplicates();
        vstd::seq_lib::to_multiset_contains(fresh, entry);
        assert(table.to_multiset().count(entry) == 1);
        // Its bucket is not marked empty, and its run holds the slot once.
        let at = choose|at: int| 0 <= at < table.len() && table[at] == entry;
        assert(table[at].cell_hash == bucket);
        assert(offset_exact(table, bucket, map.start_offsets@[bucket]));
        assert(runs[k] == members(table, bucket, skip));
        lemma_members_count(table, bucket as usize, skip, slot);
        // No other run holds it.
        assert forall|m: int| 0 <= m < 9 && m != k implies !(#[trigger] runs[m]).contains(
            slot,
        ) by {
            let other = cell_hash(block_cell(cells[i], m).0, block_cell(cells[i], m).1, len);
            if runs[m].contains(slot) {
                assert(runs[m] == map.bucket_run(other, skip));
                lemma_members_sound(table, other, skip, slot);
                let hit = choose|hit: int|
                    0 <= hit < table.len() && #[trigger] table[hit].cell_hash == other
                        && table[hit].particle_idx == slot;
                assert(table[hit] == entry);
                assert(other == cell_hash(cells[j].0 as int, cells[j].1 as int, len));
                assert(block_cell(cells[i], m) == (cells[j].0 as int, cells[j].1 as int));
            }
        }
        lemma_flatten_count(runs, k, slot);
    } else {
        if found.contains(slot) {
            lemma_collision_free_candidates(map, cells, i, slot);
        }
    }
}

} // verus!
