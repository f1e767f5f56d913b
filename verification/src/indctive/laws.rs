//! What holds of every dictionary: of finding what was added, of a full
//! table, and of the pool of strings.

use crate::indctive::dct_map::{
    lemma_probe_in_range, lookup, probe, used_slots, DctMapView, LineView,
};
use crate::indctive::layout::{all_texts, pool_of};
use crate::text::lemma_insert_all_set;
use vstd::prelude::*;

verus! {

/// Probing finds a slot again after the hash has been put into it.
proof fn lemma_probe_after_update(
    lines: Seq<LineView>,
    hash: u32,
    pos: int,
    steps: nat,
    slot: int,
    entry: LineView,
)
    requires
        0 <= pos < lines.len(),
        probe(lines, hash, pos, steps) == Some(slot),
        entry.line_id == hash,
    ensures
        probe(lines.update(slot, entry), hash, pos, steps) == Some(slot),
    decreases steps,
{
    lemma_probe_in_range(lines, hash, pos, steps);
    let after = lines.update(slot, entry);
    if steps > 0 {
        if lines[pos].line_id == hash || lines[pos].line_id == 0 {
            assert(pos == slot);
        } else {
            assert(pos != slot);
            assert(after[pos] == lines[pos]);
            lemma_probe_after_update(
                lines,
                hash,
                (pos + 1) % (lines.len() as int),
                (steps - 1) as nat,
                slot,
                entry,
            );
        }
    }
}

/// After a text has been added under a hash, looking the hash up finds the
/// slot that holds the text, and the slot holds the hash: the text is
/// found, and adding under the same hash again is refused.
pub proof fn lemma_added_is_found(lines: Seq<LineView>, hash: u32, text: Seq<char>)
    requires
        lookup(lines, hash) is Some,
        lines[lookup(lines, hash)->0].line_id != hash,
    ensures
        ({
            let slot = lookup(lines, hash)->0;
            let after = lines.update(slot, LineView { line_id: hash, text: Some(text) });
            &&& hash != 0
            &&& lookup(after, hash) == Some(slot)
            &&& after[slot].line_id == hash
            &&& after[slot].text == Some(text)
        }),
{
    let slot = lookup(lines, hash)->0;
    let start = hash as int % (lines.len() as int);
    lemma_probe_in_range(lines, hash, start, lines.len());
    lemma_probe_after_update(
        lines,
        hash,
        start,
        lines.len(),
        slot,
        LineView { line_id: hash, text: Some(text) },
    );
}

/// In a table without an empty slot every slot has an identifier.
proof fn lemma_full_has_no_empty_slot(lines: Seq<LineView>)
    requires
        used_slots(lines) == lines.len(),
    ensures
        forall|i: int| 0 <= i < lines.len() ==> (#[trigger] lines[i]).line_id != 0,
    decreases lines.len(),
{
    if lines.len() > 0 {
        let init = lines.drop_last();
        crate::indctive::dct_map::lemma_used_slots_bound(init);
        lemma_full_has_no_empty_slot(init);
        assert forall|i: int| 0 <= i < lines.len() implies (#[trigger] lines[i]).line_id != 0 by {
            if i < init.len() {
                assert(lines[i] == init[i]);
            }
        }
    }
}

/// Probing slots of which none is empty and none holds the hash finds
/// nothing.
proof fn lemma_probe_finds_nothing(lines: Seq<LineView>, hash: u32, pos: int, steps: nat)
    requires
        0 <= pos < lines.len(),
        forall|i: int|
            0 <= i < lines.len() ==> (#[trigger] lines[i]).line_id != 0 && lines[i].line_id
                != hash,
    ensures
        probe(lines, hash, pos, steps) is None,
    decreases steps,
{
    if steps > 0 {
        lemma_probe_finds_nothing(
            lines,
            hash,
            (pos + 1) % (lines.len() as int),
            (steps - 1) as nat,
        );
    }
}

/// A table without an empty slot takes no further key: looking up a hash
/// that no slot holds finds nothing, so that adding under it fails for want
/// of capacity.
pub proof fn lemma_full_table_rejects(lines: Seq<LineView>, hash: u32)
    requires
        used_slots(lines) == lines.len(),
        forall|i: int| 0 <= i < lines.len() ==> (#[trigger] lines[i]).line_id != hash,
    ensures
        lookup(lines, hash) is None,
{
    if lines.len() > 0 {
        lemma_full_has_no_empty_slot(lines);
        lemma_probe_finds_nothing(lines, hash, hash as int % (lines.len() as int), lines.len());
    }
}

/// Putting an identifier into an empty slot makes one more slot used.
proof fn lemma_used_slots_update(lines: Seq<LineView>, slot: int, entry: LineView)
    requires
        0 <= slot < lines.len(),
        lines[slot].line_id == 0,
        entry.line_id != 0,
    ensures
        used_slots(lines.update(slot, entry)) == used_slots(lines) + 1,
    decreases lines.len(),
{
    let after = lines.update(slot, entry);
    if slot == lines.len() - 1 {
        assert(after.drop_last() =~= lines.drop_last());
    } else {
        lemma_used_slots_update(lines.drop_last(), slot, entry);
        assert(after.drop_last() =~= lines.drop_last().update(slot, entry));
    }
}

/// Every addition that succeeds takes one empty slot, so that a new table
/// of `capacity` slots is full after `capacity` additions.
pub proof fn lemma_add_takes_one_slot(lines: Seq<LineView>, hash: u32, text: Seq<char>)
    requires
        lookup(lines, hash) is Some,
        lines[lookup(lines, hash)->0].line_id != hash,
    ensures
        used_slots(
            lines.update(lookup(lines, hash)->0, LineView { line_id: hash, text: Some(text) }),
        ) == used_slots(lines) + 1,
{
    let slot = lookup(lines, hash)->0;
    lemma_probe_in_range(lines, hash, hash as int % (lines.len() as int), lines.len());
    lemma_used_slots_update(lines, slot, LineView { line_id: hash, text: Some(text) });
}

/// A table of empty slots has no used slot.
pub proof fn lemma_new_table_is_unused(capacity: nat)
    ensures
        used_slots(Seq::new(capacity, |i: int| crate::indctive::dct_map::empty_slot())) == 0,
    decreases capacity,
{
    let lines = Seq::new(capacity, |i: int| crate::indctive::dct_map::empty_slot());
    if capacity > 0 {
        lemma_new_table_is_unused((capacity - 1) as nat);
        assert(lines.drop_last() =~= Seq::new(
            (capacity - 1) as nat,
            |i: int| crate::indctive::dct_map::empty_slot(),
        ));
    }
}

/// Every used slot is the slot that looking up its identifier finds.
pub open spec fn settled(lines: Seq<LineView>) -> bool {
    forall|i: int|
        0 <= i < lines.len() && (#[trigger] lines[i]).line_id != 0 ==> lookup(
            lines,
            lines[i].line_id,
        ) == Some(i)
}

/// No two used slots hold the same identifier.
pub open spec fn unique_ids(lines: Seq<LineView>) -> bool {
    forall|i: int, j: int|
        0 <= i < lines.len() && 0 <= j < lines.len() && i != j && (#[trigger] lines[i]).line_id
            != 0 ==> lines[i].line_id != (#[trigger] lines[j]).line_id
}

/// In a settled table no two used slots hold the same identifier.
pub proof fn lemma_settled_unique(lines: Seq<LineView>)
    requires
        settled(lines),
    ensures
        unique_ids(lines),
{
    assert forall|i: int, j: int|
        0 <= i < lines.len() && 0 <= j < lines.len() && i != j && (#[trigger] lines[i]).line_id
            != 0 implies lines[i].line_id != (#[trigger] lines[j]).line_id by {
        if lines[i].line_id == lines[j].line_id {
            assert(lookup(lines, lines[i].line_id) == Some(i));
            assert(lookup(lines, lines[j].line_id) == Some(j));
        }
    }
}

/// Probing for an identifier finds its slot again after another identifier
/// has been put into an empty slot.
proof fn lemma_probe_unaffected(
    lines: Seq<LineView>,
    id: u32,
    pos: int,
    steps: nat,
    found: int,
    slot: int,
    entry: LineView,
)
    requires
        0 <= pos < lines.len(),
        0 <= slot < lines.len(),
        probe(lines, id, pos, steps) == Some(found),
        found != slot,
        lines[slot].line_id == 0,
        entry.line_id != id,
        entry.line_id != 0,
    ensures
        probe(lines.update(slot, entry), id, pos, steps) == Some(found),
    decreases steps,
{
    let after = lines.update(slot, entry);
    if steps > 0 {
        if lines[pos].line_id == id || lines[pos].line_id == 0 {
            assert(pos == found);
            assert(after[pos] == lines[pos]);
        } else {
            assert(pos != slot);
            assert(after[pos] == lines[pos]);
            lemma_probe_unaffected(
                lines,
                id,
                (pos + 1) % (lines.len() as int),
                (steps - 1) as nat,
                found,
                slot,
                entry,
            );
        }
    }
}

/// Adding a text leaves a settled table settled: a dictionary that is built
/// by additions to a new one never holds an identifier twice.
pub proof fn lemma_add_keeps_settled(lines: Seq<LineView>, hash: u32, text: Seq<char>)
    requires
        settled(lines),
        lookup(lines, hash) is Some,
        lines[lookup(lines, hash)->0].line_id != hash,
    ensures
        settled(
            lines.update(lookup(lines, hash)->0, LineView { line_id: hash, text: Some(text) }),
        ),
{
    let slot = lookup(lines, hash)->0;
    let entry = LineView { line_id: hash, text: Some(text) };
    let after = lines.update(slot, entry);
    let len = lines.len() as int;
    lemma_probe_in_range(lines, hash, hash as int % len, lines.len());
    lemma_added_is_found(lines, hash, text);
    assert forall|i: int| 0 <= i < after.len() && (#[trigger] after[i]).line_id != 0 implies lookup(
        after,
        after[i].line_id,
    ) == Some(i) by {
        if i != slot {
            let id = lines[i].line_id;
            assert(after[i] == lines[i]);
            assert(lookup(lines, id) == Some(i));
            lemma_probe_unaffected(lines, id, id as int % len, lines.len(), i, slot, entry);
        }
    }
}

/// A new dictionary is settled.
pub proof fn lemma_new_is_settled(capacity: nat)
    ensures
        settled(Seq::new(capacity, |i: int| crate::indctive::dct_map::empty_slot())),
{
}

/// The pool of a dictionary holds every string once, and its strings are
/// those of the slots, the footer records and their sub-records.
pub proof fn lemma_pool_is_union(map: DctMapView)
    ensures
        pool_of(map).no_duplicates(),
        pool_of(map).to_set() == all_texts(map).to_set(),
{
    let empty = Seq::<Seq<char>>::empty();
    lemma_insert_all_set(empty, all_texts(map));
    assert(empty.to_set() =~= Set::<Seq<char>>::empty());
    assert(empty.to_set().union(all_texts(map).to_set()) =~= all_texts(map).to_set());
}

} // verus!
