//! The dictionary in memory: an open-addressed table of texts keyed by the
//! Jenkins `lookup2` hash of their keys, and the footer records.

use crate::indctive::bin_parser_writer::DctError;
use crate::indctive::bin_structure::{
    BinDctFooterEntry, BinDctFooterSubEntry, BinDctHeader, BinDctLineEntry,
};
use crate::indctive::layout::{
    all_texts, bin_footer, bin_line, bin_subs, cstring_at, dct_bytes, dct_parse, encodable,
    file_size, footer_size, footer_start, footer_texts, footers_bytes, header_of,
    lemma_footer_size_prefix, lemma_footer_texts_contains, lemma_footers_bytes_len,
    lemma_line_texts_contains, lemma_lines_bytes_len, lemma_parse_footer_ok,
    lemma_parse_footers_error, lemma_parse_line_ok, lemma_parse_lines_error,
    lemma_resolve_subs_error, line_texts, lines_bytes, parse_footer, parse_footers, parse_line,
    parse_lines, pool_base, pool_of, resolve_subs, sub_texts, text_offset,
};
use crate::indctive::pool::{encode_pool, find_text, insert_text};
use crate::text::strings_view;
use crate::text::{
    bytes_of, find_nul, first_index_of, insert_all, insert_unique, lemma_insert_all_contains,
    string_from_utf8_lossy, table_bytes,
};
use vstd::prelude::*;
use vstd::string::*;

verus! {

/// Why a text could not be found or added.
#[derive(Debug)]
pub enum DctLineError {
    /// No slot holds the hash of the key.
    KeyDoesNotExist(String),
    /// A slot holds the hash of the key already.
    KeyAlreadyExists(String),
    /// Every slot on the way of the key is taken by another key.
    CapacityExceeded,
}

/// A slot of the table. An identifier of 0 marks an empty slot; a slot has a
/// text exactly when it is not empty.
#[derive(Clone, Debug)]
struct LineEntry {
    line_id: u32,
    text: Option<String>,
}

/// A record of the footer.
#[derive(Clone, Debug, PartialEq)]
pub struct FooterEntry {
    pub text: String,
    pub sub_entries: Vec<FooterSubEntry>,
}

/// A sub-record of a footer record.
#[derive(Clone, Debug, PartialEq)]
pub struct FooterSubEntry {
    pub text: String,
    pub to_map_to: u32,
}

/// A dictionary: the seed of its hash, its slots and its footer records.
#[derive(Clone)]
pub struct DctMap {
    initial_hash_value: u32,
    line_entries: Vec<LineEntry>,
    pub footer_entries: Vec<FooterEntry>,
}

/// The mathematical value of a slot.
pub struct LineView {
    pub line_id: u32,
    pub text: Option<Seq<char>>,
}

/// The mathematical value of a [`FooterSubEntry`].
pub struct FooterSubEntryView {
    pub text: Seq<char>,
    pub to_map_to: u32,
}

/// The mathematical value of a [`FooterEntry`].
pub struct FooterEntryView {
    pub text: Seq<char>,
    pub sub_entries: Seq<FooterSubEntryView>,
}

/// The mathematical value of a [`DctMap`].
pub struct DctMapView {
    pub initial_hash_value: u32,
    pub lines: Seq<LineView>,
    pub footer_entries: Seq<FooterEntryView>,
}

impl View for FooterSubEntry {
    type V = FooterSubEntryView;

    open spec fn view(&self) -> FooterSubEntryView {
        FooterSubEntryView { text: self.text@, to_map_to: self.to_map_to }
    }
}

impl View for FooterEntry {
    type V = FooterEntryView;

    open spec fn view(&self) -> FooterEntryView {
        FooterEntryView {
            text: self.text@,
            sub_entries: Seq::new(self.sub_entries@.len(), |i: int| self.sub_entries@[i]@),
        }
    }
}

/// The views of the footer records of a sequence.
pub open spec fn footer_view(v: Seq<FooterEntry>) -> Seq<FooterEntryView> {
    Seq::new(v.len(), |i: int| v[i]@)
}

impl LineEntry {
    spec fn view(&self) -> LineView {
        LineView {
            line_id: self.line_id,
            text: match self.text {
                Some(t) => Some(t@),
                None => None,
            },
        }
    }
}

/// A slot is consistent: it has a text exactly when its identifier is not 0.
pub open spec fn slot_consistent(line: LineView) -> bool {
    line.line_id == 0 <==> line.text is None
}

/// An empty slot.
pub open spec fn empty_slot() -> LineView {
    LineView { line_id: 0, text: None }
}

/// The views of the slots of a sequence.
spec fn lines_view(v: Seq<LineEntry>) -> Seq<LineView> {
    Seq::new(v.len(), |i: int| v[i].view())
}

/// The hash that `jenkins_hash::lookup2` gives to `data` with the seed
/// `initial`.
pub uninterp spec fn lookup2(data: Seq<u8>, initial: u32) -> u32;

/// Calls `jenkins_hash::lookup2`, Bob Jenkins' hash of 1996, which is a
/// function of the bytes and the seed alone.
#[verifier::external_body]
fn lookup2_hash(data: &[u8], initial: u32) -> (hash: u32)
    ensures
        hash == lookup2(data@, initial),
{
    jenkins_hash::lookup2(data, initial)
}

/// The identifier of a key: the hash of its UTF-8 bytes.
pub open spec fn key_hash(key: Seq<char>, seed: u32) -> u32 {
    lookup2(bytes_of(key), seed)
}

/// The first slot among `steps` slots from `pos` on, in cyclic order, that
/// holds `hash` or is empty.
pub open spec fn probe(lines: Seq<LineView>, hash: u32, pos: int, steps: nat) -> Option<int>
    decreases steps,
{
    if steps == 0 {
        None
    } else if lines[pos].line_id == hash || lines[pos].line_id == 0 {
        Some(pos)
    } else {
        probe(lines, hash, (pos + 1) % (lines.len() as int), (steps - 1) as nat)
    }
}

/// The slot of a hash: the first slot from `hash mod capacity` on that holds
/// the hash or is empty, if one of the `capacity` slots does.
pub open spec fn lookup(lines: Seq<LineView>, hash: u32) -> Option<int> {
    if lines.len() == 0 {
        None
    } else {
        probe(lines, hash, hash as int % (lines.len() as int), lines.len())
    }
}

/// The slot that probing finds lies in the table and holds the hash or is
/// empty.
pub proof fn lemma_probe_in_range(lines: Seq<LineView>, hash: u32, pos: int, steps: nat)
    requires
        0 <= pos < lines.len(),
    ensures
        match probe(lines, hash, pos, steps) {
            Some(i) => 0 <= i < lines.len() && (lines[i].line_id == hash || lines[i].line_id
                == 0),
            None => true,
        },
    decreases steps,
{
    if steps > 0 && !(lines[pos].line_id == hash || lines[pos].line_id == 0) {
        lemma_probe_in_range(lines, hash, (pos + 1) % (lines.len() as int), (steps - 1) as nat);
    }
}

/// The number of slots that are not empty.
pub open spec fn used_slots(lines: Seq<LineView>) -> nat
    decreases lines.len(),
{
    if lines.len() == 0 {
        0
    } else {
        used_slots(lines.drop_last()) + if lines.last().line_id != 0 {
            1nat
        } else {
            0nat
        }
    }
}

/// There are at most as many used slots as slots.
pub proof fn lemma_used_slots_bound(lines: Seq<LineView>)
    ensures
        used_slots(lines) <= lines.len(),
    decreases lines.len(),
{
    if lines.len() > 0 {
        lemma_used_slots_bound(lines.drop_last());
    }
}

/// The slot from `index` on that the iteration yields next. The iteration
/// never yields the last slot of the table.
pub open spec fn next_used(lines: Seq<LineView>, index: int) -> Option<int>
    decreases lines.len() - index,
{
    if index < 0 || index >= lines.len() - 1 {
        None
    } else if lines[index].line_id != 0 {
        Some(index)
    } else {
        next_used(lines, index + 1)
    }
}

impl DctMap {
    /// The mathematical value of the dictionary.
    pub closed spec fn view(&self) -> DctMapView {
        DctMapView {
            initial_hash_value: self.initial_hash_value,
            lines: lines_view(self.line_entries@),
            footer_entries: footer_view(self.footer_entries@),
        }
    }

    /// The dictionary is well-formed: it has at most `u32::MAX` slots, and
    /// every slot has a text exactly when its identifier is not 0.
    pub open spec fn wf(&self) -> bool {
        &&& self@.lines.len() <= u32::MAX
        &&& forall|i: int| 0 <= i < self@.lines.len() ==> slot_consistent(#[trigger] self@.lines[i])
    }

    /// A dictionary with `capacity` empty slots.
    pub fn new(initial_hash_value: u32, capacity: u32, footer_entries: Vec<FooterEntry>) -> (map:
        DctMap)
        ensures
            map.wf(),
            map@.initial_hash_value == initial_hash_value,
            map@.lines == Seq::new(capacity as nat, |i: int| empty_slot()),
            map@.footer_entries == footer_view(footer_entries@),
    {
        let mut line_entries: Vec<LineEntry> = Vec::new();
        let mut i: u32 = 0;
        while i < capacity
            invariant
                i <= capacity,
                line_entries@.len() == i,
                forall|j: int| 0 <= j < i ==> (#[trigger] line_entries@[j]).view() == empty_slot(),
            decreases capacity - i,
        {
            line_entries.push(LineEntry { line_id: 0, text: None });
            i = i + 1;
        }
        let map = DctMap { initial_hash_value, line_entries, footer_entries };
        assert(map@.lines =~= Seq::new(capacity as nat, |i: int| empty_slot()));
        map
    }

    /// The slot of a hash, as [`lookup`] says.
    pub fn mod_entry_lookup(&self, hashed_key: u32) -> (slot: Option<usize>)
        ensures
            match slot {
                Some(i) => lookup(self@.lines, hashed_key) == Some(i as int) && i
                    < self@.lines.len(),
                None => lookup(self@.lines, hashed_key) is None,
            },
    {
        let dct_capacity: usize = self.line_entries.len();
        if dct_capacity == 0 {
            return None;
        }
        let ghost lines = self@.lines;
        let mut position_guess: usize = hashed_key as usize % dct_capacity;
        let mut tried: usize = 0;
        while tried < dct_capacity
            invariant
                tried <= dct_capacity,
                dct_capacity == self.line_entries@.len(),
                lines == self@.lines,
                position_guess < dct_capacity,
                lookup(lines, hashed_key) == probe(
                    lines,
                    hashed_key,
                    position_guess as int,
                    (dct_capacity - tried) as nat,
                ),
            decreases dct_capacity - tried,
        {
            let line_id: u32 = self.line_entries[position_guess].line_id;
            assert(lines[position_guess as int].line_id == line_id);
            if line_id == hashed_key || line_id == 0 {
                return Some(position_guess);
            }
            position_guess = (position_guess + 1) % dct_capacity;
            tried = tried + 1;
        }
        None
    }

    /// The text of the slot with the given hash; `key` is named in the error.
    pub fn get_hashed_entry(&self, hashed_key: u32, key: &str) -> (r: Result<&str, DctLineError>)
        requires
            self.wf(),
        ensures
            match lookup(self@.lines, hashed_key) {
                Some(i) if self@.lines[i].line_id != 0 => r matches Ok(text) && Some(text@)
                    == self@.lines[i].text,
                _ => r matches Err(DctLineError::KeyDoesNotExist(k)) && k@ == key@,
            },
    {
        match self.mod_entry_lookup(hashed_key) {
            None => Err(DctLineError::KeyDoesNotExist(key.to_owned())),
            Some(entry_index) => {
                let entry = &self.line_entries[entry_index];
                assert(self@.lines[entry_index as int] == entry.view());
                if entry.line_id == 0 {
                    return Err(DctLineError::KeyDoesNotExist(key.to_owned()));
                }
                match &entry.text {
                    Some(text) => Ok(text.as_str()),
                    None => Err(DctLineError::KeyDoesNotExist(key.to_owned())),
                }
            },
        }
    }

    /// The text that was added under `key`.
    pub fn get_line_entry(&self, key: &str) -> (r: Result<&str, DctLineError>)
        requires
            self.wf(),
        ensures
            match lookup(self@.lines, key_hash(key@, self@.initial_hash_value)) {
                Some(i) if self@.lines[i].line_id != 0 => r matches Ok(text) && Some(text@)
                    == self@.lines[i].text,
                _ => r matches Err(DctLineError::KeyDoesNotExist(k)) && k@ == key@,
            },
    {
        let hashed_key: u32 = lookup2_hash(key.as_bytes(), self.initial_hash_value);
        self.get_hashed_entry(hashed_key, key)
    }

    /// Puts `text` into the slot of the given hash; `key` is named in the
    /// error. The dictionary is left as it was where this fails.
    pub fn add_hashed_entry(&mut self, hashed_key: u32, key: &str, text: &str) -> (r: Result<
        (),
        DctLineError,
    >)
        requires
            old(self).wf(),
        ensures
            final(self).wf(),
            final(self)@.initial_hash_value == old(self)@.initial_hash_value,
            final(self)@.footer_entries == old(self)@.footer_entries,
            match lookup(old(self)@.lines, hashed_key) {
                None => r matches Err(DctLineError::CapacityExceeded) && final(self)@.lines == old(self)@.lines,
                Some(i) => if old(self)@.lines[i].line_id == hashed_key {
                    r matches Err(DctLineError::KeyAlreadyExists(k)) && k@ == key@ && final(self)@.lines == old(self)@.lines
                } else {
                    r is Ok && final(self)@.lines == old(self)@.lines.update(
                        i,
                        LineView { line_id: hashed_key, text: Some(text@) },
                    )
                },
            },
    {
        proof {
            if self@.lines.len() > 0 {
                lemma_probe_in_range(
                    self@.lines,
                    hashed_key,
                    hashed_key as int % (self@.lines.len() as int),
                    self@.lines.len(),
                );
            }
        }
        match self.mod_entry_lookup(hashed_key) {
            None => Err(DctLineError::CapacityExceeded),
            Some(entry_index) => {
                let line_id: u32 = self.line_entries[entry_index].line_id;
                assert(self@.lines[entry_index as int].line_id == line_id);
                if line_id == hashed_key {
                    return Err(DctLineError::KeyAlreadyExists(key.to_owned()));
                }
                let ghost before = self.line_entries@;
                let entry = LineEntry { line_id: hashed_key, text: Some(text.to_owned()) };
                self.line_entries[entry_index] = entry;
                proof {
                    assert(self.line_entries@ == before.update(entry_index as int, entry));
                    assert(self@.lines =~= old(self)@.lines.update(
                        entry_index as int,
                        LineView { line_id: hashed_key, text: Some(text@) },
                    ));
                    assert forall|i: int| 0 <= i < self@.lines.len() implies slot_consistent(
                        #[trigger] self@.lines[i],
                    ) by {
                        if i != entry_index {
                            assert(self@.lines[i] == old(self)@.lines[i]);
                        }
                    }
                }
                Ok(())
            },
        }
    }

    /// Adds `text` under `key`. The dictionary is left as it was where this
    /// fails.
    pub fn add_line_entry(&mut self, key: &str, text: &str) -> (r: Result<(), DctLineError>)
        requires
            old(self).wf(),
        ensures
            final(self).wf(),
            final(self)@.initial_hash_value == old(self)@.initial_hash_value,
            final(self)@.footer_entries == old(self)@.footer_entries,
            match lookup(old(self)@.lines, key_hash(key@, old(self)@.initial_hash_value)) {
                None => r matches Err(DctLineError::CapacityExceeded) && final(self)@.lines == old(self)@.lines,
                Some(i) => if old(self)@.lines[i].line_id == key_hash(
                    key@,
                    old(self)@.initial_hash_value,
                ) {
                    r matches Err(DctLineError::KeyAlreadyExists(k)) && k@ == key@ && final(self)@.lines == old(self)@.lines
                } else {
                    r is Ok && final(self)@.lines == old(self)@.lines.update(
                        i,
                        LineView {
                            line_id: key_hash(key@, old(self)@.initial_hash_value),
                            text: Some(text@),
                        },
                    )
                },
            },
    {
        let hashed_key: u32 = lookup2_hash(key.as_bytes(), self.initial_hash_value);
        self.add_hashed_entry(hashed_key, key, text)
    }

    /// The seed of the hash.
    pub fn get_initial_hash_value(&self) -> (seed: u32)
        ensures
            seed == self@.initial_hash_value,
    {
        self.initial_hash_value
    }

    /// The number of slots.
    pub fn get_max_capacity(&self) -> (capacity: u32)
        requires
            self.wf(),
        ensures
            capacity == self@.lines.len(),
    {
        self.line_entries.len() as u32
    }

    /// The number of slots that are not empty.
    pub fn get_current_capacity(&self) -> (used: u32)
        requires
            self.wf(),
        ensures
            used == used_slots(self@.lines),
    {
        let ghost lines = self@.lines;
        let mut used: u32 = 0;
        let mut i: usize = 0;
        while i < self.line_entries.len()
            invariant
                i <= self.line_entries@.len(),
                self.line_entries@.len() <= u32::MAX,
                lines == self@.lines,
                used == used_slots(lines.take(i as int)),
                used <= i,
            decreases self.line_entries.len() - i,
        {
            proof {
                assert(lines.take(i + 1).drop_last() =~= lines.take(i as int));
                assert(lines.take(i + 1).last() == lines[i as int]);
                assert(lines[i as int].line_id == self.line_entries@[i as int].line_id);
            }
            if self.line_entries[i].line_id != 0 {
                used = used + 1;
            }
            i = i + 1;
        }
        assert(lines.take(self.line_entries@.len() as int) =~= lines);
        used
    }

    /// An iteration over the slots that are not empty, in table order.
    pub fn iter_line_entries(&self) -> (iter: DctLineEntryIterator<'_>)
        ensures
            iter.map_view() == self@,
            iter.position() == 0,
            iter.wf() == self.wf(),
    {
        DctLineEntryIterator { dct_map: self, index: 0 }
    }
}

/// The table after one more text has been inserted behind the texts `acc`.
proof fn lemma_insert_one_more(acc: Seq<Seq<char>>, t: Seq<char>)
    ensures
        insert_all(Seq::empty(), acc.push(t)) == insert_unique(insert_all(Seq::empty(), acc), t),
{
    assert(acc.push(t).drop_last() =~= acc);
}

/// What `offsets` says of the pool: for each text its distance from the
/// start of the pool.
spec fn offsets_match(offsets: Seq<usize>, pool: Seq<Seq<char>>) -> bool {
    &&& offsets.len() == pool.len()
    &&& forall|j: int|
        0 <= j < pool.len() ==> (#[trigger] offsets[j]) == table_bytes(pool.take(j)).len()
            && offsets[j] < table_bytes(pool).len()
}

/// The absolute position of a text that the pool holds.
fn offset_of_text(pool: &Vec<String>, offsets: &Vec<usize>, base: u64, text: &str) -> (offset: u64)
    requires
        strings_view(pool@).contains(text@),
        offsets_match(offsets@, strings_view(pool@)),
        base + table_bytes(strings_view(pool@)).len() <= u32::MAX,
    ensures
        offset == text_offset(strings_view(pool@), base as nat, text@),
        base <= offset <= u32::MAX,
{
    match find_text(pool, text) {
        Some(index) => base + offsets[index] as u64,
        None => {
            proof {
                assert(false);
            }
            base
        },
    }
}

impl DctMap {
    /// The pool of the dictionary.
    fn collect_pool(&self) -> (pool: Vec<String>)
        requires
            self.wf(),
        ensures
            strings_view(pool@) == pool_of(self@),
    {
        let ghost lines = self@.lines;
        let ghost footers = self@.footer_entries;
        let mut pool: Vec<String> = Vec::new();
        let ghost mut acc: Seq<Seq<char>> = Seq::empty();
        assert(strings_view(pool@) =~= insert_all(Seq::empty(), acc));
        let mut i: usize = 0;
        while i < self.line_entries.len()
            invariant
                i <= self.line_entries@.len(),
                lines == self@.lines,
                strings_view(pool@) == insert_all(Seq::empty(), acc),
                acc == line_texts(lines.take(i as int)),
            decreases self.line_entries.len() - i,
        {
            let entry = &self.line_entries[i];
            proof {
                assert(lines[i as int] == entry.view());
                assert(lines.take(i + 1).drop_last() =~= lines.take(i as int));
                assert(lines.take(i + 1).last() == lines[i as int]);
            }
            if entry.line_id != 0 {
                match &entry.text {
                    Some(text) => {
                        insert_text(&mut pool, text.as_str());
                        proof {
                            lemma_insert_one_more(acc, text@);
                            acc = acc.push(text@);
                            assert(acc =~= line_texts(lines.take(i + 1)));
                        }
                    },
                    None => {},
                }
            }
            i = i + 1;
        }
        assert(lines.take(self.line_entries@.len() as int) =~= lines);
        let ghost lt = line_texts(lines);
        let mut f: usize = 0;
        assert(acc =~= lt + footer_texts(footers.take(0)));
        while f < self.footer_entries.len()
            invariant
                f <= self.footer_entries@.len(),
                footers == self@.footer_entries,
                lt == line_texts(self@.lines),
                strings_view(pool@) == insert_all(Seq::empty(), acc),
                acc == lt + footer_texts(footers.take(f as int)),
            decreases self.footer_entries.len() - f,
        {
            let footer = &self.footer_entries[f];
            let ghost done = acc;
            proof {
                assert(footers[f as int] == footer@);
                assert(footers.take(f + 1).drop_last() =~= footers.take(f as int));
                assert(footers.take(f + 1).last() == footers[f as int]);
            }
            insert_text(&mut pool, footer.text.as_str());
            proof {
                lemma_insert_one_more(acc, footer.text@);
                acc = acc.push(footer.text@);
            }
            let ghost subs = sub_texts(footer@.sub_entries);
            let mut j: usize = 0;
            assert(acc =~= done + seq![footer.text@] + subs.take(0));
            while j < footer.sub_entries.len()
                invariant
                    j <= footer.sub_entries@.len(),
                    subs == sub_texts(footer@.sub_entries),
                    strings_view(pool@) == insert_all(Seq::empty(), acc),
                    acc == done + seq![footer.text@] + subs.take(j as int),
                decreases footer.sub_entries.len() - j,
            {
                let sub = &footer.sub_entries[j];
                assert(subs[j as int] == sub.text@);
                insert_text(&mut pool, sub.text.as_str());
                proof {
                    lemma_insert_one_more(acc, sub.text@);
                    acc = acc.push(sub.text@);
                    assert(acc =~= done + seq![footer.text@] + subs.take(j + 1));
                }
                j = j + 1;
            }
            proof {
                assert(subs.take(footer.sub_entries@.len() as int) =~= subs);
                assert(acc =~= lt + footer_texts(footers.take(f + 1)));
            }
            f = f + 1;
        }
        assert(footers.take(self.footer_entries@.len() as int) =~= footers);
        pool
    }

    /// The number of bytes of the footer records, where 32 bits hold it.
    fn footer_chunk_size(&self) -> (size: Option<u64>)
        ensures
            match size {
                Some(n) => n == footer_size(self@.footer_entries) && n <= u32::MAX,
                None => footer_size(self@.footer_entries) > u32::MAX,
            },
    {
        let ghost footers = self@.footer_entries;
        let mut size: u64 = 0;
        let mut f: usize = 0;
        while f < self.footer_entries.len()
            invariant
                f <= self.footer_entries@.len(),
                footers == self@.footer_entries,
                size == footer_size(footers.take(f as int)),
                size <= u32::MAX,
            decreases self.footer_entries.len() - f,
        {
            let subs: usize = self.footer_entries[f].sub_entries.len();
            proof {
                assert(footers[f as int] == self.footer_entries@[f as int]@);
                assert(footers.take(f + 1).drop_last() =~= footers.take(f as int));
                assert(footers.take(f + 1).last() == footers[f as int]);
                lemma_footer_size_prefix(footers, f + 1);
            }
            if subs > u32::MAX as usize {
                return None;
            }
            size = size + 24 + 8 * subs as u64;
            if size > u32::MAX as u64 {
                return None;
            }
            f = f + 1;
        }
        assert(footers.take(self.footer_entries@.len() as int) =~= footers);
        Some(size)
    }

    /// Appends the line table.
    fn write_lines(&self, out: &mut Vec<u8>, pool: &Vec<String>, offsets: &Vec<usize>, base: u64)
        requires
            self.wf(),
            old(out)@.len() == 32,
            strings_view(pool@) == pool_of(self@),
            offsets_match(offsets@, strings_view(pool@)),
            base == pool_base(self@),
            file_size(self@) <= u32::MAX,
        ensures
            final(out)@ == old(out)@ + lines_bytes(
                self@.lines,
                32,
                pool_of(self@),
                pool_base(self@),
            ),
    {
        let ghost lines = self@.lines;
        let ghost pv = strings_view(pool@);
        let ghost b = base as nat;
        let mut i: usize = 0;
        assert(out@ =~= old(out)@ + lines_bytes(lines.take(0), 32, pv, b));
        while i < self.line_entries.len()
            invariant
                i <= self.line_entries@.len(),
                self.wf(),
                lines == self@.lines,
                pv == strings_view(pool@),
                pv == pool_of(self@),
                offsets_match(offsets@, pv),
                b == base,
                b == pool_base(self@),
                file_size(self@) <= u32::MAX,
                old(out)@.len() == 32,
                out@ == old(out)@ + lines_bytes(lines.take(i as int), 32, pv, b),
            decreases self.line_entries.len() - i,
        {
            let entry = &self.line_entries[i];
            proof {
                assert(lines[i as int] == entry.view());
                assert(slot_consistent(lines[i as int]));
                assert(lines.take(i + 1).drop_last() =~= lines.take(i as int));
                assert(lines.take(i + 1).last() == lines[i as int]);
                lemma_lines_bytes_len(lines.take(i as int), 32, pv, b);
            }
            let record = match &entry.text {
                Some(text) => {
                    proof {
                        lemma_line_texts_contains(lines, i as int);
                        let t = text@;
                        let k = choose|k: int|
                            0 <= k < line_texts(lines).len() && line_texts(lines)[k] == t;
                        assert(all_texts(self@)[k] == t);
                        lemma_insert_all_contains(Seq::empty(), all_texts(self@), t);
                    }
                    let offset: u64 = offset_of_text(pool, offsets, base, text.as_str());
                    BinDctLineEntry { line_id: entry.line_id, text_offset: Some(offset) }
                },
                None => BinDctLineEntry { line_id: 0, text_offset: None },
            };
            assert(record == bin_line(lines[i as int], pv, b));
            record.write_le(out);
            i = i + 1;
        }
        assert(lines.take(self.line_entries@.len() as int) =~= lines);
    }

    /// Appends the footer.
    fn write_footers(
        &self,
        out: &mut Vec<u8>,
        pool: &Vec<String>,
        offsets: &Vec<usize>,
        base: u64,
    )
        requires
            self.wf(),
            old(out)@.len() == footer_start(self@),
            strings_view(pool@) == pool_of(self@),
            offsets_match(offsets@, strings_view(pool@)),
            base == pool_base(self@),
            file_size(self@) <= u32::MAX,
        ensures
            final(out)@ == old(out)@ + footers_bytes(
                self@.footer_entries,
                footer_start(self@),
                pool_of(self@),
                pool_base(self@),
            ),
    {
        let ghost footers = self@.footer_entries;
        let ghost pv = strings_view(pool@);
        let ghost b = base as nat;
        let ghost start = footer_start(self@);
        let mut f: usize = 0;
        assert(out@ =~= old(out)@ + footers_bytes(footers.take(0), start, pv, b));
        while f < self.footer_entries.len()
            invariant
                f <= self.footer_entries@.len(),
                footers == self@.footer_entries,
                pv == strings_view(pool@),
                pv == pool_of(self@),
                offsets_match(offsets@, pv),
                b == base,
                b == pool_base(self@),
                start == footer_start(self@),
                file_size(self@) <= u32::MAX,
                old(out)@.len() == start,
                out@ == old(out)@ + footers_bytes(footers.take(f as int), start, pv, b),
            decreases self.footer_entries.len() - f,
        {
            let footer = &self.footer_entries[f];
            let ghost fv = footers[f as int];
            proof {
                assert(fv == footer@);
                assert(footers.take(f + 1).drop_last() =~= footers.take(f as int));
                assert(footers.take(f + 1).last() == fv);
                lemma_footers_bytes_len(footers.take(f as int), start, pv, b);
                lemma_footer_size_prefix(footers, f + 1);
                lemma_footer_texts_contains(footers, f as int);
                let lt = line_texts(self@.lines);
                let ft = footer_texts(footers);
                assert forall|t: Seq<char>| ft.contains(t) implies pv.contains(t) by {
                    let k = choose|k: int| 0 <= k < ft.len() && ft[k] == t;
                    assert(all_texts(self@)[lt.len() + k] == t);
                    lemma_insert_all_contains(Seq::empty(), all_texts(self@), t);
                }
            }
            let text_offset: u64 = offset_of_text(pool, offsets, base, footer.text.as_str());
            let mut sub_entries: Vec<BinDctFooterSubEntry> = Vec::new();
            let mut j: usize = 0;
            while j < footer.sub_entries.len()
                invariant
                    j <= footer.sub_entries@.len(),
                    fv == footer@,
                    pv == strings_view(pool@),
                    offsets_match(offsets@, pv),
                    b == base,
                    b + table_bytes(pv).len() <= u32::MAX,
                    forall|k: int|
                        0 <= k < fv.sub_entries.len() ==> pv.contains(
                            (#[trigger] fv.sub_entries[k]).text,
                        ),
                    sub_entries@ == bin_subs(fv.sub_entries, pv, b).take(j as int),
                decreases footer.sub_entries.len() - j,
            {
                let sub = &footer.sub_entries[j];
                assert(fv.sub_entries[j as int] == sub@);
                let offset: u64 = offset_of_text(pool, offsets, base, sub.text.as_str());
                sub_entries.push(BinDctFooterSubEntry { text_offset: offset, to_map_to: sub.to_map_to });
                assert(sub_entries@ =~= bin_subs(fv.sub_entries, pv, b).take(j + 1));
                j = j + 1;
            }
            assert(bin_subs(fv.sub_entries, pv, b).take(footer.sub_entries@.len() as int)
                =~= bin_subs(fv.sub_entries, pv, b));
            let record = BinDctFooterEntry { text_offset, sub_entries };
            assert(record@ == bin_footer(fv, pv, b));
            proof {
                let pos = out@.len();
                assert(pos == start + footer_size(footers.take(f as int)));
                assert(pos + 24 + 8 * fv.sub_entries.len() <= b);
                assert forall|k: int| 0 <= k < record@.sub_entries.len() implies (
                #[trigger] record@.sub_entries[k]).writable_at((pos + 8 + 8 * k) as nat) by {
                    let t = fv.sub_entries[k].text;
                    crate::text::lemma_first_index_of(pv, t);
                    let index = first_index_of(pv, t);
                    assert(offsets@[index] < table_bytes(pv).len());
                    let o = record@.sub_entries[k].text_offset;
                    assert(o == crate::indctive::layout::text_offset(pv, b, t));
                    assert(b <= o <= u32::MAX);
                }
            }
            record.write_le(out);
            f = f + 1;
        }
        assert(footers.take(self.footer_entries@.len() as int) =~= footers);
    }

    /// The file of the dictionary. It is an error where the file would be
    /// longer than 32-bit offsets can say.
    pub fn to_writer(&self) -> (r: Result<Vec<u8>, DctError>)
        requires
            self.wf(),
        ensures
            match r {
                Ok(bytes) => encodable(self@) && bytes@ == dct_bytes(self@),
                Err(e) => e == DctError::StructuralMismatch && !encodable(self@),
            },
    {
        let line_count: usize = self.line_entries.len();
        let footer_count: usize = self.footer_entries.len();
        let footer_chunk_size: u64 = match self.footer_chunk_size() {
            Some(size) => size,
            None => {
                return Err(DctError::StructuralMismatch);
            },
        };
        let line_chunk_size: u64 = 12 * line_count as u64;
        let base: u64 = 32 + line_chunk_size + footer_chunk_size;
        let pool: Vec<String> = self.collect_pool();
        let (pool_bytes, offsets) = encode_pool(&pool);
        if base > u32::MAX as u64 || pool_bytes.len() as u64 > u32::MAX as u64 - base {
            return Err(DctError::StructuralMismatch);
        }
        proof {
            assert(footer_size(self@.footer_entries) >= 24 * self@.footer_entries.len()) by {
                crate::indctive::dct_map_lemmas::lemma_footer_size_at_least(self@.footer_entries);
            }
        }
        let header = BinDctHeader {
            initial_hash_value: self.initial_hash_value,
            line_offset: 19,
            line_count: line_count as u32,
            footer_offset: (32 + line_chunk_size - 1) as u32,
            footer_count: footer_count as u32,
        };
        assert(header == header_of(self@));
        let mut out: Vec<u8> = Vec::new();
        header.write_le(&mut out);
        proof {
            crate::indctive::dct_map_lemmas::lemma_header_len(header);
        }
        self.write_lines(&mut out, &pool, &offsets, base);
        proof {
            lemma_lines_bytes_len(self@.lines, 32, pool_of(self@), pool_base(self@));
        }
        self.write_footers(&mut out, &pool, &offsets, base);
        out.extend_from_slice(pool_bytes.as_slice());
        assert(out@ =~= dct_bytes(self@));
        Ok(out)
    }
}

/// Reads the text that starts at `offset`.
fn read_cstring(bytes: &[u8], offset: u64) -> (r: Result<String, DctError>)
    ensures
        match r {
            Ok(s) => cstring_at(bytes@, offset) == Ok::<Seq<char>, DctError>(s@),
            Err(e) => cstring_at(bytes@, offset) == Err::<Seq<char>, DctError>(e),
        },
{
    if offset >= bytes.len() as u64 {
        return Err(DctError::StructuralMismatch);
    }
    let start: usize = offset as usize;
    let end: usize = find_nul(bytes, start);
    if end >= bytes.len() {
        return Err(DctError::UnexpectedEndOfStream);
    }
    Ok(string_from_utf8_lossy(&bytes[start..end]))
}

/// Reads the slot whose record stands at `pos`.
fn read_line(bytes: &[u8], pos: usize) -> (r: Result<LineEntry, DctError>)
    ensures
        match r {
            Ok(entry) => parse_line(bytes@, pos as nat) == Ok::<LineView, DctError>(entry.view()),
            Err(e) => parse_line(bytes@, pos as nat) == Err::<LineView, DctError>(e),
        },
{
    let record = match BinDctLineEntry::read_le(bytes, pos) {
        Ok(record) => record,
        Err(e) => {
            return Err(e);
        },
    };
    if record.line_id == 0 {
        return Ok(LineEntry { line_id: 0, text: None });
    }
    match record.text_offset {
        None => Err(DctError::StructuralMismatch),
        Some(offset) => match read_cstring(bytes, offset) {
            Ok(text) => Ok(LineEntry { line_id: record.line_id, text: Some(text) }),
            Err(e) => Err(e),
        },
    }
}

/// Reads the texts of the sub-records of a footer record.
fn read_sub_texts(bytes: &[u8], subs: &Vec<BinDctFooterSubEntry>) -> (r: Result<
    Vec<FooterSubEntry>,
    DctError,
>)
    ensures
        match r {
            Ok(entries) => resolve_subs(bytes@, subs@) == Ok::<Seq<FooterSubEntryView>, DctError>(
                Seq::new(entries@.len(), |i: int| entries@[i]@),
            ),
            Err(e) => resolve_subs(bytes@, subs@) == Err::<Seq<FooterSubEntryView>, DctError>(e),
        },
{
    let mut sub_entries: Vec<FooterSubEntry> = Vec::new();
    let mut j: usize = 0;
    assert(subs@.take(0) =~= Seq::<BinDctFooterSubEntry>::empty());
    assert(Seq::new(sub_entries@.len(), |i: int| sub_entries@[i]@) =~= Seq::<
        FooterSubEntryView,
    >::empty());
    while j < subs.len()
        invariant
            j <= subs@.len(),
            resolve_subs(bytes@, subs@.take(j as int)) == Ok::<Seq<FooterSubEntryView>, DctError>(
                Seq::new(sub_entries@.len(), |i: int| sub_entries@[i]@),
            ),
        decreases subs.len() - j,
    {
        let sub = &subs[j];
        let ghost before = Seq::new(sub_entries@.len(), |i: int| sub_entries@[i]@);
        proof {
            assert(subs@.take(j + 1).drop_last() =~= subs@.take(j as int));
            assert(subs@.take(j + 1).last() == subs@[j as int]);
        }
        match read_cstring(bytes, sub.text_offset) {
            Ok(sub_text) => {
                let entry = FooterSubEntry { text: sub_text, to_map_to: sub.to_map_to };
                sub_entries.push(entry);
                assert(Seq::new(sub_entries@.len(), |i: int| sub_entries@[i]@) =~= before.push(
                    entry@,
                ));
            },
            Err(e) => {
                proof {
                    lemma_resolve_subs_error(bytes@, subs@, j + 1);
                }
                return Err(e);
            },
        }
        j = j + 1;
    }
    assert(subs@.take(subs@.len() as int) =~= subs@);
    Ok(sub_entries)
}

/// Reads the footer record that stands at `pos`, with its texts.
fn read_footer(bytes: &[u8], pos: usize) -> (r: Result<FooterEntry, DctError>)
    ensures
        match r {
            Ok(entry) => parse_footer(bytes@, pos as nat) == Ok::<FooterEntryView, DctError>(
                entry@,
            ),
            Err(e) => parse_footer(bytes@, pos as nat) == Err::<FooterEntryView, DctError>(e),
        },
{
    let record = match BinDctFooterEntry::read_le(bytes, pos) {
        Ok(record) => record,
        Err(e) => {
            return Err(e);
        },
    };
    let text: String = match read_cstring(bytes, record.text_offset) {
        Ok(text) => text,
        Err(e) => {
            return Err(e);
        },
    };
    match read_sub_texts(bytes, &record.sub_entries) {
        Ok(sub_entries) => Ok(FooterEntry { text, sub_entries }),
        Err(e) => Err(e),
    }
}

/// Reads the `count` slots of the line table, which starts behind the
/// header.
fn read_lines(bytes: &[u8], count: u32) -> (r: Result<Vec<LineEntry>, DctError>)
    requires
        bytes.len() >= 32,
    ensures
        match r {
            Ok(entries) => parse_lines(bytes@, 32, count as nat) == Ok::<Seq<LineView>, DctError>(
                lines_view(entries@),
            ),
            Err(e) => parse_lines(bytes@, 32, count as nat) == Err::<Seq<LineView>, DctError>(e),
        },
{
    let mut line_entries: Vec<LineEntry> = Vec::new();
    let mut i: u32 = 0;
    let mut p: usize = 32;
    assert(lines_view(line_entries@) =~= Seq::<LineView>::empty());
    while i < count
        invariant
            i <= count,
            p == 32 + 12 * i,
            p <= bytes.len(),
            parse_lines(bytes@, 32, i as nat) == Ok::<Seq<LineView>, DctError>(
                lines_view(line_entries@),
            ),
        decreases count - i,
    {
        proof {
            lemma_parse_line_ok(bytes@, p as nat);
        }
        match read_line(bytes, p) {
            Ok(entry) => {
                let ghost before = lines_view(line_entries@);
                line_entries.push(entry);
                assert(lines_view(line_entries@) =~= before.push(entry.view()));
                assert(p + 12 <= bytes.len());
            },
            Err(e) => {
                proof {
                    lemma_parse_lines_error(bytes@, 32, (i + 1) as nat, count as nat);
                }
                return Err(e);
            },
        }
        p = p + 12;
        i = i + 1;
    }
    Ok(line_entries)
}

/// Reads the `count` footer records that start at `pos`.
fn read_footers(bytes: &[u8], pos: usize, count: u32) -> (r: Result<Vec<FooterEntry>, DctError>)
    requires
        pos <= bytes.len(),
    ensures
        match r {
            Ok(entries) => parse_footers(bytes@, pos as nat, count as nat) == Ok::<
                Seq<FooterEntryView>,
                DctError,
            >(footer_view(entries@)),
            Err(e) => parse_footers(bytes@, pos as nat, count as nat) == Err::<
                Seq<FooterEntryView>,
                DctError,
            >(e),
        },
{
    let mut footer_entries: Vec<FooterEntry> = Vec::new();
    let mut f: u32 = 0;
    let mut p: usize = pos;
    let ghost mut size: nat = 0;
    assert(footer_view(footer_entries@) =~= Seq::<FooterEntryView>::empty());
    while f < count
        invariant
            f <= count,
            size == footer_size(footer_view(footer_entries@)),
            p == pos + size,
            p <= bytes.len(),
            parse_footers(bytes@, pos as nat, f as nat) == Ok::<Seq<FooterEntryView>, DctError>(
                footer_view(footer_entries@),
            ),
        decreases count - f,
    {
        proof {
            lemma_parse_footer_ok(bytes@, p as nat);
        }
        match read_footer(bytes, p) {
            Ok(entry) => {
                let ghost before = footer_view(footer_entries@);
                assert(p + 24 + 8 * entry@.sub_entries.len() <= bytes.len());
                let step: usize = 24 + 8 * entry.sub_entries.len();
                footer_entries.push(entry);
                proof {
                    let after = footer_view(footer_entries@);
                    assert(after =~= before.push(entry@));
                    assert(after.drop_last() =~= before);
                    assert(after.last() == entry@);
                    size = size + 24 + 8 * entry@.sub_entries.len();
                }
                p = p + step;
            },
            Err(e) => {
                proof {
                    lemma_parse_footers_error(bytes@, pos as nat, (f + 1) as nat, count as nat);
                }
                return Err(e);
            },
        }
        f = f + 1;
    }
    Ok(footer_entries)
}

impl DctMap {
    /// Reads a dictionary from the bytes of a file. A record with the
    /// identifier 0 is read as an empty slot; a record with another
    /// identifier and no text is an error.
    pub fn from_reader(bytes: &[u8]) -> (r: Result<DctMap, DctError>)
        ensures
            match r {
                Ok(map) => map.wf() && dct_parse(bytes@) == Ok::<DctMapView, DctError>(map@),
                Err(e) => dct_parse(bytes@) == Err::<DctMapView, DctError>(e),
            },
    {
        let header = match BinDctHeader::read_le(bytes, 0) {
            Ok(header) => header,
            Err(e) => {
                return Err(e);
            },
        };
        assert(bytes.len() >= 32);
        let line_entries = match read_lines(bytes, header.line_count) {
            Ok(entries) => entries,
            Err(e) => {
                return Err(e);
            },
        };
        proof {
            crate::indctive::layout::lemma_parse_lines_len(
                bytes@,
                32,
                header.line_count as nat,
            );
        }
        let footer_pos: usize = 32 + 12 * line_entries.len();
        let footer_entries = match read_footers(bytes, footer_pos, header.footer_count) {
            Ok(entries) => entries,
            Err(e) => {
                return Err(e);
            },
        };
        Ok(DctMap { initial_hash_value: header.initial_hash_value, line_entries, footer_entries })
    }
}

/// An iteration over the slots of a dictionary that are not empty.
pub struct DctLineEntryIterator<'a> {
    dct_map: &'a DctMap,
    index: usize,
}

impl<'a> DctLineEntryIterator<'a> {
    /// The dictionary that is iterated over.
    pub closed spec fn map_view(&self) -> DctMapView {
        self.dct_map@
    }

    /// The slot at which the iteration goes on.
    pub closed spec fn position(&self) -> nat {
        self.index as nat
    }

    /// The dictionary that is iterated over is well-formed.
    pub closed spec fn wf(&self) -> bool {
        self.dct_map.wf()
    }

    /// The identifier and the text of the next slot that is not empty. The
    /// iteration ends before the last slot of the table.
    pub fn next(&mut self) -> (item: Option<(u32, &'a str)>)
        requires
            old(self).wf(),
        ensures
            final(self).map_view() == old(self).map_view(),
            final(self).wf(),
            match next_used(old(self).map_view().lines, old(self).position() as int) {
                Some(i) => item matches Some((id, text)) && id == old(self).map_view().lines[i].line_id && Some(text@) == old(self).map_view().lines[i].text
                    && final(self).position() == i + 1,
                None => item is None && final(self).position() == if old(self).position() + 1
                    >= old(self).map_view().lines.len() {
                    old(self).position()
                } else {
                    (old(self).map_view().lines.len() - 1) as nat
                },
            },
    {
        let capacity_map: usize = self.dct_map.line_entries.len();
        if capacity_map == 0 {
            return None;
        }
        let ghost lines = self.dct_map@.lines;
        loop
            invariant
                capacity_map == self.dct_map.line_entries@.len(),
                capacity_map > 0,
                lines == self.dct_map@.lines,
                self.dct_map == old(self).dct_map,
                self.dct_map.wf(),
                self.index >= old(self).index,
                self.index > old(self).index ==> self.index <= capacity_map - 1,
                next_used(lines, self.index as int) == next_used(lines, old(self).index as int),
            decreases capacity_map - self.index,
        {
            if self.index >= capacity_map - 1 {
                return None;
            }
            let entry = &self.dct_map.line_entries[self.index];
            assert(lines[self.index as int] == entry.view());
            self.index = self.index + 1;
            if entry.line_id != 0 {
                match &entry.text {
                    Some(text) => {
                        return Some((entry.line_id, text.as_str()));
                    },
                    None => {
                        assert(false);
                    },
                }
            }
        }
    }
}

} // verus!
