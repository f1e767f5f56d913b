//! A dictionary is read back from the file that it is written as.

use crate::endian::{
    lemma_int_bytes_len, lemma_int_value_of_bytes, lemma_pow256_values, lemma_starts_at_prefix,
    lemma_starts_at_split, lemma_starts_at_suffix, lemma_starts_at_within, starts_at, Endian,
};
use crate::indctive::bin_parser_writer::{parse_offset, relative_of, DctError};
use crate::indctive::bin_structure::{
    lemma_sub_entries_bytes_len, parse_sub_entries, sub_entries_bytes, word_at, word_bytes,
    BinDctFooterEntryView, BinDctFooterSubEntry, BinDctHeader, BinDctLineEntry, DICT_MAGIC,
    FOOTER_MAGIC, VERSION_MAGIC,
};
use crate::indctive::dct_map::{
    slot_consistent, DctMapView, FooterEntryView, FooterSubEntryView, LineView,
};
use crate::indctive::layout::{
    all_texts, bin_footer, bin_line, bin_subs, cstring_at, dct_bytes, dct_parse, encodable,
    footer_size, footer_start, footer_texts, footers_bytes, header_of, lemma_footer_size_prefix,
    lemma_footer_texts_contains, lemma_footers_bytes_len, lemma_line_texts_contains,
    lemma_lines_bytes_len, line_texts, lines_bytes, parse_footer, parse_footers, parse_line,
    parse_lines, pool_base, pool_of, resolve_subs, text_offset,
};
use crate::text::{
    bytes_of, first_index_of, lemma_first_index_of, lemma_insert_all_contains, lemma_nul_at_is,
    lemma_text_of_bytes_of, strings_clean, table_bytes,
};
use vstd::prelude::*;

verus! {

/// A word is read back from its four bytes.
pub proof fn lemma_word_at(bytes: Seq<u8>, pos: nat, k: nat, x: nat)
    requires
        starts_at(bytes, pos + 4 * k, word_bytes(x)),
        x <= u32::MAX,
    ensures
        word_at(bytes, pos, k) == Some(x as u32),
{
    lemma_int_bytes_len(x, 4, Endian::Little);
    lemma_pow256_values();
    lemma_int_value_of_bytes(x, 4, Endian::Little);
}

/// An offset field is read back as the absolute position that it was
/// written for.
pub proof fn lemma_parse_offset(bytes: Seq<u8>, pos: nat, absolute: Option<u64>)
    requires
        starts_at(bytes, pos, word_bytes(relative_of(absolute, pos) as nat)),
        0 <= relative_of(absolute, pos) <= u32::MAX,
        absolute matches Some(a) ==> a > pos + 1,
        pos < u32::MAX,
    ensures
        parse_offset(bytes, pos, Endian::Little) == Ok::<(Option<u64>, nat), DctError>(
            (absolute, pos + 4),
        ),
{
    let relative = relative_of(absolute, pos) as nat;
    lemma_int_bytes_len(relative, 4, Endian::Little);
    lemma_pow256_values();
    lemma_int_value_of_bytes(relative, 4, Endian::Little);
}

/// A header is read back from its bytes.
pub proof fn lemma_parse_header(bytes: Seq<u8>, header: BinDctHeader)
    requires
        starts_at(bytes, 0, header.bytes()),
    ensures
        BinDctHeader::parse(bytes, 0) == Ok::<BinDctHeader, DctError>(header),
{
    let e = Endian::Little;
    let w0 = word_bytes(DICT_MAGIC as nat);
    let w1 = word_bytes(VERSION_MAGIC as nat);
    let w2 = word_bytes(header.initial_hash_value as nat);
    let w3 = word_bytes(header.line_offset as nat);
    let w4 = word_bytes(header.line_count as nat);
    let w5 = word_bytes(1);
    let w6 = word_bytes(header.footer_offset as nat);
    let w7 = word_bytes(header.footer_count as nat);
    lemma_int_bytes_len(DICT_MAGIC as nat, 4, e);
    lemma_int_bytes_len(VERSION_MAGIC as nat, 4, e);
    lemma_int_bytes_len(header.initial_hash_value as nat, 4, e);
    lemma_int_bytes_len(header.line_offset as nat, 4, e);
    lemma_int_bytes_len(header.line_count as nat, 4, e);
    lemma_int_bytes_len(1, 4, e);
    lemma_int_bytes_len(header.footer_offset as nat, 4, e);
    lemma_int_bytes_len(header.footer_count as nat, 4, e);
    let all = header.bytes();
    assert(all.len() == 32);
    let head = bytes.subrange(0, 32);
    assert(head == all);
    assert(bytes.subrange(0, 4) =~= head.subrange(0, 4));
    assert(bytes.subrange(4, 8) =~= head.subrange(4, 8));
    assert(bytes.subrange(8, 12) =~= head.subrange(8, 12));
    assert(bytes.subrange(12, 16) =~= head.subrange(12, 16));
    assert(bytes.subrange(16, 20) =~= head.subrange(16, 20));
    assert(bytes.subrange(20, 24) =~= head.subrange(20, 24));
    assert(bytes.subrange(24, 28) =~= head.subrange(24, 28));
    assert(bytes.subrange(28, 32) =~= head.subrange(28, 32));
    assert(all.subrange(0, 4) =~= w0);
    assert(all.subrange(4, 8) =~= w1);
    assert(all.subrange(8, 12) =~= w2);
    assert(all.subrange(12, 16) =~= w3);
    assert(all.subrange(16, 20) =~= w4);
    assert(all.subrange(20, 24) =~= w5);
    assert(all.subrange(24, 28) =~= w6);
    assert(all.subrange(28, 32) =~= w7);
    lemma_word_at(bytes, 0, 0, DICT_MAGIC as nat);
    lemma_word_at(bytes, 0, 1, VERSION_MAGIC as nat);
    lemma_word_at(bytes, 0, 2, header.initial_hash_value as nat);
    lemma_word_at(bytes, 0, 3, header.line_offset as nat);
    lemma_word_at(bytes, 0, 4, header.line_count as nat);
    lemma_word_at(bytes, 0, 5, 1);
    lemma_word_at(bytes, 0, 6, header.footer_offset as nat);
    lemma_word_at(bytes, 0, 7, header.footer_count as nat);
}

/// A slot record is read back from its bytes.
pub proof fn lemma_parse_bin_line(bytes: Seq<u8>, pos: nat, record: BinDctLineEntry)
    requires
        starts_at(bytes, pos, record.bytes(pos)),
        record.writable_at(pos),
        record.text_offset matches Some(a) ==> a > pos + 5,
        pos + 12 <= u32::MAX,
    ensures
        BinDctLineEntry::parse(bytes, pos) == Ok::<BinDctLineEntry, DctError>(record),
{
    let e = Endian::Little;
    let id = word_bytes(record.line_id as nat);
    let offset = word_bytes(relative_of(record.text_offset, pos + 4) as nat);
    let zero = word_bytes(0);
    lemma_int_bytes_len(record.line_id as nat, 4, e);
    lemma_int_bytes_len(relative_of(record.text_offset, pos + 4) as nat, 4, e);
    lemma_int_bytes_len(0, 4, e);
    lemma_starts_at_split(bytes, pos, id + offset, zero);
    lemma_starts_at_split(bytes, pos, id, offset);
    lemma_word_at(bytes, pos, 0, record.line_id as nat);
    lemma_parse_offset(bytes, pos + 4, record.text_offset);
    lemma_word_at(bytes, pos, 2, 0);
}

/// A text is read back from where it stands with a NUL behind it.
pub proof fn lemma_cstring_at(bytes: Seq<u8>, offset: nat, text: Seq<char>)
    requires
        starts_at(bytes, offset, bytes_of(text) + seq![0u8]),
        !bytes_of(text).contains(0u8),
        offset <= u64::MAX,
    ensures
        cstring_at(bytes, offset as u64) == Ok::<Seq<char>, DctError>(text),
{
    let stored = bytes_of(text);
    lemma_starts_at_split(bytes, offset, stored, seq![0u8]);
    let end = offset + stored.len();
    assert(bytes[end as int] == 0) by {
        assert(bytes.subrange(end as int, (end + 1) as int)[0] == 0u8);
    }
    assert forall|j: int| offset <= j < end implies bytes[j] != 0 by {
        assert(bytes.subrange(offset as int, end as int)[j - offset] == stored[j - offset]);
        assert(stored.contains(stored[j - offset]));
    }
    lemma_nul_at_is(bytes, offset, end);
    lemma_text_of_bytes_of(text);
}

/// Each text of the pool stands in the bytes of the pool behind the texts
/// before it, with a NUL behind it.
pub proof fn lemma_pool_entry(pool: Seq<Seq<char>>, index: int)
    requires
        0 <= index < pool.len(),
    ensures
        starts_at(
            table_bytes(pool),
            table_bytes(pool.take(index)).len(),
            bytes_of(pool[index]) + seq![0u8],
        ),
    decreases pool.len(),
{
    let init = pool.drop_last();
    let own = bytes_of(pool.last()) + seq![0u8];
    assert(table_bytes(pool) =~= table_bytes(init) + own);
    if index == pool.len() - 1 {
        assert(pool.take(index) =~= init);
        lemma_starts_at_suffix(table_bytes(init), own);
    } else {
        lemma_pool_entry(init, index);
        assert(init.take(index) =~= pool.take(index));
        lemma_starts_at_prefix(
            table_bytes(init),
            own,
            table_bytes(pool.take(index)).len(),
            bytes_of(pool[index]) + seq![0u8],
        );
    }
}

/// What is known of a file while its parts are read back.
pub open spec fn laid_out(bytes: Seq<u8>, pool: Seq<Seq<char>>, base: nat) -> bool {
    &&& starts_at(bytes, base, table_bytes(pool))
    &&& base + table_bytes(pool).len() <= u32::MAX
    &&& strings_clean(pool)
}

/// A text of the pool is read back from the position that the records give
/// for it, and that position lies in the pool.
pub proof fn lemma_text_at_offset(bytes: Seq<u8>, pool: Seq<Seq<char>>, base: nat, text: Seq<char>)
    requires
        laid_out(bytes, pool, base),
        pool.contains(text),
    ensures
        base <= text_offset(pool, base, text) < base + table_bytes(pool).len(),
        cstring_at(bytes, text_offset(pool, base, text) as u64) == Ok::<Seq<char>, DctError>(
            text,
        ),
{
    lemma_first_index_of(pool, text);
    let index = first_index_of(pool, text);
    lemma_pool_entry(pool, index);
    let at = table_bytes(pool.take(index)).len();
    lemma_starts_at_within(bytes, base, table_bytes(pool), at, bytes_of(text) + seq![0u8]);
    assert(!pool[index].contains('\0'));
    crate::text::lemma_bytes_of_clean(text);
    lemma_cstring_at(bytes, base + at, text);
}

/// Each slot record stands in the bytes of the line table at twelve times
/// its index.
pub proof fn lemma_lines_bytes_entry(
    lines: Seq<LineView>,
    pos: nat,
    pool: Seq<Seq<char>>,
    base: nat,
    k: int,
)
    requires
        0 <= k < lines.len(),
    ensures
        starts_at(
            lines_bytes(lines, pos, pool, base),
            (12 * k) as nat,
            bin_line(lines[k], pool, base).bytes((pos + 12 * k) as nat),
        ),
    decreases lines.len(),
{
    let init = lines.drop_last();
    let own = bin_line(lines.last(), pool, base).bytes((pos + 12 * (lines.len() - 1)) as nat);
    lemma_lines_bytes_len(init, pos, pool, base);
    if k == lines.len() - 1 {
        lemma_starts_at_suffix(lines_bytes(init, pos, pool, base), own);
    } else {
        lemma_lines_bytes_entry(init, pos, pool, base, k);
        lemma_starts_at_prefix(
            lines_bytes(init, pos, pool, base),
            own,
            (12 * k) as nat,
            bin_line(lines[k], pool, base).bytes((pos + 12 * k) as nat),
        );
    }
}

/// The slots are read back from the line table.
pub proof fn lemma_parse_lines(
    bytes: Seq<u8>,
    lines: Seq<LineView>,
    pool: Seq<Seq<char>>,
    base: nat,
    k: int,
)
    requires
        0 <= k <= lines.len(),
        starts_at(bytes, 32, lines_bytes(lines, 32, pool, base)),
        laid_out(bytes, pool, base),
        32 + 12 * lines.len() <= base,
        forall|i: int| 0 <= i < lines.len() ==> slot_consistent(#[trigger] lines[i]),
        forall|i: int|
            0 <= i < lines.len() && (#[trigger] lines[i]).line_id != 0 ==> pool.contains(
                lines[i].text->0,
            ),
    ensures
        parse_lines(bytes, 32, k as nat) == Ok::<Seq<LineView>, DctError>(lines.take(k)),
    decreases k,
{
    if k == 0 {
        assert(lines.take(0) =~= Seq::<LineView>::empty());
    } else {
        lemma_parse_lines(bytes, lines, pool, base, k - 1);
        let line = lines[k - 1];
        let pos: nat = (32 + 12 * (k - 1)) as nat;
        let record = bin_line(line, pool, base);
        lemma_lines_bytes_entry(lines, 32, pool, base, k - 1);
        lemma_starts_at_within(
            bytes,
            32,
            lines_bytes(lines, 32, pool, base),
            (12 * (k - 1)) as nat,
            record.bytes(pos),
        );
        assert(slot_consistent(line));
        if line.line_id != 0 {
            lemma_text_at_offset(bytes, pool, base, line.text->0);
        }
        lemma_parse_bin_line(bytes, pos, record);
        assert(parse_line(bytes, pos) == Ok::<LineView, DctError>(line));
        assert(lines.take(k - 1).push(line) =~= lines.take(k));
    }
}

/// Each sub-record stands in the bytes of the sub-records at eight times
/// its index.
pub proof fn lemma_sub_entries_bytes_entry(subs: Seq<BinDctFooterSubEntry>, pos: nat, j: int)
    requires
        0 <= j < subs.len(),
    ensures
        starts_at(
            sub_entries_bytes(subs, pos),
            (8 * j) as nat,
            subs[j].bytes((pos + 8 * j) as nat),
        ),
    decreases subs.len(),
{
    let init = subs.drop_last();
    let own = subs.last().bytes((pos + 8 * (subs.len() - 1)) as nat);
    lemma_sub_entries_bytes_len(init, pos);
    if j == subs.len() - 1 {
        lemma_starts_at_suffix(sub_entries_bytes(init, pos), own);
    } else {
        lemma_sub_entries_bytes_entry(init, pos, j);
        lemma_starts_at_prefix(
            sub_entries_bytes(init, pos),
            own,
            (8 * j) as nat,
            subs[j].bytes((pos + 8 * j) as nat),
        );
    }
}

/// A sub-record is read back from its bytes.
pub proof fn lemma_parse_bin_sub(bytes: Seq<u8>, pos: nat, sub: BinDctFooterSubEntry)
    requires
        starts_at(bytes, pos, sub.bytes(pos)),
        sub.writable_at(pos),
        sub.text_offset > pos + 1,
        pos + 8 <= u32::MAX,
    ensures
        BinDctFooterSubEntry::parse(bytes, pos) == Ok::<BinDctFooterSubEntry, DctError>(sub),
{
    let e = Endian::Little;
    let offset = word_bytes(relative_of(Some(sub.text_offset), pos) as nat);
    let target = word_bytes(sub.to_map_to as nat);
    lemma_int_bytes_len(relative_of(Some(sub.text_offset), pos) as nat, 4, e);
    lemma_int_bytes_len(sub.to_map_to as nat, 4, e);
    lemma_starts_at_split(bytes, pos, offset, target);
    lemma_parse_offset(bytes, pos, Some(sub.text_offset));
    lemma_word_at(bytes, pos, 1, sub.to_map_to as nat);
}

/// The sub-records are read back from their bytes.
pub proof fn lemma_parse_bin_subs(
    bytes: Seq<u8>,
    pos: nat,
    subs: Seq<BinDctFooterSubEntry>,
    k: int,
)
    requires
        0 <= k <= subs.len(),
        starts_at(bytes, pos, sub_entries_bytes(subs, pos)),
        forall|j: int|
            0 <= j < subs.len() ==> (#[trigger] subs[j]).writable_at((pos + 8 * j) as nat)
                && subs[j].text_offset > pos + 8 * j + 1,
        pos + 8 * subs.len() <= u32::MAX,
    ensures
        parse_sub_entries(bytes, pos, k as nat) == Ok::<Seq<BinDctFooterSubEntry>, DctError>(
            subs.take(k),
        ),
    decreases k,
{
    if k == 0 {
        assert(subs.take(0) =~= Seq::<BinDctFooterSubEntry>::empty());
    } else {
        lemma_parse_bin_subs(bytes, pos, subs, k - 1);
        let at: nat = (pos + 8 * (k - 1)) as nat;
        lemma_sub_entries_bytes_entry(subs, pos, k - 1);
        lemma_starts_at_within(
            bytes,
            pos,
            sub_entries_bytes(subs, pos),
            (8 * (k - 1)) as nat,
            subs[k - 1].bytes(at),
        );
        assert(subs[k - 1].writable_at(at));
        lemma_parse_bin_sub(bytes, at, subs[k - 1]);
        assert(subs.take(k - 1).push(subs[k - 1]) =~= subs.take(k));
    }
}

/// A footer record is read back from its bytes.
pub proof fn lemma_parse_bin_footer(bytes: Seq<u8>, pos: nat, record: BinDctFooterEntryView)
    requires
        starts_at(bytes, pos, record.bytes(pos)),
        record.writable_at(pos),
        record.text_offset >= pos + record.size(),
        forall|j: int|
            0 <= j < record.sub_entries.len() ==> (#[trigger] record.sub_entries[j]).text_offset
                >= pos + record.size(),
        pos + record.size() <= u32::MAX,
    ensures
        BinDctFooterEntryView::parse(bytes, pos) == Ok::<BinDctFooterEntryView, DctError>(record),
{
    reveal(BinDctFooterEntryView::parse);
    let e = Endian::Little;
    let subs = record.sub_entries;
    let offset = word_bytes(relative_of(Some(record.text_offset), pos) as nat);
    let amount = word_bytes(subs.len());
    let middle = sub_entries_bytes(subs, pos + 8);
    let m0 = word_bytes(FOOTER_MAGIC as nat);
    let m1 = word_bytes(11);
    let m2 = word_bytes(12);
    let m3 = word_bytes(0);
    lemma_int_bytes_len(relative_of(Some(record.text_offset), pos) as nat, 4, e);
    lemma_int_bytes_len(subs.len(), 4, e);
    lemma_sub_entries_bytes_len(subs, pos + 8);
    lemma_int_bytes_len(FOOTER_MAGIC as nat, 4, e);
    lemma_int_bytes_len(11, 4, e);
    lemma_int_bytes_len(12, 4, e);
    lemma_int_bytes_len(0, 4, e);
    lemma_starts_at_split(bytes, pos, offset + amount + middle + m0 + m1 + m2, m3);
    lemma_starts_at_split(bytes, pos, offset + amount + middle + m0 + m1, m2);
    lemma_starts_at_split(bytes, pos, offset + amount + middle + m0, m1);
    lemma_starts_at_split(bytes, pos, offset + amount + middle, m0);
    lemma_starts_at_split(bytes, pos, offset + amount, middle);
    lemma_starts_at_split(bytes, pos, offset, amount);
    lemma_parse_offset(bytes, pos, Some(record.text_offset));
    lemma_word_at(bytes, pos, 1, subs.len());
    lemma_parse_bin_subs(bytes, pos + 8, subs, subs.len() as int);
    assert(subs.take(subs.len() as int) =~= subs);
    let tail: nat = pos + 8 + 8 * subs.len();
    lemma_word_at(bytes, tail, 0, FOOTER_MAGIC as nat);
    lemma_word_at(bytes, tail, 1, 11);
    lemma_word_at(bytes, tail, 2, 12);
    lemma_word_at(bytes, tail, 3, 0);
}

/// The texts of the sub-records are read back.
pub proof fn lemma_resolve_subs(
    bytes: Seq<u8>,
    pool: Seq<Seq<char>>,
    base: nat,
    subs: Seq<FooterSubEntryView>,
    k: int,
)
    requires
        0 <= k <= subs.len(),
        laid_out(bytes, pool, base),
        forall|j: int| 0 <= j < subs.len() ==> pool.contains((#[trigger] subs[j]).text),
    ensures
        resolve_subs(bytes, bin_subs(subs, pool, base).take(k)) == Ok::<
            Seq<FooterSubEntryView>,
            DctError,
        >(subs.take(k)),
    decreases k,
{
    let bins = bin_subs(subs, pool, base);
    if k == 0 {
        assert(bins.take(0) =~= Seq::<BinDctFooterSubEntry>::empty());
        assert(subs.take(0) =~= Seq::<FooterSubEntryView>::empty());
    } else {
        lemma_resolve_subs(bytes, pool, base, subs, k - 1);
        assert(bins.take(k).drop_last() =~= bins.take(k - 1));
        assert(bins.take(k).last() == bins[k - 1]);
        assert(pool.contains(subs[k - 1].text));
        lemma_text_at_offset(bytes, pool, base, subs[k - 1].text);
        assert(subs.take(k - 1).push(subs[k - 1]) =~= subs.take(k));
    }
}

/// Each footer record stands in the bytes of the footer behind the records
/// before it.
pub proof fn lemma_footers_bytes_entry(
    footers: Seq<FooterEntryView>,
    pos: nat,
    pool: Seq<Seq<char>>,
    base: nat,
    k: int,
)
    requires
        0 <= k < footers.len(),
    ensures
        starts_at(
            footers_bytes(footers, pos, pool, base),
            footer_size(footers.take(k)),
            bin_footer(footers[k], pool, base).bytes(pos + footer_size(footers.take(k))),
        ),
    decreases footers.len(),
{
    let init = footers.drop_last();
    let own = bin_footer(footers.last(), pool, base).bytes(pos + footer_size(init));
    lemma_footers_bytes_len(init, pos, pool, base);
    if k == footers.len() - 1 {
        assert(footers.take(k) =~= init);
        lemma_starts_at_suffix(footers_bytes(init, pos, pool, base), own);
    } else {
        lemma_footers_bytes_entry(init, pos, pool, base, k);
        assert(init.take(k) =~= footers.take(k));
        lemma_starts_at_prefix(
            footers_bytes(init, pos, pool, base),
            own,
            footer_size(footers.take(k)),
            bin_footer(footers[k], pool, base).bytes(pos + footer_size(footers.take(k))),
        );
    }
}

/// A footer record with its texts is read back from its bytes.
pub proof fn lemma_parse_footer_entry(
    bytes: Seq<u8>,
    pos: nat,
    entry: FooterEntryView,
    pool: Seq<Seq<char>>,
    base: nat,
)
    requires
        starts_at(bytes, pos, bin_footer(entry, pool, base).bytes(pos)),
        laid_out(bytes, pool, base),
        pos + 24 + 8 * entry.sub_entries.len() <= base,
        pool.contains(entry.text),
        forall|j: int|
            0 <= j < entry.sub_entries.len() ==> pool.contains(
                (#[trigger] entry.sub_entries[j]).text,
            ),
    ensures
        parse_footer(bytes, pos) == Ok::<FooterEntryView, DctError>(entry),
{
    let record = bin_footer(entry, pool, base);
    lemma_text_at_offset(bytes, pool, base, entry.text);
    assert forall|j: int| 0 <= j < record.sub_entries.len() implies base <= (
    #[trigger] record.sub_entries[j]).text_offset <= u32::MAX by {
        assert(pool.contains(entry.sub_entries[j].text));
        lemma_text_at_offset(bytes, pool, base, entry.sub_entries[j].text);
    }
    assert(record.writable_at(pos)) by {
        assert forall|j: int| 0 <= j < record.sub_entries.len() implies (
        #[trigger] record.sub_entries[j]).writable_at((pos + 8 + 8 * j) as nat) by {
            assert(base <= record.sub_entries[j].text_offset <= u32::MAX);
        }
    }
    lemma_parse_bin_footer(bytes, pos, record);
    lemma_resolve_subs(bytes, pool, base, entry.sub_entries, entry.sub_entries.len() as int);
    assert(record.sub_entries.take(entry.sub_entries.len() as int) =~= record.sub_entries);
    assert(entry.sub_entries.take(entry.sub_entries.len() as int) =~= entry.sub_entries);
}

/// The footer records are read back from the footer.
pub proof fn lemma_parse_footers(
    bytes: Seq<u8>,
    footers: Seq<FooterEntryView>,
    start: nat,
    pool: Seq<Seq<char>>,
    base: nat,
    k: int,
)
    requires
        0 <= k <= footers.len(),
        starts_at(bytes, start, footers_bytes(footers, start, pool, base)),
        laid_out(bytes, pool, base),
        start + footer_size(footers) <= base,
        forall|i: int| 0 <= i < footers.len() ==> pool.contains((#[trigger] footers[i]).text),
        forall|i: int, j: int|
            0 <= i < footers.len() && 0 <= j < footers[i].sub_entries.len() ==> pool.contains(
                (#[trigger] footers[i].sub_entries[j]).text,
            ),
    ensures
        parse_footers(bytes, start, k as nat) == Ok::<Seq<FooterEntryView>, DctError>(
            footers.take(k),
        ),
    decreases k,
{
    if k == 0 {
        assert(footers.take(0) =~= Seq::<FooterEntryView>::empty());
    } else {
        lemma_parse_footers(bytes, footers, start, pool, base, k - 1);
        let entry = footers[k - 1];
        let before = footers.take(k - 1);
        let pos = start + footer_size(before);
        let record = bin_footer(entry, pool, base);
        lemma_footers_bytes_entry(footers, start, pool, base, k - 1);
        lemma_starts_at_within(
            bytes,
            start,
            footers_bytes(footers, start, pool, base),
            footer_size(before),
            record.bytes(pos),
        );
        lemma_footer_size_prefix(footers, k);
        assert(footers.take(k).drop_last() =~= before);
        assert(footers.take(k).last() == entry);
        assert(pool.contains(footers[k - 1].text));
        assert forall|j: int| 0 <= j < entry.sub_entries.len() implies pool.contains(
            (#[trigger] entry.sub_entries[j]).text,
        ) by {
            assert(pool.contains(footers[k - 1].sub_entries[j].text));
        }
        lemma_parse_footer_entry(bytes, pos, entry, pool, base);
        assert(before.push(entry) =~= footers.take(k));
    }
}

/// The dictionary can be read back: every slot has a text exactly when it
/// has an identifier, and no text holds a NUL.
pub open spec fn round_trippable(map: DctMapView) -> bool {
    &&& forall|i: int| 0 <= i < map.lines.len() ==> slot_consistent(#[trigger] map.lines[i])
    &&& strings_clean(pool_of(map))
}

/// A dictionary that the format has room for and that can be read back is
/// read back from its file, with its slots in their places and with its
/// footer records.
pub proof fn lemma_parse_bytes(map: DctMapView)
    requires
        encodable(map),
        round_trippable(map),
    ensures
        dct_parse(dct_bytes(map)) == Ok::<DctMapView, DctError>(map),
{
    let pool = pool_of(map);
    let base = pool_base(map);
    let start = footer_start(map);
    let header = header_of(map);
    let head = header.bytes();
    let lines = lines_bytes(map.lines, 32, pool, base);
    let footers = footers_bytes(map.footer_entries, start, pool, base);
    let strings = table_bytes(pool);
    let bytes = dct_bytes(map);
    crate::indctive::dct_map_lemmas::lemma_header_len(header);
    lemma_lines_bytes_len(map.lines, 32, pool, base);
    lemma_footers_bytes_len(map.footer_entries, start, pool, base);
    crate::indctive::dct_map_lemmas::lemma_footer_size_at_least(map.footer_entries);
    assert(bytes =~= head + lines + footers + strings);
    lemma_starts_at_suffix(head + lines + footers, strings);
    lemma_starts_at_split(bytes, 0, head + lines, footers);
    lemma_starts_at_split(bytes, 0, head, lines);
    lemma_parse_header(bytes, header);
    assert(laid_out(bytes, pool, base));
    assert forall|i: int|
        0 <= i < map.lines.len() && (#[trigger] map.lines[i]).line_id != 0 implies pool.contains(
        map.lines[i].text->0,
    ) by {
        assert(slot_consistent(map.lines[i]));
        lemma_line_texts_contains(map.lines, i);
        let t = map.lines[i].text->0;
        let k = choose|k: int| 0 <= k < line_texts(map.lines).len() && line_texts(map.lines)[k]
            == t;
        assert(all_texts(map)[k] == t);
        lemma_insert_all_contains(Seq::empty(), all_texts(map), t);
    }
    let lt = line_texts(map.lines);
    let ft = footer_texts(map.footer_entries);
    assert forall|t: Seq<char>| ft.contains(t) implies pool.contains(t) by {
        let k = choose|k: int| 0 <= k < ft.len() && ft[k] == t;
        assert(all_texts(map)[lt.len() + k] == t);
        lemma_insert_all_contains(Seq::empty(), all_texts(map), t);
    }
    assert forall|i: int| 0 <= i < map.footer_entries.len() implies pool.contains(
        (#[trigger] map.footer_entries[i]).text,
    ) by {
        lemma_footer_texts_contains(map.footer_entries, i);
    }
    assert forall|i: int, j: int|
        0 <= i < map.footer_entries.len() && 0 <= j
            < map.footer_entries[i].sub_entries.len() implies pool.contains(
        (#[trigger] map.footer_entries[i].sub_entries[j]).text,
    ) by {
        lemma_footer_texts_contains(map.footer_entries, i);
    }
    lemma_parse_lines(bytes, map.lines, pool, base, map.lines.len() as int);
    assert(map.lines.take(map.lines.len() as int) =~= map.lines);
    lemma_parse_footers(
        bytes,
        map.footer_entries,
        start,
        pool,
        base,
        map.footer_entries.len() as int,
    );
    assert(map.footer_entries.take(map.footer_entries.len() as int) =~= map.footer_entries);
}

} // verus!
