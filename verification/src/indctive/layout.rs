//! The layout of a dictionary file: header, line table, footer and one pool
//! of strings that all records share.

use crate::indctive::bin_parser_writer::DctError;
use crate::indctive::bin_structure::{
    BinDctFooterEntryView, BinDctFooterSubEntry, BinDctHeader, BinDctLineEntry,
};
use crate::indctive::dct_map::{
    empty_slot, DctMapView, FooterEntryView, FooterSubEntryView, LineView,
};
use crate::text::{first_index_of, insert_all, nul_at, table_bytes, text_of};
use vstd::prelude::*;

verus! {

/// The texts of the slots that are not empty, in table order.
pub open spec fn line_texts(lines: Seq<LineView>) -> Seq<Seq<char>>
    decreases lines.len(),
{
    if lines.len() == 0 {
        Seq::empty()
    } else {
        line_texts(lines.drop_last()) + match lines.last().text {
            Some(t) if lines.last().line_id != 0 => seq![t],
            _ => Seq::empty(),
        }
    }
}

/// The texts of the sub-records of a footer record, in order.
pub open spec fn sub_texts(subs: Seq<FooterSubEntryView>) -> Seq<Seq<char>> {
    Seq::new(subs.len(), |i: int| subs[i].text)
}

/// The texts of a footer record: its own and those of its sub-records.
pub open spec fn footer_entry_texts(entry: FooterEntryView) -> Seq<Seq<char>> {
    seq![entry.text] + sub_texts(entry.sub_entries)
}

/// The texts of the footer records, in order.
pub open spec fn footer_texts(footers: Seq<FooterEntryView>) -> Seq<Seq<char>>
    decreases footers.len(),
{
    if footers.len() == 0 {
        Seq::empty()
    } else {
        footer_texts(footers.drop_last()) + footer_entry_texts(footers.last())
    }
}

/// Every text of a dictionary in the order in which the file refers to them.
pub open spec fn all_texts(map: DctMapView) -> Seq<Seq<char>> {
    line_texts(map.lines) + footer_texts(map.footer_entries)
}

/// The pool of a dictionary: every text once, in the order of first use.
pub open spec fn pool_of(map: DctMapView) -> Seq<Seq<char>> {
    insert_all(Seq::empty(), all_texts(map))
}

/// The number of bytes of the footer records.
pub open spec fn footer_size(footers: Seq<FooterEntryView>) -> nat
    decreases footers.len(),
{
    if footers.len() == 0 {
        0
    } else {
        footer_size(footers.drop_last()) + 24 + 8 * footers.last().sub_entries.len()
    }
}

/// The position at which the footer starts.
pub open spec fn footer_start(map: DctMapView) -> nat {
    32 + 12 * map.lines.len()
}

/// The position at which the pool starts.
pub open spec fn pool_base(map: DctMapView) -> nat {
    footer_start(map) + footer_size(map.footer_entries)
}

/// The number of bytes of the whole file.
pub open spec fn file_size(map: DctMapView) -> nat {
    pool_base(map) + table_bytes(pool_of(map)).len()
}

/// The absolute position of a text of the pool.
pub open spec fn text_offset(pool: Seq<Seq<char>>, base: nat, text: Seq<char>) -> nat {
    base + table_bytes(pool.take(first_index_of(pool, text))).len()
}

/// The slot as the file holds it.
pub open spec fn bin_line(line: LineView, pool: Seq<Seq<char>>, base: nat) -> BinDctLineEntry {
    match line.text {
        Some(t) if line.line_id != 0 => BinDctLineEntry {
            line_id: line.line_id,
            text_offset: Some(text_offset(pool, base, t) as u64),
        },
        _ => BinDctLineEntry { line_id: 0, text_offset: None },
    }
}

/// The bytes of the slots of a line table that starts at `pos`.
pub open spec fn lines_bytes(lines: Seq<LineView>, pos: nat, pool: Seq<Seq<char>>, base: nat)
    -> Seq<u8>
    decreases lines.len(),
{
    if lines.len() == 0 {
        Seq::empty()
    } else {
        lines_bytes(lines.drop_last(), pos, pool, base) + bin_line(lines.last(), pool, base).bytes(
            (pos + 12 * (lines.len() - 1)) as nat,
        )
    }
}

/// The sub-records of a footer record as the file holds them.
pub open spec fn bin_subs(subs: Seq<FooterSubEntryView>, pool: Seq<Seq<char>>, base: nat) -> Seq<
    BinDctFooterSubEntry,
> {
    Seq::new(
        subs.len(),
        |i: int|
            BinDctFooterSubEntry {
                text_offset: text_offset(pool, base, subs[i].text) as u64,
                to_map_to: subs[i].to_map_to,
            },
    )
}

/// The footer record as the file holds it.
pub open spec fn bin_footer(entry: FooterEntryView, pool: Seq<Seq<char>>, base: nat)
    -> BinDctFooterEntryView {
    BinDctFooterEntryView {
        text_offset: text_offset(pool, base, entry.text) as u64,
        sub_entries: bin_subs(entry.sub_entries, pool, base),
    }
}

/// The bytes of the footer records of a footer that starts at `pos`.
pub open spec fn footers_bytes(
    footers: Seq<FooterEntryView>,
    pos: nat,
    pool: Seq<Seq<char>>,
    base: nat,
) -> Seq<u8>
    decreases footers.len(),
{
    if footers.len() == 0 {
        Seq::empty()
    } else {
        footers_bytes(footers.drop_last(), pos, pool, base) + bin_footer(
            footers.last(),
            pool,
            base,
        ).bytes(pos + footer_size(footers.drop_last()))
    }
}

/// The header of the file of a dictionary. The line offset is the constant
/// 19; the footer offset is one less than the position of the footer.
pub open spec fn header_of(map: DctMapView) -> BinDctHeader {
    BinDctHeader {
        initial_hash_value: map.initial_hash_value,
        line_offset: 19,
        line_count: map.lines.len() as u32,
        footer_offset: (footer_start(map) - 1) as u32,
        footer_count: map.footer_entries.len() as u32,
    }
}

/// The format has room for the dictionary: 32-bit offsets reach every byte
/// of the file.
pub open spec fn encodable(map: DctMapView) -> bool {
    file_size(map) <= u32::MAX
}

/// The file of a dictionary: header, line table, footer and pool.
pub open spec fn dct_bytes(map: DctMapView) -> Seq<u8> {
    let pool = pool_of(map);
    let base = pool_base(map);
    header_of(map).bytes() + lines_bytes(map.lines, 32, pool, base) + footers_bytes(
        map.footer_entries,
        footer_start(map),
        pool,
        base,
    ) + table_bytes(pool)
}

/// The text that starts at `offset` and ends before the next NUL.
pub open spec fn cstring_at(bytes: Seq<u8>, offset: u64) -> Result<Seq<char>, DctError> {
    if offset >= bytes.len() {
        Err(DctError::StructuralMismatch)
    } else if nul_at(bytes, offset as nat) >= bytes.len() {
        Err(DctError::UnexpectedEndOfStream)
    } else {
        Ok(text_of(bytes.subrange(offset as int, nul_at(bytes, offset as nat) as int)))
    }
}

/// The slot whose record stands at `pos`. A record with the identifier 0 is
/// an empty slot; any other record needs a text.
pub open spec fn parse_line(bytes: Seq<u8>, pos: nat) -> Result<LineView, DctError> {
    match BinDctLineEntry::parse(bytes, pos) {
        Err(e) => Err(e),
        Ok(record) => if record.line_id == 0 {
            Ok(empty_slot())
        } else {
            match record.text_offset {
                None => Err(DctError::StructuralMismatch),
                Some(offset) => match cstring_at(bytes, offset) {
                    Err(e) => Err(e),
                    Ok(text) => Ok(LineView { line_id: record.line_id, text: Some(text) }),
                },
            }
        },
    }
}

/// The `count` slots whose records start at `pos`.
pub open spec fn parse_lines(bytes: Seq<u8>, pos: nat, count: nat) -> Result<
    Seq<LineView>,
    DctError,
>
    decreases count,
{
    if count == 0 {
        Ok(Seq::empty())
    } else {
        match parse_lines(bytes, pos, (count - 1) as nat) {
            Err(e) => Err(e),
            Ok(init) => match parse_line(bytes, (pos + 12 * (count - 1)) as nat) {
                Err(e) => Err(e),
                Ok(line) => Ok(init.push(line)),
            },
        }
    }
}

/// The sub-records with their texts.
pub open spec fn resolve_subs(bytes: Seq<u8>, subs: Seq<BinDctFooterSubEntry>) -> Result<
    Seq<FooterSubEntryView>,
    DctError,
>
    decreases subs.len(),
{
    if subs.len() == 0 {
        Ok(Seq::empty())
    } else {
        match resolve_subs(bytes, subs.drop_last()) {
            Err(e) => Err(e),
            Ok(init) => match cstring_at(bytes, subs.last().text_offset) {
                Err(e) => Err(e),
                Ok(text) => Ok(
                    init.push(FooterSubEntryView { text, to_map_to: subs.last().to_map_to }),
                ),
            },
        }
    }
}

/// The footer record that stands at `pos`, with its texts.
pub open spec fn parse_footer(bytes: Seq<u8>, pos: nat) -> Result<FooterEntryView, DctError> {
    match BinDctFooterEntryView::parse(bytes, pos) {
        Err(e) => Err(e),
        Ok(record) => match cstring_at(bytes, record.text_offset) {
            Err(e) => Err(e),
            Ok(text) => match resolve_subs(bytes, record.sub_entries) {
                Err(e) => Err(e),
                Ok(sub_entries) => Ok(FooterEntryView { text, sub_entries }),
            },
        },
    }
}

/// The `count` footer records that start at `pos`.
pub open spec fn parse_footers(bytes: Seq<u8>, pos: nat, count: nat) -> Result<
    Seq<FooterEntryView>,
    DctError,
>
    decreases count,
{
    if count == 0 {
        Ok(Seq::empty())
    } else {
        match parse_footers(bytes, pos, (count - 1) as nat) {
            Err(e) => Err(e),
            Ok(init) => match parse_footer(bytes, pos + footer_size(init)) {
                Err(e) => Err(e),
                Ok(entry) => Ok(init.push(entry)),
            },
        }
    }
}

/// The dictionary that a file holds, or why it holds none.
pub open spec fn dct_parse(bytes: Seq<u8>) -> Result<DctMapView, DctError> {
    match BinDctHeader::parse(bytes, 0) {
        Err(e) => Err(e),
        Ok(header) => match parse_lines(bytes, 32, header.line_count as nat) {
            Err(e) => Err(e),
            Ok(lines) => match parse_footers(
                bytes,
                32 + 12 * header.line_count as nat,
                header.footer_count as nat,
            ) {
                Err(e) => Err(e),
                Ok(footer_entries) => Ok(
                    DctMapView {
                        initial_hash_value: header.initial_hash_value,
                        lines,
                        footer_entries,
                    },
                ),
            },
        },
    }
}

/// An error among the first `k` slots is the error of every longer run.
pub proof fn lemma_parse_lines_error(bytes: Seq<u8>, pos: nat, k: nat, count: nat)
    requires
        k <= count,
        parse_lines(bytes, pos, k) is Err,
    ensures
        parse_lines(bytes, pos, count) == parse_lines(bytes, pos, k),
    decreases count,
{
    if k < count {
        lemma_parse_lines_error(bytes, pos, k, (count - 1) as nat);
    }
}

/// An error among the first `k` footer records is the error of every longer
/// run.
pub proof fn lemma_parse_footers_error(bytes: Seq<u8>, pos: nat, k: nat, count: nat)
    requires
        k <= count,
        parse_footers(bytes, pos, k) is Err,
    ensures
        parse_footers(bytes, pos, count) == parse_footers(bytes, pos, k),
    decreases count,
{
    if k < count {
        lemma_parse_footers_error(bytes, pos, k, (count - 1) as nat);
    }
}

/// The first footer records take at most as many bytes as all.
pub proof fn lemma_footer_size_prefix(footers: Seq<FooterEntryView>, k: int)
    requires
        0 <= k <= footers.len(),
    ensures
        footer_size(footers.take(k)) <= footer_size(footers),
    decreases footers.len(),
{
    if k < footers.len() {
        lemma_footer_size_prefix(footers.drop_last(), k);
        assert(footers.drop_last().take(k) =~= footers.take(k));
    } else {
        assert(footers.take(k) =~= footers);
    }
}

/// The text of a slot that is not empty is among the texts of the table.
pub proof fn lemma_line_texts_contains(lines: Seq<LineView>, i: int)
    requires
        0 <= i < lines.len(),
        lines[i].line_id != 0,
        lines[i].text is Some,
    ensures
        line_texts(lines).contains(lines[i].text->0),
    decreases lines.len(),
{
    let init = line_texts(lines.drop_last());
    let all = line_texts(lines);
    if i == lines.len() - 1 {
        assert(all[init.len() as int] == lines[i].text->0);
    } else {
        lemma_line_texts_contains(lines.drop_last(), i);
        let k = choose|k: int| 0 <= k < init.len() && init[k] == lines[i].text->0;
        assert(all[k] == init[k]);
    }
}

/// The texts of a footer record are among the texts of the footer.
pub proof fn lemma_footer_texts_contains(footers: Seq<FooterEntryView>, i: int)
    requires
        0 <= i < footers.len(),
    ensures
        footer_texts(footers).contains(footers[i].text),
        forall|j: int|
            0 <= j < footers[i].sub_entries.len() ==> footer_texts(footers).contains(
                (#[trigger] footers[i].sub_entries[j]).text,
            ),
    decreases footers.len(),
{
    let init = footer_texts(footers.drop_last());
    let all = footer_texts(footers);
    if i == footers.len() - 1 {
        let own = footer_entry_texts(footers[i]);
        assert(all[init.len() as int] == own[0]);
        assert forall|j: int| 0 <= j < footers[i].sub_entries.len() implies all.contains(
            (#[trigger] footers[i].sub_entries[j]).text,
        ) by {
            assert(all[init.len() + 1 + j] == own[1 + j]);
        }
    } else {
        lemma_footer_texts_contains(footers.drop_last(), i);
        let k = choose|k: int| 0 <= k < init.len() && init[k] == footers[i].text;
        assert(all[k] == init[k]);
        assert forall|j: int| 0 <= j < footers[i].sub_entries.len() implies all.contains(
            (#[trigger] footers[i].sub_entries[j]).text,
        ) by {
            let t = footers[i].sub_entries[j].text;
            assert(init.contains(t));
            let m = choose|m: int| 0 <= m < init.len() && init[m] == t;
            assert(all[m] == init[m]);
        }
    }
}

/// A slot takes 12 bytes.
pub proof fn lemma_line_bytes_len(record: BinDctLineEntry, pos: nat)
    ensures
        record.bytes(pos).len() == 12,
{
    crate::endian::lemma_int_bytes_len(record.line_id as nat, 4, crate::endian::Endian::Little);
    crate::endian::lemma_int_bytes_len(
        crate::indctive::bin_parser_writer::relative_of(record.text_offset, pos + 4) as nat,
        4,
        crate::endian::Endian::Little,
    );
    crate::endian::lemma_int_bytes_len(0, 4, crate::endian::Endian::Little);
}

/// A footer record takes 24 bytes and 8 for each of its sub-records.
pub proof fn lemma_footer_bytes_len(record: BinDctFooterEntryView, pos: nat)
    ensures
        record.bytes(pos).len() == 24 + 8 * record.sub_entries.len(),
{
    let e = crate::endian::Endian::Little;
    crate::endian::lemma_int_bytes_len(
        crate::indctive::bin_parser_writer::relative_of(Some(record.text_offset), pos) as nat,
        4,
        e,
    );
    crate::endian::lemma_int_bytes_len(record.sub_entries.len(), 4, e);
    crate::indctive::bin_structure::lemma_sub_entries_bytes_len(record.sub_entries, pos + 8);
    crate::endian::lemma_int_bytes_len(crate::indctive::bin_structure::FOOTER_MAGIC as nat, 4, e);
    crate::endian::lemma_int_bytes_len(11, 4, e);
    crate::endian::lemma_int_bytes_len(12, 4, e);
    crate::endian::lemma_int_bytes_len(0, 4, e);
}

/// The line table takes twelve bytes for each slot.
pub proof fn lemma_lines_bytes_len(lines: Seq<LineView>, pos: nat, pool: Seq<Seq<char>>, base: nat)
    ensures
        lines_bytes(lines, pos, pool, base).len() == 12 * lines.len(),
    decreases lines.len(),
{
    if lines.len() > 0 {
        lemma_lines_bytes_len(lines.drop_last(), pos, pool, base);
        lemma_line_bytes_len(
            bin_line(lines.last(), pool, base),
            (pos + 12 * (lines.len() - 1)) as nat,
        );
    }
}

/// The footer takes as many bytes as its records say.
pub proof fn lemma_footers_bytes_len(
    footers: Seq<FooterEntryView>,
    pos: nat,
    pool: Seq<Seq<char>>,
    base: nat,
)
    ensures
        footers_bytes(footers, pos, pool, base).len() == footer_size(footers),
    decreases footers.len(),
{
    if footers.len() > 0 {
        lemma_footers_bytes_len(footers.drop_last(), pos, pool, base);
        lemma_footer_bytes_len(
            bin_footer(footers.last(), pool, base),
            pos + footer_size(footers.drop_last()),
        );
    }
}

/// An error among the texts of the first `k` sub-records is the error of all.
pub proof fn lemma_resolve_subs_error(bytes: Seq<u8>, subs: Seq<BinDctFooterSubEntry>, k: int)
    requires
        0 <= k <= subs.len(),
        resolve_subs(bytes, subs.take(k)) is Err,
    ensures
        resolve_subs(bytes, subs) == resolve_subs(bytes, subs.take(k)),
    decreases subs.len(),
{
    if k < subs.len() {
        assert(subs.drop_last().take(k) =~= subs.take(k));
        lemma_resolve_subs_error(bytes, subs.drop_last(), k);
    } else {
        assert(subs.take(k) =~= subs);
    }
}

/// A slot that was read lies inside the input and is consistent.
pub proof fn lemma_parse_line_ok(bytes: Seq<u8>, pos: nat)
    ensures
        match parse_line(bytes, pos) {
            Ok(line) => pos + 12 <= bytes.len() && (line.line_id == 0 <==> line.text is None),
            Err(_) => true,
        },
{
}

/// A footer record that was read lies inside the input.
pub proof fn lemma_parse_footer_ok(bytes: Seq<u8>, pos: nat)
    ensures
        match parse_footer(bytes, pos) {
            Ok(entry) => pos + 24 + 8 * entry.sub_entries.len() <= bytes.len(),
            Err(_) => true,
        },
{
    reveal(BinDctFooterEntryView::parse);
    match BinDctFooterEntryView::parse(bytes, pos) {
        Err(e) => {},
        Ok(record) => {
            let amount = crate::indctive::bin_structure::word_at(bytes, pos, 1)->0;
            crate::indctive::bin_structure::lemma_parse_sub_entries_len(
                bytes,
                pos + 8,
                amount as nat,
            );
            lemma_resolve_subs_len(bytes, record.sub_entries);
        },
    }
}

/// There are as many sub-records with texts as without.
pub proof fn lemma_resolve_subs_len(bytes: Seq<u8>, subs: Seq<BinDctFooterSubEntry>)
    ensures
        match resolve_subs(bytes, subs) {
            Ok(views) => views.len() == subs.len(),
            Err(_) => true,
        },
    decreases subs.len(),
{
    if subs.len() > 0 {
        lemma_resolve_subs_len(bytes, subs.drop_last());
    }
}

/// Slots that were read are as many as were asked for, lie inside the input
/// and are consistent.
pub proof fn lemma_parse_lines_len(bytes: Seq<u8>, pos: nat, count: nat)
    ensures
        match parse_lines(bytes, pos, count) {
            Ok(lines) => lines.len() == count && (count > 0 ==> pos + 12 * count <= bytes.len())
                && forall|i: int|
                0 <= i < count ==> ((#[trigger] lines[i]).line_id == 0 <==> lines[i].text is None),
            Err(_) => true,
        },
    decreases count,
{
    if count > 0 {
        lemma_parse_lines_len(bytes, pos, (count - 1) as nat);
        lemma_parse_line_ok(bytes, (pos + 12 * (count - 1)) as nat);
    }
}

/// Footer records that were read are as many as were asked for, and lie
/// inside the input.
pub proof fn lemma_parse_footers_len(bytes: Seq<u8>, pos: nat, count: nat)
    ensures
        match parse_footers(bytes, pos, count) {
            Ok(footers) => footers.len() == count && (count > 0 ==> pos + footer_size(footers)
                <= bytes.len()),
            Err(_) => true,
        },
    decreases count,
{
    if count > 0 {
        lemma_parse_footers_len(bytes, pos, (count - 1) as nat);
        match parse_footers(bytes, pos, (count - 1) as nat) {
            Ok(init) => {
                lemma_parse_footer_ok(bytes, pos + footer_size(init));
                match parse_footer(bytes, pos + footer_size(init)) {
                    Ok(entry) => {
                        assert(init.push(entry).drop_last() =~= init);
                    },
                    Err(_) => {},
                }
            },
            Err(_) => {},
        }
    }
}

} // verus!
