//! Sizes of the parts of a dictionary file.

use crate::endian::{lemma_int_bytes_len, Endian};
use crate::indctive::bin_structure::{BinDctHeader, DICT_MAGIC, VERSION_MAGIC};
use crate::indctive::dct_map::FooterEntryView;
use crate::indctive::layout::footer_size;
use vstd::prelude::*;

verus! {

/// The header takes 32 bytes.
pub proof fn lemma_header_len(header: BinDctHeader)
    ensures
        header.bytes().len() == 32,
{
    let e = Endian::Little;
    lemma_int_bytes_len(DICT_MAGIC as nat, 4, e);
    lemma_int_bytes_len(VERSION_MAGIC as nat, 4, e);
    lemma_int_bytes_len(header.initial_hash_value as nat, 4, e);
    lemma_int_bytes_len(header.line_offset as nat, 4, e);
    lemma_int_bytes_len(header.line_count as nat, 4, e);
    lemma_int_bytes_len(1, 4, e);
    lemma_int_bytes_len(header.footer_offset as nat, 4, e);
    lemma_int_bytes_len(header.footer_count as nat, 4, e);
}

/// A footer takes at least 24 bytes for each of its records.
pub proof fn lemma_footer_size_at_least(footers: Seq<FooterEntryView>)
    ensures
        footer_size(footers) >= 24 * footers.len(),
    decreases footers.len(),
{
    if footers.len() > 0 {
        lemma_footer_size_at_least(footers.drop_last());
    }
}

} // verus!
