//! A pair of dictionaries that belong together: one maps the keys to
//! themselves, the other maps them to the texts of a language.

use crate::indctive::dct_map::{
    empty_slot, footer_view, key_hash, lookup, next_used, DctLineError, DctMap, DctMapView,
    FooterEntry, FooterSubEntry, LineView,
};
use vstd::prelude::*;
use vstd::string::*;

verus! {

/// A key with its text in a language, if it has one.
#[derive(Debug, PartialEq)]
pub struct Translation {
    pub key: String,
    pub text: Option<String>,
}

/// The mathematical value of a [`Translation`].
pub struct TranslationView {
    pub key: Seq<char>,
    pub text: Option<Seq<char>>,
}

impl View for Translation {
    type V = TranslationView;

    open spec fn view(&self) -> TranslationView {
        TranslationView {
            key: self.key@,
            text: match self.text {
                Some(t) => Some(t@),
                None => None,
            },
        }
    }
}

/// The views of the translations of a sequence.
pub open spec fn translations_view(v: Seq<Translation>) -> Seq<TranslationView> {
    Seq::new(v.len(), |i: int| v[i]@)
}

/// The slots from `index` on that an iteration over the table yields: the
/// used slots in table order, without the last slot of the table.
pub open spec fn used_from(lines: Seq<LineView>, index: int) -> Seq<int>
    decreases lines.len() - index,
{
    if index < 0 || index >= lines.len() - 1 {
        Seq::empty()
    } else if lines[index].line_id != 0 {
        seq![index] + used_from(lines, index + 1)
    } else {
        used_from(lines, index + 1)
    }
}

/// The text that a dictionary has for a key.
pub open spec fn text_of_key(map: DctMapView, key: Seq<char>) -> Option<Seq<char>> {
    match lookup(map.lines, key_hash(key, map.initial_hash_value)) {
        Some(i) if map.lines[i].line_id != 0 => map.lines[i].text,
        _ => None,
    }
}

/// The translation of the key that a slot of the dictionary of keys holds.
pub open spec fn translation_of(lang: DctMapView, keys: DctMapView, slot: int) -> TranslationView {
    TranslationView { key: keys.lines[slot].text->0, text: text_of_key(lang, keys.lines[slot].text->0) }
}

/// The translations of the keys of the given slots, in order.
pub open spec fn translations_of(lang: DctMapView, keys: DctMapView, slots: Seq<int>) -> Seq<
    TranslationView,
> {
    Seq::new(slots.len(), |k: int| translation_of(lang, keys, slots[k]))
}

/// What the iteration yields next is the first of the slots that it yields.
pub proof fn lemma_used_from_next(lines: Seq<LineView>, index: int)
    requires
        0 <= index,
    ensures
        match next_used(lines, index) {
            Some(i) => index <= i < lines.len() && used_from(lines, index) == seq![i] + used_from(
                lines,
                i + 1,
            ),
            None => used_from(lines, index) == Seq::<int>::empty(),
        },
    decreases lines.len() - index,
{
    if index < lines.len() - 1 && lines[index].line_id == 0 {
        lemma_used_from_next(lines, index + 1);
    }
}

/// The keys that the dictionary of keys yields, each with the text that the
/// dictionary of the language has for it.
pub fn translations(lang: &DctMap, stringids: &DctMap) -> (list: Vec<Translation>)
    requires
        lang.wf(),
        stringids.wf(),
    ensures
        translations_view(list@) == translations_of(
            lang@,
            stringids@,
            used_from(stringids@.lines, 0),
        ),
{
    let ghost lines = stringids@.lines;
    let ghost all = used_from(lines, 0);
    let mut list: Vec<Translation> = Vec::new();
    let mut iter = stringids.iter_line_entries();
    let ghost mut done: Seq<int> = Seq::empty();
    assert(translations_view(list@) =~= translations_of(lang@, stringids@, done));
    assert(done + used_from(lines, 0) =~= all);
    loop
        invariant
            lang.wf(),
            iter.wf(),
            iter.map_view() == stringids@,
            lines == stringids@.lines,
            all == used_from(lines, 0),
            done + used_from(lines, iter.position() as int) == all,
            translations_view(list@) == translations_of(lang@, stringids@, done),
        decreases lines.len() - iter.position(),
    {
        let ghost index = iter.position() as int;
        proof {
            lemma_used_from_next(lines, index);
        }
        match iter.next() {
            Some((_, translation_key)) => {
                let text: Option<String> = match lang.get_line_entry(translation_key) {
                    Ok(text) => Some(text.to_owned()),
                    Err(_) => None,
                };
                let translation = Translation { key: translation_key.to_owned(), text };
                let ghost before = translations_view(list@);
                let ghost slot = next_used(lines, index)->0;
                assert(translation@ == translation_of(lang@, stringids@, slot));
                list.push(translation);
                proof {
                    assert(translations_view(list@) =~= before.push(translation@));
                    assert(done.push(slot) + used_from(lines, slot + 1) =~= done + (seq![slot]
                        + used_from(lines, slot + 1)));
                    done = done.push(slot);
                    assert(translations_view(list@) =~= translations_of(lang@, stringids@, done));
                }
            },
            None => {
                proof {
                    assert(done + Seq::<int>::empty() =~= done);
                }
                return list;
            },
        }
    }
}

/// A copy of footer records.
pub fn copy_footer_entries(footer_entries: &Vec<FooterEntry>) -> (copy: Vec<FooterEntry>)
    ensures
        footer_view(copy@) == footer_view(footer_entries@),
{
    let mut copy: Vec<FooterEntry> = Vec::new();
    let mut i: usize = 0;
    assert(footer_view(copy@) =~= footer_view(footer_entries@).take(0));
    while i < footer_entries.len()
        invariant
            i <= footer_entries.len(),
            footer_view(copy@) == footer_view(footer_entries@).take(i as int),
        decreases footer_entries.len() - i,
    {
        let entry = &footer_entries[i];
        let mut sub_entries: Vec<FooterSubEntry> = Vec::new();
        let mut j: usize = 0;
        while j < entry.sub_entries.len()
            invariant
                j <= entry.sub_entries.len(),
                sub_entries@.len() == j,
                forall|k: int| 0 <= k < j ==> (#[trigger] sub_entries@[k])@ == entry.sub_entries@[k]@,
            decreases entry.sub_entries.len() - j,
        {
            let sub = &entry.sub_entries[j];
            sub_entries.push(FooterSubEntry { text: sub.text.clone(), to_map_to: sub.to_map_to });
            j = j + 1;
        }
        let copied = FooterEntry { text: entry.text.clone(), sub_entries };
        assert(copied@.sub_entries =~= entry@.sub_entries);
        let ghost before = footer_view(copy@);
        copy.push(copied);
        assert(footer_view(copy@) =~= before.push(copied@));
        assert(footer_view(copy@) =~= footer_view(footer_entries@).take(i + 1));
        i = i + 1;
    }
    assert(footer_view(footer_entries@).take(footer_entries.len() as int) =~= footer_view(
        footer_entries@,
    ));
    copy
}

/// Why a text cannot be added to a dictionary.
pub enum Refusal {
    /// A slot holds the hash of the key already.
    KeyAlreadyExists(Seq<char>),
    /// Every slot on the way of the key is taken by another key.
    CapacityExceeded,
}

/// The error says why the text could not be added.
pub open spec fn refused_as(e: DctLineError, refusal: Refusal) -> bool {
    match refusal {
        Refusal::KeyAlreadyExists(key) => e matches DctLineError::KeyAlreadyExists(k) && k@ == key,
        Refusal::CapacityExceeded => e is CapacityExceeded,
    }
}

/// The slots after `text` has been added under `key`, or why it cannot be
/// added: a slot holds the hash of the key already, or every slot on its
/// way is taken.
pub open spec fn added(lines: Seq<LineView>, seed: u32, key: Seq<char>, text: Seq<char>) -> Result<
    Seq<LineView>,
    Refusal,
> {
    let hash = key_hash(key, seed);
    match lookup(lines, hash) {
        None => Err(Refusal::CapacityExceeded),
        Some(i) => if lines[i].line_id == hash {
            Err(Refusal::KeyAlreadyExists(key))
        } else {
            Ok(lines.update(i, LineView { line_id: hash, text: Some(text) }))
        },
    }
}

/// The slots of the dictionary of keys and of the dictionary of the
/// language after the first `count` translations have been added: each key
/// first to the dictionary of keys, then with its text to the dictionary of
/// the language. Where one cannot be added, the result says why the first
/// such could not.
pub open spec fn packed(
    keys: Seq<LineView>,
    lang: Seq<LineView>,
    seed: u32,
    list: Seq<TranslationView>,
    count: nat,
) -> Result<(Seq<LineView>, Seq<LineView>), Refusal>
    decreases count,
{
    if count == 0 {
        Ok((keys, lang))
    } else {
        match packed(keys, lang, seed, list, (count - 1) as nat) {
            Err(refusal) => Err(refusal),
            Ok((k, l)) => {
                let item = list[count - 1];
                match added(k, seed, item.key, item.key) {
                    Err(refusal) => Err(refusal),
                    Ok(k2) => match item.text {
                        None => Ok((k2, l)),
                        Some(text) => match added(l, seed, item.key, text) {
                            Err(refusal) => Err(refusal),
                            Ok(l2) => Ok((k2, l2)),
                        },
                    },
                }
            },
        }
    }
}

/// Where the first `k` translations cannot be added, no longer run can, and
/// for the same reason.
pub proof fn lemma_packed_refused(
    keys: Seq<LineView>,
    lang: Seq<LineView>,
    seed: u32,
    list: Seq<TranslationView>,
    k: nat,
    count: nat,
)
    requires
        k <= count,
        packed(keys, lang, seed, list, k) is Err,
    ensures
        packed(keys, lang, seed, list, count) == packed(keys, lang, seed, list, k),
    decreases count,
{
    if k < count {
        lemma_packed_refused(keys, lang, seed, list, k, (count - 1) as nat);
    }
}

/// The two dictionaries of `capacity` slots each that hold the
/// translations: the dictionary of the language and the dictionary of keys.
/// Every key is added to the dictionary of keys with itself as text, and to
/// the dictionary of the language where it has a text. Where a key cannot
/// be added, the error is that of the first addition that fails:
/// `KeyAlreadyExists` with the key where a slot holds its hash already,
/// `CapacityExceeded` where every slot on its way is taken.
#[verifier::loop_isolation(false)]
pub fn build_dictionaries(
    initial_hash_value: u32,
    capacity: u32,
    footer_entries: Vec<FooterEntry>,
    list: &Vec<Translation>,
) -> (r: Result<(DctMap, DctMap), DctLineError>)
    ensures
        match r {
            Ok((lang, stringids)) => {
                &&& lang.wf()
                &&& stringids.wf()
                &&& lang@.initial_hash_value == initial_hash_value
                &&& stringids@.initial_hash_value == initial_hash_value
                &&& lang@.footer_entries == footer_view(footer_entries@)
                &&& stringids@.footer_entries == footer_view(footer_entries@)
                &&& packed(
                    Seq::new(capacity as nat, |i: int| empty_slot()),
                    Seq::new(capacity as nat, |i: int| empty_slot()),
                    initial_hash_value,
                    translations_view(list@),
                    list@.len(),
                ) == Ok::<(Seq<LineView>, Seq<LineView>), Refusal>(
                    (stringids@.lines, lang@.lines),
                )
            },
            Err(e) => packed(
                Seq::new(capacity as nat, |i: int| empty_slot()),
                Seq::new(capacity as nat, |i: int| empty_slot()),
                initial_hash_value,
                translations_view(list@),
                list@.len(),
            ) matches Err(refusal) && refused_as(e, refusal),
        },
{
    let ghost empty = Seq::new(capacity as nat, |i: int| empty_slot());
    let ghost views = translations_view(list@);
    let copy: Vec<FooterEntry> = copy_footer_entries(&footer_entries);
    let mut lang_dct: DctMap = DctMap::new(initial_hash_value, capacity, copy);
    let mut stringids_dct: DctMap = DctMap::new(initial_hash_value, capacity, footer_entries);
    let mut i: usize = 0;
    while i < list.len()
        invariant
            i <= list.len(),
            views == translations_view(list@),
            lang_dct.wf(),
            stringids_dct.wf(),
            lang_dct@.initial_hash_value == initial_hash_value,
            stringids_dct@.initial_hash_value == initial_hash_value,
            lang_dct@.footer_entries == footer_view(footer_entries@),
            stringids_dct@.footer_entries == footer_view(footer_entries@),
            packed(empty, empty, initial_hash_value, views, i as nat) == Ok::<
                (Seq<LineView>, Seq<LineView>),
                Refusal,
            >((stringids_dct@.lines, lang_dct@.lines)),
        decreases list.len() - i,
    {
        let item = &list[i];
        assert(views[i as int] == item@);
        match stringids_dct.add_line_entry(item.key.as_str(), item.key.as_str()) {
            Ok(()) => {},
            Err(e) => {
                proof {
                    lemma_packed_refused(
                        empty,
                        empty,
                        initial_hash_value,
                        views,
                        (i + 1) as nat,
                        list@.len(),
                    );
                }
                return Err(e);
            },
        }
        match &item.text {
            None => {},
            Some(text) => {
                match lang_dct.add_line_entry(item.key.as_str(), text.as_str()) {
                    Ok(()) => {},
                    Err(e) => {
                        proof {
                            lemma_packed_refused(
                                empty,
                                empty,
                                initial_hash_value,
                                views,
                                (i + 1) as nat,
                                list@.len(),
                            );
                        }
                        return Err(e);
                    },
                }
            },
        }
        i = i + 1;
    }
    Ok((lang_dct, stringids_dct))
}

} // verus!
