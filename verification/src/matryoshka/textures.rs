//! Textures inside a tree: a texture container holds its pixels as binary
//! data, which can be moved out to a file of its own and put back in.

use crate::matryoshka::dom::{
    copy_strings, copy_vec, entries_view, keys_of, lemma_container_view, lemma_multiple_view,
    values_view, ContainerData, ContainerDataView, Data, DataView, Entry, EntryView,
};
use crate::text::strings_view;
use crate::text::{first_index_of, lemma_first_index_of, starts_with, strip_prefix};
use vstd::prelude::*;
use vstd::string::*;

verus! {

/// The start of the key of a texture container.
pub open spec fn texture_prefix() -> Seq<char> {
    "Texture#"@
}

/// The key under which a texture container names its source file.
pub open spec fn path_key() -> Seq<char> {
    "SourceFilePath"@
}

/// The key under which a texture container holds its pixels.
pub open spec fn data_key() -> Seq<char> {
    "Data"@
}

/// The start of a text that stands for the content of a file.
pub open spec fn file_prefix() -> Seq<char> {
    "file:"@
}

/// A texture that was found in a tree: the path of its source file and its
/// pixels.
#[derive(Debug, PartialEq)]
pub struct Texture {
    pub path: String,
    pub data: Vec<u8>,
}

/// The mathematical value of a [`Texture`].
pub struct TextureView {
    pub path: Seq<char>,
    pub data: Seq<u8>,
}

impl View for Texture {
    type V = TextureView;

    open spec fn view(&self) -> TextureView {
        TextureView { path: self.path@, data: self.data@ }
    }
}

/// The views of the textures of a sequence.
pub open spec fn textures_view(v: Seq<Texture>) -> Seq<TextureView> {
    Seq::new(v.len(), |i: int| v[i]@)
}

/// What the first entry with the given key maps to.
pub open spec fn value_of_key(entries: Seq<EntryView>, key: Seq<char>) -> Option<
    ContainerDataView,
> {
    let i = first_index_of(keys_of(entries), key);
    if i < entries.len() {
        Some(entries[i].value)
    } else {
        None
    }
}

/// The texture that a container under `key` is, if it is one: its key
/// starts with `Texture#`, and it holds one text under `SourceFilePath` and
/// one binary value under `Data`.
pub open spec fn texture_of(key: Seq<char>, container: Seq<EntryView>) -> Option<TextureView> {
    if starts_with(key, texture_prefix()) {
        match (value_of_key(container, path_key()), value_of_key(container, data_key())) {
            (
                Some(ContainerDataView::Single(DataView::String(path))),
                Some(ContainerDataView::Single(DataView::Binary(data))),
            ) => Some(TextureView { path, data }),
            _ => None,
        }
    } else {
        None
    }
}

/// The walk through the tree meets no repeated key. Containers that are
/// textures are not walked into.
pub open spec fn walkable(entries: Seq<EntryView>) -> bool
    decreases entries,
{
    forall|i: int|
        0 <= i < entries.len() ==> match (#[trigger] entries[i]).value {
            ContainerDataView::Single(DataView::Container(c)) => texture_of(entries[i].key, c)
                is Some || walkable(c),
            ContainerDataView::Single(_) => true,
            ContainerDataView::Multiple(_) => false,
        }
}

/// The textures below an entry, in the order of the walk.
pub open spec fn entry_textures(entry: EntryView) -> Seq<TextureView>
    decreases entry,
{
    match entry.value {
        ContainerDataView::Single(DataView::Container(c)) => match texture_of(entry.key, c) {
            Some(t) => seq![t],
            None => textures(c),
        },
        _ => Seq::empty(),
    }
}

/// The textures of a tree, in the order of the walk.
pub open spec fn textures(entries: Seq<EntryView>) -> Seq<TextureView>
    decreases entries,
{
    if entries.len() == 0 {
        Seq::empty()
    } else {
        textures(entries.drop_last()) + entry_textures(entries.last())
    }
}

/// The text that stands for the file with the given name.
pub open spec fn file_reference(name: Seq<char>) -> DataView {
    DataView::String(file_prefix() + name)
}

/// A texture container with the name of a file in the place of its pixels.
pub open spec fn with_reference(container: Seq<EntryView>, name: Seq<char>) -> Seq<EntryView> {
    let i = first_index_of(keys_of(container), data_key());
    container.update(
        i,
        EntryView { key: container[i].key, value: ContainerDataView::Single(file_reference(name)) },
    )
}

/// An entry with the pixels of the textures below it replaced by the names
/// of files, of which the first is `names[start]`.
pub open spec fn entry_replaced(entry: EntryView, names: Seq<Seq<char>>, start: int) -> EntryView
    decreases entry,
{
    match entry.value {
        ContainerDataView::Single(DataView::Container(c)) => EntryView {
            key: entry.key,
            value: ContainerDataView::Single(
                DataView::Container(
                    match texture_of(entry.key, c) {
                        Some(_) => with_reference(c, names[start]),
                        None => replaced(c, names, start),
                    },
                ),
            ),
        },
        _ => entry,
    }
}

/// A tree with the pixels of its textures replaced by the names of files,
/// of which the first is `names[start]`.
pub open spec fn replaced(entries: Seq<EntryView>, names: Seq<Seq<char>>, start: int) -> Seq<
    EntryView,
>
    decreases entries,
{
    if entries.len() == 0 {
        Seq::empty()
    } else {
        replaced(entries.drop_last(), names, start).push(
            entry_replaced(entries.last(), names, start + textures(entries.drop_last()).len()),
        )
    }
}

/// A copy of a value.
#[verifier::loop_isolation(false)]
pub fn copy_data(data: &Data) -> (copy: Data)
    ensures
        copy@ == data@,
    decreases data,
{
    match data {
        Data::Container(entries) => {
            let copied = copy_entries(entries);
            proof {
                lemma_container_view(*entries);
                lemma_container_view(copied);
            }
            Data::Container(copied)
        },
        Data::Binary(b) => Data::Binary(copy_vec(b)),
        Data::Uuid(u) => Data::Uuid(*u),
        Data::Int(x) => Data::Int(*x),
        Data::IntVec(v) => Data::IntVec(copy_vec(v)),
        Data::Float(x) => Data::Float(*x),
        Data::FloatVec(v) => Data::FloatVec(copy_vec(v)),
        Data::String(s) => Data::String(s.clone()),
        Data::StringVec(v) => Data::StringVec(copy_strings(v)),
    }
}

/// A copy of what a key maps to.
#[verifier::loop_isolation(false)]
pub fn copy_container_data(value: &ContainerData) -> (copy: ContainerData)
    ensures
        copy@ == value@,
    decreases value,
{
    match value {
        ContainerData::Single(x) => {
            let copied = copy_data(x);
            assert(ContainerData::Single(copied)@ == value@) by {
                reveal_with_fuel(<ContainerData as View>::view, 2);
            }
            ContainerData::Single(copied)
        },
        ContainerData::Multiple(xs) => {
            let mut copy: Vec<Data> = Vec::new();
            let mut i: usize = 0;
            assert(values_view(copy@) =~= values_view(xs@).take(0));
            while i < xs.len()
                invariant
                    i <= xs.len(),
                    values_view(copy@) == values_view(xs@).take(i as int),
                decreases xs.len() - i,
            {
                let ghost before = values_view(copy@);
                let item = copy_data(&xs[i]);
                copy.push(item);
                assert(values_view(copy@) =~= before.push(item@));
                assert(values_view(copy@) =~= values_view(xs@).take(i + 1));
                i = i + 1;
            }
            proof {
                assert(values_view(xs@).take(xs.len() as int) =~= values_view(xs@));
                lemma_multiple_view(*xs);
                lemma_multiple_view(copy);
            }
            ContainerData::Multiple(copy)
        },
    }
}

/// A copy of the entries of a container.
#[verifier::loop_isolation(false)]
pub fn copy_entries(entries: &Vec<Entry>) -> (copy: Vec<Entry>)
    ensures
        entries_view(copy@) == entries_view(entries@),
    decreases entries,
{
    let mut copy: Vec<Entry> = Vec::new();
    let mut i: usize = 0;
    assert(entries_view(copy@) =~= entries_view(entries@).take(0));
    while i < entries.len()
        invariant
            i <= entries.len(),
            entries_view(copy@) == entries_view(entries@).take(i as int),
        decreases entries.len() - i,
    {
        let ghost before = entries_view(copy@);
        let entry = &entries[i];
        let item = Entry { key: entry.key.clone(), value: copy_container_data(&entry.value) };
        assert(item@ == entry@);
        copy.push(item);
        assert(entries_view(copy@) =~= before.push(item@));
        assert(entries_view(copy@) =~= entries_view(entries@).take(i + 1));
        i = i + 1;
    }
    assert(entries_view(entries@).take(entries.len() as int) =~= entries_view(entries@));
    copy
}

/// The place of the first entry with the given key, if there is one.
pub fn position_of_key(entries: &Vec<Entry>, key: &str) -> (index: Option<usize>)
    ensures
        match index {
            Some(i) => i < entries.len() && i == first_index_of(
                keys_of(entries_view(entries@)),
                key@,
            ),
            None => first_index_of(keys_of(entries_view(entries@)), key@) >= entries.len(),
        },
{
    crate::matryoshka::dom::find_key(entries, key)
}

/// The texture that a container under `key` is, if it is one, with a copy
/// of its pixels.
pub fn texture_in(key: &str, container: &Vec<Entry>) -> (texture: Option<Texture>)
    ensures
        match texture {
            Some(t) => texture_of(key@, entries_view(container@)) == Some(t@),
            None => texture_of(key@, entries_view(container@)) is None,
        },
{
    let ghost views = entries_view(container@);
    if strip_prefix(key, "Texture#").is_none() {
        return None;
    }
    let path_index: usize = match position_of_key(container, "SourceFilePath") {
        Some(i) => i,
        None => {
            return None;
        },
    };
    let data_index: usize = match position_of_key(container, "Data") {
        Some(i) => i,
        None => {
            return None;
        },
    };
    assert(views[path_index as int] == container@[path_index as int]@);
    assert(views[data_index as int] == container@[data_index as int]@);
    proof {
        reveal_with_fuel(<ContainerData as View>::view, 2);
    }
    match (&container[path_index].value, &container[data_index].value) {
        (ContainerData::Single(Data::String(path)), ContainerData::Single(Data::Binary(data))) => {
            Some(Texture { path: path.clone(), data: copy_vec(data) })
        },
        _ => None,
    }
}

/// Whether the walk through the tree meets no repeated key.
#[verifier::loop_isolation(false)]
pub fn is_walkable(data: &Vec<Entry>) -> (ok: bool)
    ensures
        ok == walkable(entries_view(data@)),
    decreases data,
{
    let ghost views = entries_view(data@);
    let mut i: usize = 0;
    while i < data.len()
        invariant
            i <= data.len(),
            forall|j: int|
                0 <= j < i ==> match (#[trigger] views[j]).value {
                    ContainerDataView::Single(DataView::Container(c)) => texture_of(views[j].key, c)
                        is Some || walkable(c),
                    ContainerDataView::Single(_) => true,
                    ContainerDataView::Multiple(_) => false,
                },
        decreases data.len() - i,
    {
        let entry = &data[i];
        assert(views[i as int] == entry@);
        proof {
            reveal_with_fuel(<ContainerData as View>::view, 2);
        }
        match &entry.value {
            ContainerData::Single(Data::Container(container)) => {
                proof {
                    lemma_container_view(*container);
                }
                if texture_in(entry.key.as_str(), container).is_none() {
                    if !is_walkable(container) {
                        return false;
                    }
                }
            },
            ContainerData::Single(_) => {},
            ContainerData::Multiple(_) => {
                return false;
            },
        }
        i = i + 1;
    }
    true
}

/// The textures of a tree, in the order of the walk, each with a copy of
/// its pixels.
#[verifier::loop_isolation(false)]
pub fn find_textures(data: &Vec<Entry>) -> (found: Vec<Texture>)
    ensures
        textures_view(found@) == textures(entries_view(data@)),
    decreases data,
{
    let ghost views = entries_view(data@);
    let mut found: Vec<Texture> = Vec::new();
    let mut i: usize = 0;
    assert(textures_view(found@) =~= textures(views.take(0)));
    while i < data.len()
        invariant
            i <= data.len(),
            textures_view(found@) == textures(views.take(i as int)),
        decreases data.len() - i,
    {
        let entry = &data[i];
        let ghost before = textures_view(found@);
        proof {
            assert(views[i as int] == entry@);
            assert(views.take(i + 1).drop_last() =~= views.take(i as int));
            assert(views.take(i + 1).last() == views[i as int]);
            reveal_with_fuel(<ContainerData as View>::view, 2);
        }
        match &entry.value {
            ContainerData::Single(Data::Container(container)) => {
                proof {
                    lemma_container_view(*container);
                }
                match texture_in(entry.key.as_str(), container) {
                    Some(texture) => {
                        found.push(texture);
                        assert(textures_view(found@) =~= before + seq![texture@]);
                        assert(entry_textures(entry@) == seq![texture@]);
                    },
                    None => {
                        let mut below: Vec<Texture> = find_textures(container);
                        let ghost more = textures_view(below@);
                        found.append(&mut below);
                        assert(textures_view(found@) =~= before + more);
                        assert(entry_textures(entry@) == more);
                    },
                }
            },
            _ => {
                assert(textures_view(found@) =~= before + Seq::<TextureView>::empty());
                assert(entry_textures(entry@) == Seq::<TextureView>::empty());
            },
        }
        assert(textures_view(found@) == before + entry_textures(entry@));
        i = i + 1;
    }
    assert(views.take(data.len() as int) =~= views);
    found
}

/// The text that stands for the file with the given name.
pub fn reference_to(name: &str) -> (value: Data)
    ensures
        value@ == file_reference(name@),
{
    let mut text: String = "file:".to_owned();
    text.append(name);
    Data::String(text)
}

/// A copy of a texture container with the name of a file in the place of
/// its pixels.
pub fn container_with_reference(container: &Vec<Entry>, name: &str) -> (copy: Vec<Entry>)
    requires
        first_index_of(keys_of(entries_view(container@)), data_key()) < container@.len(),
    ensures
        entries_view(copy@) == with_reference(entries_view(container@), name@),
{
    let ghost views = entries_view(container@);
    let index: usize = match position_of_key(container, "Data") {
        Some(i) => i,
        None => {
            proof {
                assert(false);
            }
            0
        },
    };
    let mut copy: Vec<Entry> = Vec::new();
    let mut i: usize = 0;
    assert(entries_view(copy@) =~= with_reference(views, name@).take(0));
    while i < container.len()
        invariant
            i <= container.len(),
            index < container.len(),
            views == entries_view(container@),
            index == first_index_of(keys_of(views), data_key()),
            entries_view(copy@) == with_reference(views, name@).take(i as int),
        decreases container.len() - i,
    {
        let ghost before = entries_view(copy@);
        let entry = &container[i];
        assert(views[i as int] == entry@);
        let item = if i == index {
            let value = ContainerData::Single(reference_to(name));
            assert(value@ == ContainerDataView::Single(file_reference(name@))) by {
                reveal_with_fuel(<ContainerData as View>::view, 2);
            }
            Entry { key: entry.key.clone(), value }
        } else {
            Entry { key: entry.key.clone(), value: copy_container_data(&entry.value) }
        };
        copy.push(item);
        assert(entries_view(copy@) =~= before.push(item@));
        assert(entries_view(copy@) =~= with_reference(views, name@).take(i + 1));
        i = i + 1;
    }
    assert(with_reference(views, name@).take(container.len() as int) =~= with_reference(
        views,
        name@,
    ));
    copy
}

/// The number of textures of the first entries is at most the number of
/// textures of all.
pub proof fn lemma_textures_prefix(entries: Seq<EntryView>, k: int)
    requires
        0 <= k <= entries.len(),
    ensures
        textures(entries.take(k)).len() <= textures(entries).len(),
        k < entries.len() ==> textures(entries.take(k)).len() + entry_textures(entries[k]).len()
            <= textures(entries).len(),
    decreases entries.len(),
{
    if k < entries.len() {
        if k == entries.len() - 1 {
            assert(entries.take(k) =~= entries.drop_last());
        } else {
            lemma_textures_prefix(entries.drop_last(), k);
            assert(entries.drop_last().take(k) =~= entries.take(k));
        }
    } else {
        assert(entries.take(k) =~= entries);
    }
}

/// A copy of the tree with the pixels of its textures replaced by the names
/// of files, of which the first is `names[start]`.
#[verifier::loop_isolation(false)]
pub fn replace_textures(data: &Vec<Entry>, names: &Vec<String>, start: usize) -> (copy: Vec<Entry>)
    requires
        start + textures(entries_view(data@)).len() <= names@.len(),
    ensures
        entries_view(copy@) == replaced(entries_view(data@), strings_view(names@), start as int),
    decreases data,
{
    let ghost views = entries_view(data@);
    let ghost nv = strings_view(names@);
    let limit: usize = names.len();
    let mut copy: Vec<Entry> = Vec::new();
    let mut next: usize = start;
    let mut i: usize = 0;
    assert(entries_view(copy@) =~= replaced(views.take(0), nv, start as int));
    while i < data.len()
        invariant
            i <= data.len(),
            next == start + textures(views.take(i as int)).len(),
            entries_view(copy@) == replaced(views.take(i as int), nv, start as int),
        decreases data.len() - i,
    {
        let entry = &data[i];
        let ghost before = entries_view(copy@);
        proof {
            assert(views[i as int] == entry@);
            assert(views.take(i + 1).drop_last() =~= views.take(i as int));
            assert(views.take(i + 1).last() == views[i as int]);
            lemma_textures_prefix(views, i as int);
            reveal_with_fuel(<ContainerData as View>::view, 2);
            assert(next + entry_textures(entry@).len() <= limit);
        }
        let item = match &entry.value {
            ContainerData::Single(Data::Container(container)) => {
                proof {
                    lemma_container_view(*container);
                }
                let ghost c = entries_view(container@);
                let inner = match texture_in(entry.key.as_str(), container) {
                    Some(texture) => {
                        proof {
                            lemma_first_index_of(keys_of(c), data_key());
                            assert(entry_textures(entry@) == seq![texture@]);
                        }
                        let inner = container_with_reference(container, names[next].as_str());
                        next = next + 1;
                        inner
                    },
                    None => {
                        assert(entry_textures(entry@) == textures(c));
                        let inner = replace_textures(container, names, next);
                        let count: usize = find_textures(container).len();
                        next = next + count;
                        inner
                    },
                };
                proof {
                    lemma_container_view(inner);
                }
                Entry {
                    key: entry.key.clone(),
                    value: ContainerData::Single(Data::Container(inner)),
                }
            },
            _ => {
                assert(entry_textures(entry@) == Seq::<TextureView>::empty());
                Entry { key: entry.key.clone(), value: copy_container_data(&entry.value) }
            },
        };
        assert(item@ == entry_replaced(
            entry@,
            nv,
            start + textures(views.take(i as int)).len(),
        ));
        copy.push(item);
        assert(entries_view(copy@) =~= before.push(item@));
        i = i + 1;
    }
    assert(views.take(data.len() as int) =~= views);
    copy
}

/// The name of the file whose content a value stands for, if it stands for
/// one: the text behind `file:`.
pub open spec fn referenced_file(value: DataView) -> Option<Seq<char>> {
    match value {
        DataView::String(s) => if starts_with(s, file_prefix()) {
            Some(s.skip(file_prefix().len() as int))
        } else {
            None
        },
        _ => None,
    }
}

/// Every key of the tree has one value.
pub open spec fn single_valued(entries: Seq<EntryView>) -> bool
    decreases entries,
{
    forall|i: int|
        0 <= i < entries.len() ==> match (#[trigger] entries[i]).value {
            ContainerDataView::Single(DataView::Container(c)) => single_valued(c),
            ContainerDataView::Single(_) => true,
            ContainerDataView::Multiple(_) => false,
        }
}

/// The names of the files that the values below an entry stand for, in the
/// order of the walk.
pub open spec fn entry_references(entry: EntryView) -> Seq<Seq<char>>
    decreases entry,
{
    match entry.value {
        ContainerDataView::Single(DataView::Container(c)) => references(c),
        ContainerDataView::Single(v) => match referenced_file(v) {
            Some(name) => seq![name],
            None => Seq::empty(),
        },
        ContainerDataView::Multiple(_) => Seq::empty(),
    }
}

/// The names of the files that the values of a tree stand for, in the order
/// of the walk.
pub open spec fn references(entries: Seq<EntryView>) -> Seq<Seq<char>>
    decreases entries,
{
    if entries.len() == 0 {
        Seq::empty()
    } else {
        references(entries.drop_last()) + entry_references(entries.last())
    }
}

/// An entry with the contents of files in the place of the values that
/// stand for them; the first content is `contents[start]`.
pub open spec fn entry_embedded(entry: EntryView, contents: Seq<Seq<u8>>, start: int) -> EntryView
    decreases entry,
{
    match entry.value {
        ContainerDataView::Single(DataView::Container(c)) => EntryView {
            key: entry.key,
            value: ContainerDataView::Single(DataView::Container(embedded(c, contents, start))),
        },
        ContainerDataView::Single(v) => match referenced_file(v) {
            Some(_) => EntryView {
                key: entry.key,
                value: ContainerDataView::Single(DataView::Binary(contents[start])),
            },
            None => entry,
        },
        ContainerDataView::Multiple(_) => entry,
    }
}

/// A tree with the contents of files in the place of the values that stand
/// for them; the first content is `contents[start]`.
pub open spec fn embedded(entries: Seq<EntryView>, contents: Seq<Seq<u8>>, start: int) -> Seq<
    EntryView,
>
    decreases entries,
{
    if entries.len() == 0 {
        Seq::empty()
    } else {
        embedded(entries.drop_last(), contents, start).push(
            entry_embedded(
                entries.last(),
                contents,
                start + references(entries.drop_last()).len(),
            ),
        )
    }
}

/// The contents that a sequence of byte vectors holds.
pub open spec fn contents_view(v: Seq<Vec<u8>>) -> Seq<Seq<u8>> {
    Seq::new(v.len(), |i: int| v[i]@)
}

/// The name of the file whose content a value stands for, if it stands for
/// one.
pub fn file_of(value: &Data) -> (name: Option<String>)
    ensures
        match name {
            Some(n) => referenced_file(value@) == Some(n@),
            None => referenced_file(value@) is None,
        },
{
    match value {
        Data::String(s) => match strip_prefix(s.as_str(), "file:") {
            Some(rest) => Some(rest.to_owned()),
            None => None,
        },
        _ => None,
    }
}

/// Whether every key of the tree has one value.
#[verifier::loop_isolation(false)]
pub fn is_single_valued(data: &Vec<Entry>) -> (ok: bool)
    ensures
        ok == single_valued(entries_view(data@)),
    decreases data,
{
    let ghost views = entries_view(data@);
    let mut i: usize = 0;
    while i < data.len()
        invariant
            i <= data.len(),
            forall|j: int|
                0 <= j < i ==> match (#[trigger] views[j]).value {
                    ContainerDataView::Single(DataView::Container(c)) => single_valued(c),
                    ContainerDataView::Single(_) => true,
                    ContainerDataView::Multiple(_) => false,
                },
        decreases data.len() - i,
    {
        let entry = &data[i];
        assert(views[i as int] == entry@);
        proof {
            reveal_with_fuel(<ContainerData as View>::view, 2);
        }
        match &entry.value {
            ContainerData::Single(Data::Container(container)) => {
                proof {
                    lemma_container_view(*container);
                }
                if !is_single_valued(container) {
                    return false;
                }
            },
            ContainerData::Single(_) => {},
            ContainerData::Multiple(_) => {
                return false;
            },
        }
        i = i + 1;
    }
    true
}

/// The names of the files that the values of a tree stand for, in the order
/// of the walk.
#[verifier::loop_isolation(false)]
pub fn find_file_references(data: &Vec<Entry>) -> (names: Vec<String>)
    ensures
        strings_view(names@) == references(entries_view(data@)),
    decreases data,
{
    let ghost views = entries_view(data@);
    let mut names: Vec<String> = Vec::new();
    let mut i: usize = 0;
    assert(strings_view(names@) =~= references(views.take(0)));
    while i < data.len()
        invariant
            i <= data.len(),
            strings_view(names@) == references(views.take(i as int)),
        decreases data.len() - i,
    {
        let entry = &data[i];
        let ghost before = strings_view(names@);
        proof {
            assert(views[i as int] == entry@);
            assert(views.take(i + 1).drop_last() =~= views.take(i as int));
            assert(views.take(i + 1).last() == views[i as int]);
            reveal_with_fuel(<ContainerData as View>::view, 2);
        }
        match &entry.value {
            ContainerData::Single(Data::Container(container)) => {
                proof {
                    lemma_container_view(*container);
                }
                let mut below: Vec<String> = find_file_references(container);
                let ghost more = strings_view(below@);
                names.append(&mut below);
                assert(strings_view(names@) =~= before + more);
                assert(entry_references(entry@) == more);
            },
            ContainerData::Single(value) => {
                match file_of(value) {
                    Some(name) => {
                        names.push(name);
                        assert(strings_view(names@) =~= before + seq![name@]);
                        assert(entry_references(entry@) == seq![name@]);
                    },
                    None => {
                        assert(strings_view(names@) =~= before + Seq::<Seq<char>>::empty());
                        assert(entry_references(entry@) == Seq::<Seq<char>>::empty());
                    },
                }
            },
            ContainerData::Multiple(_) => {
                assert(strings_view(names@) =~= before + Seq::<Seq<char>>::empty());
                assert(entry_references(entry@) == Seq::<Seq<char>>::empty());
            },
        }
        assert(strings_view(names@) == before + entry_references(entry@));
        i = i + 1;
    }
    assert(views.take(data.len() as int) =~= views);
    names
}

/// The number of references of the first entries is at most the number of
/// references of all.
pub proof fn lemma_references_prefix(entries: Seq<EntryView>, k: int)
    requires
        0 <= k <= entries.len(),
    ensures
        references(entries.take(k)).len() <= references(entries).len(),
        k < entries.len() ==> references(entries.take(k)).len() + entry_references(
            entries[k],
        ).len() <= references(entries).len(),
    decreases entries.len(),
{
    if k < entries.len() {
        if k == entries.len() - 1 {
            assert(entries.take(k) =~= entries.drop_last());
        } else {
            lemma_references_prefix(entries.drop_last(), k);
            assert(entries.drop_last().take(k) =~= entries.take(k));
        }
    } else {
        assert(entries.take(k) =~= entries);
    }
}

/// A copy of the tree with the contents of files in the place of the values
/// that stand for them; the first content is `contents[start]`.
#[verifier::loop_isolation(false)]
pub fn embed_files(data: &Vec<Entry>, contents: &Vec<Vec<u8>>, start: usize) -> (copy: Vec<Entry>)
    requires
        start + references(entries_view(data@)).len() <= contents@.len(),
    ensures
        entries_view(copy@) == embedded(
            entries_view(data@),
            contents_view(contents@),
            start as int,
        ),
    decreases data,
{
    let ghost views = entries_view(data@);
    let ghost cv = contents_view(contents@);
    let limit: usize = contents.len();
    let mut copy: Vec<Entry> = Vec::new();
    let mut next: usize = start;
    let mut i: usize = 0;
    assert(entries_view(copy@) =~= embedded(views.take(0), cv, start as int));
    while i < data.len()
        invariant
            i <= data.len(),
            next == start + references(views.take(i as int)).len(),
            entries_view(copy@) == embedded(views.take(i as int), cv, start as int),
        decreases data.len() - i,
    {
        let entry = &data[i];
        let ghost before = entries_view(copy@);
        proof {
            assert(views[i as int] == entry@);
            assert(views.take(i + 1).drop_last() =~= views.take(i as int));
            assert(views.take(i + 1).last() == views[i as int]);
            lemma_references_prefix(views, i as int);
            reveal_with_fuel(<ContainerData as View>::view, 2);
            assert(next + entry_references(entry@).len() <= limit);
        }
        let item = match &entry.value {
            ContainerData::Single(Data::Container(container)) => {
                proof {
                    lemma_container_view(*container);
                }
                assert(entry_references(entry@) == references(entries_view(container@)));
                let inner = embed_files(container, contents, next);
                let count: usize = find_file_references(container).len();
                next = next + count;
                proof {
                    lemma_container_view(inner);
                }
                Entry {
                    key: entry.key.clone(),
                    value: ContainerData::Single(Data::Container(inner)),
                }
            },
            ContainerData::Single(value) => {
                match file_of(value) {
                    Some(name) => {
                        assert(entry_references(entry@) == seq![name@]);
                        let content = Data::Binary(copy_vec(&contents[next]));
                        next = next + 1;
                        Entry { key: entry.key.clone(), value: ContainerData::Single(content) }
                    },
                    None => {
                        assert(entry_references(entry@) == Seq::<Seq<char>>::empty());
                        Entry { key: entry.key.clone(), value: copy_container_data(&entry.value) }
                    },
                }
            },
            ContainerData::Multiple(_) => {
                assert(entry_references(entry@) == Seq::<Seq<char>>::empty());
                Entry { key: entry.key.clone(), value: copy_container_data(&entry.value) }
            },
        };
        assert(item@ == entry_embedded(
            entry@,
            cv,
            start + references(views.take(i as int)).len(),
        ));
        copy.push(item);
        assert(entries_view(copy@) =~= before.push(item@));
        i = i + 1;
    }
    assert(views.take(data.len() as int) =~= views);
    copy
}

} // verus!
