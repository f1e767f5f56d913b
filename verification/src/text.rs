//! Text helpers: the conversions between strings and the bytes that the file
//! formats store, and searching in sequences.

use vstd::prelude::*;
use vstd::utf8::*;

verus! {

/// The texts that a sequence of strings holds.
pub open spec fn strings_view(v: Seq<String>) -> Seq<Seq<char>> {
    Seq::new(v.len(), |i: int| v[i]@)
}

/// The index of the first occurrence of `x` in `s`, or `s.len()` where `s`
/// does not hold it.
pub open spec fn first_index_of<A>(s: Seq<A>, x: A) -> int
    decreases s.len(),
{
    if s.len() == 0 {
        0
    } else if s[0] == x {
        0
    } else {
        1 + first_index_of(s.drop_first(), x)
    }
}

/// The first index lies in the sequence exactly when the sequence holds the
/// value; it holds the value, and no index before it does.
pub proof fn lemma_first_index_of<A>(s: Seq<A>, x: A)
    ensures
        0 <= first_index_of(s, x) <= s.len(),
        first_index_of(s, x) < s.len() <==> s.contains(x),
        first_index_of(s, x) < s.len() ==> s[first_index_of(s, x)] == x,
        forall|j: int| 0 <= j < first_index_of(s, x) ==> s[j] != x,
    decreases s.len(),
{
    if s.len() == 0 {
    } else if s[0] == x {
    } else {
        let t = s.drop_first();
        lemma_first_index_of(t, x);
        let k = first_index_of(t, x);
        if k < t.len() {
            assert(s[k + 1] == t[k]);
        }
        if s.contains(x) {
            let j = choose|j: int| 0 <= j < s.len() && s[j] == x;
            assert(t[j - 1] == x);
        }
        assert forall|j: int| 0 <= j < first_index_of(s, x) implies s[j] != x by {
            if j > 0 {
                assert(s[j] == t[j - 1]);
            }
        }
    }
}

/// An index that holds `x` and is preceded by no other is the first one.
pub proof fn lemma_first_index_is<A>(s: Seq<A>, x: A, i: int)
    requires
        0 <= i < s.len(),
        s[i] == x,
        forall|j: int| 0 <= j < i ==> s[j] != x,
    ensures
        first_index_of(s, x) == i,
{
    lemma_first_index_of(s, x);
}

/// What `String::from_utf8_lossy` makes of bytes that are not valid UTF-8.
pub uninterp spec fn utf8_lossy(bytes: Seq<u8>) -> Seq<char>;

/// The text that stored bytes stand for: their UTF-8 decoding where they are
/// valid UTF-8, and the lossy decoding otherwise.
pub open spec fn text_of(bytes: Seq<u8>) -> Seq<char> {
    if valid_utf8(bytes) {
        decode_utf8(bytes)
    } else {
        utf8_lossy(bytes)
    }
}

/// The bytes that a text is stored as: its UTF-8 encoding.
pub open spec fn bytes_of(text: Seq<char>) -> Seq<u8> {
    encode_utf8(text)
}

/// Stored text is read back unchanged.
pub proof fn lemma_text_of_bytes_of(text: Seq<char>)
    ensures
        text_of(bytes_of(text)) == text,
{
    encode_utf8_valid_utf8(text);
    encode_utf8_decode_utf8(text);
}

/// Calls `String::from_utf8_lossy`. The contract claims that valid UTF-8 is
/// decoded as it stands; of other input it only names the result.
#[verifier::external_body]
pub(crate) fn string_from_utf8_lossy(bytes: &[u8]) -> (s: String)
    ensures
        valid_utf8(bytes@) ==> s@ == decode_utf8(bytes@),
        !valid_utf8(bytes@) ==> s@ == utf8_lossy(bytes@),
{
    String::from_utf8_lossy(bytes).into_owned()
}

/// What `str::to_lowercase` makes of a text.
pub uninterp spec fn lowercase_of(text: Seq<char>) -> Seq<char>;

/// Calls `str::to_lowercase`, whose result follows the Unicode tables and is
/// named here.
#[verifier::external_body]
pub(crate) fn to_lowercase(s: &str) -> (lower: String)
    ensures
        lower@ == lowercase_of(s@),
{
    s.to_lowercase()
}

/// `s` ends with `suffix`.
pub open spec fn ends_with(s: Seq<char>, suffix: Seq<char>) -> bool {
    s.len() >= suffix.len() && s.skip(s.len() - suffix.len()) == suffix
}

/// Calls `str::ends_with` with a string pattern: whether the pattern is a
/// suffix of the text.
#[verifier::external_body]
pub(crate) fn str_ends_with(s: &str, suffix: &str) -> (found: bool)
    ensures
        found == ends_with(s@, suffix@),
{
    s.ends_with(suffix)
}

/// Calls `String::push`: the character is put behind the text.
#[verifier::external_body]
pub(crate) fn push_char(s: &mut String, c: char)
    ensures
        final(s)@ == old(s)@.push(c),
{
    s.push(c)
}

/// `s` starts with `prefix`.
pub open spec fn starts_with(s: Seq<char>, prefix: Seq<char>) -> bool {
    s.len() >= prefix.len() && s.take(prefix.len() as int) == prefix
}

/// Calls `str::strip_prefix` with a string pattern: the text behind the
/// prefix, or `None` where the text does not start with it.
#[verifier::external_body]
pub(crate) fn strip_prefix<'a>(s: &'a str, prefix: &str) -> (rest: Option<&'a str>)
    ensures
        match rest {
            Some(r) => starts_with(s@, prefix@) && r@ == s@.skip(prefix@.len() as int),
            None => !starts_with(s@, prefix@),
        },
{
    s.strip_prefix(prefix)
}

/// A text with every backslash made a forward slash.
pub open spec fn forward_slashes(text: Seq<char>) -> Seq<char> {
    Seq::new(
        text.len(),
        |i: int|
            if text[i] == '\\' {
                '/'
            } else {
                text[i]
            },
    )
}

/// Calls `str::replace` to put `/` in the place of every `\`; both are
/// single characters, so the text keeps its length and its other
/// characters.
#[verifier::external_body]
pub(crate) fn replace_backslashes(s: &str) -> (replaced: String)
    ensures
        replaced@ == forward_slashes(s@),
{
    s.replace("\\", "/")
}

/// The two halves of `s` around the first occurrence of `delimiter`.
pub open spec fn split_first(s: Seq<char>, delimiter: char) -> Option<(Seq<char>, Seq<char>)> {
    let i = first_index_of(s, delimiter);
    if i < s.len() {
        Some((s.take(i), s.skip(i + 1)))
    } else {
        None
    }
}

/// Calls `str::split_once` with a `char` delimiter. The contract claims what
/// std documents: the text before the first occurrence of the delimiter and
/// the text after it, or `None` where the delimiter does not occur.
#[verifier::external_body]
pub(crate) fn split_once_char<'a>(s: &'a str, delimiter: char) -> (r: Option<(&'a str, &'a str)>)
    ensures
        match r {
            Some((head, tail)) => split_first(s@, delimiter) == Some((head@, tail@)),
            None => split_first(s@, delimiter) is None,
        },
{
    s.split_once(delimiter)
}

/// The text `head`, the delimiter and `tail` in a row.
pub open spec fn join_with(head: Seq<char>, delimiter: char, tail: Seq<char>) -> Seq<char> {
    head + seq![delimiter] + tail
}

/// Splitting a text at its first delimiter and joining the halves again
/// gives the text back.
pub proof fn lemma_join_split(s: Seq<char>, delimiter: char)
    ensures
        match split_first(s, delimiter) {
            Some((head, tail)) => join_with(head, delimiter, tail) == s && !head.contains(
                delimiter,
            ),
            None => !s.contains(delimiter),
        },
{
    lemma_first_index_of(s, delimiter);
    let i = first_index_of(s, delimiter);
    if i < s.len() {
        assert(join_with(s.take(i), delimiter, s.skip(i + 1)) =~= s);
    }
}

/// The table with `s` behind the others, unless it holds `s` already.
pub open spec fn insert_unique(table: Seq<Seq<char>>, s: Seq<char>) -> Seq<Seq<char>> {
    if table.contains(s) {
        table
    } else {
        table.push(s)
    }
}

/// The table after each of `strings` has been inserted in turn.
pub open spec fn insert_all(table: Seq<Seq<char>>, strings: Seq<Seq<char>>) -> Seq<Seq<char>>
    decreases strings.len(),
{
    if strings.len() == 0 {
        table
    } else {
        insert_unique(insert_all(table, strings.drop_last()), strings.last())
    }
}

/// The bytes of a string table: each string in UTF-8 with a NUL behind it.
pub open spec fn table_bytes(table: Seq<Seq<char>>) -> Seq<u8>
    decreases table.len(),
{
    if table.len() == 0 {
        Seq::empty()
    } else {
        table_bytes(table.drop_last()) + bytes_of(table.last()) + seq![0u8]
    }
}

/// Inserting two lists in a row is inserting the first and then the second.
pub proof fn lemma_insert_all_concat(
    table: Seq<Seq<char>>,
    a: Seq<Seq<char>>,
    b: Seq<Seq<char>>,
)
    ensures
        insert_all(table, a + b) == insert_all(insert_all(table, a), b),
    decreases b.len(),
{
    if b.len() == 0 {
        assert(a + b =~= a);
    } else {
        lemma_insert_all_concat(table, a, b.drop_last());
        assert((a + b).drop_last() =~= a + b.drop_last());
        assert((a + b).last() == b.last());
    }
}

/// Inserting a list of one string is inserting the string.
pub proof fn lemma_insert_all_one(table: Seq<Seq<char>>, s: Seq<char>)
    ensures
        insert_all(table, seq![s]) == insert_unique(table, s),
{
    assert(seq![s].drop_last() =~= Seq::<Seq<char>>::empty());
    assert(insert_all(table, Seq::<Seq<char>>::empty()) == table);
}

/// Inserting a list of two strings is inserting one and then the other.
pub proof fn lemma_insert_all_two(table: Seq<Seq<char>>, a: Seq<char>, b: Seq<char>)
    ensures
        insert_all(table, seq![a, b]) == insert_unique(insert_unique(table, a), b),
{
    assert(seq![a, b].drop_last() =~= seq![a]);
    lemma_insert_all_one(table, a);
}

/// No string of the table holds a NUL character.
pub open spec fn strings_clean(table: Seq<Seq<char>>) -> bool {
    forall|i: int| 0 <= i < table.len() ==> !(#[trigger] table[i]).contains('\0')
}

/// No byte of the UTF-8 encoding of a scalar other than 0 is 0.
proof fn lemma_scalar_bytes_nonzero(c: u32)
    by (bit_vector)
    requires
        c != 0,
    ensures
        c <= 0x7F ==> (c & 0x7F) as u8 != 0,
        0xC0 | ((c >> 6) & 0x1F) as u8 != 0,
        0xE0 | ((c >> 12) & 0x0F) as u8 != 0,
        0xF0 | ((c >> 18) & 0x7) as u8 != 0,
        0x80 | (c & 0x3F) as u8 != 0,
        0x80 | ((c >> 6) & 0x3F) as u8 != 0,
        0x80 | ((c >> 12) & 0x3F) as u8 != 0,
{
}

/// A text without a NUL character has no NUL byte in its stored form.
pub proof fn lemma_bytes_of_clean(text: Seq<char>)
    requires
        !text.contains('\0'),
    ensures
        !bytes_of(text).contains(0u8),
    decreases text.len(),
{
    if text.len() > 0 {
        let rest = text.drop_first();
        assert(!rest.contains('\0')) by {
            if rest.contains('\0') {
                let j = choose|j: int| 0 <= j < rest.len() && rest[j] == '\0';
                assert(text[j + 1] == '\0');
            }
        }
        lemma_bytes_of_clean(rest);
        let c = text[0] as u32;
        assert(c != 0) by {
            if c == 0 {
                char_u32_cast(text[0], 0u32);
                char_u32_cast('\0', 0u32);
                assert(text[0] == '\0');
            }
        }
        lemma_scalar_bytes_nonzero(c);
        char_is_scalar(text[0]);
        let first = encode_scalar(c);
        let tail = bytes_of(rest);
        assert(bytes_of(text) == first + tail);
        assert forall|i: int| 0 <= i < first.len() implies first[i] != 0 by {}
        if bytes_of(text).contains(0u8) {
            let k = choose|k: int| 0 <= k < bytes_of(text).len() && bytes_of(text)[k] == 0u8;
            if k < first.len() {
                assert(first[k] == 0);
            } else {
                assert(tail[k - first.len()] == 0u8);
            }
        }
    }
}

/// The index of the first NUL at or behind `pos`, or the length of `bytes`
/// where there is none.
pub open spec fn nul_at(bytes: Seq<u8>, pos: nat) -> nat
    decreases bytes.len() - pos,
{
    if pos >= bytes.len() {
        bytes.len()
    } else if bytes[pos as int] == 0 {
        pos
    } else {
        nul_at(bytes, pos + 1)
    }
}

/// The first NUL lies at or behind the position, and no byte between them is
/// a NUL.
pub proof fn lemma_nul_at(bytes: Seq<u8>, pos: nat)
    requires
        pos <= bytes.len(),
    ensures
        pos <= nul_at(bytes, pos) <= bytes.len(),
        nul_at(bytes, pos) < bytes.len() ==> bytes[nul_at(bytes, pos) as int] == 0,
        forall|j: int| pos <= j < nul_at(bytes, pos) ==> bytes[j] != 0,
    decreases bytes.len() - pos,
{
    if pos < bytes.len() && bytes[pos as int] != 0 {
        lemma_nul_at(bytes, pos + 1);
    }
}

/// A NUL with none before it is the first one.
pub proof fn lemma_nul_at_is(bytes: Seq<u8>, pos: nat, end: nat)
    requires
        pos <= end <= bytes.len(),
        end < bytes.len() ==> bytes[end as int] == 0,
        forall|j: int| pos <= j < end ==> bytes[j] != 0,
    ensures
        nul_at(bytes, pos) == end,
    decreases end - pos,
{
    if pos < end {
        lemma_nul_at_is(bytes, pos + 1, end);
    }
}

/// The index of the first NUL at or behind `pos`.
pub fn find_nul(bytes: &[u8], pos: usize) -> (end: usize)
    requires
        pos <= bytes.len(),
    ensures
        end == nul_at(bytes@, pos as nat),
        pos <= end <= bytes.len(),
{
    let mut q: usize = pos;
    while q < bytes.len() && bytes[q] != 0
        invariant
            pos <= q <= bytes.len(),
            forall|j: int| pos <= j < q ==> bytes@[j] != 0,
        decreases bytes.len() - q,
    {
        q = q + 1;
    }
    proof {
        lemma_nul_at_is(bytes@, pos as nat, q as nat);
    }
    q
}

/// What the strings hold is in the table once they have been inserted, and
/// so is what the table held before.
pub proof fn lemma_insert_all_contains(
    table: Seq<Seq<char>>,
    strings: Seq<Seq<char>>,
    x: Seq<char>,
)
    requires
        table.contains(x) || strings.contains(x),
    ensures
        insert_all(table, strings).contains(x),
    decreases strings.len(),
{
    if strings.len() > 0 {
        let init = strings.drop_last();
        let t = insert_all(table, init);
        if strings.last() == x {
            if t.contains(x) {
            } else {
                assert(t.push(x)[t.len() as int] == x);
            }
        } else {
            if strings.contains(x) {
                let j = choose|j: int| 0 <= j < strings.len() && strings[j] == x;
                assert(init[j] == x);
            }
            lemma_insert_all_contains(table, init, x);
            if !t.contains(strings.last()) {
                let k = choose|k: int| 0 <= k < t.len() && t[k] == x;
                assert(t.push(strings.last())[k] == x);
            }
        }
    }
}

/// Inserting strings into a table without duplicates leaves it without
/// duplicates, and the table then holds what it held and the strings.
pub proof fn lemma_insert_all_set(table: Seq<Seq<char>>, strings: Seq<Seq<char>>)
    requires
        table.no_duplicates(),
    ensures
        insert_all(table, strings).no_duplicates(),
        insert_all(table, strings).to_set() == table.to_set().union(strings.to_set()),
    decreases strings.len(),
{
    if strings.len() == 0 {
        assert(strings.to_set() =~= Set::<Seq<char>>::empty());
        assert(table.to_set().union(strings.to_set()) =~= table.to_set());
    } else {
        let init = strings.drop_last();
        let last = strings.last();
        lemma_insert_all_set(table, init);
        let t = insert_all(table, init);
        let result = insert_unique(t, last);
        assert(strings =~= init.push(last));
        init.lemma_push_to_set_commute(last);
        if t.contains(last) {
            assert(result.to_set() =~= table.to_set().union(strings.to_set()));
        } else {
            t.lemma_push_to_set_commute(last);
            assert(result.to_set() =~= table.to_set().union(strings.to_set()));
            assert forall|i: int, j: int|
                0 <= i < result.len() && 0 <= j < result.len() && i != j implies result[i]
                != result[j] by {
                if i < t.len() && j < t.len() {
                } else if i < t.len() {
                    assert(t.contains(t[i]));
                } else {
                    assert(t.contains(t[j]));
                }
            }
        }
    }
}

} // verus!
