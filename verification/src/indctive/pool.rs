//! The string pool of a dictionary file: every text once, in the order of
//! first use, each with a NUL behind it.

use crate::text::strings_view;
use crate::text::{
    first_index_of, insert_unique, lemma_first_index_is, lemma_first_index_of, table_bytes,
};
use vstd::prelude::*;
use vstd::string::*;

verus! {

/// The place of `text` in the pool, if it has one.
pub fn find_text(pool: &Vec<String>, text: &str) -> (index: Option<usize>)
    ensures
        match index {
            Some(i) => i < pool.len() && i == first_index_of(strings_view(pool@), text@),
            None => !strings_view(pool@).contains(text@),
        },
{
    let ghost pv = strings_view(pool@);
    let wanted: String = text.to_owned();
    let mut i: usize = 0;
    while i < pool.len()
        invariant
            i <= pool.len(),
            pv == strings_view(pool@),
            wanted@ == text@,
            forall|j: int| 0 <= j < i ==> pv[j] != text@,
        decreases pool.len() - i,
    {
        if pool[i] == wanted {
            proof {
                assert(pv[i as int] == text@);
                lemma_first_index_is(pv, text@, i as int);
            }
            return Some(i);
        }
        i = i + 1;
    }
    proof {
        if pv.contains(text@) {
            let j = choose|j: int| 0 <= j < pv.len() && pv[j] == text@;
            assert(false);
        }
    }
    None
}

/// Puts `text` behind the others, unless the pool holds it already.
pub fn insert_text(pool: &mut Vec<String>, text: &str)
    ensures
        strings_view(final(pool)@) == insert_unique(strings_view(old(pool)@), text@),
{
    let ghost before = strings_view(pool@);
    match find_text(pool, text) {
        Some(_) => {
            proof {
                lemma_first_index_of(before, text@);
            }
        },
        None => {
            pool.push(text.to_owned());
            assert(strings_view(pool@) =~= before.push(text@));
        },
    }
}

/// The bytes of the pool, and for each of its texts the distance from the
/// start of the pool.
pub fn encode_pool(pool: &Vec<String>) -> (r: (Vec<u8>, Vec<usize>))
    ensures
        r.0@ == table_bytes(strings_view(pool@)),
        r.1@.len() == pool@.len(),
        forall|j: int|
            0 <= j < pool@.len() ==> (#[trigger] r.1@[j]) == table_bytes(
                strings_view(pool@).take(j),
            ).len() && r.1@[j] < r.0@.len(),
{
    let ghost pv = strings_view(pool@);
    let mut bytes: Vec<u8> = Vec::new();
    let mut offsets: Vec<usize> = Vec::new();
    let mut i: usize = 0;
    while i < pool.len()
        invariant
            i <= pool.len(),
            pv == strings_view(pool@),
            bytes@ == table_bytes(pv.take(i as int)),
            offsets@.len() == i,
            forall|j: int|
                0 <= j < i ==> (#[trigger] offsets@[j]) == table_bytes(pv.take(j)).len()
                    && offsets@[j] < bytes@.len(),
        decreases pool.len() - i,
    {
        offsets.push(bytes.len());
        bytes.extend_from_slice(pool[i].as_str().as_bytes());
        bytes.push(0u8);
        proof {
            assert(pv.take(i + 1).drop_last() =~= pv.take(i as int));
            assert(pv.take(i + 1).last() == pv[i as int]);
        }
        i = i + 1;
    }
    assert(pv.take(pool.len() as int) =~= pv);
    (bytes, offsets)
}

} // verus!
