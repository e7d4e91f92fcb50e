//! Lists of pairs used as small maps: the order of insertion is kept.

use vstd::prelude::*;

verus! {

/// The keys and values of a list of pairs.
pub open spec fn pairs_of(list: Seq<(String, String)>) -> Seq<(Seq<char>, Seq<char>)> {
    Seq::new(list.len(), |i: int| (list[i].0@, list[i].1@))
}

/// `i` is the first place at which `key` stands in `pairs`.
pub open spec fn first_at(pairs: Seq<(Seq<char>, Seq<char>)>, key: Seq<char>, i: int) -> bool {
    &&& 0 <= i < pairs.len()
    &&& pairs[i].0 == key
    &&& forall|j: int| 0 <= j < i ==> (#[trigger] pairs[j]).0 != key
}

/// `key` stands somewhere in `pairs`.
pub open spec fn has_key(pairs: Seq<(Seq<char>, Seq<char>)>, key: Seq<char>) -> bool {
    exists|i: int| 0 <= i < pairs.len() && (#[trigger] pairs[i]).0 == key
}

/// `pairs` with `value` under `key`: in place of the first value under that
/// key if there is one, at the end otherwise.
pub open spec fn upserted(pairs: Seq<(Seq<char>, Seq<char>)>, key: Seq<char>, value: Seq<char>) -> Seq<
    (Seq<char>, Seq<char>),
> {
    if has_key(pairs, key) {
        pairs.update(choose|i: int| first_at(pairs, key, i), (key, value))
    } else {
        pairs.push((key, value))
    }
}

/// `pairs` with `value` under `key` at the end, unless the key is there.
pub open spec fn inserted_if_absent(
    pairs: Seq<(Seq<char>, Seq<char>)>,
    key: Seq<char>,
    value: Seq<char>,
) -> Seq<(Seq<char>, Seq<char>)> {
    if has_key(pairs, key) {
        pairs
    } else {
        pairs.push((key, value))
    }
}

/// The first place at which `key` stands in `list`, if it stands there.
pub fn position(list: &Vec<(String, String)>, key: &String) -> (r: Option<usize>)
    ensures
        r is Some <==> has_key(pairs_of(list@), key@),
        r is Some ==> first_at(pairs_of(list@), key@, r->0 as int),
{
    let mut i: usize = 0;
    while i < list.len()
        invariant
            i <= list.len(),
            forall|j: int| 0 <= j < i ==> (#[trigger] pairs_of(list@)[j]).0 != key@,
        decreases list.len() - i,
    {
        assert(pairs_of(list@)[i as int].0 == list[i as int].0@);
        if list[i].0 == *key {
            return Some(i);
        }
        i = i + 1;
    }
    None
}

/// Sets the value under `key`: replaces the first value under that key, or
/// appends the pair if the key is new.
pub fn upsert(list: &mut Vec<(String, String)>, key: String, value: String)
    ensures
        pairs_of(final(list)@) == upserted(pairs_of(old(list)@), key@, value@),
{
    let ghost before = pairs_of(list@);
    match position(list, &key) {
        Some(i) => {
            proof {
                let c = choose|c: int| first_at(before, key@, c);
                assert(first_at(before, key@, i as int));
                assert(c == i);
            }
            list.set(i, (key, value));
            assert(pairs_of(list@) =~= before.update(i as int, (key@, value@)));
        },
        None => {
            list.push((key, value));
            assert(pairs_of(list@) =~= before.push((key@, value@)));
        },
    }
}

/// Appends the pair unless the key is there already.
pub fn insert_if_absent(list: &mut Vec<(String, String)>, key: String, value: String)
    ensures
        pairs_of(final(list)@) == inserted_if_absent(pairs_of(old(list)@), key@, value@),
{
    let ghost before = pairs_of(list@);
    if position(list, &key).is_none() {
        list.push((key, value));
        assert(pairs_of(list@) =~= before.push((key@, value@)));
    }
}

} // verus!
