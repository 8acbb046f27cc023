//! Lists of keys with values. What stands under a key is what stands under the
//! first copy of it.

use vstd::prelude::*;

use crate::text::same_text;

verus! {

/// What stands under a key.
pub open spec fn under<T>(pairs: Seq<(String, T)>, key: Seq<char>) -> Option<T>
    decreases pairs.len(),
{
    if pairs.len() == 0 {
        None
    } else if pairs[0].0@ == key {
        Some(pairs[0].1)
    } else {
        under(pairs.drop_first(), key)
    }
}

/// Finds what stands under a key.
pub fn find_under<'a, T>(pairs: &'a Vec<(String, T)>, key: &str) -> (value: Option<&'a T>)
    ensures
        match value {
            Some(inner) => under(pairs@, key@) == Some(*inner),
            None => under(pairs@, key@) is None,
        },
{
    let mut i: usize = 0;
    assert(pairs@.skip(0) =~= pairs@);
    while i < pairs.len()
        invariant
            i <= pairs.len(),
            under(pairs@, key@) == under(pairs@.skip(i as int), key@),
        decreases pairs.len() - i,
    {
        proof {
            assert(pairs@.skip(i as int)[0] == pairs@[i as int]);
            assert(pairs@.skip(i as int).drop_first() =~= pairs@.skip(i + 1));
        }
        if same_text(pairs[i].0.as_str(), key) {
            return Some(&pairs[i].1);
        }
        i += 1;
    }
    None
}

/// Where the first copy of a key stands; the number of pairs where there is none.
pub fn place_of<T>(pairs: &Vec<(String, T)>, key: &str) -> (place: usize)
    ensures
        place <= pairs@.len(),
        forall|i: int| 0 <= i < place ==> (#[trigger] pairs@[i]).0@ != key@,
        place < pairs@.len() ==> pairs@[place as int].0@ == key@,
{
    let mut i: usize = 0;
    while i < pairs.len()
        invariant
            i <= pairs.len(),
            forall|j: int| 0 <= j < i ==> (#[trigger] pairs@[j]).0@ != key@,
        decreases pairs.len() - i,
    {
        if same_text(pairs[i].0.as_str(), key) {
            return i;
        }
        i += 1;
    }
    i
}

/// What stands under a key is found behind the pairs of other keys.
pub proof fn under_others<T>(pairs: Seq<(String, T)>, key: Seq<char>, place: int)
    requires
        0 <= place <= pairs.len(),
        forall|i: int| 0 <= i < place ==> (#[trigger] pairs[i]).0@ != key,
    ensures
        place == pairs.len() ==> under(pairs, key) is None,
        place < pairs.len() && pairs[place].0@ == key ==> under(pairs, key) == Some(pairs[place].1),
        under(pairs, key) == under(pairs.skip(place), key),
    decreases place,
{
    if place > 0 {
        assert(pairs[0].0@ != key);
        assert forall|i: int| 0 <= i < place - 1 implies (#[trigger] pairs.drop_first()[i]).0@
            != key by {
            assert(pairs.drop_first()[i] == pairs[i + 1]);
        }
        under_others(pairs.drop_first(), key, place - 1);
        assert(pairs.drop_first().skip(place - 1) =~= pairs.skip(place));
    } else {
        assert(pairs.skip(0) =~= pairs);
    }
}

/// Where the value of one pair is replaced, what stands under other keys stays.
pub proof fn under_after_update<T>(pairs: Seq<(String, T)>, place: int, pair: (String, T), key: Seq<char>)
    requires
        0 <= place < pairs.len(),
        pairs[place].0@ == pair.0@,
        key != pair.0@,
    ensures
        under(pairs.update(place, pair), key) == under(pairs, key),
    decreases pairs.len(),
{
    let after = pairs.update(place, pair);
    if place == 0 {
        assert(after.drop_first() =~= pairs.drop_first());
    } else {
        assert(after.drop_first() =~= pairs.drop_first().update(place - 1, pair));
        if pairs[0].0@ != key {
            under_after_update(pairs.drop_first(), place - 1, pair, key);
        }
    }
}

/// What stands under a key after a pair was added at the end.
pub proof fn under_after_push<T>(pairs: Seq<(String, T)>, pair: (String, T), key: Seq<char>)
    ensures
        under(pairs.push(pair), key) == if under(pairs, key) is Some {
            under(pairs, key)
        } else if pair.0@ == key {
            Some(pair.1)
        } else {
            None
        },
    decreases pairs.len(),
{
    let after = pairs.push(pair);
    if pairs.len() > 0 {
        assert(after.drop_first() =~= pairs.drop_first().push(pair));
        if pairs[0].0@ != key {
            under_after_push(pairs.drop_first(), pair, key);
        }
    } else {
        assert(after.drop_first() =~= Seq::empty());
        assert(under(after.drop_first(), key) is None);
    }
}

/// Whether a key stands at a place and at none before it.
pub open spec fn stands_first<T>(pairs: Seq<(String, T)>, key: Seq<char>, place: int) -> bool {
    &&& 0 <= place < pairs.len()
    &&& pairs[place].0@ == key
    &&& forall|i: int| 0 <= i < place ==> (#[trigger] pairs[i]).0@ != key
}

/// Whether a key stands nowhere.
pub open spec fn is_missing<T>(pairs: Seq<(String, T)>, key: Seq<char>) -> bool {
    forall|i: int| 0 <= i < pairs.len() ==> (#[trigger] pairs[i]).0@ != key
}

/// What stands under a key is the value at the key's first place, whatever pairs
/// stand before and after it; under a key that is missing stands nothing.
pub proof fn the_first_copy_of_a_key_counts<T>(pairs: Seq<(String, T)>, key: Seq<char>)
    ensures
        forall|place: int| #[trigger]
            stands_first(pairs, key, place) ==> under(pairs, key) == Some(pairs[place].1),
        is_missing(pairs, key) <==> under(pairs, key) is None,
{
    assert forall|place: int| #[trigger] stands_first(pairs, key, place) implies under(pairs, key)
        == Some(pairs[place].1) by {
        under_others(pairs, key, place);
    }
    if is_missing(pairs, key) {
        under_others(pairs, key, pairs.len() as int);
    } else {
        some_copy_is_first(pairs, key);
    }
}

proof fn some_copy_is_first<T>(pairs: Seq<(String, T)>, key: Seq<char>)
    requires
        !is_missing(pairs, key),
    ensures
        under(pairs, key) is Some,
    decreases pairs.len(),
{
    if pairs[0].0@ != key {
        let i = choose|i: int| 0 <= i < pairs.len() && (#[trigger] pairs[i]).0@ == key;
        assert(pairs.drop_first()[i - 1].0@ == key);
        some_copy_is_first(pairs.drop_first(), key);
    }
}

} // verus!
