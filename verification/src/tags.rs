//! Tag sets. The tags of a transaction are a set: they are held in one
//! canonical order, strictly ascending by their UTF-8 bytes, so that a set
//! of tags has one form only, whatever the order in which it was given.

use crate::text::{lemma_same_bytes_same_text, same_text, texts};
use vstd::prelude::*;
use vstd::string::*;
use vstd::utf8::*;

verus! {

/// `a` comes before `b` in the order of a dictionary, byte by byte: at the
/// first place where they differ `a` has the smaller byte, or `a` ends
/// there and `b` does not.
pub open spec fn bytes_before(a: Seq<u8>, b: Seq<u8>) -> bool
    decreases a.len(),
{
    if b.len() == 0 {
        false
    } else if a.len() == 0 {
        true
    } else if a[0] != b[0] {
        a[0] < b[0]
    } else {
        bytes_before(a.drop_first(), b.drop_first())
    }
}

/// `a` comes before `b` in the order of their UTF-8 bytes.
pub open spec fn text_before(a: Seq<char>, b: Seq<char>) -> bool {
    bytes_before(encode_utf8(a), encode_utf8(b))
}

/// Each text of the list comes before every text behind it. Such a list
/// holds no text twice.
pub open spec fn ascending(list: Seq<Seq<char>>) -> bool {
    forall|i: int, j: int|
        0 <= i < j < list.len() ==> text_before(#[trigger] list[i], #[trigger] list[j])
}

/// `sorted` with `t` put in at its place in the order, unless it is there.
pub open spec fn insert_text(sorted: Seq<Seq<char>>, t: Seq<char>) -> Seq<Seq<char>>
    decreases sorted.len(),
{
    if sorted.len() == 0 {
        seq![t]
    } else if sorted.last() == t {
        sorted
    } else if text_before(sorted.last(), t) {
        sorted.push(t)
    } else {
        insert_text(sorted.drop_last(), t).push(sorted.last())
    }
}

/// The canonical form of a list of tags: each tag once, in ascending order.
pub open spec fn canonical(list: Seq<Seq<char>>) -> Seq<Seq<char>>
    decreases list.len(),
{
    if list.len() == 0 {
        list
    } else {
        insert_text(canonical(list.drop_last()), list.last())
    }
}

pub proof fn lemma_bytes_irreflexive(a: Seq<u8>)
    ensures
        !bytes_before(a, a),
    decreases a.len(),
{
    if a.len() > 0 {
        lemma_bytes_irreflexive(a.drop_first());
    }
}

pub proof fn lemma_bytes_transitive(a: Seq<u8>, b: Seq<u8>, c: Seq<u8>)
    requires
        bytes_before(a, b),
        bytes_before(b, c),
    ensures
        bytes_before(a, c),
    decreases a.len(),
{
    if a.len() > 0 && a[0] == b[0] && b[0] == c[0] {
        lemma_bytes_transitive(a.drop_first(), b.drop_first(), c.drop_first());
    }
}

pub proof fn lemma_bytes_total(a: Seq<u8>, b: Seq<u8>)
    requires
        !bytes_before(a, b),
        !bytes_before(b, a),
    ensures
        a == b,
    decreases a.len(),
{
    if a.len() == 0 || b.len() == 0 {
        assert(a =~= b);
    } else {
        lemma_bytes_total(a.drop_first(), b.drop_first());
        assert(a =~= seq![a[0]] + a.drop_first());
        assert(b =~= seq![b[0]] + b.drop_first());
    }
}

/// The order of texts is a strict total order: no text comes before
/// itself, of two different texts one comes before the other, and what
/// comes before a text comes before all that the text comes before.
pub proof fn lemma_text_order(a: Seq<char>, b: Seq<char>, c: Seq<char>)
    ensures
        !text_before(a, a),
        a != b ==> text_before(a, b) || text_before(b, a),
        text_before(a, b) && text_before(b, c) ==> text_before(a, c),
        !(text_before(a, b) && text_before(b, a)),
{
    lemma_bytes_irreflexive(encode_utf8(a));
    if !text_before(a, b) && !text_before(b, a) {
        lemma_bytes_total(encode_utf8(a), encode_utf8(b));
        lemma_same_bytes_same_text(a, b);
    }
    if text_before(a, b) && text_before(b, c) {
        lemma_bytes_transitive(encode_utf8(a), encode_utf8(b), encode_utf8(c));
    }
    if text_before(a, b) && text_before(b, a) {
        lemma_bytes_transitive(encode_utf8(a), encode_utf8(b), encode_utf8(a));
    }
}

/// A list in which each text comes before the next one is ascending.
pub proof fn lemma_ascending_by_neighbours(list: Seq<Seq<char>>)
    requires
        forall|i: int| 0 <= i < list.len() - 1 ==> text_before(#[trigger] list[i], list[i + 1]),
    ensures
        ascending(list),
    decreases list.len(),
{
    if list.len() > 1 {
        let front = list.drop_last();
        assert forall|i: int| 0 <= i < front.len() - 1 implies text_before(
            #[trigger] front[i],
            front[i + 1],
        ) by {
            assert(text_before(list[i], list[i + 1]));
        }
        lemma_ascending_by_neighbours(front);
        assert forall|i: int, j: int| 0 <= i < j < list.len() implies text_before(
            #[trigger] list[i],
            #[trigger] list[j],
        ) by {
            if j < list.len() - 1 {
                assert(text_before(front[i], front[j]));
            } else if i < list.len() - 2 {
                assert(text_before(front[i], front[list.len() - 2]));
                assert(text_before(list[list.len() - 2], list[list.len() - 2 + 1]));
                lemma_text_order(list[i], list[list.len() - 2], list[j]);
            } else {
                assert(text_before(list[i], list[i + 1]));
            }
        }
    }
}

/// An ascending list holds no text twice.
pub proof fn lemma_ascending_no_duplicates(list: Seq<Seq<char>>)
    requires
        ascending(list),
    ensures
        list.no_duplicates(),
{
    assert forall|i: int, j: int| 0 <= i < list.len() && 0 <= j < list.len() && i != j implies list[i]
        != list[j] by {
        lemma_text_order(list[i], list[j], list[i]);
        if i < j {
            assert(text_before(list[i], list[j]));
        } else {
            assert(text_before(list[j], list[i]));
        }
    }
}

pub proof fn lemma_contains_push(list: Seq<Seq<char>>, last: Seq<char>, t: Seq<char>)
    ensures
        list.push(last).contains(t) <==> list.contains(t) || t == last,
{
    let all = list.push(last);
    if all.contains(t) {
        let k = choose|k: int| 0 <= k < all.len() && all[k] == t;
        if k < list.len() {
            assert(list[k] == t);
        }
    }
    if list.contains(t) {
        let k = choose|k: int| 0 <= k < list.len() && list[k] == t;
        assert(all[k] == t);
    }
    if t == last {
        assert(all[list.len() as int] == t);
    }
}

/// Putting a text into an ascending list gives an ascending list that
/// holds what the list held, and the text.
pub proof fn lemma_insert_text(sorted: Seq<Seq<char>>, t: Seq<char>)
    requires
        ascending(sorted),
    ensures
        ascending(insert_text(sorted, t)),
        forall|x: Seq<char>| insert_text(sorted, t).contains(x) <==> sorted.contains(x) || x == t,
    decreases sorted.len(),
{
    let out = insert_text(sorted, t);
    if sorted.len() == 0 {
        assert forall|x: Seq<char>| out.contains(x) <==> sorted.contains(x) || x == t by {
            assert(out =~= sorted.push(t));
            lemma_contains_push(sorted, t, x);
        }
    } else {
        let front = sorted.drop_last();
        let last = sorted.last();
        assert(front.push(last) =~= sorted);
        if last == t {
            assert(sorted[sorted.len() - 1] == t);
        } else if text_before(last, t) {
            assert forall|i: int, j: int| 0 <= i < j < out.len() implies text_before(
                #[trigger] out[i],
                #[trigger] out[j],
            ) by {
                if j < sorted.len() {
                    assert(text_before(sorted[i], sorted[j]));
                } else if i < sorted.len() - 1 {
                    assert(text_before(sorted[i], sorted[sorted.len() - 1]));
                    lemma_text_order(sorted[i], last, t);
                }
            }
            assert forall|x: Seq<char>| out.contains(x) <==> sorted.contains(x) || x == t by {
                lemma_contains_push(sorted, t, x);
            }
        } else {
            lemma_text_order(last, t, last);
            assert(ascending(front)) by {
                assert forall|i: int, j: int| 0 <= i < j < front.len() implies text_before(
                    #[trigger] front[i],
                    #[trigger] front[j],
                ) by {
                    assert(text_before(sorted[i], sorted[j]));
                }
            }
            lemma_insert_text(front, t);
            let mid = insert_text(front, t);
            assert forall|i: int, j: int| 0 <= i < j < out.len() implies text_before(
                #[trigger] out[i],
                #[trigger] out[j],
            ) by {
                if j < mid.len() {
                    assert(text_before(mid[i], mid[j]));
                } else {
                    assert(mid.contains(mid[i]));
                    if mid[i] != t {
                        assert(front.contains(mid[i]));
                        let k = choose|k: int| 0 <= k < front.len() && front[k] == mid[i];
                        assert(text_before(sorted[k], sorted[sorted.len() - 1]));
                    }
                }
            }
            assert forall|x: Seq<char>| out.contains(x) <==> sorted.contains(x) || x == t by {
                lemma_contains_push(mid, last, x);
                lemma_contains_push(front, last, x);
            }
        }
    }
}

/// Where the texts of `sorted` from `at` on all come after `t`: if the
/// text before `at` is `t`, putting `t` in changes nothing; if it comes
/// before `t`, or there is none, `t` is put in at `at`.
pub proof fn lemma_insert_text_position(sorted: Seq<Seq<char>>, t: Seq<char>, at: int)
    requires
        0 <= at <= sorted.len(),
        forall|k: int|
            at <= k < sorted.len() ==> (#[trigger] sorted[k]) != t && !text_before(sorted[k], t),
    ensures
        at > 0 && sorted[at - 1] == t ==> insert_text(sorted, t) == sorted,
        at == 0 || (sorted[at - 1] != t && text_before(sorted[at - 1], t)) ==> insert_text(
            sorted,
            t,
        ) == sorted.insert(at, t),
    decreases sorted.len() - at,
{
    if sorted.len() == 0 {
        assert(sorted.insert(at, t) =~= seq![t]);
    } else if at == sorted.len() {
        assert(sorted.insert(at, t) =~= sorted.push(t));
    } else {
        let front = sorted.drop_last();
        assert(sorted[sorted.len() - 1] != t && !text_before(sorted[sorted.len() - 1], t));
        assert forall|k: int| at <= k < front.len() implies (#[trigger] front[k]) != t
            && !text_before(front[k], t) by {
            assert(front[k] == sorted[k]);
        }
        lemma_insert_text_position(front, t, at);
        assert(front.push(sorted.last()) =~= sorted);
        assert(front.insert(at, t).push(sorted.last()) =~= sorted.insert(at, t));
    }
}

/// The canonical form of a list is ascending and holds exactly the texts
/// of the list.
pub proof fn lemma_canonical(list: Seq<Seq<char>>)
    ensures
        ascending(canonical(list)),
        forall|x: Seq<char>| canonical(list).contains(x) <==> list.contains(x),
        canonical(list).to_set() == list.to_set(),
    decreases list.len(),
{
    if list.len() > 0 {
        let front = list.drop_last();
        lemma_canonical(front);
        lemma_insert_text(canonical(front), list.last());
        assert(front.push(list.last()) =~= list);
        assert forall|x: Seq<char>| canonical(list).contains(x) <==> list.contains(x) by {
            lemma_contains_push(front, list.last(), x);
        }
    }
    assert(canonical(list).to_set() =~= list.to_set());
}

/// An ascending list is fixed by the texts it holds: two ascending lists
/// with the same texts are the same list.
pub proof fn lemma_ascending_unique(a: Seq<Seq<char>>, b: Seq<Seq<char>>)
    requires
        ascending(a),
        ascending(b),
        a.to_set() == b.to_set(),
    ensures
        a == b,
    decreases a.len(),
{
    assert forall|x: Seq<char>| a.contains(x) <==> b.contains(x) by {
        assert(a.to_set().contains(x) == a.contains(x));
        assert(b.to_set().contains(x) == b.contains(x));
    }
    if a.len() == 0 {
        if b.len() > 0 {
            assert(b.contains(b[0]));
        }
        assert(a =~= b);
    } else {
        assert(a.contains(a[0]));
        let x = a.last();
        let y = b.last();
        assert(a.contains(x));
        assert(b.contains(y));
        let k = choose|k: int| 0 <= k < b.len() && b[k] == x;
        let m = choose|m: int| 0 <= m < a.len() && a[m] == y;
        lemma_text_order(x, y, x);
        if k < b.len() - 1 {
            assert(text_before(b[k], b[b.len() - 1]));
        }
        if m < a.len() - 1 {
            assert(text_before(a[m], a[a.len() - 1]));
        }
        assert(x == y);
        let front = a.drop_last();
        let other = b.drop_last();
        assert(ascending(front)) by {
            assert forall|i: int, j: int| 0 <= i < j < front.len() implies text_before(
                #[trigger] front[i],
                #[trigger] front[j],
            ) by {
                assert(text_before(a[i], a[j]));
            }
        }
        assert(ascending(other)) by {
            assert forall|i: int, j: int| 0 <= i < j < other.len() implies text_before(
                #[trigger] other[i],
                #[trigger] other[j],
            ) by {
                assert(text_before(b[i], b[j]));
            }
        }
        assert forall|z: Seq<char>| front.contains(z) <==> other.contains(z) by {
            lemma_text_order(z, x, z);
            if front.contains(z) {
                let i = choose|i: int| 0 <= i < front.len() && front[i] == z;
                assert(text_before(a[i], a[a.len() - 1]));
                assert(a.contains(z));
                let j = choose|j: int| 0 <= j < b.len() && b[j] == z;
                assert(other[j] == z);
            }
            if other.contains(z) {
                let i = choose|i: int| 0 <= i < other.len() && other[i] == z;
                assert(text_before(b[i], b[b.len() - 1]));
                assert(b.contains(z));
                let j = choose|j: int| 0 <= j < a.len() && a[j] == z;
                assert(front[j] == z);
            }
        }
        assert(front.to_set() =~= other.to_set());
        lemma_ascending_unique(front, other);
        assert(a =~= front.push(x));
        assert(b =~= other.push(y));
    }
}

/// The canonical form depends on the set of tags alone, not on the order
/// in which they were given nor on how often.
pub proof fn lemma_canonical_of_set(a: Seq<Seq<char>>, b: Seq<Seq<char>>)
    requires
        a.to_set() == b.to_set(),
    ensures
        canonical(a) == canonical(b),
{
    lemma_canonical(a);
    lemma_canonical(b);
    lemma_ascending_unique(canonical(a), canonical(b));
}

/// An ascending list is its own canonical form.
pub proof fn lemma_canonical_of_ascending(list: Seq<Seq<char>>)
    requires
        ascending(list),
    ensures
        canonical(list) == list,
{
    lemma_canonical(list);
    lemma_ascending_unique(canonical(list), list);
}

/// Whether `a` comes before `b` in the order of their UTF-8 bytes.
pub fn text_is_before(a: &str, b: &str) -> (before: bool)
    ensures
        before == text_before(a@, b@),
{
    let left = a.as_bytes();
    let right = b.as_bytes();
    let mut i: usize = 0;
    proof {
        assert(left@.skip(0) =~= left@);
        assert(right@.skip(0) =~= right@);
    }
    while i < left.len() && i < right.len()
        invariant
            0 <= i <= left@.len(),
            i <= right@.len(),
            left@ == encode_utf8(a@),
            right@ == encode_utf8(b@),
            bytes_before(left@, right@) == bytes_before(left@.skip(i as int), right@.skip(i as int)),
        decreases left@.len() - i,
    {
        proof {
            assert(left@.skip(i as int).drop_first() =~= left@.skip(i + 1));
            assert(right@.skip(i as int).drop_first() =~= right@.skip(i + 1));
            assert(left@.skip(i as int)[0] == left@[i as int]);
            assert(right@.skip(i as int)[0] == right@[i as int]);
        }
        if left[i] != right[i] {
            return left[i] < right[i];
        }
        i += 1;
    }
    i < right.len()
}

/// Whether the strings of `list` are in ascending order, none twice.
pub fn is_ascending(list: &Vec<String>) -> (ordered: bool)
    ensures
        ordered == ascending(texts(list@)),
{
    let mut i: usize = 1;
    while i < list.len()
        invariant
            1 <= i,
            forall|k: int|
                0 <= k < i - 1 && k < list@.len() - 1 ==> text_before(
                    #[trigger] texts(list@)[k],
                    texts(list@)[k + 1],
                ),
        decreases list@.len() - i,
    {
        if !text_is_before(list[i - 1].as_str(), list[i].as_str()) {
            assert(!text_before(texts(list@)[i - 1], texts(list@)[i as int]));
            return false;
        }
        i += 1;
    }
    proof {
        lemma_ascending_by_neighbours(texts(list@));
    }
    true
}

/// Puts `t` into `sorted` at its place in the order, unless it is there.
fn put_in_order(sorted: &mut Vec<String>, t: String)
    ensures
        texts(final(sorted)@) == insert_text(texts(old(sorted)@), t@),
{
    let mut at: usize = sorted.len();
    let mut placed = false;
    while at > 0 && !placed
        invariant
            0 <= at <= sorted@.len(),
            sorted@ == old(sorted)@,
            forall|k: int|
                at <= k < sorted@.len() ==> (#[trigger] texts(sorted@)[k]) != t@ && !text_before(
                    texts(sorted@)[k],
                    t@,
                ),
            placed ==> at > 0 && texts(sorted@)[at - 1] != t@ && text_before(
                texts(sorted@)[at - 1],
                t@,
            ),
        decreases at + if placed { 0int } else { 1int },
    {
        if same_text(sorted[at - 1].as_str(), t.as_str()) {
            proof {
                lemma_insert_text_position(texts(sorted@), t@, at as int);
            }
            return ;
        }
        if text_is_before(sorted[at - 1].as_str(), t.as_str()) {
            placed = true;
        } else {
            at -= 1;
        }
    }
    proof {
        lemma_insert_text_position(texts(sorted@), t@, at as int);
        assert(texts(sorted@.insert(at as int, t)) =~= texts(sorted@).insert(at as int, t@));
    }
    sorted.insert(at, t);
}

/// The canonical form of `list`: each of its strings once, in ascending
/// order.
pub fn canonical_texts(list: &Vec<String>) -> (kept: Vec<String>)
    ensures
        texts(kept@) == canonical(texts(list@)),
        ascending(texts(kept@)),
{
    let mut kept: Vec<String> = Vec::new();
    let mut i: usize = 0;
    proof {
        assert(texts(list@).take(0) =~= Seq::empty());
        assert(texts(kept@) =~= Seq::empty());
    }
    while i < list.len()
        invariant
            0 <= i <= list@.len(),
            texts(kept@) == canonical(texts(list@).take(i as int)),
        decreases list@.len() - i,
    {
        proof {
            assert(texts(list@).take(i + 1).drop_last() =~= texts(list@).take(i as int));
            assert(texts(list@).take(i + 1).last() == list@[i as int]@);
        }
        put_in_order(&mut kept, list[i].clone());
        i += 1;
    }
    proof {
        assert(texts(list@).take(i as int) =~= texts(list@));
        lemma_canonical(texts(list@));
    }
    kept
}

} // verus!
