//! Reading the list of tags that a caller types.

use crate::tags::{ascending, canonical, canonical_texts};
use crate::text::texts;
use vstd::prelude::*;
use vstd::string::*;

verus! {

/// The pieces of `s` between the occurrences of `separator`. A text
/// without a separator is one piece, and so is the empty text.
pub open spec fn split(s: Seq<char>, separator: char) -> Seq<Seq<char>>
    decreases s.len(),
{
    if s.len() == 0 {
        seq![Seq::empty()]
    } else {
        let before = split(s.drop_last(), separator);
        if s.last() == separator {
            before.push(Seq::empty())
        } else {
            before.update(before.len() - 1, before.last().push(s.last()))
        }
    }
}

/// Reads a list of tags separated by commas, such as `house,family`. The
/// tags are a set: they come back in canonical order, each once, whatever
/// the order in which they were typed.
pub fn parse_tags(text: &str) -> (tags: Vec<String>)
    ensures
        texts(tags@) == canonical(split(text@, ',')),
        ascending(texts(tags@)),
{
    let n = text.unicode_len();
    let mut pieces: Vec<String> = Vec::new();
    let mut start: usize = 0;
    let mut i: usize = 0;
    proof {
        assert(text@.take(0) =~= Seq::empty());
        assert(text@.subrange(0, 0) =~= Seq::empty());
        assert(texts(pieces@).push(Seq::empty()) =~= seq![Seq::<char>::empty()]);
    }
    while i < n
        invariant
            0 <= start <= i <= n == text@.len(),
            split(text@.take(i as int), ',') == texts(pieces@).push(
                text@.subrange(start as int, i as int),
            ),
        decreases n - i,
    {
        let c = text.get_char(i);
        proof {
            assert(text@.take(i + 1).drop_last() =~= text@.take(i as int));
            assert(text@.take(i + 1).last() == c);
        }
        if c == ',' {
            let piece = String::from_str(text.substring_char(start, i));
            proof {
                assert(texts(pieces@.push(piece)) =~= texts(pieces@).push(piece@));
                assert(text@.subrange(i + 1, i + 1) =~= Seq::empty());
            }
            pieces.push(piece);
            start = i + 1;
        } else {
            proof {
                let before = texts(pieces@).push(text@.subrange(start as int, i as int));
                assert(text@.subrange(start as int, i as int).push(c) =~= text@.subrange(
                    start as int,
                    i + 1,
                ));
                assert(before.update(
                    before.len() - 1,
                    before.last().push(c),
                ) =~= texts(pieces@).push(text@.subrange(start as int, i + 1)));
            }
        }
        i += 1;
    }
    let piece = String::from_str(text.substring_char(start, n));
    proof {
        assert(texts(pieces@.push(piece)) =~= texts(pieces@).push(piece@));
        assert(text@.take(n as int) =~= text@);
    }
    pieces.push(piece);
    canonical_texts(&pieces)
}

} // verus!
