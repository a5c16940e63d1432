//! Splitting byte text into pieces: on a separator byte, or into the words
//! that whitespace closes.

use vstd::prelude::*;

verus! {

/// The pieces of `s` between occurrences of `sep`: one more piece than there
/// are separators, the last one being what follows the final separator.
pub open spec fn split_on(s: Seq<u8>, sep: u8) -> Seq<Seq<u8>>
    decreases s.len(),
{
    if s.len() == 0 {
        seq![Seq::empty()]
    } else {
        let init = split_on(s.drop_last(), sep);
        if s.last() == sep {
            init.push(Seq::empty())
        } else {
            init.update(init.len() - 1, init.last().push(s.last()))
        }
    }
}

pub proof fn lemma_split_on_nonempty(s: Seq<u8>, sep: u8)
    ensures
        split_on(s, sep).len() >= 1,
    decreases s.len(),
{
    if s.len() > 0 {
        lemma_split_on_nonempty(s.drop_last(), sep);
    }
}

/// The byte, read as the character of the same code point, is whitespace:
/// tab, line feed, vertical tab, form feed, carriage return, space, next
/// line (0x85) or no-break space (0xa0).
pub open spec fn is_space(b: u8) -> bool {
    (0x09 <= b <= 0x0d) || b == 0x20 || b == 0x85 || b == 0xa0
}

pub fn is_space_byte(b: u8) -> (r: bool)
    ensures
        r == is_space(b),
{
    (0x09 <= b && b <= 0x0d) || b == 0x20 || b == 0x85 || b == 0xa0
}

/// The run of non-space bytes at the end of `s`.
pub open spec fn trailing_word(s: Seq<u8>) -> Seq<u8>
    decreases s.len(),
{
    if s.len() == 0 || is_space(s.last()) {
        Seq::empty()
    } else {
        trailing_word(s.drop_last()).push(s.last())
    }
}

/// The words of `s` that whitespace closes, in order: each maximal run of
/// non-space bytes that a space byte follows. A run at the very end of `s`
/// is not closed and is not among them.
pub open spec fn closed_words(s: Seq<u8>) -> Seq<Seq<u8>>
    decreases s.len(),
{
    if s.len() == 0 {
        Seq::empty()
    } else if is_space(s.last()) && trailing_word(s.drop_last()).len() > 0 {
        closed_words(s.drop_last()).push(trailing_word(s.drop_last()))
    } else {
        closed_words(s.drop_last())
    }
}

/// Finds the pieces of `s[lo..hi]` between occurrences of `sep`, as the
/// bounds of each piece in `s`.
pub fn split_ranges(s: &[u8], lo: usize, hi: usize, sep: u8) -> (r: Vec<(usize, usize)>)
    requires
        lo <= hi <= s@.len(),
    ensures
        r@.len() == split_on(s@.subrange(lo as int, hi as int), sep).len(),
        forall|k: int|
            0 <= k < r@.len() ==> {
                &&& lo <= (#[trigger] r@[k]).0 <= r@[k].1 <= hi
                &&& s@.subrange(r@[k].0 as int, r@[k].1 as int) == split_on(
                    s@.subrange(lo as int, hi as int),
                    sep,
                )[k]
                &&& (k + 1 < r@.len() ==> r@[k].1 < hi && s@[r@[k].1 as int] == sep)
            },
{
    let mut r: Vec<(usize, usize)> = Vec::new();
    let mut start: usize = lo;
    let mut i: usize = lo;
    proof {
        assert(s@.subrange(lo as int, lo as int) =~= Seq::<u8>::empty());
    }
    while i < hi
        invariant
            lo <= start <= i <= hi <= s@.len(),
            r@.len() + 1 == split_on(s@.subrange(lo as int, i as int), sep).len(),
            s@.subrange(start as int, i as int) == split_on(
                s@.subrange(lo as int, i as int),
                sep,
            ).last(),
            forall|k: int|
                0 <= k < r@.len() ==> {
                    &&& lo <= (#[trigger] r@[k]).0 <= r@[k].1 < start
                    &&& s@.subrange(r@[k].0 as int, r@[k].1 as int) == split_on(
                        s@.subrange(lo as int, i as int),
                        sep,
                    )[k]
                    &&& s@[r@[k].1 as int] == sep
                },
        decreases hi - i,
    {
        let ghost before = s@.subrange(lo as int, i as int);
        let ghost after = s@.subrange(lo as int, i + 1);
        proof {
            assert(after.drop_last() =~= before);
            lemma_split_on_nonempty(before, sep);
        }
        let ghost old_r = r@;
        if s[i] == sep {
            r.push((start, i));
            start = i + 1;
            proof {
                assert(split_on(after, sep) == split_on(before, sep).push(Seq::empty()));
                assert(s@.subrange(start as int, i + 1) =~= Seq::<u8>::empty());
                assert forall|k: int| 0 <= k < r@.len() implies {
                    &&& lo <= r@[k].0 <= r@[k].1 < start
                    &&& s@.subrange(r@[k].0 as int, r@[k].1 as int) == split_on(after, sep)[k]
                    &&& s@[r@[k].1 as int] == sep
                } by {
                    if k < old_r.len() {
                        assert(r@[k] == old_r[k]);
                    }
                }
            }
        } else {
            proof {
                let pb = split_on(before, sep);
                assert(split_on(after, sep) == pb.update(pb.len() - 1, pb.last().push(s@[i as int])));
                assert(s@.subrange(start as int, i + 1) =~= s@.subrange(
                    start as int,
                    i as int,
                ).push(s@[i as int]));
                assert forall|k: int| 0 <= k < r@.len() implies {
                    &&& lo <= r@[k].0 <= r@[k].1 < start
                    &&& s@.subrange(r@[k].0 as int, r@[k].1 as int) == split_on(after, sep)[k]
                    &&& s@[r@[k].1 as int] == sep
                } by {
                    assert(r@[k] == old_r[k]);
                }
            }
        }
        i = i + 1;
    }
    let ghost old_r = r@;
    r.push((start, hi));
    proof {
        assert forall|k: int| 0 <= k < r@.len() implies {
            &&& lo <= r@[k].0 <= r@[k].1 <= hi
            &&& s@.subrange(r@[k].0 as int, r@[k].1 as int) == split_on(
                s@.subrange(lo as int, hi as int),
                sep,
            )[k]
            &&& (k + 1 < r@.len() ==> r@[k].1 < hi && s@[r@[k].1 as int] == sep)
        } by {
            if k < old_r.len() {
                assert(r@[k] == old_r[k]);
            }
        }
    }
    r
}

} // verus!
