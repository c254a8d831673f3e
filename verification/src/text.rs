//! Splitting delimited text into lines and fields.

use vstd::prelude::*;

verus! {

/// Split a character sequence at every occurrence of `d`. The result always
/// has one field more than there are occurrences of `d`; in particular the
/// empty sequence splits into one empty field.
pub open spec fn spec_split(s: Seq<char>, d: char) -> Seq<Seq<char>>
    decreases s.len(),
{
    if s.len() == 0 {
        seq![Seq::<char>::empty()]
    } else if s.last() == d {
        spec_split(s.drop_last(), d).push(Seq::<char>::empty())
    } else {
        let r = spec_split(s.drop_last(), d);
        r.update(r.len() - 1, r.last().push(s.last()))
    }
}

/// A split result is never empty.
pub proof fn lemma_split_len(s: Seq<char>, d: char)
    ensures
        spec_split(s, d).len() >= 1,
    decreases s.len(),
{
    if s.len() > 0 {
        lemma_split_len(s.drop_last(), d);
    }
}

/// The lines that carry any content: drop the empty ones, keep the order.
pub open spec fn keep_nonempty(ls: Seq<Seq<char>>) -> Seq<Seq<char>>
    decreases ls.len(),
{
    if ls.len() == 0 {
        Seq::<Seq<char>>::empty()
    } else {
        let r = keep_nonempty(ls.drop_last());
        if ls.last().len() > 0 {
            r.push(ls.last())
        } else {
            r
        }
    }
}

/// The view of a vector of strings: each string as its character sequence.
pub open spec fn strs_view(v: Seq<String>) -> Seq<Seq<char>> {
    v.map_values(|p: String| p@)
}

/// Character-for-character string equality.
pub fn str_eq(a: &str, b: &str) -> (r: bool)
    ensures
        r == (a@ == b@),
{
    let na = a.unicode_len();
    let nb = b.unicode_len();
    if na != nb {
        return false;
    }
    let mut i: usize = 0;
    while i < na
        invariant
            na == a@.len(),
            na == b@.len(),
            0 <= i <= na,
            forall|k: int| 0 <= k < i ==> a@[k] == b@[k],
        decreases na - i,
    {
        if a.get_char(i) != b.get_char(i) {
            return false;
        }
        i += 1;
    }
    proof {
        assert(a@ =~= b@);
    }
    true
}

/// Split `s` at every occurrence of `d`, yielding owned fields.
pub fn split_str(s: &str, d: char) -> (parts: Vec<String>)
    ensures
        strs_view(parts@) == spec_split(s@, d),
{
    let n = s.unicode_len();
    let mut parts: Vec<String> = Vec::new();
    let mut start: usize = 0;
    let mut i: usize = 0;
    proof {
        assert(s@.take(0) =~= Seq::<char>::empty());
        assert(spec_split(s@.take(0), d) =~~= strs_view(parts@).push(s@.subrange(0, 0)));
    }
    while i < n
        invariant
            n == s@.len(),
            0 <= start <= i <= n,
            spec_split(s@.take(i as int), d) == strs_view(parts@).push(
                s@.subrange(start as int, i as int),
            ),
        decreases n - i,
    {
        proof {
            assert(s@.take(i + 1).drop_last() =~= s@.take(i as int));
            assert(s@.take(i + 1).last() == s@[i as int]);
        }
        if s.get_char(i) == d {
            let piece = s.substring_char(start, i).to_owned();
            parts.push(piece);
            proof {
                assert(strs_view(parts@) =~~= strs_view(parts@.drop_last()).push(
                    s@.subrange(start as int, i as int),
                ));
                assert(spec_split(s@.take(i + 1), d) =~~= strs_view(parts@).push(
                    s@.subrange(i + 1, i + 1),
                ));
            }
            start = i + 1;
        } else {
            proof {
                let r = spec_split(s@.take(i as int), d);
                lemma_split_len(s@.take(i as int), d);
                assert(s@.subrange(start as int, i as int).push(s@[i as int]) =~= s@.subrange(
                    start as int,
                    i + 1,
                ));
                assert(spec_split(s@.take(i + 1), d) =~~= strs_view(parts@).push(
                    s@.subrange(start as int, i + 1),
                ));
            }
        }
        i += 1;
    }
    let piece = s.substring_char(start, n).to_owned();
    parts.push(piece);
    proof {
        assert(s@.take(n as int) =~= s@);
        assert(strs_view(parts@) =~~= strs_view(parts@.drop_last()).push(
            s@.subrange(start as int, n as int),
        ));
    }
    parts
}

/// Keep only the nonempty strings, in order.
pub fn filter_nonempty(lines: &Vec<String>) -> (r: Vec<String>)
    ensures
        strs_view(r@) == keep_nonempty(strs_view(lines@)),
{
    let mut r: Vec<String> = Vec::new();
    let mut i: usize = 0;
    while i < lines.len()
        invariant
            0 <= i <= lines@.len(),
            strs_view(r@) == keep_nonempty(strs_view(lines@).take(i as int)),
        decreases lines@.len() - i,
    {
        proof {
            assert(strs_view(lines@).take(i + 1).drop_last() =~~= strs_view(lines@).take(i as int));
            assert(strs_view(lines@).take(i + 1).last() == lines@[i as int]@);
        }
        if !lines[i].as_str().is_empty() {
            r.push(lines[i].clone());
            proof {
                assert(strs_view(r@) =~~= strs_view(r@.drop_last()).push(lines@[i as int]@));
            }
        }
        i += 1;
    }
    proof {
        assert(strs_view(lines@).take(lines@.len() as int) =~~= strs_view(lines@));
    }
    r
}

} // verus!
