//! Character-sequence utilities: splitting on a separator character,
//! joining with a separator, and trimming trailing whitespace.

use vstd::prelude::*;

verus! {

/// Index of the first occurrence of `sep` in `s`, or `s.len()` if `sep`
/// does not occur.
pub open spec fn find_char(s: Seq<char>, sep: char) -> int
    decreases s.len(),
{
    if s.len() == 0 {
        0
    } else if s[0] == sep {
        0
    } else {
        1 + find_char(s.drop_first(), sep)
    }
}

pub proof fn lemma_find_char(s: Seq<char>, sep: char)
    ensures
        0 <= find_char(s, sep) <= s.len(),
        find_char(s, sep) < s.len() ==> s[find_char(s, sep)] == sep,
        forall|j: int| 0 <= j < find_char(s, sep) ==> s[j] != sep,
    decreases s.len(),
{
    if s.len() == 0 {
    } else if s[0] == sep {
    } else {
        lemma_find_char(s.drop_first(), sep);
        assert forall|j: int| 0 <= j < find_char(s, sep) implies s[j] != sep by {
            if j > 0 {
                assert(s.drop_first()[j - 1] == s[j]);
            }
        }
    }
}

/// If `k` is the position of the first occurrence of `sep`, then
/// `find_char` returns exactly `k`.
pub proof fn lemma_find_char_is(s: Seq<char>, sep: char, k: int)
    requires
        0 <= k < s.len(),
        s[k] == sep,
        forall|j: int| 0 <= j < k ==> s[j] != sep,
    ensures
        find_char(s, sep) == k,
    decreases s.len(),
{
    if k > 0 {
        assert(s[0] != sep);
        assert(s.drop_first()[k - 1] == s[k]);
        assert forall|j: int| 0 <= j < k - 1 implies s.drop_first()[j] != sep by {
            assert(s.drop_first()[j] == s[j + 1]);
        }
        lemma_find_char_is(s.drop_first(), sep, k - 1);
    }
}

pub proof fn lemma_find_char_none(s: Seq<char>, sep: char)
    requires
        forall|j: int| 0 <= j < s.len() ==> s[j] != sep,
    ensures
        find_char(s, sep) == s.len(),
    decreases s.len(),
{
    if s.len() > 0 {
        assert forall|j: int| 0 <= j < s.drop_first().len() implies s.drop_first()[j] != sep by {
            assert(s.drop_first()[j] == s[j + 1]);
        }
        lemma_find_char_none(s.drop_first(), sep);
    }
}

/// The pieces of `s` between occurrences of `sep`, in order. Mirrors how
/// `str::split` behaves on a single-character pattern: `n` separators give
/// `n + 1` pieces, and adjacent separators give empty pieces.
pub open spec fn split_char(s: Seq<char>, sep: char) -> Seq<Seq<char>>
    decreases s.len(),
{
    let i = find_char(s, sep);
    if 0 <= i < s.len() {
        seq![s.take(i)] + split_char(s.skip(i + 1), sep)
    } else {
        seq![s]
    }
}

pub proof fn lemma_split_char_len(s: Seq<char>, sep: char)
    ensures
        split_char(s, sep).len() >= 1,
{
}

/// `split_char` takes its step at the first occurrence of the separator.
pub proof fn lemma_split_char_step(s: Seq<char>, sep: char, k: int)
    requires
        0 <= k < s.len(),
        s[k] == sep,
        forall|j: int| 0 <= j < k ==> s[j] != sep,
    ensures
        split_char(s, sep) == seq![s.take(k)] + split_char(s.skip(k + 1), sep),
{
    lemma_find_char_is(s, sep, k);
}

/// A sequence without the separator splits into itself alone.
pub proof fn lemma_split_char_whole(s: Seq<char>, sep: char)
    requires
        forall|j: int| 0 <= j < s.len() ==> s[j] != sep,
    ensures
        split_char(s, sep) == seq![s],
{
    lemma_find_char_none(s, sep);
}

/// The pieces joined back with the separator, a single separator between
/// adjacent pieces.
pub open spec fn join_char(parts: Seq<Seq<char>>, sep: char) -> Seq<char>
    decreases parts.len(),
{
    if parts.len() == 0 {
        Seq::empty()
    } else if parts.len() == 1 {
        parts[0]
    } else {
        parts[0] + seq![sep] + join_char(parts.drop_first(), sep)
    }
}

/// Joining the pieces of a split recovers the original sequence.
pub proof fn lemma_join_split(s: Seq<char>, sep: char)
    ensures
        join_char(split_char(s, sep), sep) == s,
    decreases s.len(),
{
    lemma_find_char(s, sep);
    let i = find_char(s, sep);
    if 0 <= i < s.len() {
        lemma_join_split(s.skip(i + 1), sep);
        lemma_split_char_len(s.skip(i + 1), sep);
        let parts = seq![s.take(i)] + split_char(s.skip(i + 1), sep);
        assert(parts.drop_first() =~= split_char(s.skip(i + 1), sep));
        assert(s.take(i) + seq![sep] + s.skip(i + 1) =~= s);
    }
}

/// A join can be cut at any boundary `i`: the left pieces joined, one
/// separator if the cut is interior, then the right pieces joined.
pub proof fn lemma_join_decompose(parts: Seq<Seq<char>>, sep: char, i: int)
    requires
        0 <= i <= parts.len(),
    ensures
        join_char(parts, sep) == join_char(parts.subrange(0, i), sep) + (if 0 < i
            < parts.len() {
            seq![sep]
        } else {
            Seq::<char>::empty()
        }) + join_char(parts.subrange(i, parts.len() as int), sep),
    decreases parts.len(),
{
    let n = parts.len() as int;
    if i == 0 {
        assert(parts.subrange(0, 0) =~= Seq::<Seq<char>>::empty());
        assert(parts.subrange(0, n) =~= parts);
        assert(Seq::<char>::empty() + Seq::<char>::empty() + join_char(parts, sep) =~= join_char(
            parts,
            sep,
        ));
    } else if i == n && n == 1 {
        assert(parts.subrange(0, 1) =~= parts);
        assert(parts.subrange(1, 1) =~= Seq::<Seq<char>>::empty());
        assert(join_char(parts, sep) + Seq::<char>::empty() + Seq::<char>::empty() =~= join_char(
            parts,
            sep,
        ));
    } else {
        // here i >= 1 and n >= 2
        let rest = parts.drop_first();
        lemma_join_decompose(rest, sep, i - 1);
        assert(rest.subrange(0, i - 1) =~= parts.subrange(1, i));
        assert(rest.subrange(i - 1, rest.len() as int) =~= parts.subrange(i, n));
        if i == 1 {
            assert(parts.subrange(0, 1) =~= seq![parts[0]]);
            assert(join_char(parts.subrange(0, 1), sep) == parts[0]);
            assert(join_char(parts, sep) =~= join_char(parts.subrange(0, 1), sep) + (if i < n {
                seq![sep]
            } else {
                Seq::<char>::empty()
            }) + join_char(parts.subrange(1, n), sep));
        } else {
            let left = parts.subrange(0, i);
            assert(left.drop_first() =~= parts.subrange(1, i));
            assert(left.len() >= 2);
            assert(join_char(left, sep) == parts[0] + seq![sep] + join_char(
                parts.subrange(1, i),
                sep,
            ));
            assert(join_char(parts, sep) =~= join_char(left, sep) + (if i < n {
                seq![sep]
            } else {
                Seq::<char>::empty()
            }) + join_char(parts.subrange(i, n), sep));
        }
    }
}

/// When one piece of a split is cut out, what is joined on either side is
/// strictly shorter than the original sequence (whenever it is non-empty).
pub proof fn lemma_split_remainders_shorter(s: Seq<char>, sep: char, i: int)
    requires
        0 <= i < split_char(s, sep).len(),
    ensures
        join_char(split_char(s, sep).subrange(0, i), sep).len() > 0 ==> join_char(
            split_char(s, sep).subrange(0, i),
            sep,
        ).len() < s.len(),
        join_char(split_char(s, sep).subrange(i + 1, split_char(s, sep).len() as int), sep).len()
            > 0 ==> join_char(
            split_char(s, sep).subrange(i + 1, split_char(s, sep).len() as int),
            sep,
        ).len() < s.len(),
{
    let toks = split_char(s, sep);
    let n = toks.len() as int;
    lemma_join_split(s, sep);
    lemma_join_decompose(toks, sep, i);
    let pre = join_char(toks.subrange(0, i), sep);
    let right = join_char(toks.subrange(i, n), sep);
    // peel the selected piece off the right-hand join
    let rightparts = toks.subrange(i, n);
    assert(rightparts.len() >= 1);
    let suf = join_char(toks.subrange(i + 1, n), sep);
    if rightparts.len() == 1 {
        assert(toks.subrange(i + 1, n) =~= Seq::<Seq<char>>::empty());
        assert(suf.len() == 0);
    } else {
        assert(rightparts.drop_first() =~= toks.subrange(i + 1, n));
        assert(right == rightparts[0] + seq![sep] + suf);
        assert(right.len() >= suf.len() + 1);
    }
    if pre.len() > 0 {
        assert(i > 0);
        assert(s.len() >= pre.len() + 1);
    }
    if suf.len() > 0 {
        assert(s.len() >= suf.len() + 1);
    }
}

/// The characters with the Unicode `White_Space` property, the set that
/// `char::is_whitespace` recognizes.
pub open spec fn is_whitespace_char(c: char) -> bool {
    let u = c as u32;
    u == 0x09 || u == 0x0a || u == 0x0b || u == 0x0c || u == 0x0d || u == 0x20 || u == 0x85 || u
        == 0xa0 || u == 0x1680 || (0x2000 <= u && u <= 0x200a) || u == 0x2028 || u == 0x2029 || u
        == 0x202f || u == 0x205f || u == 0x3000
}

/// `s` with every trailing whitespace character removed.
pub open spec fn trim_end_spec(s: Seq<char>) -> Seq<char>
    decreases s.len(),
{
    if s.len() > 0 && is_whitespace_char(s[s.len() - 1]) {
        trim_end_spec(s.drop_last())
    } else {
        s
    }
}

pub fn is_whitespace(c: char) -> (r: bool)
    ensures
        r == is_whitespace_char(c),
{
    let u = c as u32;
    u == 0x09 || u == 0x0a || u == 0x0b || u == 0x0c || u == 0x0d || u == 0x20 || u == 0x85 || u
        == 0xa0 || u == 0x1680 || (0x2000 <= u && u <= 0x200a) || u == 0x2028 || u == 0x2029 || u
        == 0x202f || u == 0x205f || u == 0x3000
}

/// The longest prefix of `s` that does not end in whitespace, as
/// `str::trim_end` computes it.
pub fn trim_end_str(s: &str) -> (r: &str)
    ensures
        r@ == trim_end_spec(s@),
{
    let mut end: usize = s.unicode_len();
    proof {
        assert(s@.take(end as int) =~= s@);
    }
    while end > 0 && is_whitespace(s.get_char(end - 1))
        invariant
            end <= s@.len(),
            trim_end_spec(s@) == trim_end_spec(s@.take(end as int)),
        decreases end,
    {
        proof {
            assert(s@.take(end as int).drop_last() =~= s@.take(end - 1));
        }
        end = end - 1;
    }
    proof {
        if end > 0 {
            assert(s@.take(end as int)[end - 1] == s@[end - 1]);
        }
        assert(trim_end_spec(s@.take(end as int)) == s@.take(end as int));
    }
    s.substring_char(0, end)
}

/// The pieces of `s` between occurrences of `sep`, as `str::split` yields
/// them for a single-character pattern.
pub fn split_str(s: &str, sep: char) -> (parts: Vec<String>)
    ensures
        parts.deep_view() == split_char(s@, sep),
{
    let n = s.unicode_len();
    let mut parts: Vec<String> = Vec::new();
    let mut start: usize = 0;
    let mut i: usize = 0;
    proof {
        assert(s@.skip(0) =~= s@);
        assert(parts.deep_view() =~= Seq::<Seq<char>>::empty());
        assert(parts.deep_view() + split_char(s@, sep) =~= split_char(s@, sep));
    }
    while i < n
        invariant
            start <= i <= n,
            n == s@.len(),
            forall|j: int| start <= j < i ==> s@[j] != sep,
            split_char(s@, sep) == parts.deep_view() + split_char(s@.skip(start as int), sep),
        decreases n - i,
    {
        if s.get_char(i) == sep {
            let tok = s.substring_char(start, i);
            proof {
                let tail = s@.skip(start as int);
                assert forall|j: int| 0 <= j < i - start implies tail[j] != sep by {
                    assert(tail[j] == s@[start + j]);
                }
                assert(tail[i - start] == s@[i as int]);
                lemma_split_char_step(tail, sep, i - start);
                assert(tail.take(i - start) =~= s@.subrange(start as int, i as int));
                assert(tail.skip(i - start + 1) =~= s@.skip(i + 1));
            }
            let ghost old_parts = parts.deep_view();
            parts.push(tok.to_owned());
            proof {
                assert(parts.deep_view() =~= old_parts.push(s@.subrange(
                    start as int,
                    i as int,
                )));
                assert(old_parts.push(s@.subrange(start as int, i as int)) =~= old_parts + seq![
                    s@.subrange(start as int, i as int),
                ]);
                assert(parts.deep_view() + split_char(s@.skip(i + 1), sep) =~= old_parts + (seq![
                    s@.subrange(start as int, i as int),
                ] + split_char(s@.skip(i + 1), sep)));
            }
            start = i + 1;
        }
        i = i + 1;
    }
    let tok = s.substring_char(start, n);
    proof {
        let tail = s@.skip(start as int);
        assert forall|j: int| 0 <= j < tail.len() implies tail[j] != sep by {
            assert(tail[j] == s@[start + j]);
        }
        lemma_split_char_whole(tail, sep);
        assert(tail =~= s@.subrange(start as int, n as int));
    }
    let ghost old_parts = parts.deep_view();
    parts.push(tok.to_owned());
    proof {
        assert(parts.deep_view() =~= old_parts.push(s@.subrange(start as int, n as int)));
        assert(old_parts.push(s@.subrange(start as int, n as int)) =~= old_parts + seq![
            s@.subrange(start as int, n as int),
        ]);
        assert(parts.deep_view() =~= split_char(s@, sep));
    }
    parts
}

/// `parts[from .. to]` joined with single spaces.
pub fn join_tokens(parts: &Vec<String>, from: usize, to: usize) -> (r: String)
    requires
        from <= to <= parts.len(),
    ensures
        r@ == join_char(parts.deep_view().subrange(from as int, to as int), ' '),
{
    proof {
        reveal_strlit(" ");
    }
    let mut r = String::new();
    let mut j = from;
    while j < to
        invariant
            from <= j <= to <= parts.len(),
            r@ == join_char(parts.deep_view().subrange(from as int, j as int), ' '),
            " "@ == seq![' '],
        decreases to - j,
    {
        if j > from {
            r.append(" ");
        }
        r.append(parts[j].as_str());
        proof {
            let dv = parts.deep_view();
            let prev = dv.subrange(from as int, j as int);
            let cur = dv.subrange(from as int, j + 1);
            assert(dv[j as int] == parts@[j as int]@);
            if j == from {
                assert(cur =~= seq![dv[j as int]]);
                assert(join_char(cur, ' ') == dv[j as int]);
            } else {
                lemma_join_decompose(cur, ' ', cur.len() - 1);
                assert(cur.subrange(0, cur.len() - 1) =~= prev);
                assert(cur.subrange(cur.len() - 1, cur.len() as int) =~= seq![dv[j as int]]);
                assert(join_char(cur, ' ') =~= join_char(prev, ' ') + seq![' '] + dv[j as int]);
            }
        }
        j = j + 1;
    }
    r
}

} // verus!
