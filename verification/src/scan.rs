//! The character-level scanners that composite parsing rests on: a
//! whitespace normalizer that spares quoted spans, and a splitter that cuts
//! a string at separators standing outside every quoted span and at
//! bracket-nesting depth zero.
//!
//! Both are single left-to-right scans over a quote toggle and a signed
//! bracket counter.  The quote toggle flips on every `"` seen; it is not
//! escape-aware.  The bracket counter tolerates going negative: malformed
//! nesting is rejected downstream, when a fragment is parsed.
use vstd::prelude::*;

verus! {

/// The characters treated as insignificant whitespace outside quoted
/// spans: the Unicode White_Space set, exactly as `char::is_whitespace`
/// classifies it.
pub open spec fn is_ws(c: char) -> bool {
    ||| c == '\t'
    ||| c == '\n'
    ||| c == '\u{000B}'
    ||| c == '\u{000C}'
    ||| c == '\r'
    ||| c == ' '
    ||| c == '\u{0085}'
    ||| c == '\u{00A0}'
    ||| c == '\u{1680}'
    ||| ('\u{2000}' <= c && c <= '\u{200A}')
    ||| c == '\u{2028}'
    ||| c == '\u{2029}'
    ||| c == '\u{202F}'
    ||| c == '\u{205F}'
    ||| c == '\u{3000}'
}

/// Whether the character counts as whitespace, decided at run time.
fn ws_exec(c: char) -> (b: bool)
    ensures
        b == is_ws(c),
{
    c == '\t' || c == '\n' || c == '\u{000B}' || c == '\u{000C}' || c == '\r' || c == ' '
        || c == '\u{0085}' || c == '\u{00A0}' || c == '\u{1680}' || ('\u{2000}' <= c && c
        <= '\u{200A}') || c == '\u{2028}' || c == '\u{2029}' || c == '\u{202F}' || c == '\u{205F}'
        || c == '\u{3000}'
}

/// Quote state after scanning `s`: flipped on each `"`, so true exactly
/// when an odd number of quote characters has been seen.
pub open spec fn in_quotes_after(s: Seq<char>) -> bool
    decreases s.len(),
{
    if s.len() == 0 {
        false
    } else if s.last() == '"' {
        !in_quotes_after(s.drop_last())
    } else {
        in_quotes_after(s.drop_last())
    }
}

/// Bracket-nesting depth after scanning `s`: `[` and `{` outside quotes
/// raise it, `]` and `}` outside quotes lower it; it may go negative.
pub open spec fn depth_after(s: Seq<char>) -> int
    decreases s.len(),
{
    if s.len() == 0 {
        0
    } else {
        let prev = depth_after(s.drop_last());
        let c = s.last();
        if c == '"' {
            prev
        } else if (c == '[' || c == '{') && !in_quotes_after(s.drop_last()) {
            prev + 1
        } else if (c == ']' || c == '}') && !in_quotes_after(s.drop_last()) {
            prev - 1
        } else {
            prev
        }
    }
}

/// `s` with every whitespace character removed, except those standing
/// inside a quoted span; quote characters themselves are always kept.
pub open spec fn normalized(s: Seq<char>) -> Seq<char>
    decreases s.len(),
{
    if s.len() == 0 {
        Seq::empty()
    } else {
        let rest = normalized(s.drop_last());
        if !is_ws(s.last()) || in_quotes_after(s) {
            rest.push(s.last())
        } else {
            rest
        }
    }
}

/// Whether the character at the end of `s` is an outer split point for
/// `sep`: it equals the separator, is none of the characters the scan
/// reserves for its own state, and stands outside quotes at depth zero.
pub open spec fn is_split_at(s: Seq<char>, sep: char) -> bool
    recommends
        s.len() > 0,
{
    &&& s.last() == sep
    &&& s.last() != '"'
    &&& s.last() != '['
    &&& s.last() != '{'
    &&& s.last() != ']'
    &&& s.last() != '}'
    &&& !in_quotes_after(s.drop_last())
    &&& depth_after(s.drop_last()) == 0
}

/// The fragments of `s` between its outer occurrences of `sep`.  There is
/// always one more fragment than there are qualifying separators; the
/// trailing fragment is kept even when empty.
pub open spec fn split_outer(s: Seq<char>, sep: char) -> Seq<Seq<char>>
    decreases s.len(),
{
    if s.len() == 0 {
        seq![Seq::empty()]
    } else {
        let prev = split_outer(s.drop_last(), sep);
        if is_split_at(s, sep) {
            prev.push(Seq::empty())
        } else {
            prev.update(prev.len() - 1, prev.last().push(s.last()))
        }
    }
}

/// How many outer occurrences of `sep` the scan finds in `s`.
pub open spec fn outer_sep_count(s: Seq<char>, sep: char) -> nat
    decreases s.len(),
{
    if s.len() == 0 {
        0
    } else {
        outer_sep_count(s.drop_last(), sep) + if is_split_at(s, sep) {
            1nat
        } else {
            0nat
        }
    }
}

/// The fragments joined back together with `sep` between each two.
pub open spec fn join_sep(frs: Seq<Seq<char>>, sep: char) -> Seq<char>
    decreases frs.len(),
{
    if frs.len() == 0 {
        Seq::empty()
    } else if frs.len() == 1 {
        frs[0]
    } else {
        join_sep(frs.drop_last(), sep) + seq![sep] + frs.last()
    }
}

/// The total length of a sequence of fragments.
pub open spec fn sum_len(frs: Seq<Seq<char>>) -> nat
    decreases frs.len(),
{
    if frs.len() == 0 {
        0
    } else {
        frs[0].len() + sum_len(frs.drop_first())
    }
}

/// Splitting never yields an empty fragment list.
pub proof fn lemma_split_outer_nonempty(s: Seq<char>, sep: char)
    ensures
        split_outer(s, sep).len() >= 1,
    decreases s.len(),
{
    if s.len() > 0 {
        lemma_split_outer_nonempty(s.drop_last(), sep);
    }
}

/// The scan yields exactly one fragment more than it finds qualifying
/// separators: separators inside quotes or inside nested brackets never
/// open a new fragment.
pub proof fn lemma_split_outer_count(s: Seq<char>, sep: char)
    ensures
        split_outer(s, sep).len() == 1 + outer_sep_count(s, sep),
    decreases s.len(),
{
    if s.len() > 0 {
        lemma_split_outer_count(s.drop_last(), sep);
    }
}

/// Reinserting the separator at every split point reconstructs the input:
/// the scan loses no character.
pub proof fn lemma_split_outer_join(s: Seq<char>, sep: char)
    ensures
        join_sep(split_outer(s, sep), sep) == s,
    decreases s.len(),
{
    if s.len() == 0 {
        assert(join_sep(split_outer(s, sep), sep) =~= s);
    } else {
        lemma_split_outer_join(s.drop_last(), sep);
        lemma_split_outer_nonempty(s.drop_last(), sep);
        let prev = split_outer(s.drop_last(), sep);
        if is_split_at(s, sep) {
            assert(join_sep(prev.push(Seq::empty()), sep) =~= s) by {
                assert(prev.push(Seq::empty()).drop_last() =~= prev);
                assert(join_sep(prev, sep) + seq![sep] + Seq::<char>::empty() =~= s);
            }
        } else {
            let upd = prev.update(prev.len() - 1, prev.last().push(s.last()));
            assert(upd.last() == prev.last().push(s.last()));
            if prev.len() == 1 {
                assert(join_sep(upd, sep) == prev.last().push(s.last()));
                assert(join_sep(prev, sep) == prev.last());
                assert(join_sep(upd, sep) =~= s);
            } else {
                assert(upd.drop_last() =~= prev.drop_last());
                assert(join_sep(upd, sep) == join_sep(prev.drop_last(), sep) + seq![sep]
                    + prev.last().push(s.last()));
                assert(join_sep(prev, sep) == join_sep(prev.drop_last(), sep) + seq![sep]
                    + prev.last());
                assert(s =~= join_sep(prev, sep).push(s.last()));
                assert(join_sep(upd, sep) =~= s);
            }
        }
    }
}

/// Normalization never lengthens a string.
pub proof fn lemma_normalized_len(s: Seq<char>)
    ensures
        normalized(s).len() <= s.len(),
    decreases s.len(),
{
    if s.len() > 0 {
        lemma_normalized_len(s.drop_last());
    }
}

/// Appending a fragment adds its length to the total.
pub proof fn lemma_sum_len_push(frs: Seq<Seq<char>>, f: Seq<char>)
    ensures
        sum_len(frs.push(f)) == sum_len(frs) + f.len(),
    decreases frs.len(),
{
    let p = frs.push(f);
    assert(sum_len(p) == p[0].len() + sum_len(p.drop_first()));
    if frs.len() == 0 {
        assert(p[0] == f);
        assert(p.drop_first() =~= Seq::<Seq<char>>::empty());
        assert(sum_len(p.drop_first()) == 0);
    } else {
        assert(p[0] == frs[0]);
        assert(p.drop_first() =~= frs.drop_first().push(f));
        lemma_sum_len_push(frs.drop_first(), f);
        assert(sum_len(frs) == frs[0].len() + sum_len(frs.drop_first()));
    }
}

/// Replacing the last fragment adjusts the total by the difference.
pub proof fn lemma_sum_len_update_last(frs: Seq<Seq<char>>, g: Seq<char>)
    requires
        frs.len() >= 1,
    ensures
        sum_len(frs.update(frs.len() - 1, g)) == sum_len(frs) - frs.last().len() + g.len(),
    decreases frs.len(),
{
    let upd = frs.update(frs.len() - 1, g);
    if frs.len() == 1 {
        assert(upd.drop_first() =~= frs.drop_first());
        assert(sum_len(upd.drop_first()) == 0);
    } else {
        assert(upd.drop_first() =~= frs.drop_first().update(frs.drop_first().len() - 1, g));
        lemma_sum_len_update_last(frs.drop_first(), g);
    }
}

/// Each fragment is no longer than the total.
pub proof fn lemma_sum_len_bound(frs: Seq<Seq<char>>, i: int)
    requires
        0 <= i < frs.len(),
    ensures
        frs[i].len() <= sum_len(frs),
    decreases frs.len(),
{
    if i > 0 {
        lemma_sum_len_bound(frs.drop_first(), i - 1);
    }
}

/// The fragments and the separators between them account for every
/// character of the input, and for nothing else.
pub proof fn lemma_split_outer_sum(s: Seq<char>, sep: char)
    ensures
        sum_len(split_outer(s, sep)) + split_outer(s, sep).len() == s.len() + 1,
    decreases s.len(),
{
    if s.len() == 0 {
        assert(split_outer(s, sep)[0].len() == 0);
        assert(split_outer(s, sep).drop_first() =~= Seq::<Seq<char>>::empty());
        assert(sum_len(Seq::<Seq<char>>::empty()) == 0);
        assert(sum_len(split_outer(s, sep)) == 0);
    } else {
        lemma_split_outer_sum(s.drop_last(), sep);
        lemma_split_outer_nonempty(s.drop_last(), sep);
        let prev = split_outer(s.drop_last(), sep);
        if is_split_at(s, sep) {
            lemma_sum_len_push(prev, Seq::empty());
        } else {
            lemma_sum_len_update_last(prev, prev.last().push(s.last()));
        }
    }
}

/// A fragment of a split is strictly shorter than the input once the one
/// lost separator per extra fragment is counted in.
pub proof fn lemma_split_outer_fragment_len(s: Seq<char>, sep: char, i: int)
    requires
        0 <= i < split_outer(s, sep).len(),
    ensures
        split_outer(s, sep)[i].len() + split_outer(s, sep).len() <= s.len() + 1,
{
    lemma_split_outer_sum(s, sep);
    lemma_sum_len_bound(split_outer(s, sep), i);
}

/// Removes every whitespace character that stands outside a quoted span;
/// characters inside quotes, and the quotes themselves, are kept verbatim.
pub fn trim_whitespaces_except_quoted(input: &Vec<char>) -> (r: Vec<char>)
    ensures
        r@ == normalized(input@),
{
    let n: usize = input.len();
    let mut out: Vec<char> = Vec::new();
    let mut in_q: bool = false;
    for i in 0..n
        invariant
            n == input@.len(),
            in_q == in_quotes_after(input@.take(i as int)),
            out@ == normalized(input@.take(i as int)),
    {
        proof {
            assert(input@.take(i + 1 as int).drop_last() =~= input@.take(i as int));
        }
        let c = input[i];
        let ws = ws_exec(c);
        if c == '"' {
            in_q = !in_q;
        }
        if !ws || in_q {
            out.push(c);
        }
    }
    proof {
        assert(input@.take(n as int) =~= input@);
    }
    out
}

/// Splits `input` at each occurrence of `separator` that stands outside
/// every quoted span and at bracket-nesting depth zero.  The fragments,
/// rejoined with the separator, reconstruct the input exactly; the
/// trailing fragment is kept even when empty.
pub fn split_by_outer_separator(input: &Vec<char>, separator: char) -> (r: Vec<Vec<char>>)
    ensures
        r.deep_view() == split_outer(input@, separator),
        r@.len() >= 1,
{
    let n: usize = input.len();
    let mut result: Vec<Vec<char>> = Vec::new();
    let mut current: Vec<char> = Vec::new();
    let mut in_q: bool = false;
    let mut depth: i128 = 0;
    for i in 0..n
        invariant
            n == input@.len(),
            in_q == in_quotes_after(input@.take(i as int)),
            depth as int == depth_after(input@.take(i as int)),
            -(i as int) <= depth as int <= i as int,
            result.deep_view().push(current@) == split_outer(input@.take(i as int), separator),
    {
        proof {
            assert(input@.take(i + 1 as int).drop_last() =~= input@.take(i as int));
        }
        let ghost prev = split_outer(input@.take(i as int), separator);
        let c = input[i];
        if c == '"' {
            in_q = !in_q;
            current.push(c);
        } else if c == '[' || c == '{' {
            if !in_q {
                depth = depth + 1;
            }
            current.push(c);
        } else if c == ']' || c == '}' {
            if !in_q {
                depth = depth - 1;
            }
            current.push(c);
        } else if c == separator && !in_q && depth == 0 {
            result.push(current);
            current = Vec::new();
        } else {
            current.push(c);
        }
        proof {
            assert(result.deep_view().push(current@) =~~= split_outer(
                input@.take(i + 1 as int),
                separator,
            ));
        }
    }
    result.push(current);
    proof {
        assert(input@.take(n as int) =~= input@);
        assert(result.deep_view() =~~= split_outer(input@, separator));
    }
    result
}

} // verus!
