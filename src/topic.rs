//! Topics and subscription patterns.
//!
//! A topic is a string of levels separated by `.`. A pattern is a topic in
//! which a level may be `?` (exactly one level) or, as the last level only,
//! `*` (one or more trailing levels).
use vstd::prelude::*;
use vstd::string::*;

verus! {

pub open spec fn separator() -> char {
    '.'
}

pub open spec fn single_level_wildcard() -> Seq<char> {
    seq!['?']
}

pub open spec fn multi_level_wildcard() -> Seq<char> {
    seq!['*']
}

/// The parts of `s` between consecutive `sep`s. An empty string has one
/// empty part.
pub open spec fn split_on(s: Seq<char>, sep: char) -> Seq<Seq<char>>
    decreases s.len(),
{
    if s.len() == 0 {
        seq![Seq::<char>::empty()]
    } else {
        let prev = split_on(s.drop_last(), sep);
        if s.last() == sep {
            prev.push(Seq::<char>::empty())
        } else {
            prev.update(prev.len() - 1, prev.last().push(s.last()))
        }
    }
}

/// The levels of a topic.
pub open spec fn split_levels(s: Seq<char>) -> Seq<Seq<char>> {
    split_on(s, separator())
}

pub proof fn lemma_split_on_nonempty(s: Seq<char>, sep: char)
    ensures
        split_on(s, sep).len() >= 1,
    decreases s.len(),
{
    if s.len() > 0 {
        lemma_split_on_nonempty(s.drop_last(), sep);
    }
}

pub proof fn lemma_split_levels_nonempty(s: Seq<char>)
    ensures
        split_levels(s).len() >= 1,
{
    lemma_split_on_nonempty(s, separator());
}

/// A pattern can be added to an index: it is not empty and `*` stands only
/// as its last level.
pub open spec fn valid_pattern(p: Seq<char>) -> bool {
    &&& p.len() > 0
    &&& forall|i: int|
        0 <= i < split_levels(p).len() - 1 ==> split_levels(p)[i] != multi_level_wildcard()
}

/// Whether pattern levels `p` match topic levels `t`: `?` matches any one
/// level, a final `*` matches one or more levels, any other level only itself.
pub open spec fn levels_match(p: Seq<Seq<char>>, t: Seq<Seq<char>>) -> bool
    decreases p.len(),
{
    if p.len() == 0 {
        t.len() == 0
    } else if p.len() == 1 && p[0] == multi_level_wildcard() {
        t.len() >= 1
    } else if t.len() == 0 {
        false
    } else {
        (p[0] == single_level_wildcard() || p[0] == t[0]) && levels_match(
            p.drop_first(),
            t.drop_first(),
        )
    }
}

/// Whether the pattern `p` matches the topic `t`.
pub open spec fn topic_matches(p: Seq<char>, t: Seq<char>) -> bool {
    levels_match(split_levels(p), split_levels(t))
}

pub open spec fn string_views(v: Seq<String>) -> Seq<Seq<char>> {
    v.map_values(|x: String| x@)
}

/// Splits a topic or a pattern into its levels.
pub fn split_topic(s: &str) -> (r: Vec<String>)
    ensures
        string_views(r@) == split_levels(s@),
{
    split_chars(s, '.')
}

/// Splits `s` at each `sep`.
pub fn split_chars(s: &str, sep: char) -> (r: Vec<String>)
    ensures
        string_views(r@) == split_on(s@, sep),
{
    let n = s.unicode_len();
    let mut out: Vec<String> = Vec::new();
    let mut start: usize = 0;
    let mut i: usize = 0;
    assert(s@.take(0) =~= Seq::<char>::empty());
    assert(string_views(out@).push(s@.subrange(0, 0)) =~= seq![Seq::<char>::empty()]);
    while i < n
        invariant
            n == s@.len(),
            start <= i <= n,
            split_on(s@.take(i as int), sep) == string_views(out@).push(
                s@.subrange(start as int, i as int),
            ),
        decreases n - i,
    {
        let c = s.get_char(i);
        let ghost prefix = s@.take(i as int);
        assert(s@.take(i + 1).drop_last() =~= prefix);
        if c == sep {
            let level = s.substring_char(start, i).to_owned();
            let ghost before = out@;
            out.push(level);
            start = i + 1;
            assert(string_views(out@) =~= string_views(before).push(level@));
            assert(s@.subrange(start as int, (i + 1) as int) =~= Seq::<char>::empty());
        } else {
            assert(s@.subrange(start as int, (i + 1) as int) =~= s@.subrange(
                start as int,
                i as int,
            ).push(c));
        }
        i = i + 1;
    }
    let last = s.substring_char(start, n).to_owned();
    let ghost before = out@;
    out.push(last);
    assert(s@.take(n as int) =~= s@);
    assert(string_views(out@) =~= string_views(before).push(s@.subrange(start as int, n as int)));
    out
}

fn is_single_char(level: &String, ch: char) -> (r: bool)
    ensures
        r == (level@ == seq![ch]),
{
    let s = level.as_str();
    if s.unicode_len() != 1 {
        return false;
    }
    let c = s.get_char(0);
    proof {
        if c == ch {
            assert(level@ =~= seq![ch]);
        }
    }
    c == ch
}

/// Whether the pattern levels `p` match the topic levels `t`.
pub fn match_levels(p: &Vec<String>, t: &Vec<String>) -> (r: bool)
    ensures
        r == levels_match(string_views(p@), string_views(t@)),
{
    let ghost pv = string_views(p@);
    let ghost tv = string_views(t@);
    let mut i: usize = 0;
    assert(pv.skip(0) =~= pv);
    assert(tv.skip(0) =~= tv);
    loop
        invariant
            pv == string_views(p@),
            tv == string_views(t@),
            i <= p.len(),
            i <= t.len(),
            levels_match(pv, tv) == levels_match(pv.skip(i as int), tv.skip(i as int)),
        decreases p.len() - i,
    {
        if i == p.len() {
            return i == t.len();
        }
        let is_star = is_single_char(&p[i], '*');
        if i + 1 == p.len() && is_star {
            return i < t.len();
        }
        if i == t.len() {
            return false;
        }
        let level_ok = is_single_char(&p[i], '?') || p[i] == t[i];
        if !level_ok {
            return false;
        }
        assert(pv.skip(i as int).drop_first() =~= pv.skip(i + 1));
        assert(tv.skip(i as int).drop_first() =~= tv.skip(i + 1));
        i = i + 1;
    }
}

/// Splits a pattern into its levels, or `None` where the pattern is empty or
/// has `*` before its last level.
pub fn pattern_levels(pattern: &str) -> (r: Option<Vec<String>>)
    ensures
        r is Some <==> valid_pattern(pattern@),
        r matches Some(v) ==> string_views(v@) == split_levels(pattern@),
{
    if pattern.unicode_len() == 0 {
        return None;
    }
    let levels = split_topic(pattern);
    let ghost lv = string_views(levels@);
    proof {
        lemma_split_levels_nonempty(pattern@);
    }
    let mut i: usize = 0;
    while i < levels.len() - 1
        invariant
            levels.len() >= 1,
            lv == string_views(levels@),
            lv == split_levels(pattern@),
            i <= levels.len(),
            forall|j: int| 0 <= j < i ==> lv[j] != multi_level_wildcard(),
        decreases levels.len() - i,
    {
        if is_single_char(&levels[i], '*') {
            assert(lv[i as int] == multi_level_wildcard());
            return None;
        }
        i = i + 1;
    }
    Some(levels)
}

} // verus!
