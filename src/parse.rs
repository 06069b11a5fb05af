//! Parsing of integers, role sets and authorization specs from text.
use vstd::prelude::*;
use vstd::string::*;
use crate::authorization::{user_pattern_compiles, AuthorizationSpec, AuthorizationSpecView, Roles, match_user_compiles};
use crate::match_tree::MatchTree;
use crate::topic::{split_chars, split_levels, split_on, string_views, valid_pattern};
use crate::topic_tree::str_equal;

verus! {

pub open spec fn is_digit(c: char) -> bool {
    '0' <= c && c <= '9'
}

pub open spec fn digits_value(s: Seq<char>) -> int
    decreases s.len(),
{
    if s.len() == 0 {
        0
    } else {
        digits_value(s.drop_last()) * 10 + (s.last() as int - '0' as int)
    }
}

pub open spec fn has_sign(s: Seq<char>) -> bool {
    s.len() > 0 && (s[0] == '-' || s[0] == '+')
}

/// `s` without its sign, if any.
pub open spec fn unsigned_part(s: Seq<char>) -> Seq<char> {
    if has_sign(s) {
        s.drop_first()
    } else {
        s
    }
}

pub open spec fn all_digits(d: Seq<char>) -> bool {
    forall|i: int| 0 <= i < d.len() ==> is_digit(#[trigger] d[i])
}

/// The decimal integer that `s` spells: an optional sign, then one or more
/// digits, with a value that fits in an `i32`.
pub open spec fn spec_parse_i32(s: Seq<char>) -> Option<i32> {
    let d = unsigned_part(s);
    if d.len() == 0 || !all_digits(d) {
        None
    } else {
        let v = if s.len() > 0 && s[0] == '-' {
            -digits_value(d)
        } else {
            digits_value(d)
        };
        if i32::MIN <= v <= i32::MAX {
            Some(v as i32)
        } else {
            None
        }
    }
}

proof fn lemma_digits_value_grows(s: Seq<char>, j: int)
    requires
        0 <= j <= s.len(),
        forall|i: int| 0 <= i < s.len() ==> is_digit(#[trigger] s[i]),
    ensures
        digits_value(s) >= digits_value(s.take(j)) >= 0,
    decreases s.len(),
{
    if s.len() > 0 {
        if j == s.len() {
            assert(s.take(j) =~= s);
            lemma_digits_value_grows(s.drop_last(), j - 1);
            assert(s.drop_last().take(j - 1) =~= s.drop_last());
        } else {
            assert(s.drop_last().take(j) =~= s.take(j));
            lemma_digits_value_grows(s.drop_last(), j);
        }
    }
}

/// Parses a decimal `i32`.
pub fn parse_i32(s: &str) -> (r: Option<i32>)
    ensures
        r == spec_parse_i32(s@),
{
    let n = s.unicode_len();
    let mut start: usize = 0;
    let mut neg = false;
    if n > 0 {
        let c = s.get_char(0);
        if c == '-' {
            neg = true;
            start = 1;
        } else if c == '+' {
            start = 1;
        }
    }
    let ghost digits = s@.skip(start as int);
    assert(start == 1 ==> digits =~= s@.drop_first());
    assert(start == 0 ==> digits =~= s@);
    if start == n {
        return None;
    }
    let mut acc: i64 = 0;
    let mut j: usize = start;
    while j < n
        invariant
            n == s@.len(),
            start <= j <= n,
            digits == s@.skip(start as int),
            digits == unsigned_part(s@),
            neg == (s@.len() > 0 && s@[0] == '-'),
            forall|i: int| 0 <= i < j - start ==> is_digit(#[trigger] digits[i]),
            acc == digits_value(digits.take(j - start)),
            0 <= acc <= 0x80000000,
        decreases n - j,
    {
        let c = s.get_char(j);
        assert(digits[j - start] == c);
        if !('0' <= c && c <= '9') {
            assert(!is_digit(digits[j - start]));
            assert(!all_digits(digits));
            return None;
        }
        assert(digits.take(j - start + 1).drop_last() =~= digits.take(j - start));
        let next = acc * 10 + (c as i64 - '0' as i64);
        if next > 0x80000000 {
            proof {
                if all_digits(digits) {
                    lemma_digits_value_grows(digits, j - start + 1);
                    assert(digits_value(digits.take(j - start + 1)) == next);
                    assert(digits_value(digits) > 0x80000000);
                }
            }
            return None;
        }
        acc = next;
        j = j + 1;
    }
    assert(digits.take(j - start) =~= digits);
    if neg {
        Some((0 - acc) as i32)
    } else if acc > 0x7fffffff {
        None
    } else {
        Some(acc as i32)
    }
}

/// The role set that `s` names: role names separated by `|`.
pub open spec fn spec_parse_roles(s: Seq<char>) -> Option<Roles> {
    let parts = split_on(s, '|');
    if forall|i: int| 0 <= i < parts.len() ==> #[trigger] parts[i] == "Subscriber"@ || parts[i] == "Publisher"@ {
        Some(Roles { subscriber: parts.contains("Subscriber"@), publisher: parts.contains("Publisher"@) })
    } else {
        None
    }
}

/// Parses a role set such as `Subscriber|Publisher`.
pub fn parse_roles(s: &str) -> (r: Option<Roles>)
    ensures
        r == spec_parse_roles(s@),
{
    let parts = split_chars(s, '|');
    let ghost pv = string_views(parts@);
    let mut roles = Roles { subscriber: false, publisher: false };
    let mut i: usize = 0;
    while i < parts.len()
        invariant
            pv == string_views(parts@),
            pv == split_on(s@, '|'),
            i <= parts.len(),
            forall|j: int| 0 <= j < i ==> #[trigger] pv[j] == "Subscriber"@ || pv[j] == "Publisher"@,
            roles.subscriber == pv.take(i as int).contains("Subscriber"@),
            roles.publisher == pv.take(i as int).contains("Publisher"@),
        decreases parts.len() - i,
    {
        assert(pv.take(i + 1) =~= pv.take(i as int).push(pv[i as int]));
        if str_equal(parts[i].as_str(), "Subscriber") {
            roles.subscriber = true;
        } else if str_equal(parts[i].as_str(), "Publisher") {
            roles.publisher = true;
        } else {
            return None;
        }
        proof {
            assert(pv.take(i + 1)[i as int] == pv[i as int]);
            assert forall|x: Seq<char>| pv.take(i as int).contains(x) implies pv.take(i + 1).contains(x) by {
                let y = choose|y: int| 0 <= y < i && #[trigger] pv.take(i as int)[y] == x;
                assert(pv.take(i + 1)[y] == x);
            }
            assert forall|x: Seq<char>| pv.take(i + 1).contains(x) && x != pv[i as int] implies pv.take(i as int).contains(x) by {
                let y = choose|y: int| 0 <= y < i + 1 && #[trigger] pv.take(i + 1)[y] == x;
                assert(pv.take(i as int)[y] == x);
            }
            assert("Subscriber"@ != "Publisher"@) by {
                reveal_strlit("Subscriber");
                reveal_strlit("Publisher");
                assert("Subscriber"@.len() != "Publisher"@.len());
            }
        }
        i = i + 1;
    }
    assert(pv.take(i as int) =~= pv);
    Some(roles)
}

/// The entitlements that `s` lists, separated by `,`.
pub open spec fn spec_parse_entitlements(s: Seq<char>) -> Option<Seq<i32>> {
    let parts = split_on(s, ',');
    if forall|i: int| 0 <= i < parts.len() ==> (#[trigger] spec_parse_i32(parts[i])) is Some {
        Some(Seq::new(parts.len(), |i: int| spec_parse_i32(parts[i])->Some_0))
    } else {
        None
    }
}

/// Parses a comma separated list of entitlements.
pub fn parse_entitlements(s: &str) -> (r: Option<Vec<i32>>)
    ensures
        r is Some <==> spec_parse_entitlements(s@) is Some,
        r matches Some(v) ==> Some(v@) == spec_parse_entitlements(s@),
{
    let parts = split_chars(s, ',');
    let ghost pv = string_views(parts@);
    let mut out: Vec<i32> = Vec::new();
    let mut i: usize = 0;
    while i < parts.len()
        invariant
            pv == string_views(parts@),
            pv == split_on(s@, ','),
            i <= parts.len(),
            out@.len() == i,
            forall|j: int| 0 <= j < i ==> (#[trigger] spec_parse_i32(pv[j])) == Some(out@[j]),
        decreases parts.len() - i,
    {
        match parse_i32(parts[i].as_str()) {
            Some(x) => out.push(x),
            None => {
                assert(spec_parse_i32(pv[i as int]) is None);
                return None;
            },
        }
        i = i + 1;
    }
    assert(out@ =~= Seq::new(pv.len(), |j: int| spec_parse_i32(pv[j])->Some_0));
    Some(out)
}

/// The spec that `s` describes as `user:topic:entitlements:roles`, where the
/// user pattern compiles, the topic pattern is valid, every entitlement is
/// an integer and every role a role name.
pub open spec fn spec_parse_authorization(s: Seq<char>) -> Option<AuthorizationSpecView> {
    let parts = split_on(s, ':');
    if parts.len() != 4 {
        None
    } else if !valid_pattern(parts[1]) {
        None
    } else if !user_pattern_compiles(parts[0]) {
        None
    } else {
        match (spec_parse_entitlements(parts[2]), spec_parse_roles(parts[3])) {
            (Some(entitlements), Some(roles)) => Some(
                AuthorizationSpecView {
                    user_pattern: parts[0],
                    topic_pattern: set![split_levels(parts[1])],
                    entitlements,
                    roles,
                },
            ),
            _ => None,
        }
    }
}

impl AuthorizationSpec {
    /// Parses `<user-pattern>:<topic-pattern>:<entitlements>:<roles>`.
    pub fn from_str(s: &str) -> (r: Result<AuthorizationSpec, String>)
        ensures
            r is Ok <==> spec_parse_authorization(s@) is Some,
            r matches Ok(spec) ==> Some(spec@) == spec_parse_authorization(s@),
    {
        let args = split_chars(s, ':');
        if args.len() != 4 {
            return Err(String::from_str("expected 4 parts"));
        }
        let topic_pattern = match MatchTree::create(args[1].as_str()) {
            Ok(t) => t,
            Err(_) => return Err(String::from_str("invalid topic pattern")),
        };
        if !match_user_compiles(args[0].as_str()) {
            return Err(String::from_str("invalid user pattern"));
        }
        let entitlements = match parse_entitlements(args[2].as_str()) {
            Some(e) => e,
            None => return Err(String::from_str("invalid entitlements")),
        };
        let roles = match parse_roles(args[3].as_str()) {
            Some(r) => r,
            None => return Err(String::from_str("invalid roles")),
        };
        let user_pattern = args[0].clone();
        Ok(AuthorizationSpec { user_pattern, topic_pattern, entitlements, roles })
    }
}

} // verus!
