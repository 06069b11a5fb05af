//! The authorization policy: which entitlements a user holds on a topic in a
//! role.
use vstd::prelude::*;
use vstd::string::*;
use crate::match_tree::MatchTree;
use crate::message::contains_i32;
use crate::topic::{levels_match, split_levels, valid_pattern};

verus! {

/// The capacity in which a user acts on a topic.
#[derive(Debug, Clone, Copy, PartialEq, Eq)]
pub enum Role {
    Subscriber,
    Publisher,
}

/// A set of roles.
#[derive(Debug, Clone, Copy, PartialEq, Eq)]
pub struct Roles {
    pub subscriber: bool,
    pub publisher: bool,
}

pub open spec fn roles_contain(roles: Roles, role: Role) -> bool {
    match role {
        Role::Subscriber => roles.subscriber,
        Role::Publisher => roles.publisher,
    }
}

impl Roles {
    pub fn contains(&self, role: Role) -> (r: bool)
        ensures
            r == roles_contain(*self, role),
    {
        match role {
            Role::Subscriber => self.subscriber,
            Role::Publisher => self.publisher,
        }
    }
}

/// What `regex` makes of `pattern` on `text`: `None` where the pattern does
/// not compile, else whether it matches somewhere in the text.
pub uninterp spec fn regex_is_match(pattern: Seq<char>, text: Seq<char>) -> Option<bool>;

/// Relies on `regex::Regex::new`, which compiles `pattern` or fails, and on
/// `Regex::is_match`, which tells whether the compiled pattern matches
/// somewhere in `text`.
#[verifier::external_body]
fn regex_match(pattern: &str, text: &str) -> (r: Option<bool>)
    ensures
        r == regex_is_match(pattern@, text@),
{
    match regex::Regex::new(pattern) {
        Ok(re) => Some(re.is_match(text)),
        Err(_) => None,
    }
}

/// The pattern that matches what `p` matches, and only as the whole text.
pub open spec fn anchored(p: Seq<char>) -> Seq<char> {
    "^(?:"@ + p + ")$"@
}

/// Whether the user pattern `p` compiles, on its own and anchored. A
/// pattern that compiles on its own has balanced groups, so anchoring it
/// cannot change what it means.
pub open spec fn user_pattern_compiles(p: Seq<char>) -> bool {
    regex_is_match(p, Seq::empty()) is Some && regex_is_match(anchored(p), Seq::empty()) is Some
}

/// Whether the user pattern `p` matches the whole of `user`. A pattern that
/// does not compile on its own matches nothing.
pub open spec fn user_matches(p: Seq<char>, user: Seq<char>) -> bool {
    regex_is_match(p, user) is Some && regex_is_match(anchored(p), user) == Some(true)
}

fn anchor(p: &str) -> (r: String)
    ensures
        r@ == anchored(p@),
{
    let mut r = String::from_str("^(?:");
    r.append(p);
    r.append(")$");
    r
}

/// Whether the user pattern `pattern` matches the whole of `user`.
pub fn match_user(pattern: &str, user: &str) -> (r: bool)
    ensures
        r == user_matches(pattern@, user@),
{
    if regex_match(pattern, user).is_none() {
        return false;
    }
    let full = anchor(pattern);
    match regex_match(full.as_str(), user) {
        Some(b) => b,
        None => false,
    }
}

/// Whether the user pattern `pattern` compiles.
pub fn match_user_compiles(pattern: &str) -> (r: bool)
    ensures
        r == user_pattern_compiles(pattern@),
{
    let empty = String::new();
    if regex_match(pattern, empty.as_str()).is_none() {
        return false;
    }
    let full = anchor(pattern);
    regex_match(full.as_str(), empty.as_str()).is_some()
}

/// Grants `entitlements` in `roles` to the users matching `user_pattern`
/// (a regular expression over the whole user name) on the topics matching
/// a pattern of `topic_pattern`.
pub struct AuthorizationSpec {
    pub user_pattern: String,
    pub topic_pattern: MatchTree,
    pub entitlements: Vec<i32>,
    pub roles: Roles,
}

pub struct AuthorizationSpecView {
    pub user_pattern: Seq<char>,
    pub topic_pattern: Set<Seq<Seq<char>>>,
    pub entitlements: Seq<i32>,
    pub roles: Roles,
}

impl View for AuthorizationSpec {
    type V = AuthorizationSpecView;

    open spec fn view(&self) -> AuthorizationSpecView {
        AuthorizationSpecView {
            user_pattern: self.user_pattern@,
            topic_pattern: self.topic_pattern@,
            entitlements: self.entitlements@,
            roles: self.roles,
        }
    }
}

pub open spec fn specs_view(v: Seq<AuthorizationSpec>) -> Seq<AuthorizationSpecView> {
    v.map_values(|s: AuthorizationSpec| s@)
}

/// Whether a spec grants its entitlements to `user` on `topic` in `role`.
pub open spec fn spec_applies(
    s: AuthorizationSpecView,
    user: Seq<char>,
    topic: Seq<char>,
    role: Role,
) -> bool {
    &&& roles_contain(s.roles, role)
    &&& user_matches(s.user_pattern, user)
    &&& exists|p: Seq<Seq<char>>| s.topic_pattern.contains(p) && levels_match(p, split_levels(topic))
}

/// The union of the entitlements of every spec that applies.
pub open spec fn granted(
    specs: Seq<AuthorizationSpecView>,
    user: Seq<char>,
    topic: Seq<char>,
    role: Role,
) -> Set<i32>
    decreases specs.len(),
{
    if specs.len() == 0 {
        Set::empty()
    } else {
        let last = specs.last();
        granted(specs.drop_last(), user, topic, role) + if spec_applies(last, user, topic, role) {
            last.entitlements.to_set()
        } else {
            Set::empty()
        }
    }
}

/// Holds the authorization specs in order.
pub struct AuthorizationManager {
    specs: Vec<AuthorizationSpec>,
}

impl View for AuthorizationManager {
    type V = Seq<AuthorizationSpecView>;

    closed spec fn view(&self) -> Seq<AuthorizationSpecView> {
        specs_view(self.specs@)
    }
}

impl AuthorizationManager {
    pub fn new(specs: Vec<AuthorizationSpec>) -> (r: AuthorizationManager)
        ensures
            r@ == specs_view(specs@),
    {
        AuthorizationManager { specs }
    }

    /// Replaces the specs.
    pub fn reset(&mut self, specs: Vec<AuthorizationSpec>)
        ensures
            final(self)@ == specs_view(specs@),
    {
        self.specs = specs;
    }

    /// The entitlements that the specs grant to `user_name` on `topic` in
    /// `role`, each once; empty where no spec applies.
    pub fn entitlements(&self, user_name: &str, topic: &str, role: Role) -> (r: Vec<i32>)
        ensures
            r@.to_set() == granted(self@, user_name@, topic@, role),
            r@.no_duplicates(),
    {
        let ghost sv = specs_view(self.specs@);
        let mut out: Vec<i32> = Vec::new();
        let mut i: usize = 0;
        while i < self.specs.len()
            invariant
                sv == specs_view(self.specs@),
                i <= self.specs.len(),
                out@.to_set() == granted(sv.take(i as int), user_name@, topic@, role),
                out@.no_duplicates(),
            decreases self.specs.len() - i,
        {
            let spec = &self.specs[i];
            assert(sv.take(i + 1).drop_last() =~= sv.take(i as int));
            let applies = spec.roles.contains(role) && match_user(spec.user_pattern.as_str(), user_name)
                && spec.topic_pattern.is_match(topic);
            if applies {
                let ghost start = out@;
                let mut j: usize = 0;
                while j < spec.entitlements.len()
                    invariant
                        j <= spec.entitlements.len(),
                        out@.to_set() == start.to_set() + spec.entitlements@.take(j as int).to_set(),
                        out@.no_duplicates(),
                    decreases spec.entitlements.len() - j,
                {
                    let x = spec.entitlements[j];
                    let ghost before = out@;
                    assert(spec.entitlements@.take(j + 1) =~= spec.entitlements@.take(j as int).push(x));
                    proof {
                        spec.entitlements@.take(j as int).lemma_push_to_set_commute(x);
                    }
                    if !contains_i32(&out, x) {
                        out.push(x);
                        proof {
                            before.lemma_push_to_set_commute(x);
                        }
                        assert(out@.no_duplicates()) by {
                            assert forall|a: int, b: int| 0 <= a < b < out@.len() implies out@[a] != out@[b] by {
                                if b == out@.len() - 1 {
                                    assert(out@[a] == before[a]);
                                }
                            }
                        }
                        assert(out@.to_set() =~= start.to_set() + spec.entitlements@.take(j + 1).to_set());
                    } else {
                        assert(out@.to_set() =~= start.to_set() + spec.entitlements@.take(j + 1).to_set());
                    }
                    j = j + 1;
                }
                assert(spec.entitlements@.take(j as int) =~= spec.entitlements@);
                assert(out@.to_set() =~= granted(sv.take(i + 1), user_name@, topic@, role));
            } else {
                assert(out@.to_set() =~= granted(sv.take(i + 1), user_name@, topic@, role));
            }
            i = i + 1;
        }
        assert(sv.take(i as int) =~= sv);
        out
    }
}

/// The policy where none is configured: every user may publish and
/// subscribe on the topics under `PUB`, with entitlement 0.
pub fn default_authorizations() -> (r: Vec<AuthorizationSpec>)
    ensures
        r@.len() == 1,
        r@[0]@.user_pattern == ".*"@,
        r@[0]@.topic_pattern == set![seq!["PUB"@, "*"@]],
        r@[0]@.entitlements == seq![0i32],
        r@[0]@.roles == (Roles { subscriber: true, publisher: true }),
{
    let topic_pattern = match MatchTree::create("PUB.*") {
        Ok(t) => t,
        Err(_) => MatchTree::new(),
    };
    proof {
        reveal_strlit("PUB.*");
        reveal_strlit("PUB");
        reveal_strlit("*");
        let s = "PUB.*"@;
        reveal_with_fuel(crate::topic::split_on, 6);
        let s1 = s.drop_last();
        let s2 = s1.drop_last();
        let s3 = s2.drop_last();
        let s4 = s3.drop_last();
        let s5 = s4.drop_last();
        assert(s5 =~= Seq::<char>::empty());
        assert(crate::topic::split_on(s4, '.') =~= seq![seq!['P']]);
        assert(s4.last() == 'P' && s3.last() == 'U' && s2.last() == 'B' && s1.last() == '.' && s.last() == '*');
        assert(seq!['P'].push('U') =~= seq!['P', 'U']);
        assert(seq!['P', 'U'].push('B') =~= seq!['P', 'U', 'B']);
        assert(Seq::<char>::empty().push('*') =~= seq!['*']);
        assert(crate::topic::split_on(s3, '.') =~= seq![seq!['P', 'U']]);
        assert(crate::topic::split_on(s2, '.') =~= seq![seq!['P', 'U', 'B']]);
        assert(crate::topic::split_on(s1, '.') =~= seq![seq!['P', 'U', 'B'], Seq::<char>::empty()]);
        assert(split_levels(s) =~= seq![seq!['P', 'U', 'B'], seq!['*']]);
        assert("PUB"@ =~= seq!['P', 'U', 'B']);
        assert("*"@ =~= seq!['*']);
        assert(valid_pattern(s));
    }
    let spec = AuthorizationSpec {
        user_pattern: String::from_str(".*"),
        topic_pattern,
        entitlements: vec![0],
        roles: Roles { subscriber: true, publisher: true },
    };
    vec![spec]
}

/// The specs in force: those given on the command line followed by those
/// read from the authorizations file where there is one; where there is
/// none and the command line gives none, the default policy.
pub fn load_authorizations(specs: Vec<AuthorizationSpec>, from_file: Option<Vec<AuthorizationSpec>>) -> (r: Vec<
    AuthorizationSpec,
>)
    ensures
        match from_file {
            Some(f) => specs_view(r@) == specs_view(specs@) + specs_view(f@),
            None => if specs@.len() == 0 {
                r@.len() == 1 && r@[0]@.user_pattern == ".*"@
            } else {
                specs_view(r@) == specs_view(specs@)
            },
        },
{
    match from_file {
        Some(mut f) => {
            let mut all = specs;
            let ghost a = all@;
            let ghost b = f@;
            all.append(&mut f);
            assert(specs_view(all@) =~= specs_view(a) + specs_view(b));
            all
        },
        None => if specs.len() == 0 {
            default_authorizations()
        } else {
            specs
        },
    }
}

} // verus!
