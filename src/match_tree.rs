//! A set of patterns that a topic can be tested against.
use vstd::prelude::*;
use crate::topic::{levels_match, match_levels, pattern_levels, split_levels, split_topic, string_views, valid_pattern};

verus! {

/// Why a pattern could not be added.
#[derive(Debug, Clone, Copy, PartialEq, Eq)]
pub enum MatchTreeError {
    /// The pattern is empty or has `*` before its last level.
    BadPattern,
}

/// A set of patterns, each held as its levels.
pub struct MatchTree {
    patterns: Vec<Vec<String>>,
}

pub open spec fn levels_of(v: Seq<Vec<String>>) -> Seq<Seq<Seq<char>>> {
    v.map_values(|p: Vec<String>| string_views(p@))
}

/// Whether `prefix` is a prefix of `levels`.
pub open spec fn is_level_prefix(prefix: Seq<Seq<char>>, levels: Seq<Seq<char>>) -> bool {
    prefix.len() <= levels.len() && levels.take(prefix.len() as int) == prefix
}

impl View for MatchTree {
    type V = Set<Seq<Seq<char>>>;

    /// The levels of the patterns held.
    closed spec fn view(&self) -> Set<Seq<Seq<char>>> {
        levels_of(self.patterns@).to_set()
    }
}

impl MatchTree {
    pub fn new() -> (r: MatchTree)
        ensures
            r@ == Set::<Seq<Seq<char>>>::empty(),
    {
        let r = MatchTree { patterns: Vec::new() };
        assert(levels_of(r.patterns@).to_set() =~= Set::<Seq<Seq<char>>>::empty());
        r
    }

    /// A tree holding the one pattern given.
    pub fn create(pattern: &str) -> (r: Result<MatchTree, MatchTreeError>)
        ensures
            r is Ok <==> valid_pattern(pattern@),
            r matches Ok(t) ==> t@ == set![split_levels(pattern@)],
    {
        let mut tree = MatchTree::new();
        match tree.add(pattern) {
            Ok(()) => {
                assert(tree@ =~= set![split_levels(pattern@)]);
                Ok(tree)
            },
            Err(e) => Err(e),
        }
    }

    /// Adds a pattern; fails, changing nothing, on an invalid one.
    pub fn add(&mut self, pattern: &str) -> (r: Result<(), MatchTreeError>)
        ensures
            r is Ok <==> valid_pattern(pattern@),
            r is Ok ==> final(self)@ == old(self)@.insert(split_levels(pattern@)),
            r is Err ==> final(self)@ == old(self)@,
    {
        match pattern_levels(pattern) {
            Some(levels) => {
                let ghost before = self.patterns@;
                let ghost lv = string_views(levels@);
                self.patterns.push(levels);
                assert(levels_of(self.patterns@) =~= levels_of(before).push(lv));
                proof {
                    levels_of(before).lemma_push_to_set_commute(lv);
                }
                Ok(())
            },
            None => Err(MatchTreeError::BadPattern),
        }
    }

    /// Removes the pattern and every pattern that extends it by more levels.
    /// Returns `None`, changing nothing, where no pattern starts with its levels.
    pub fn remove(&mut self, pattern: &str) -> (r: Option<()>)
        ensures
            r is Some <==> exists|p: Seq<Seq<char>>|
                old(self)@.contains(p) && is_level_prefix(split_levels(pattern@), p),
            final(self)@ == old(self)@.filter(
                |p: Seq<Seq<char>>| !is_level_prefix(split_levels(pattern@), p),
            ),
    {
        let levels = split_topic(pattern);
        let ghost lv = split_levels(pattern@);
        let ghost all = levels_of(self.patterns@);
        let mut kept: Vec<Vec<String>> = Vec::new();
        let mut found = false;
        let mut i: usize = 0;
        let n = self.patterns.len();
        while i < n
            invariant
                n == self.patterns.len(),
                all == levels_of(self.patterns@),
                string_views(levels@) == lv,
                i <= n,
                found <==> exists|j: int| 0 <= j < i && is_level_prefix(lv, #[trigger] all[j]),
                levels_of(kept@).to_set() == all.take(i as int).to_set().filter(
                    |p: Seq<Seq<char>>| !is_level_prefix(lv, p),
                ),
            decreases n - i,
        {
            let ghost before = kept@;
            if starts_with_levels(&self.patterns[i], &levels) {
                found = true;
                assert(is_level_prefix(lv, all[i as int]));
                assert(all.take(i + 1) =~= all.take(i as int).push(all[i as int]));
                proof {
                    all.take(i as int).lemma_push_to_set_commute(all[i as int]);
                }
                assert(all.take(i + 1).to_set().filter(|p: Seq<Seq<char>>| !is_level_prefix(lv, p))
                    =~= all.take(i as int).to_set().filter(|p: Seq<Seq<char>>| !is_level_prefix(lv, p)));
            } else {
                let copy = copy_levels(&self.patterns[i]);
                kept.push(copy);
                assert(levels_of(kept@) =~= levels_of(before).push(all[i as int]));
                assert(all.take(i + 1) =~= all.take(i as int).push(all[i as int]));
                assert(!is_level_prefix(lv, all[i as int]));
                proof {
                    levels_of(before).lemma_push_to_set_commute(all[i as int]);
                }
                proof {
                    all.take(i as int).lemma_push_to_set_commute(all[i as int]);
                }
                assert(levels_of(kept@).to_set() =~= all.take(i + 1).to_set().filter(
                    |p: Seq<Seq<char>>| !is_level_prefix(lv, p),
                ));
            }
            i = i + 1;
        }
        assert(all.take(n as int) =~= all);
        if !found {
            assert(old(self)@.filter(|p: Seq<Seq<char>>| !is_level_prefix(lv, p)) =~= old(self)@);
            return None;
        }
        self.patterns = kept;
        proof {
            let j = choose|j: int| 0 <= j < n && is_level_prefix(lv, #[trigger] all[j]);
            assert(old(self)@.contains(all[j]));
        }
        Some(())
    }

    /// Whether some pattern matches `topic`.
    pub fn is_match(&self, topic: &str) -> (r: bool)
        ensures
            r == exists|p: Seq<Seq<char>>| self@.contains(p) && levels_match(p, split_levels(topic@)),
    {
        let levels = split_topic(topic);
        let ghost all = levels_of(self.patterns@);
        let mut i: usize = 0;
        while i < self.patterns.len()
            invariant
                all == levels_of(self.patterns@),
                string_views(levels@) == split_levels(topic@),
                i <= self.patterns.len(),
                forall|j: int| 0 <= j < i ==> !levels_match(#[trigger] all[j], split_levels(topic@)),
            decreases self.patterns.len() - i,
        {
            if match_levels(&self.patterns[i], &levels) {
                assert(self@.contains(all[i as int]));
                return true;
            }
            i = i + 1;
        }
        proof {
            if exists|p: Seq<Seq<char>>| self@.contains(p) && levels_match(p, split_levels(topic@)) {
                let p = choose|p: Seq<Seq<char>>| self@.contains(p) && levels_match(p, split_levels(topic@));
                let j = choose|j: int| 0 <= j < all.len() && all[j] == p;
            }
        }
        false
    }

    /// Removes every pattern.
    pub fn clear(&mut self)
        ensures
            final(self)@ == Set::<Seq<Seq<char>>>::empty(),
    {
        self.patterns = Vec::new();
        assert(levels_of(self.patterns@).to_set() =~= Set::<Seq<Seq<char>>>::empty());
    }
}

fn copy_levels(v: &Vec<String>) -> (r: Vec<String>)
    ensures
        string_views(r@) == string_views(v@),
{
    let mut out: Vec<String> = Vec::new();
    let mut i: usize = 0;
    while i < v.len()
        invariant
            i <= v.len(),
            string_views(out@) == string_views(v@).take(i as int),
        decreases v.len() - i,
    {
        let ghost before = out@;
        out.push(v[i].clone());
        assert(string_views(out@) =~= string_views(before).push(v@[i as int]@));
        assert(string_views(v@).take(i + 1) =~= string_views(v@).take(i as int).push(v@[i as int]@));
        i = i + 1;
    }
    assert(string_views(v@).take(i as int) =~= string_views(v@));
    out
}

fn starts_with_levels(levels: &Vec<String>, prefix: &Vec<String>) -> (r: bool)
    ensures
        r == is_level_prefix(string_views(prefix@), string_views(levels@)),
{
    let ghost pv = string_views(prefix@);
    let ghost lv = string_views(levels@);
    if prefix.len() > levels.len() {
        return false;
    }
    let mut i: usize = 0;
    while i < prefix.len()
        invariant
            pv == string_views(prefix@),
            lv == string_views(levels@),
            prefix.len() <= levels.len(),
            i <= prefix.len(),
            forall|j: int| 0 <= j < i ==> lv[j] == pv[j],
        decreases prefix.len() - i,
    {
        if prefix[i] != levels[i] {
            assert(lv.take(pv.len() as int)[i as int] != pv[i as int]);
            return false;
        }
        i = i + 1;
    }
    assert(lv.take(pv.len() as int) =~= pv);
    true
}

} // verus!
