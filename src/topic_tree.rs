//! The subscription index: which subscriber holds which pattern, and how many
//! times it asked for it.
use vstd::prelude::*;
use vstd::string::*;
use crate::topic::{
    match_levels, pattern_levels, split_levels, split_topic, string_views, topic_matches,
    valid_pattern,
};

verus! {

/// A subscriber's hold on one pattern.
struct PatternEntry {
    pattern: String,
    levels: Vec<String>,
    subscriber: String,
}

/// Why a subscription could not be added.
#[derive(Debug, Clone, Copy, PartialEq, Eq)]
pub enum TopicTreeError {
    /// The pattern is empty or has `*` before its last level.
    BadPattern,
    /// The subscriber already holds the pattern `u32::MAX` times.
    CountOverflow,
}

/// Maps each (pattern, subscriber) pair to the number of times the subscriber
/// asked for the pattern. A pair is present only with a positive count.
pub struct TopicTree {
    entries: Vec<PatternEntry>,
    counts: Vec<u32>,
    model: Ghost<Map<(Seq<char>, Seq<char>), nat>>,
}

impl View for TopicTree {
    type V = Map<(Seq<char>, Seq<char>), nat>;

    closed spec fn view(&self) -> Self::V {
        self.model@
    }
}

/// The count of a pair in a model, zero where absent.
pub open spec fn count_of(m: Map<(Seq<char>, Seq<char>), nat>, k: (Seq<char>, Seq<char>)) -> nat {
    if m.contains_key(k) {
        m[k]
    } else {
        0
    }
}

/// What `add` makes of a model on a valid pattern below the count limit.
pub open spec fn added(m: Map<(Seq<char>, Seq<char>), nat>, k: (Seq<char>, Seq<char>)) -> Map<
    (Seq<char>, Seq<char>),
    nat,
> {
    m.insert(k, count_of(m, k) + 1)
}

/// The count that `remove` leaves for a present pair.
pub open spec fn count_after_remove(
    m: Map<(Seq<char>, Seq<char>), nat>,
    k: (Seq<char>, Seq<char>),
    remove_all: bool,
) -> nat {
    if remove_all || m[k] <= 1 {
        0
    } else {
        (m[k] - 1) as nat
    }
}

/// What `remove` makes of a model.
pub open spec fn removed(
    m: Map<(Seq<char>, Seq<char>), nat>,
    k: (Seq<char>, Seq<char>),
    remove_all: bool,
) -> Map<(Seq<char>, Seq<char>), nat> {
    if !m.contains_key(k) {
        m
    } else if count_after_remove(m, k, remove_all) == 0 {
        m.remove(k)
    } else {
        m.insert(k, count_after_remove(m, k, remove_all))
    }
}

/// The subscribers that hold a pattern matching `topic`.
pub open spec fn matching_subscribers(m: Map<(Seq<char>, Seq<char>), nat>, topic: Seq<char>) -> Set<
    Seq<char>,
> {
    Set::new(|s: Seq<char>| exists|p: Seq<char>| m.contains_key((p, s)) && topic_matches(p, topic))
}

/// The patterns that `subscriber` holds.
pub open spec fn patterns_of(m: Map<(Seq<char>, Seq<char>), nat>, subscriber: Seq<char>) -> Set<
    Seq<char>,
> {
    Set::new(|p: Seq<char>| m.contains_key((p, subscriber)))
}

/// `n` adds of the pair `k`.
pub open spec fn added_n(m: Map<(Seq<char>, Seq<char>), nat>, k: (Seq<char>, Seq<char>), n: nat) -> Map<
    (Seq<char>, Seq<char>),
    nat,
>
    decreases n,
{
    if n == 0 {
        m
    } else {
        added(added_n(m, k, (n - 1) as nat), k)
    }
}

/// `n` single removes of the pair `k`.
pub open spec fn removed_n(
    m: Map<(Seq<char>, Seq<char>), nat>,
    k: (Seq<char>, Seq<char>),
    n: nat,
) -> Map<(Seq<char>, Seq<char>), nat>
    decreases n,
{
    if n == 0 {
        m
    } else {
        removed(removed_n(m, k, (n - 1) as nat), k, false)
    }
}

/// Each remove of a present pair lowers its count by one (to zero with
/// `remove_all`), a pair whose count reaches zero is gone, and no other pair
/// changes.
pub proof fn law_remove_lowers_count(
    m: Map<(Seq<char>, Seq<char>), nat>,
    k: (Seq<char>, Seq<char>),
    remove_all: bool,
)
    requires
        m.contains_key(k),
        m[k] > 0,
    ensures
        count_of(removed(m, k, remove_all), k) < m[k],
        remove_all ==> !removed(m, k, remove_all).contains_key(k),
        !remove_all ==> count_of(removed(m, k, remove_all), k) == m[k] - 1,
        count_of(removed(m, k, remove_all), k) == 0 <==> !removed(m, k, remove_all).contains_key(k),
        forall|q: (Seq<char>, Seq<char>)|
            q != k ==> #[trigger] removed(m, k, remove_all).contains_key(q) == m.contains_key(q)
                && count_of(removed(m, k, remove_all), q) == count_of(m, q),
{
}

/// As many single removes as there were adds bring the count of a pair back
/// to what it was; a pair that was absent is absent again.
pub proof fn law_adds_then_removes(m: Map<(Seq<char>, Seq<char>), nat>, k: (Seq<char>, Seq<char>), n: nat)
    requires
        m.contains_key(k) ==> m[k] > 0,
    ensures
        count_of(removed_n(added_n(m, k, n), k, n), k) == count_of(m, k),
        m.contains_key(k) == removed_n(added_n(m, k, n), k, n).contains_key(k),
    decreases n,
{
    lemma_added_n_count(m, k, n);
    lemma_removed_n_count(added_n(m, k, n), k, n);
}

proof fn lemma_added_n_count(m: Map<(Seq<char>, Seq<char>), nat>, k: (Seq<char>, Seq<char>), n: nat)
    ensures
        count_of(added_n(m, k, n), k) == count_of(m, k) + n,
        n > 0 ==> added_n(m, k, n).contains_key(k),
        m.contains_key(k) ==> added_n(m, k, n).contains_key(k),
    decreases n,
{
    if n > 0 {
        lemma_added_n_count(m, k, (n - 1) as nat);
    }
}

proof fn lemma_removed_n_count(m: Map<(Seq<char>, Seq<char>), nat>, k: (Seq<char>, Seq<char>), n: nat)
    requires
        count_of(m, k) >= n,
        m.contains_key(k) ==> m[k] > 0,
    ensures
        count_of(removed_n(m, k, n), k) == count_of(m, k) - n,
        removed_n(m, k, n).contains_key(k) <==> count_of(m, k) - n > 0,
    decreases n,
{
    if n > 0 {
        lemma_removed_n_count(m, k, (n - 1) as nat);
    }
}

impl TopicTree {
    spec fn key(&self, i: int) -> (Seq<char>, Seq<char>) {
        (self.entries@[i].pattern@, self.entries@[i].subscriber@)
    }

    pub closed spec fn wf(&self) -> bool {
        &&& self.entries.len() == self.counts.len()
        &&& forall|i: int|
            #![trigger self.entries@[i]]
            0 <= i < self.entries.len() ==> {
                &&& string_views(self.entries@[i].levels@) == split_levels(
                    self.entries@[i].pattern@,
                )
                &&& valid_pattern(self.entries@[i].pattern@)
                &&& self.counts@[i] > 0
                &&& self.model@.contains_key(self.key(i))
                &&& self.model@[self.key(i)] == self.counts@[i] as nat
            }
        &&& forall|i: int, j: int|
            0 <= i < self.entries.len() && 0 <= j < self.entries.len() && i != j ==> #[trigger] self.key(i)
                != #[trigger] self.key(j)
        &&& forall|k: (Seq<char>, Seq<char>)|
            #[trigger] self.model@.contains_key(k) ==> exists|i: int|
                0 <= i < self.entries.len() && self.key(i) == k
    }

    /// Every pair present has a valid pattern and a positive count: a count
    /// of zero is the same as absence.
    pub proof fn lemma_counts_positive(&self)
        requires
            self.wf(),
        ensures
            forall|k: (Seq<char>, Seq<char>)| #[trigger]
                self@.contains_key(k) ==> self@[k] > 0 && valid_pattern(k.0),
    {
        assert forall|k: (Seq<char>, Seq<char>)| #[trigger]
            self@.contains_key(k) implies self@[k] > 0 && valid_pattern(k.0) by {
            let i = choose|i: int| 0 <= i < self.entries.len() && self.key(i) == k;
            assert(self.entries@[i].pattern@ == k.0);
        }
    }

    pub fn new() -> (r: TopicTree)
        ensures
            r.wf(),
            r@ == Map::<(Seq<char>, Seq<char>), nat>::empty(),
    {
        TopicTree { entries: Vec::new(), counts: Vec::new(), model: Ghost(Map::empty()) }
    }

    fn find(&self, pattern: &str, subscriber: &str) -> (r: Option<usize>)
        requires
            self.wf(),
        ensures
            r matches Some(i) ==> i < self.entries.len() && self.key(i as int) == (
                pattern@,
                subscriber@,
            ),
            r is None ==> !self@.contains_key((pattern@, subscriber@)),
    {
        let mut i: usize = 0;
        while i < self.entries.len()
            invariant
                self.wf(),
                i <= self.entries.len(),
                forall|j: int| 0 <= j < i ==> self.key(j) != (pattern@, subscriber@),
            decreases self.entries.len() - i,
        {
            let e = &self.entries[i];
            if str_equal(e.pattern.as_str(), pattern) && str_equal(e.subscriber.as_str(), subscriber) {
                return Some(i);
            }
            i = i + 1;
        }
        proof {
            if self@.contains_key((pattern@, subscriber@)) {
                let k = (pattern@, subscriber@);
                assert(self.model@.contains_key(k));
                let j = choose|j: int| 0 <= j < self.entries.len() && self.key(j) == k;
                assert(false);
            }
        }
        None
    }

    /// Adds one hold of `pattern` for `subscriber` and returns its new count.
    pub fn add(&mut self, pattern: &str, subscriber: String) -> (r: Result<u32, TopicTreeError>)
        requires
            old(self).wf(),
        ensures
            final(self).wf(),
            r == Err::<u32, TopicTreeError>(TopicTreeError::BadPattern) <==> !valid_pattern(
                pattern@,
            ),
            r == Err::<u32, TopicTreeError>(TopicTreeError::CountOverflow) <==> valid_pattern(
                pattern@,
            ) && count_of(old(self)@, (pattern@, subscriber@)) >= u32::MAX,
            r is Err ==> final(self)@ == old(self)@,
            r matches Ok(n) ==> n == count_of(old(self)@, (pattern@, subscriber@)) + 1
                && final(self)@ == added(old(self)@, (pattern@, subscriber@)),
    {
        let levels = match pattern_levels(pattern) {
            Some(levels) => levels,
            None => return Err(TopicTreeError::BadPattern),
        };
        let ghost k = (pattern@, subscriber@);
        match self.find(pattern, subscriber.as_str()) {
            Some(i) => {
                let count = self.counts[i];
                assert(self.entries@[i as int].pattern@ == pattern@);
                if count == u32::MAX {
                    return Err(TopicTreeError::CountOverflow);
                }
                self.counts.set(i, count + 1);
                self.model = Ghost(self.model@.insert(k, (count + 1) as nat));
                assert forall|j: int| 0 <= j < self.entries.len() && j != i implies self.key(j)
                    != k by {
                    assert(old(self).key(j) != old(self).key(i as int));
                }
                proof {
                    assert forall|q: (Seq<char>, Seq<char>)| #[trigger]
                        self.model@.contains_key(q) implies exists|j: int|
                        0 <= j < self.entries.len() && self.key(j) == q by {
                        if q == k {
                            assert(self.key(i as int) == q);
                        } else {
                            assert(old(self).model@.contains_key(q));
                            let j = choose|j: int|
                                0 <= j < old(self).entries.len() && old(self).key(j) == q;
                            assert(self.key(j) == q);
                        }
                    }
                }
                Ok(count + 1)
            },
            None => {
                let entry = PatternEntry { pattern: pattern.to_owned(), levels, subscriber };
                self.entries.push(entry);
                self.counts.push(1);
                self.model = Ghost(self.model@.insert(k, 1));
                let ghost n = self.entries.len() - 1;
                assert(self.key(n) == k);
                assert forall|j: int| 0 <= j < n implies self.key(j) != k by {
                    assert(old(self).model@.contains_key(old(self).key(j)));
                }
                proof {
                    assert forall|q: (Seq<char>, Seq<char>)| #[trigger]
                        self.model@.contains_key(q) implies exists|j: int|
                        0 <= j < self.entries.len() && self.key(j) == q by {
                        if q != k {
                            assert(old(self).model@.contains_key(q));
                            let j = choose|j: int| 0 <= j < old(self).entries.len() && old(self).key(j) == q;
                            assert(self.key(j) == q);
                        }
                    }
                    assert forall|a: int, b: int|
                        0 <= a < self.entries.len() && 0 <= b < self.entries.len() && a != b
                        implies #[trigger] self.key(a) != #[trigger] self.key(b) by {
                        if a < n && b < n {
                            assert(old(self).key(a) != old(self).key(b));
                        }
                    }
                }
                Ok(1)
            },
        }
    }

    /// Drops one hold (or, with `remove_all`, every hold) of `pattern` for
    /// `subscriber`. Returns the count left, or `None` where it held none.
    pub fn remove(&mut self, pattern: &str, subscriber: &str, remove_all: bool) -> (r: Option<u32>)
        requires
            old(self).wf(),
        ensures
            final(self).wf(),
            final(self)@ == removed(old(self)@, (pattern@, subscriber@), remove_all),
            r is None <==> !old(self)@.contains_key((pattern@, subscriber@)),
            r matches Some(n) ==> n == count_after_remove(
                old(self)@,
                (pattern@, subscriber@),
                remove_all,
            ),
    {
        let ghost k = (pattern@, subscriber@);
        let i = match self.find(pattern, subscriber) {
            Some(i) => i,
            None => return None,
        };
        let count = self.counts[i];
        assert(self.entries@[i as int].pattern@ == pattern@);
        let left: u32 = if remove_all || count <= 1 {
            0
        } else {
            count - 1
        };
        if left > 0 {
            self.counts.set(i, left);
            self.model = Ghost(self.model@.insert(k, left as nat));
            assert forall|j: int| 0 <= j < self.entries.len() && j != i implies self.key(j)
                != k by {
                assert(old(self).key(j) != old(self).key(i as int));
            }
            proof {
                assert forall|q: (Seq<char>, Seq<char>)| #[trigger]
                    self.model@.contains_key(q) implies exists|j: int|
                    0 <= j < self.entries.len() && self.key(j) == q by {
                    if q == k {
                        assert(self.key(i as int) == q);
                    } else {
                        assert(old(self).model@.contains_key(q));
                        let j = choose|j: int|
                            0 <= j < old(self).entries.len() && old(self).key(j) == q;
                        assert(self.key(j) == q);
                    }
                }
                assert forall|j: int| #![trigger self.entries@[j]] 0 <= j < self.entries.len() implies {
                    &&& string_views(self.entries@[j].levels@) == split_levels(self.entries@[j].pattern@)
                    &&& valid_pattern(self.entries@[j].pattern@)
                    &&& self.counts@[j] > 0
                    &&& self.model@.contains_key(self.key(j))
                    &&& self.model@[self.key(j)] == self.counts@[j] as nat
                } by {
                    assert(old(self).entries@[j] == self.entries@[j]);
                    if j != i {
                        assert(old(self).key(j) != old(self).key(i as int));
                    }
                }
            }
            assert(self.wf());
        } else {
            let ghost old_entries = self.entries@;
            let ghost old_counts = self.counts@;
            let ghost old_self_keys = Seq::new(self.entries.len() as nat, |j: int| self.key(j));
            self.entries.remove(i);
            self.counts.remove(i);
            self.model = Ghost(self.model@.remove(k));
            assert forall|j: int| 0 <= j < self.entries.len() implies #[trigger] self.key(j)
                == old_self_keys[if j < i { j } else { j + 1 }] by {
                if j < i {
                    assert(self.entries@[j] == old_entries[j]);
                } else {
                    assert(self.entries@[j] == old_entries[j + 1]);
                }
            }
            proof {
                assert forall|j: int| 0 <= j < self.entries.len() implies {
                    &&& string_views(#[trigger] self.entries@[j].levels@) == split_levels(
                        self.entries@[j].pattern@,
                    )
                    &&& valid_pattern(self.entries@[j].pattern@)
                    &&& self.counts@[j] > 0
                    &&& self.model@.contains_key(self.key(j))
                    &&& self.model@[self.key(j)] == self.counts@[j] as nat
                } by {
                    let oj = if j < i { j } else { j + 1 };
                    assert(self.entries@[j] == old_entries[oj]);
                    assert(old(self).entries@[oj] == old_entries[oj]);
                    assert(self.counts@[j] == old_counts[oj]);
                    assert(old(self).key(oj) == self.key(j));
                    assert(old(self).key(oj) != old(self).key(i as int));
                }
                assert forall|a: int, b: int|
                    0 <= a < self.entries.len() && 0 <= b < self.entries.len() && a != b
                    implies #[trigger] self.key(a) != #[trigger] self.key(b) by {
                    let oa = if a < i { a } else { a + 1 };
                    let ob = if b < i { b } else { b + 1 };
                    assert(old(self).key(oa) != old(self).key(ob));
                }
                assert forall|q: (Seq<char>, Seq<char>)| #[trigger]
                    self.model@.contains_key(q) implies exists|j: int|
                    0 <= j < self.entries.len() && self.key(j) == q by {
                    assert(old(self).model@.contains_key(q));
                    let oj = choose|j: int| 0 <= j < old(self).entries.len() && old(self).key(j) == q;
                    assert(oj != i);
                    let j = if oj < i { oj } else { oj - 1 };
                    assert(self.key(j) == q);
                }
                assert(self.entries.len() == self.counts.len());
            }
            assert(self.wf());
        }
        Some(left)
    }

    /// The subscribers holding a pattern that matches `topic`, each once.
    pub fn subscribers(&self, topic: &str) -> (r: Vec<String>)
        requires
            self.wf(),
        ensures
            string_views(r@).to_set() == matching_subscribers(self@, topic@),
            string_views(r@).no_duplicates(),
    {
        let levels = split_topic(topic);
        let mut out: Vec<String> = Vec::new();
        let mut i: usize = 0;
        while i < self.entries.len()
            invariant
                self.wf(),
                i <= self.entries.len(),
                string_views(levels@) == split_levels(topic@),
                forall|s: Seq<char>|
                    string_views(out@).contains(s) <==> exists|j: int|
                        0 <= j < i && #[trigger] self.key(j).1 == s && topic_matches(
                            self.key(j).0,
                            topic@,
                        ),
            decreases self.entries.len() - i,
        {
            let e = &self.entries[i];
            assert(self.entries@[i as int] == *e);
            if match_levels(&e.levels, &levels) {
                assert(topic_matches(self.key(i as int).0, topic@));
                let ghost before = out@;
                out.push(e.subscriber.clone());
                assert(string_views(out@) =~= string_views(before).push(e.subscriber@));
                assert forall|s: Seq<char>|
                    string_views(out@).contains(s) <==> exists|j: int|
                        0 <= j < i + 1 && #[trigger] self.key(j).1 == s && topic_matches(
                            self.key(j).0,
                            topic@,
                        ) by {
                    if string_views(out@).contains(s) {
                        if s == e.subscriber@ {
                            assert(self.key(i as int).1 == s);
                        } else {
                            let x = choose|x: int| 0 <= x < out@.len() && string_views(out@)[x] == s;
                            assert(x < before.len());
                            assert(string_views(before)[x] == s);
                            assert(string_views(before).contains(s));
                        }
                    }
                    if exists|j: int|
                        0 <= j < i + 1 && #[trigger] self.key(j).1 == s && topic_matches(
                            self.key(j).0,
                            topic@,
                        ) {
                        let j = choose|j: int|
                            0 <= j < i + 1 && #[trigger] self.key(j).1 == s && topic_matches(
                                self.key(j).0,
                                topic@,
                            );
                        if j == i {
                            assert(string_views(out@)[out@.len() - 1] == s);
                        } else {
                            assert(string_views(before).contains(s));
                            let x = choose|x: int| 0 <= x < before.len() && string_views(before)[x] == s;
                            assert(string_views(out@)[x] == s);
                        }
                    }
                }
            }
            i = i + 1;
        }
        proof {
            assert forall|s: Seq<char>|
                string_views(out@).to_set().contains(s) == matching_subscribers(
                    self@,
                    topic@,
                ).contains(s) by {
                if matching_subscribers(self@, topic@).contains(s) {
                    let p = choose|p: Seq<char>|
                        self@.contains_key((p, s)) && topic_matches(p, topic@);
                    let j = choose|j: int| 0 <= j < self.entries.len() && self.key(j) == (p, s);
                    assert(self.key(j).1 == s);
                }
                if string_views(out@).contains(s) {
                    let j = choose|j: int|
                        0 <= j < self.entries.len() && #[trigger] self.key(j).1 == s && topic_matches(
                            self.key(j).0,
                            topic@,
                        );
                    assert(self.entries@[j].pattern@ == self.key(j).0);
                    assert(self@.contains_key((self.key(j).0, s)));
                }
            }
            assert(string_views(out@).to_set() =~= matching_subscribers(self@, topic@));
        }
        dedup_strings(&out)
    }

    /// The patterns that `subscriber` holds, each once.
    pub fn topics(&self, subscriber: &str) -> (r: Vec<String>)
        requires
            self.wf(),
        ensures
            string_views(r@).to_set() == patterns_of(self@, subscriber@),
            string_views(r@).no_duplicates(),
    {
        let mut out: Vec<String> = Vec::new();
        let mut i: usize = 0;
        while i < self.entries.len()
            invariant
                self.wf(),
                i <= self.entries.len(),
                string_views(out@).no_duplicates(),
                forall|p: Seq<char>|
                    string_views(out@).contains(p) <==> exists|j: int|
                        0 <= j < i && #[trigger] self.key(j) == (p, subscriber@),
            decreases self.entries.len() - i,
        {
            let e = &self.entries[i];
            if str_equal(e.subscriber.as_str(), subscriber) {
                let ghost before = out@;
                let ghost p = e.pattern@;
                proof {
                    if string_views(before).contains(p) {
                        let j = choose|j: int| 0 <= j < i && #[trigger] self.key(j) == (p, subscriber@);
                        assert(self.key(j) == self.key(i as int));
                    }
                }
                out.push(e.pattern.clone());
                assert(string_views(out@) =~= string_views(before).push(p));
                assert forall|q: Seq<char>|
                    string_views(out@).contains(q) <==> exists|j: int|
                        0 <= j < i + 1 && #[trigger] self.key(j) == (q, subscriber@) by {
                    if string_views(out@).contains(q) {
                        if q == p {
                            assert(self.key(i as int) == (q, subscriber@));
                        } else {
                            let x = choose|x: int| 0 <= x < out@.len() && string_views(out@)[x] == q;
                            assert(x < before.len());
                            assert(string_views(before)[x] == q);
                            assert(string_views(before).contains(q));
                        }
                    }
                    if exists|j: int| 0 <= j < i + 1 && #[trigger] self.key(j) == (q, subscriber@) {
                        let j = choose|j: int| 0 <= j < i + 1 && #[trigger] self.key(j) == (q, subscriber@);
                        if j == i {
                            assert(string_views(out@)[out@.len() - 1] == q);
                        } else {
                            assert(string_views(before).contains(q));
                            let x = choose|x: int| 0 <= x < before.len() && string_views(before)[x] == q;
                            assert(string_views(out@)[x] == q);
                        }
                    }
                }
            }
            i = i + 1;
        }
        proof {
            assert forall|p: Seq<char>|
                string_views(out@).to_set().contains(p) == patterns_of(self@, subscriber@).contains(
                    p,
                ) by {
                if patterns_of(self@, subscriber@).contains(p) {
                    let j = choose|j: int|
                        0 <= j < self.entries.len() && self.key(j) == (p, subscriber@);
                    assert(self.key(j) == (p, subscriber@));
                }
            }
            assert(string_views(out@).to_set() =~= patterns_of(self@, subscriber@));
        }
        out
    }
}

/// Whether `v` holds `s`.
pub fn contains_string(v: &Vec<String>, s: &str) -> (r: bool)
    ensures
        r == string_views(v@).contains(s@),
{
    let mut i: usize = 0;
    while i < v.len()
        invariant
            i <= v.len(),
            forall|j: int| 0 <= j < i ==> string_views(v@)[j] != s@,
        decreases v.len() - i,
    {
        if str_equal(v[i].as_str(), s) {
            assert(string_views(v@)[i as int] == s@);
            return true;
        }
        i = i + 1;
    }
    false
}

/// The strings of `v`, each once, in the order of their first occurrence.
pub fn dedup_strings(v: &Vec<String>) -> (r: Vec<String>)
    ensures
        string_views(r@).to_set() == string_views(v@).to_set(),
        string_views(r@).no_duplicates(),
{
    let ghost vv = string_views(v@);
    let mut out: Vec<String> = Vec::new();
    let mut i: usize = 0;
    while i < v.len()
        invariant
            vv == string_views(v@),
            i <= v.len(),
            string_views(out@).no_duplicates(),
            forall|s: Seq<char>| #[trigger] string_views(out@).contains(s) <==> vv.take(i as int).contains(s),
        decreases v.len() - i,
    {
        let ghost before = string_views(out@);
        assert(vv.take(i + 1) =~= vv.take(i as int).push(vv[i as int]));
        assert(vv[i as int] == v@[i as int]@);
        if !contains_string(&out, v[i].as_str()) {
            out.push(v[i].clone());
            let ghost now = string_views(out@);
            assert(now =~= before.push(vv[i as int]));
            assert forall|a: int, b: int| 0 <= a < b < now.len() implies now[a] != now[b] by {
                if b == now.len() - 1 {
                    assert(now[a] == before[a]);
                }
            }
            assert forall|s: Seq<char>| #[trigger] now.contains(s) <==> vv.take(i + 1).contains(s) by {
                if s == vv[i as int] {
                    assert(now[now.len() - 1] == s);
                    assert(vv.take(i + 1)[i as int] == s);
                } else {
                    if now.contains(s) {
                        let x = choose|x: int| 0 <= x < now.len() && now[x] == s;
                        assert(x < before.len());
                        assert(before[x] == s);
                        assert(before.contains(s));
                        let y = choose|y: int| 0 <= y < i && #[trigger] vv.take(i as int)[y] == s;
                        assert(vv.take(i + 1)[y] == s);
                    }
                    if vv.take(i + 1).contains(s) {
                        let y = choose|y: int| 0 <= y < i + 1 && #[trigger] vv.take(i + 1)[y] == s;
                        assert(vv.take(i as int)[y] == s);
                        assert(before.contains(s));
                        let x = choose|x: int| 0 <= x < before.len() && before[x] == s;
                        assert(now[x] == s);
                    }
                }
            }
        } else {
            assert forall|s: Seq<char>| #[trigger] before.contains(s) <==> vv.take(i + 1).contains(s) by {
                if vv.take(i + 1).contains(s) && s != vv[i as int] {
                    let y = choose|y: int| 0 <= y < i + 1 && #[trigger] vv.take(i + 1)[y] == s;
                    assert(vv.take(i as int)[y] == s);
                }
                if vv.take(i as int).contains(s) {
                    let y = choose|y: int| 0 <= y < i && #[trigger] vv.take(i as int)[y] == s;
                    assert(vv.take(i + 1)[y] == s);
                }
                if s == vv[i as int] {
                    assert(vv.take(i + 1)[i as int] == s);
                }
            }
        }
        i = i + 1;
    }
    assert(vv.take(i as int) =~= vv);
    assert(string_views(out@).to_set() =~= vv.to_set());
    out
}

/// Character-wise equality of two strings.
pub fn str_equal(a: &str, b: &str) -> (r: bool)
    ensures
        r == (a@ == b@),
{
    let n = a.unicode_len();
    if n != b.unicode_len() {
        return false;
    }
    let mut i: usize = 0;
    while i < n
        invariant
            n == a@.len(),
            n == b@.len(),
            i <= n,
            forall|j: int| 0 <= j < i ==> a@[j] == b@[j],
        decreases n - i,
    {
        if a.get_char(i) != b.get_char(i) {
            return false;
        }
        i = i + 1;
    }
    assert(a@ =~= b@);
    true
}

} // verus!
