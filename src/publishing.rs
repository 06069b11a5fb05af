//! Which client has published on which topic.
use vstd::prelude::*;
use vstd::string::*;
use crate::topic::string_views;
use crate::topic_tree::str_equal;

verus! {

pub open spec fn pair_view(p: (String, String)) -> (Seq<char>, Seq<char>) {
    (p.0@, p.1@)
}

pub open spec fn pairs_view(v: Seq<(String, String)>) -> Seq<(Seq<char>, Seq<char>)> {
    v.map_values(|p: (String, String)| pair_view(p))
}

/// Whether a pair was not published by `c`.
pub open spec fn not_by(c: Seq<char>) -> spec_fn((Seq<char>, Seq<char>)) -> bool {
    |p: (Seq<char>, Seq<char>)| p.0 != c
}

/// The topics that `publisher` has published on.
pub open spec fn topics_by_publisher(ix: Set<(Seq<char>, Seq<char>)>, publisher: Seq<char>) -> Set<
    Seq<char>,
> {
    Set::new(|t: Seq<char>| ix.contains((publisher, t)))
}

/// The publishers that have published on `topic`.
pub open spec fn publishers_by_topic(ix: Set<(Seq<char>, Seq<char>)>, topic: Seq<char>) -> Set<
    Seq<char>,
> {
    Set::new(|c: Seq<char>| ix.contains((c, topic)))
}

/// The topics on which `publisher` was the only publisher.
pub open spec fn sole_topics(ix: Set<(Seq<char>, Seq<char>)>, publisher: Seq<char>) -> Set<Seq<char>> {
    Set::new(
        |t: Seq<char>|
            ix.contains((publisher, t)) && forall|c: Seq<char>| c != publisher ==> !ix.contains((c, t)),
    )
}

/// The (publisher, topic) pairs seen, each once.
pub struct PublisherIndex {
    pairs: Vec<(String, String)>,
}

impl View for PublisherIndex {
    type V = Set<(Seq<char>, Seq<char>)>;

    closed spec fn view(&self) -> Self::V {
        pairs_view(self.pairs@).to_set()
    }
}

/// Membership is symmetric: `c` is a publisher of `t` exactly when `t` is a
/// topic of `c`, whatever the index holds.
pub proof fn law_publisher_topic_symmetry(ix: Set<(Seq<char>, Seq<char>)>, c: Seq<char>, t: Seq<char>)
    ensures
        publishers_by_topic(ix, t).contains(c) <==> topics_by_publisher(ix, c).contains(t),
{
}

impl PublisherIndex {
    pub closed spec fn wf(&self) -> bool {
        pairs_view(self.pairs@).no_duplicates()
    }

    pub fn new() -> (r: PublisherIndex)
        ensures
            r.wf(),
            r@ == Set::<(Seq<char>, Seq<char>)>::empty(),
    {
        let r = PublisherIndex { pairs: Vec::new() };
        assert(pairs_view(r.pairs@).to_set() =~= Set::<(Seq<char>, Seq<char>)>::empty());
        r
    }

    /// Records that `publisher` published on `topic`.
    pub fn add(&mut self, publisher: &str, topic: &str)
        requires
            old(self).wf(),
        ensures
            final(self).wf(),
            final(self)@ == old(self)@.insert((publisher@, topic@)),
    {
        let ghost pv = pairs_view(self.pairs@);
        let mut i: usize = 0;
        while i < self.pairs.len()
            invariant
                pv == pairs_view(self.pairs@),
                self.wf(),
                *self == *old(self),
                i <= self.pairs.len(),
                forall|j: int| 0 <= j < i ==> pv[j] != (publisher@, topic@),
            decreases self.pairs.len() - i,
        {
            if str_equal(self.pairs[i].0.as_str(), publisher) && str_equal(self.pairs[i].1.as_str(), topic) {
                assert(pv[i as int] == (publisher@, topic@));
                assert(old(self)@.insert((publisher@, topic@)) =~= old(self)@);
                return;
            }
            i = i + 1;
        }
        let ghost before = pairs_view(self.pairs@);
        self.pairs.push((publisher.to_owned(), topic.to_owned()));
        let ghost after = pairs_view(self.pairs@);
        assert(after =~= pv.push((publisher@, topic@)));
        proof {
            pv.lemma_push_to_set_commute((publisher@, topic@));
            assert forall|a: int, b: int| 0 <= a < b < after.len() implies after[a] != after[b] by {
                if b == after.len() - 1 {
                    assert(after[a] == pv[a]);
                }
            }
        }
    }

    /// Forgets `publisher` and returns the topics on which it was the only
    /// publisher, each once.
    pub fn remove_publisher(&mut self, publisher: &str) -> (r: Vec<String>)
        requires
            old(self).wf(),
        ensures
            final(self).wf(),
            final(self)@ == old(self)@.filter(not_by(publisher@)),
            string_views(r@).to_set() == sole_topics(old(self)@, publisher@),
            string_views(r@).no_duplicates(),
    {
        let ghost pv = pairs_view(self.pairs@);
        let ghost c = publisher@;
        let mut kept: Vec<(String, String)> = Vec::new();
        let mut mine: Vec<String> = Vec::new();
        let mut i: usize = 0;
        while i < self.pairs.len()
            invariant
                pv == pairs_view(self.pairs@),
                c == publisher@,
                pv.no_duplicates(),
                i <= self.pairs.len(),
                pairs_view(kept@) == pv.take(i as int).filter(not_by(c)),
                pairs_view(kept@).no_duplicates(),
                string_views(mine@).no_duplicates(),
                forall|t: Seq<char>|
                    #[trigger] string_views(mine@).contains(t) <==> pv.take(i as int).contains((c, t)),
            decreases self.pairs.len() - i,
        {
            let pair = &self.pairs[i];
            assert(pv[i as int] == (pair.0@, pair.1@));
            assert(pv.take(i + 1) =~= pv.take(i as int).push(pv[i as int]));
            if str_equal(pair.0.as_str(), publisher) {
                let ghost before = string_views(mine@);
                assert(forall|t: Seq<char>| before.contains(t) ==> pv.take(i as int).contains((c, t)));
                proof {
                    if before.contains(pair.1@) {
                        assert(pv.take(i as int).contains((c, pair.1@)));
                        let j = choose|j: int| 0 <= j < i && #[trigger] pv.take(i as int)[j] == (c, pair.1@);
                        assert(pv.take(i as int)[j] == pv[j]);
                        assert(pair.0@ == c);
                        assert(pv[j] == pv[i as int]);
                    }
                }
                mine.push(pair.1.clone());
                let ghost now = string_views(mine@);
                assert(now =~= before.push(pair.1@));
                assert forall|a: int, b: int| 0 <= a < b < now.len() implies now[a] != now[b] by {
                    if b == now.len() - 1 {
                        assert(now[a] == before[a]);
                    }
                }
                assert forall|t: Seq<char>| #[trigger] now.contains(t) <==> pv.take(i + 1).contains((c, t)) by {
                    if t == pair.1@ {
                        assert(now[now.len() - 1] == t);
                        assert(pair.0@ == c);
                        assert(pv.take(i + 1)[i as int] == (c, t));
                    } else {
                        if now.contains(t) {
                            let x = choose|x: int| 0 <= x < now.len() && now[x] == t;
                            assert(x < before.len());
                            assert(before[x] == t);
                            assert(before.contains(t));
                            assert(pv.take(i as int).contains((c, t)));
                            let y = choose|y: int| 0 <= y < i && #[trigger] pv.take(i as int)[y] == (c, t);
                            assert(pv.take(i + 1)[y] == (c, t));
                        }
                        if pv.take(i + 1).contains((c, t)) {
                            let x = choose|x: int| 0 <= x < i + 1 && #[trigger] pv.take(i + 1)[x] == (c, t);
                            assert(x != i);
                            assert(pv.take(i as int)[x] == (c, t));
                            assert(before.contains(t));
                            let z = choose|z: int| 0 <= z < before.len() && before[z] == t;
                            assert(now[z] == t);
                        }
                    }
                }
                assert(pv.take(i + 1).drop_last() =~= pv.take(i as int));
                assert(pv.take(i + 1).last() == pv[i as int]);
                assert(!not_by(c)(pv[i as int]));
                assert(pv.take(i + 1).filter(not_by(c)) == pv.take(i as int).filter(not_by(c))) by {
                    reveal(Seq::filter);
                }
            } else {
                let ghost before = pairs_view(kept@);
                proof {
                    broadcast use vstd::seq_lib::group_filter_ensures;

                    if before.contains(pv[i as int]) {
                        pv.take(i as int).lemma_filter_contains_rev(not_by(c), pv[i as int]);
                        let y = choose|y: int| 0 <= y < i && #[trigger] pv.take(i as int)[y] == pv[i as int];
                        assert(pv[y] == pv[i as int]);
                    }
                }
                kept.push((pair.0.clone(), pair.1.clone()));
                let ghost now = pairs_view(kept@);
                assert(now =~= before.push(pv[i as int]));
                assert(pv.take(i + 1).drop_last() =~= pv.take(i as int));
                assert(not_by(c)(pv[i as int]));
                assert(pv.take(i + 1).filter(not_by(c)) == pv.take(i as int).filter(not_by(c)).push(pv[i as int])) by {
                    reveal(Seq::filter);
                }
                assert forall|a: int, b: int| 0 <= a < b < now.len() implies now[a] != now[b] by {
                    if b == now.len() - 1 {
                        assert(now[a] == before[a]);
                    }
                }
                assert forall|t: Seq<char>|
                    #[trigger] string_views(mine@).contains(t) <==> pv.take(i + 1).contains((c, t)) by {
                    if pv.take(i + 1).contains((c, t)) {
                        let x = choose|x: int| 0 <= x < i + 1 && #[trigger] pv.take(i + 1)[x] == (c, t);
                        assert(x != i);
                        assert(pv.take(i as int)[x] == (c, t));
                    }
                    if pv.take(i as int).contains((c, t)) {
                        let x = choose|x: int| 0 <= x < i && #[trigger] pv.take(i as int)[x] == (c, t);
                        assert(pv.take(i + 1)[x] == (c, t));
                    }
                }
            }
            i = i + 1;
        }
        assert(pv.take(i as int) =~= pv);
        let ghost kv = pairs_view(kept@);
        // The topics of `publisher` that no kept pair names.
        let mut sole: Vec<String> = Vec::new();
        let mut j: usize = 0;
        while j < mine.len()
            invariant
                c == publisher@,
                j <= mine.len(),
                kv == pairs_view(kept@),
                kv == pv.filter(not_by(c)),
                string_views(mine@).no_duplicates(),
                forall|t: Seq<char>| #[trigger] string_views(mine@).contains(t) <==> pv.contains((c, t)),
                string_views(sole@).no_duplicates(),
                forall|t: Seq<char>|
                    #[trigger] string_views(sole@).contains(t) <==> (mine@.map_values(
                        |t: String| t@,
                    ).take(j as int).contains(t) && !exists|k: int|
                        0 <= k < kv.len() && kv[k].1 == t),
            decreases mine.len() - j,
        {
            let ghost mv = string_views(mine@);
            assert(mv.take(j + 1) =~= mv.take(j as int).push(mv[j as int]));
            let t = &mine[j];
            let mut k: usize = 0;
            let mut named = false;
            while k < kept.len()
                invariant
                    k <= kept.len(),
                    kv == pairs_view(kept@),
                    named <==> exists|x: int| 0 <= x < k && kv[x].1 == t@,
                decreases kept.len() - k,
            {
                assert(kv[k as int].1 == kept@[k as int].1@);
                if str_equal(kept[k].1.as_str(), t.as_str()) {
                    named = true;
                }
                k = k + 1;
            }
            let ghost before = string_views(sole@);
            assert(forall|u: Seq<char>|
                before.contains(u) <==> (mv.take(j as int).contains(u) && !exists|x: int|
                    0 <= x < kv.len() && kv[x].1 == u));
            if !named {
                proof {
                    if before.contains(t@) {
                        let y = choose|y: int| 0 <= y < j && #[trigger] mv.take(j as int)[y] == t@;
                        assert(mv[y] == mv[j as int]);
                    }
                }
                sole.push(t.clone());
                let ghost now = string_views(sole@);
                assert(now =~= before.push(t@));
                assert forall|a: int, b: int| 0 <= a < b < now.len() implies now[a] != now[b] by {
                    if b == now.len() - 1 {
                        assert(now[a] == before[a]);
                    }
                }
                assert(mv[j as int] == t@);
                assert(k == kept.len());
                assert forall|u: Seq<char>|
                    now.contains(u) <==> (mv.take(j + 1).contains(u) && !exists|x: int|
                        0 <= x < kv.len() && kv[x].1 == u) by {
                    if u == t@ {
                        assert(now[now.len() - 1] == u);
                        assert(mv.take(j + 1)[j as int] == u);
                    } else {
                        if now.contains(u) {
                            let x = choose|x: int| 0 <= x < now.len() && now[x] == u;
                            assert(x < before.len());
                            assert(before[x] == u);
                            assert(before.contains(u));
                            assert(mv.take(j as int).contains(u));
                            let y = choose|y: int| 0 <= y < j && #[trigger] mv.take(j as int)[y] == u;
                            assert(mv.take(j + 1)[y] == u);
                        }
                        if mv.take(j + 1).contains(u) && !exists|x: int|
                            0 <= x < kv.len() && kv[x].1 == u {
                            let x = choose|x: int| 0 <= x < j + 1 && #[trigger] mv.take(j + 1)[x] == u;
                            assert(x != j);
                            assert(mv.take(j as int)[x] == u);
                            assert(before.contains(u));
                            let z = choose|z: int| 0 <= z < before.len() && before[z] == u;
                            assert(now[z] == u);
                        }
                    }
                }
            } else {
                assert forall|u: Seq<char>|
                    before.contains(u) <==> (mv.take(j + 1).contains(u) && !exists|x: int|
                        0 <= x < kv.len() && kv[x].1 == u) by {
                    if mv.take(j + 1).contains(u) && u != t@ {
                        let x = choose|x: int| 0 <= x < j + 1 && #[trigger] mv.take(j + 1)[x] == u;
                        assert(mv.take(j as int)[x] == u);
                    }
                    if mv.take(j as int).contains(u) {
                        let x = choose|x: int| 0 <= x < j && #[trigger] mv.take(j as int)[x] == u;
                        assert(mv.take(j + 1)[x] == u);
                    }
                }
            }
            j = j + 1;
        }
        let ghost mv = string_views(mine@);
        assert(mv.take(j as int) =~= mv);
        self.pairs = kept;
        proof {
            broadcast use vstd::seq_lib::group_filter_ensures;

            let pred = not_by(c);
            assert forall|q: (Seq<char>, Seq<char>)| kv.to_set().contains(q) == old(self)@.filter(pred).contains(q) by {
                if kv.contains(q) {
                    pv.lemma_filter_contains_rev(pred, q);
                    let x = choose|x: int| 0 <= x < kv.len() && kv[x] == q;
                    pv.lemma_filter_pred(pred, x);
                }
                if old(self)@.filter(pred).contains(q) {
                    let x = choose|x: int| 0 <= x < pv.len() && pv[x] == q;
                    pv.lemma_filter_contains(pred, x);
                }
            }
            assert(kv.to_set() =~= old(self)@.filter(pred));
            assert forall|t: Seq<char>| string_views(sole@).to_set().contains(t)
                == sole_topics(old(self)@, c).contains(t) by {
                if pv.contains((c, t)) {
                    let x = choose|x: int| 0 <= x < pv.len() && pv[x] == (c, t);
                }
                if sole_topics(old(self)@, c).contains(t) {
                    assert(mv.contains(t));
                    if exists|x: int| 0 <= x < kv.len() && kv[x].1 == t {
                        let x = choose|x: int| 0 <= x < kv.len() && kv[x].1 == t;
                        assert(kv.to_set().contains(kv[x]));
                        assert(old(self)@.contains(kv[x]));
                    }
                }
                if string_views(sole@).contains(t) {
                    assert forall|d: Seq<char>| d != c implies !old(self)@.contains((d, t)) by {
                        if old(self)@.contains((d, t)) {
                            assert(old(self)@.filter(pred).contains((d, t)));
                            assert(kv.to_set().contains((d, t)));
                            let x = choose|x: int| 0 <= x < kv.len() && kv[x] == (d, t);
                            assert(kv[x].1 == t);
                        }
                    }
                }
            }
            assert(string_views(sole@).to_set() =~= sole_topics(old(self)@, c));
        }
        sole
    }
}

} // verus!
