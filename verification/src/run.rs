//! The bookkeeping of rewrite scheduling: per-rule statistics and the
//! exponential back-off that bans rules whose searches explode.

use vstd::prelude::*;

use crate::search_matches::{SearchMatches, total_upto};
use crate::subst::str_chars;
use crate::multipattern::{MultiPattern, MultiPatternV};
use crate::Id;

verus! {

/// How many matches and binds a rule's search did.
#[derive(Debug, Default, Clone, Copy)]
pub struct SearchMetadata {
    matches: usize,
    binds: usize,
}

impl SearchMetadata {
    /// The matches of this search.
    pub closed spec fn matches_spec(&self) -> usize {
        self.matches
    }

    /// The binds of this search.
    pub closed spec fn binds_spec(&self) -> usize {
        self.binds
    }

    /// Records a search's matches and binds.
    pub fn new(matches: usize, binds: usize) -> (r: Self)
        ensures
            r.matches_spec() == matches,
            r.binds_spec() == binds,
    {
        SearchMetadata { matches, binds }
    }

    /// The number of matches.
    pub fn matches(&self) -> (r: usize)
        ensures
            r == self.matches_spec(),
    {
        self.matches
    }

    /// The number of binds.
    pub fn binds(&self) -> (r: usize)
        ensures
            r == self.binds_spec(),
    {
        self.binds
    }

    /// `"<matches> matches <binds> binds"`.
    pub fn to_string(&self) -> (r: String)
        ensures
            r@ == crate::decimal_text(self.matches_spec() as nat) + seq![
                ' ',
                'm',
                'a',
                't',
                'c',
                'h',
                'e',
                's',
                ' ',
            ] + crate::decimal_text(self.binds_spec() as nat) + seq![' ', 'b', 'i', 'n', 'd', 's'],
    {
        let mut s = crate::u64_to_decimal(self.matches as u64);
        proof {
            reveal_strlit(" matches ");
            reveal_strlit(" binds");
        }
        s.append(" matches ");
        let b = crate::u64_to_decimal(self.binds as u64);
        s.append(b.as_str());
        s.append(" binds");
        s
    }
}

/// Statistics on a rule's use.
#[derive(Debug, Clone, Copy)]
pub struct RuleStats {
    /// How many searches of the rule were kept.
    pub times_applied: usize,
    /// The rule is not searched before this iteration.
    pub banned_until: usize,
    /// How many times the rule was banned.
    pub times_banned: usize,
    /// The initial number of matches past which the rule is banned.
    pub match_limit: usize,
    /// The initial number of iterations a ban lasts.
    pub ban_length: usize,
}

/// The number of substitutions that a search found (none for no result).
pub open spec fn found_total(m: Option<SearchMatches>) -> nat {
    match m {
        Some(x) => total_upto(x.entries(), x.entries().len()),
        None => 0,
    }
}

/// The number of matches past which a rule is banned: its match limit,
/// doubled for each earlier ban (bits shifted out are lost).
pub open spec fn ban_threshold(s: RuleStats) -> usize {
    (s.match_limit << s.times_banned) as usize
}

/// The limit a search is run with: one past the threshold, saturating.
pub open spec fn search_limit(s: RuleStats) -> usize {
    if ban_threshold(s) == usize::MAX {
        usize::MAX
    } else {
        (ban_threshold(s) + 1) as usize
    }
}

/// The statistics after a search of `total` matches in iteration
/// `iteration`: past the threshold the rule is banned for its ban length
/// doubled per earlier ban; otherwise the search counts as applied.
pub open spec fn after_search(s: RuleStats, iteration: usize, total: nat) -> RuleStats {
    if total > ban_threshold(s) {
        RuleStats {
            times_banned: (s.times_banned + 1) as usize,
            banned_until: (iteration + ((s.ban_length << s.times_banned) as usize)) as usize,
            ..s
        }
    } else {
        RuleStats { times_applied: (s.times_applied + 1) as usize, ..s }
    }
}

/// A scheduler that runs every rewrite every iteration.
#[derive(Debug, Default, Clone, Copy)]
pub struct SimpleScheduler;

/// A scheduler that searches rewrites in parallel threads.
#[derive(Debug, Default, Clone, Copy)]
pub struct ParallelScheduler {}

/// A scheduler with exponential rule back-off: a rule whose search yields
/// more matches than its limit is banned for some iterations, and both its
/// limit and its ban length double each time.
#[derive(Debug)]
pub struct BackoffScheduler {
    default_match_limit: usize,
    default_ban_length: usize,
    stats: Vec<(String, RuleStats)>,
}

/// The statistics of a fresh rule.
pub open spec fn fresh_stats(match_limit: usize, ban_length: usize) -> RuleStats {
    RuleStats { times_applied: 0, banned_until: 0, times_banned: 0, match_limit, ban_length }
}

/// The rule statistics as values, by rule name.
pub open spec fn stats_view(v: Seq<(String, RuleStats)>) -> Seq<(Seq<char>, RuleStats)> {
    v.map_values(|e: (String, RuleStats)| (e.0@, e.1))
}

/// The statistics after `name` is registered: unchanged if it is known,
/// else a fresh entry is appended.
pub open spec fn with_rule(s: Seq<(Seq<char>, RuleStats)>, name: Seq<char>, match_limit: usize, ban_length: usize) -> Seq<
    (Seq<char>, RuleStats),
> {
    if exists|i: int| 0 <= i < s.len() && s[i].0 == name {
        s
    } else {
        s.push((name, fresh_stats(match_limit, ban_length)))
    }
}

/// The statistics after a rule's entry is changed by `f`.
pub open spec fn update_rule(
    s: Seq<(Seq<char>, RuleStats)>,
    name: Seq<char>,
    f: spec_fn(RuleStats) -> RuleStats,
) -> Seq<(Seq<char>, RuleStats)> {
    s.map_values(|e: (Seq<char>, RuleStats)| if e.0 == name { (e.0, f(e.1)) } else { e })
}

/// The earliest iteration at which some rule banned past `iteration` is
/// unbanned, over the first `k` entries.
pub open spec fn min_ban_upto(s: Seq<(Seq<char>, RuleStats)>, iteration: usize, k: nat) -> Option<usize>
    decreases k,
{
    if k == 0 {
        None
    } else {
        let m = min_ban_upto(s, iteration, (k - 1) as nat);
        let b = s[k - 1].1.banned_until;
        if b > iteration {
            match m {
                Some(x) => Some(if b < x { b } else { x }),
                None => Some(b),
            }
        } else {
            m
        }
    }
}

impl BackoffScheduler {
    /// The statistics, by rule name, in the order the rules were first seen.
    pub closed spec fn stats_spec(&self) -> Seq<(Seq<char>, RuleStats)> {
        stats_view(self.stats@)
    }

    /// The match limit of rules seen from now on.
    pub closed spec fn match_limit_spec(&self) -> usize {
        self.default_match_limit
    }

    /// The ban length of rules seen from now on.
    pub closed spec fn ban_length_spec(&self) -> usize {
        self.default_ban_length
    }

    /// No rule has two entries.
    pub open spec fn wf(&self) -> bool {
        forall|i: int, j: int|
            0 <= i < j < self.stats_spec().len() ==> #[trigger] self.stats_spec()[i].0
                != #[trigger] self.stats_spec()[j].0
    }

    /// A scheduler with match limit 1,000 and ban length 5, and no rules.
    pub fn new() -> (r: Self)
        ensures
            r.wf(),
            r.match_limit_spec() == 1000,
            r.ban_length_spec() == 5,
            r.stats_spec().len() == 0,
    {
        let r = BackoffScheduler { stats: Vec::new(), default_match_limit: 1000, default_ban_length: 5 };
        proof {
            assert(r.stats_spec() =~= Seq::<(Seq<char>, RuleStats)>::empty());
        }
        r
    }

    /// Sets the initial match limit after which a rule is banned.
    pub fn with_initial_match_limit(self, limit: usize) -> (r: Self)
        ensures
            r.match_limit_spec() == limit,
            r.ban_length_spec() == self.ban_length_spec(),
            r.stats_spec() == self.stats_spec(),
    {
        let mut s = self;
        s.default_match_limit = limit;
        s
    }

    /// Sets the initial ban length.
    pub fn with_ban_length(self, ban_length: usize) -> (r: Self)
        ensures
            r.ban_length_spec() == ban_length,
            r.match_limit_spec() == self.match_limit_spec(),
            r.stats_spec() == self.stats_spec(),
    {
        let mut s = self;
        s.default_ban_length = ban_length;
        s
    }

    /// The index of the entry of `name`, registering the rule first if it
    /// is new.
    fn rule_stats(&mut self, name: &str) -> (idx: usize)
        requires
            old(self).wf(),
        ensures
            final(self).wf(),
            final(self).match_limit_spec() == old(self).match_limit_spec(),
            final(self).ban_length_spec() == old(self).ban_length_spec(),
            final(self).stats_spec() == with_rule(
                old(self).stats_spec(),
                name@,
                old(self).match_limit_spec(),
                old(self).ban_length_spec(),
            ),
            idx < final(self).stats_spec().len(),
            final(self).stats_spec()[idx as int].0 == name@,
    {
        let cs = str_chars(name);
        let key = crate::subst::string_from_chars(cs.as_slice());
        let mut i: usize = 0;
        while i < self.stats.len()
            invariant
                0 <= i <= self.stats@.len(),
                self.wf(),
                *self == *old(self),
                key@ == name@,
                forall|j: int| 0 <= j < i ==> #[trigger] self.stats_spec()[j].0 != name@,
            decreases self.stats@.len() - i,
        {
            proof {
                assert(self.stats_spec()[i as int].0 == self.stats@[i as int].0@);
            }
            if self.stats[i].0 == key {
                return i;
            }
            i = i + 1;
        }
        let ghost s0 = self.stats_spec();
        let fresh = RuleStats {
            times_applied: 0,
            banned_until: 0,
            times_banned: 0,
            match_limit: self.default_match_limit,
            ban_length: self.default_ban_length,
        };
        self.stats.push((key, fresh));
        proof {
            assert(self.stats_spec() =~= s0.push((name@, fresh)));
            assert(!(exists|j: int| 0 <= j < s0.len() && s0[j].0 == name@));
        }
        i
    }

    /// Applies `f` to the entry at `idx`.
    fn set_stats(&mut self, idx: usize, st: RuleStats)
        requires
            old(self).wf(),
            idx < old(self).stats_spec().len(),
        ensures
            final(self).wf(),
            final(self).match_limit_spec() == old(self).match_limit_spec(),
            final(self).ban_length_spec() == old(self).ban_length_spec(),
            final(self).stats_spec() == old(self).stats_spec().update(
                idx as int,
                (old(self).stats_spec()[idx as int].0, st),
            ),
    {
        let (n, _) = self.stats.remove(idx);
        self.stats.insert(idx, (n, st));
        proof {
            assert(self.stats_spec() =~= old(self).stats_spec().update(
                idx as int,
                (old(self).stats_spec()[idx as int].0, st),
            ));
        }
    }

    /// The entry at `idx`.
    fn get_stats(&self, idx: usize) -> (r: RuleStats)
        requires
            idx < self.stats_spec().len(),
        ensures
            r == self.stats_spec()[idx as int].1,
    {
        self.stats[idx].1
    }

    /// Never bans the rule `name`: its match limit becomes the largest
    /// number.
    pub fn do_not_ban(self, name: &str) -> (r: Self)
        requires
            self.wf(),
        ensures
            r.wf(),
            r.match_limit_spec() == self.match_limit_spec(),
            r.ban_length_spec() == self.ban_length_spec(),
            r.stats_spec() == update_rule(
                with_rule(self.stats_spec(), name@, self.match_limit_spec(), self.ban_length_spec()),
                name@,
                |s: RuleStats| RuleStats { match_limit: usize::MAX, ..s },
            ),
    {
        let mut s = self;
        let idx = s.rule_stats(name);
        let ghost s0 = s.stats_spec();
        let st = s.get_stats(idx);
        s.set_stats(idx, RuleStats { match_limit: usize::MAX, ..st });
        proof {
            Self::lemma_update_at(s0, idx as int, |s: RuleStats| RuleStats { match_limit: usize::MAX, ..s });
        }
        s
    }

    /// Sets the initial match limit of the rule `name`.
    pub fn rule_match_limit(self, name: &str, limit: usize) -> (r: Self)
        requires
            self.wf(),
        ensures
            r.wf(),
            r.match_limit_spec() == self.match_limit_spec(),
            r.ban_length_spec() == self.ban_length_spec(),
            r.stats_spec() == update_rule(
                with_rule(self.stats_spec(), name@, self.match_limit_spec(), self.ban_length_spec()),
                name@,
                |s: RuleStats| RuleStats { match_limit: limit, ..s },
            ),
    {
        let mut s = self;
        let idx = s.rule_stats(name);
        let ghost s0 = s.stats_spec();
        let st = s.get_stats(idx);
        s.set_stats(idx, RuleStats { match_limit: limit, ..st });
        proof {
            Self::lemma_update_at(s0, idx as int, |s: RuleStats| RuleStats { match_limit: limit, ..s });
        }
        s
    }

    /// Sets the initial ban length of the rule `name`.
    pub fn rule_ban_length(self, name: &str, length: usize) -> (r: Self)
        requires
            self.wf(),
        ensures
            r.wf(),
            r.match_limit_spec() == self.match_limit_spec(),
            r.ban_length_spec() == self.ban_length_spec(),
            r.stats_spec() == update_rule(
                with_rule(self.stats_spec(), name@, self.match_limit_spec(), self.ban_length_spec()),
                name@,
                |s: RuleStats| RuleStats { ban_length: length, ..s },
            ),
    {
        let mut s = self;
        let idx = s.rule_stats(name);
        let ghost s0 = s.stats_spec();
        let st = s.get_stats(idx);
        s.set_stats(idx, RuleStats { ban_length: length, ..st });
        proof {
            Self::lemma_update_at(s0, idx as int, |s: RuleStats| RuleStats { ban_length: length, ..s });
        }
        s
    }

    /// With distinct names, changing the entry of `name` in place is
    /// `update_rule`.
    proof fn lemma_update_at(
        s: Seq<(Seq<char>, RuleStats)>,
        idx: int,
        f: spec_fn(RuleStats) -> RuleStats,
    )
        requires
            0 <= idx < s.len(),
            forall|i: int, j: int| 0 <= i < j < s.len() ==> #[trigger] s[i].0 != #[trigger] s[j].0,
        ensures
            s.update(idx, (s[idx].0, f(s[idx].1))) == update_rule(s, s[idx].0, f),
    {
        let a = s.update(idx, (s[idx].0, f(s[idx].1)));
        let b = update_rule(s, s[idx].0, f);
        assert forall|j: int| 0 <= j < s.len() implies a[j] == b[j] by {
            if j != idx && s[j].0 == s[idx].0 {
                if j < idx {
                    assert(s[j].0 != s[idx].0);
                } else {
                    assert(s[idx].0 != s[j].0);
                }
            }
        }
        assert(a =~= b);
    }

    /// Searches with a rule's statistics. A banned rule (the iteration is
    /// before its ban ends) is not searched. Otherwise `search` runs with a
    /// limit one past the ban threshold; a result past the threshold bans the
    /// rule and is dropped, any other result is kept.
    pub fn search_with_stats<F: FnOnce(usize) -> Option<SearchMatches>>(
        iteration: usize,
        stats: &mut RuleStats,
        search: F,
    ) -> (r: Option<SearchMatches>)
        requires
            forall|l: usize| call_requires(search, (l,)),
            forall|l: usize, m: Option<SearchMatches>|
                call_ensures(search, (l,), m) ==> (m matches Some(x) ==> x.wf() && total_upto(
                    x.entries(),
                    x.entries().len(),
                ) <= usize::MAX),
            iteration >= old(stats).banned_until ==> old(stats).times_banned < usize::BITS,
            iteration >= old(stats).banned_until ==> old(stats).times_applied < usize::MAX,
            iteration >= old(stats).banned_until ==> iteration + ((old(stats).ban_length
                << old(stats).times_banned) as usize) <= usize::MAX,
        ensures
            iteration < old(stats).banned_until ==> r is None && *final(stats) == *old(stats),
            iteration >= old(stats).banned_until ==> exists|m: Option<SearchMatches>|
                call_ensures(search, (search_limit(*old(stats)),), m) && *final(stats)
                    == after_search(*old(stats), iteration, found_total(m)) && (if found_total(m)
                    > ban_threshold(*old(stats)) {
                    r is None
                } else {
                    r == m
                }),
    {
        if iteration < stats.banned_until {
            return None;
        }
        let threshold = stats.match_limit << stats.times_banned;
        let limit = if threshold == usize::MAX {
            usize::MAX
        } else {
            threshold + 1
        };
        let matches = search(limit);
        let ghost m = matches;
        let total_len: usize = match &matches {
            Some(x) => x.total_substs(),
            None => 0,
        };
        if total_len > threshold {
            let ban_length = stats.ban_length << stats.times_banned;
            stats.times_banned = stats.times_banned + 1;
            stats.banned_until = iteration + ban_length;
            proof {
                assert(*stats == after_search(*old(stats), iteration, found_total(m)));
            }
            None
        } else {
            stats.times_applied = stats.times_applied + 1;
            proof {
                assert(*stats == after_search(*old(stats), iteration, found_total(m)));
            }
            matches
        }
    }

    /// Whether the run may stop: true when no rule is banned past
    /// `iteration`. Otherwise every such ban is shortened by the same amount
    /// so that the earliest one ends at `iteration`, and the answer is false.
    pub fn can_stop(&mut self, iteration: usize) -> (r: bool)
        requires
            old(self).wf(),
        ensures
            final(self).wf(),
            final(self).match_limit_spec() == old(self).match_limit_spec(),
            final(self).ban_length_spec() == old(self).ban_length_spec(),
            r == (min_ban_upto(old(self).stats_spec(), iteration, old(self).stats_spec().len()) is None),
            r ==> final(self).stats_spec() == old(self).stats_spec(),
            !r ==> ({
                let delta = (min_ban_upto(
                    old(self).stats_spec(),
                    iteration,
                    old(self).stats_spec().len(),
                )->0 - iteration) as usize;
                final(self).stats_spec() == old(self).stats_spec().map_values(
                    |e: (Seq<char>, RuleStats)|
                        if e.1.banned_until > iteration {
                            (e.0, RuleStats { banned_until: (e.1.banned_until - delta) as usize, ..e.1 })
                        } else {
                            e
                        },
                )
            }),
    {
        let ghost s0 = self.stats_spec();
        let mut min_ban: Option<usize> = None;
        let mut i: usize = 0;
        while i < self.stats.len()
            invariant
                0 <= i <= self.stats@.len(),
                s0 == self.stats_spec(),
                min_ban == min_ban_upto(s0, iteration, i as nat),
                min_ban matches Some(x) ==> x > iteration,
            decreases self.stats@.len() - i,
        {
            let b = self.stats[i].1.banned_until;
            proof {
                assert(s0[i as int].1 == self.stats@[i as int].1);
            }
            if b > iteration {
                min_ban = match min_ban {
                    Some(x) => Some(if b < x { b } else { x }),
                    None => Some(b),
                };
            }
            i = i + 1;
        }
        match min_ban {
            None => true,
            Some(mb) => {
                let delta = mb - iteration;
                proof {
                    self.lemma_min_ban_below(iteration, s0.len());
                }
                let ghost target = s0.map_values(
                    |e: (Seq<char>, RuleStats)|
                        if e.1.banned_until > iteration {
                            (e.0, RuleStats { banned_until: (e.1.banned_until - delta) as usize, ..e.1 })
                        } else {
                            e
                        },
                );
                let mut j: usize = 0;
                while j < self.stats.len()
                    invariant
                        0 <= j <= self.stats@.len(),
                        self.stats@.len() == s0.len(),
                        self.wf(),
                        self.match_limit_spec() == old(self).match_limit_spec(),
                        self.ban_length_spec() == old(self).ban_length_spec(),
                        mb > iteration,
                        delta == mb - iteration,
                        target == s0.map_values(
                            |e: (Seq<char>, RuleStats)|
                                if e.1.banned_until > iteration {
                                    (e.0, RuleStats { banned_until: (e.1.banned_until - delta) as usize, ..e.1 })
                                } else {
                                    e
                                },
                        ),
                        forall|k: int| 0 <= k < s0.len() && s0[k].1.banned_until > iteration ==> #[trigger] s0[k].1.banned_until >= mb,
                        forall|k: int| 0 <= k < j ==> #[trigger] self.stats_spec()[k] == target[k],
                        forall|k: int| j <= k < s0.len() ==> #[trigger] self.stats_spec()[k] == s0[k],
                    decreases self.stats@.len() - j,
                {
                    let st = self.get_stats(j);
                    proof {
                        assert(st == s0[j as int].1);
                    }
                    if st.banned_until > iteration {
                        let ghost before = self.stats_spec();
                        self.set_stats(j, RuleStats { banned_until: st.banned_until - delta, ..st });
                        proof {
                            assert(self.stats@.len() == self.stats_spec().len());
                            assert forall|k: int| 0 <= k < j + 1 implies #[trigger] self.stats_spec()[k] == target[k] by {
                                if k < j {
                                    assert(self.stats_spec()[k] == before[k]);
                                }
                            }
                            assert forall|k: int| j + 1 <= k < s0.len() implies #[trigger] self.stats_spec()[k] == s0[k] by {
                                assert(self.stats_spec()[k] == before[k]);
                            }
                        }
                    }
                    j = j + 1;
                }
                proof {
                    assert(self.stats_spec() =~= target);
                }
                false
            },
        }
    }

    /// Every ban past `iteration` ends no earlier than the earliest one.
    proof fn lemma_min_ban_below(&self, iteration: usize, k: nat)
        requires
            k <= self.stats_spec().len(),
            min_ban_upto(self.stats_spec(), iteration, k) is Some,
        ensures
            forall|i: int|
                0 <= i < k && self.stats_spec()[i].1.banned_until > iteration ==> #[trigger] self.stats_spec()[i].1.banned_until
                    >= min_ban_upto(self.stats_spec(), iteration, k)->0,
            min_ban_upto(self.stats_spec(), iteration, k)->0 > iteration,
        decreases k,
    {
        if k > 0 && min_ban_upto(self.stats_spec(), iteration, (k - 1) as nat) is Some {
            self.lemma_min_ban_below(iteration, (k - 1) as nat);
        } else if k > 0 {
            self.lemma_min_ban_none(iteration, (k - 1) as nat);
        }
    }

    proof fn lemma_min_ban_none(&self, iteration: usize, k: nat)
        requires
            k <= self.stats_spec().len(),
            min_ban_upto(self.stats_spec(), iteration, k) is None,
        ensures
            forall|i: int| 0 <= i < k ==> #[trigger] self.stats_spec()[i].1.banned_until <= iteration,
        decreases k,
    {
        if k > 0 {
            self.lemma_min_ban_none(iteration, (k - 1) as nat);
        }
    }
}

impl BackoffScheduler {
    /// The statistics of the rule `name`, if it is known.
    pub fn stats_of(&self, name: &str) -> (r: Option<RuleStats>)
        requires
            self.wf(),
        ensures
            r matches Some(st) ==> exists|i: int|
                0 <= i < self.stats_spec().len() && self.stats_spec()[i] == (name@, st),
            r is None ==> forall|i: int|
                0 <= i < self.stats_spec().len() ==> #[trigger] self.stats_spec()[i].0 != name@,
    {
        let cs = str_chars(name);
        let key = crate::subst::string_from_chars(cs.as_slice());
        let mut i: usize = 0;
        while i < self.stats.len()
            invariant
                0 <= i <= self.stats@.len(),
                key@ == name@,
                forall|j: int| 0 <= j < i ==> #[trigger] self.stats_spec()[j].0 != name@,
            decreases self.stats@.len() - i,
        {
            proof {
                assert(self.stats_spec()[i as int] == (self.stats@[i as int].0@, self.stats@[i as int].1));
            }
            if self.stats[i].0 == key {
                return Some(self.stats[i].1);
            }
            i = i + 1;
        }
        None
    }

    /// Searches the rule `name` (registering it if it is new) with its
    /// statistics, as [`search_with_stats`](Self::search_with_stats) does.
    pub fn search_rewrite<F: FnOnce(usize) -> Option<SearchMatches>>(
        &mut self,
        iteration: usize,
        name: &str,
        search: F,
    ) -> (r: Option<SearchMatches>)
        requires
            old(self).wf(),
            forall|l: usize| call_requires(search, (l,)),
            forall|l: usize, m: Option<SearchMatches>|
                call_ensures(search, (l,), m) ==> (m matches Some(x) ==> x.wf() && total_upto(
                    x.entries(),
                    x.entries().len(),
                ) <= usize::MAX),
            forall|i: int|
                0 <= i < old(self).stats_spec().len() && old(self).stats_spec()[i].0 == name@
                    && iteration >= #[trigger] old(self).stats_spec()[i].1.banned_until ==> {
                    let st = old(self).stats_spec()[i].1;
                    &&& st.times_banned < usize::BITS
                    &&& st.times_applied < usize::MAX
                    &&& iteration + ((st.ban_length << st.times_banned) as usize) <= usize::MAX
                },
            old(self).ban_length_spec() as int <= usize::MAX - iteration,
        ensures
            final(self).wf(),
            final(self).match_limit_spec() == old(self).match_limit_spec(),
            final(self).ban_length_spec() == old(self).ban_length_spec(),
            ({
                let w = with_rule(
                    old(self).stats_spec(),
                    name@,
                    old(self).match_limit_spec(),
                    old(self).ban_length_spec(),
                );
                exists|i: int|
                    0 <= i < w.len() && w[i].0 == name@ && final(self).stats_spec().len() == w.len()
                        && (forall|j: int|
                        0 <= j < w.len() && j != i ==> #[trigger] final(self).stats_spec()[j]
                            == w[j]) && final(self).stats_spec()[i].0 == name@ && (if iteration
                        < w[i].1.banned_until {
                        r is None && final(self).stats_spec()[i].1 == w[i].1
                    } else {
                        exists|m: Option<SearchMatches>|
                            call_ensures(search, (search_limit(w[i].1),), m)
                                && final(self).stats_spec()[i].1 == after_search(
                                w[i].1,
                                iteration,
                                found_total(m),
                            ) && (if found_total(m) > ban_threshold(w[i].1) {
                                r is None
                            } else {
                                r == m
                            })
                    })
            }),
    {
        let idx = self.rule_stats(name);
        let ghost w = self.stats_spec();
        let mut st = self.get_stats(idx);
        proof {
            if exists|i: int| 0 <= i < old(self).stats_spec().len() && old(self).stats_spec()[i].0 == name@ {
                let i = choose|i: int| 0 <= i < old(self).stats_spec().len() && old(self).stats_spec()[i].0 == name@;
                if i != idx {
                    if i < idx {
                        assert(w[i].0 != w[idx as int].0);
                    } else {
                        assert(w[idx as int].0 != w[i].0);
                    }
                }
            } else {
                let b = st.ban_length;
                assert(st.times_banned == 0);
                assert((b << 0usize) == b) by (bit_vector);
            }
        }
        let r = Self::search_with_stats(iteration, &mut st, search);
        self.set_stats(idx, st);
        r
    }
}

impl Default for BackoffScheduler {
    fn default() -> (r: Self)
        ensures
            r.wf(),
            r.match_limit_spec() == 1000,
            r.ban_length_spec() == 5,
            r.stats_spec().len() == 0,
    {
        BackoffScheduler::new()
    }
}


/// A case split rule: where its searcher matches among the goal's classes,
/// the e-graph is copied once per applier and each applier is applied to
/// its copy.
pub struct Spliter {
    rule_name: String,
    searcher: MultiPattern,
    goal_ids: Vec<Id>,
    appliers: Vec<MultiPattern>,
}

impl Spliter {
    /// The rule's name.
    pub closed spec fn rule_name_spec(&self) -> Seq<char> {
        self.rule_name@
    }

    /// The multipattern that finds where to split.
    pub closed spec fn searcher_spec(&self) -> MultiPatternV {
        self.searcher@
    }

    /// The classes of the goal, the only ones matched on.
    pub closed spec fn goal_ids_spec(&self) -> Seq<Id> {
        self.goal_ids@
    }

    /// One multipattern per case.
    pub closed spec fn appliers_spec(&self) -> Seq<MultiPatternV> {
        self.appliers@.map_values(|m: MultiPattern| m@)
    }

    /// A split rule from its parts.
    pub fn new(rule_name: String, searcher: MultiPattern, goal_ids: Vec<Id>, appliers: Vec<MultiPattern>) -> (r: Self)
        ensures
            r.rule_name_spec() == rule_name@,
            r.searcher_spec() == searcher@,
            r.goal_ids_spec() == goal_ids@,
            r.appliers_spec() == appliers@.map_values(|m: MultiPattern| m@),
    {
        Spliter { rule_name, searcher, goal_ids, appliers }
    }
}


/// How often `n` occurs in `names`.
pub open spec fn name_count(names: Seq<Seq<char>>, n: Seq<char>) -> nat
    decreases names.len(),
{
    if names.len() == 0 {
        0
    } else {
        name_count(names.drop_last(), n) + if names.last() == n {
            1nat
        } else {
            0nat
        }
    }
}

/// The distinct names, in order of first occurrence.
pub open spec fn first_occurrences(names: Seq<Seq<char>>) -> Seq<Seq<char>>
    decreases names.len(),
{
    if names.len() == 0 {
        Seq::empty()
    } else {
        let d = first_occurrences(names.drop_last());
        if d.contains(names.last()) {
            d
        } else {
            d.push(names.last())
        }
    }
}

/// Those of `d` that occur more than once in `names`, each with its count.
pub open spec fn keep_repeated(d: Seq<Seq<char>>, names: Seq<Seq<char>>) -> Seq<(Seq<char>, nat)>
    decreases d.len(),
{
    if d.len() == 0 {
        Seq::empty()
    } else {
        let r = keep_repeated(d.drop_last(), names);
        if name_count(names, d.last()) > 1 {
            r.push((d.last(), name_count(names, d.last())))
        } else {
            r
        }
    }
}

/// The names that occur more than once, each with its count, in order of
/// first occurrence.
pub open spec fn repeated_names(names: Seq<Seq<char>>) -> Seq<(Seq<char>, nat)> {
    keep_repeated(first_occurrences(names), names)
}

/// The first occurrences hold exactly the names, each once.
pub proof fn lemma_first_occurrences(names: Seq<Seq<char>>)
    ensures
        first_occurrences(names).no_duplicates(),
        forall|n: Seq<char>| first_occurrences(names).contains(n) <==> names.contains(n),
    decreases names.len(),
{
    if names.len() > 0 {
        let s = names.drop_last();
        lemma_first_occurrences(s);
        assert forall|n: Seq<char>| names.contains(n) <==> (s.contains(n) || n == names.last()) by {
            if names.contains(n) {
                let i = choose|i: int| 0 <= i < names.len() && names[i] == n;
                if i < names.len() - 1 {
                    assert(s[i] == n);
                }
            }
            if s.contains(n) {
                let i = choose|i: int| 0 <= i < s.len() && s[i] == n;
                assert(names[i] == n);
            }
            if n == names.last() {
                assert(names[names.len() - 1] == n);
            }
        }
        let d = first_occurrences(s);
        if !d.contains(names.last()) {
            let e = d.push(names.last());
            assert forall|n: Seq<char>| e.contains(n) <==> (d.contains(n) || n == names.last()) by {
                if e.contains(n) {
                    let i = choose|i: int| 0 <= i < e.len() && e[i] == n;
                    if i < d.len() {
                        assert(d[i] == n);
                    }
                }
                if d.contains(n) {
                    let i = choose|i: int| 0 <= i < d.len() && d[i] == n;
                    assert(e[i] == n);
                }
                if n == names.last() {
                    assert(e[d.len() as int] == n);
                }
            }
            assert forall|i: int, j: int| 0 <= i < e.len() && 0 <= j < e.len() && i != j implies e[i] != e[j] by {
                if i < d.len() && j < d.len() {
                    assert(d[i] != d[j]);
                } else if i < d.len() {
                    assert(d.contains(e[i]));
                } else {
                    assert(d.contains(e[j]));
                }
            }
        }
    }
}

/// A name that does not occur has count zero.
proof fn lemma_count_absent(names: Seq<Seq<char>>, n: Seq<char>)
    requires
        !names.contains(n),
    ensures
        name_count(names, n) == 0,
    decreases names.len(),
{
    if names.len() > 0 {
        let s = names.drop_last();
        assert(!s.contains(n)) by {
            if s.contains(n) {
                let i = choose|i: int| 0 <= i < s.len() && s[i] == n;
                assert(names[i] == n);
            }
        }
        assert(names.last() != n) by {
            assert(names[names.len() - 1] == names.last());
        }
        lemma_count_absent(s, n);
    }
}

/// A count is at most the number of names.
proof fn lemma_count_bound(names: Seq<Seq<char>>, n: Seq<char>)
    ensures
        name_count(names, n) <= names.len(),
    decreases names.len(),
{
    if names.len() > 0 {
        lemma_count_bound(names.drop_last(), n);
    }
}

/// The views of named counts.
pub open spec fn counts_view(v: Seq<(String, usize)>) -> Seq<(Seq<char>, nat)> {
    v.map_values(|e: (String, usize)| (e.0@, e.1 as nat))
}

/// The rule names that occur more than once, each with its number of
/// occurrences, in order of first occurrence: what a runner warns about
/// before it starts, since repeated names confuse rule reporting and
/// scheduling.
pub fn check_rules(names: &[String]) -> (r: Vec<(String, usize)>)
    ensures
        counts_view(r@) == repeated_names(names@.map_values(|s: String| s@)),
{
    let ghost all = names@.map_values(|s: String| s@);
    let mut seen: Vec<(String, usize)> = Vec::new();
    let mut i: usize = 0;
    while i < names.len()
        invariant
            0 <= i <= names@.len(),
            all == names@.map_values(|s: String| s@),
            seen@.len() == first_occurrences(all.subrange(0, i as int)).len(),
            forall|j: int|
                0 <= j < seen@.len() ==> (#[trigger] seen@[j]).0@ == first_occurrences(all.subrange(0, i as int))[j]
                    && seen@[j].1 as nat == name_count(
                    all.subrange(0, i as int),
                    first_occurrences(all.subrange(0, i as int))[j],
                ),
        decreases names@.len() - i,
    {
        let ghost pre = all.subrange(0, i as int);
        let ghost now = all.subrange(0, i + 1);
        let ghost x = all[i as int];
        proof {
            assert(now.drop_last() =~= pre);
            assert(now.last() == x);
            lemma_first_occurrences(pre);
            lemma_count_bound(pre, x);
            assert(names@[i as int]@ == x);
        }
        let mut k: usize = 0;
        while k < seen.len() && !(seen[k].0 == names[i])
            invariant
                0 <= k <= seen@.len(),
                i < names@.len(),
                forall|j: int| 0 <= j < k ==> (#[trigger] seen@[j]).0@ != names@[i as int]@,
            decreases seen@.len() - k,
        {
            k = k + 1;
        }
        let found = k < seen.len();
        let ghost d = first_occurrences(pre);
        if found {
            let c = seen[k].1;
            proof {
                assert(d[k as int] == x);
                assert(d.contains(x));
                assert(first_occurrences(now) == d);
                assert(c < names@.len()) by {
                    lemma_count_bound(pre, x);
                }
            }
            let name = seen[k].0.clone();
            seen.set(k, (name, c + 1));
            proof {
                assert forall|j: int| 0 <= j < seen@.len() implies (#[trigger] seen@[j]).0@ == d[j]
                    && seen@[j].1 as nat == name_count(now, d[j]) by {
                    if j != k {
                        assert(d[j] != d[k as int]);
                    }
                }
            }
        } else {
            proof {
                assert(!d.contains(x)) by {
                    if d.contains(x) {
                        let j = choose|j: int| 0 <= j < d.len() && d[j] == x;
                        assert(seen@[j].0@ == d[j]);
                    }
                }
                assert(!pre.contains(x));
                lemma_count_absent(pre, x);
                assert(first_occurrences(now) == d.push(x));
            }
            let name = names[i].clone();
            seen.push((name, 1));
            proof {
                assert forall|j: int| 0 <= j < seen@.len() implies (#[trigger] seen@[j]).0@ == d.push(x)[j]
                    && seen@[j].1 as nat == name_count(now, d.push(x)[j]) by {
                    if j < d.len() {
                        assert(d[j] != x) by {
                            assert(d.contains(d[j]));
                        }
                    }
                }
            }
        }
        i = i + 1;
    }
    proof {
        assert(all.subrange(0, names@.len() as int) =~= all);
    }
    let ghost d = first_occurrences(all);
    let mut out: Vec<(String, usize)> = Vec::new();
    let mut j: usize = 0;
    while j < seen.len()
        invariant
            0 <= j <= seen@.len(),
            seen@.len() == d.len(),
            d == first_occurrences(all),
            forall|t: int|
                0 <= t < seen@.len() ==> (#[trigger] seen@[t]).0@ == d[t] && seen@[t].1 as nat == name_count(all, d[t]),
            counts_view(out@) == keep_repeated(d.subrange(0, j as int), all),
        decreases seen@.len() - j,
    {
        let ghost before = counts_view(out@);
        proof {
            assert(d.subrange(0, j + 1).drop_last() =~= d.subrange(0, j as int));
            assert(d.subrange(0, j + 1).last() == d[j as int]);
        }
        if seen[j].1 > 1 {
            let name = seen[j].0.clone();
            out.push((name, seen[j].1));
            proof {
                assert(counts_view(out@) =~= before.push((d[j as int], name_count(all, d[j as int]))));
            }
        }
        j = j + 1;
    }
    proof {
        assert(d.subrange(0, d.len() as int) =~= d);
    }
    out
}

} // verus!

verus! {

/// Why a run stopped.
#[derive(Debug)]
pub enum StopReason {
    /// An iteration learned nothing new: no rule applied, the scheduler
    /// allowed stopping, and the hooks changed the e-graph in no way.
    Saturated,
    /// The iteration limit was hit; the data is the number of iterations.
    IterationLimit(usize),
    /// The e-node limit was hit; the data is the e-graph's size.
    NodeLimit(usize),
    /// The time limit was hit; the data is the elapsed time in milliseconds.
    TimeLimit(u64),
    /// Some other reason, such as a failing hook.
    Other(String),
}

/// The first limit of a run that is exceeded, if any, in the order: the
/// time, the size of the e-graph, the number of iterations done.
pub open spec fn limit_stop(
    elapsed_ms: u64,
    time_limit_ms: u64,
    size: usize,
    node_limit: usize,
    iters: usize,
    iter_limit: usize,
) -> Option<StopReason> {
    if elapsed_ms > time_limit_ms {
        Some(StopReason::TimeLimit(elapsed_ms))
    } else if size > node_limit {
        Some(StopReason::NodeLimit(size))
    } else if iters >= iter_limit {
        Some(StopReason::IterationLimit(iters))
    } else {
        None
    }
}

/// The limits of a run, checked in this order: the time, the size of the
/// e-graph, and the number of iterations done.
pub fn check_limits(
    elapsed_ms: u64,
    time_limit_ms: u64,
    size: usize,
    node_limit: usize,
    iters: usize,
    iter_limit: usize,
) -> (r: Result<(), StopReason>)
    ensures
        r == (match limit_stop(elapsed_ms, time_limit_ms, size, node_limit, iters, iter_limit) {
            Some(reason) => Err(reason),
            None => Ok(()),
        }),
{
    if elapsed_ms > time_limit_ms {
        return Err(StopReason::TimeLimit(elapsed_ms));
    }
    if size > node_limit {
        return Err(StopReason::NodeLimit(size));
    }
    if iters >= iter_limit {
        return Err(StopReason::IterationLimit(iters));
    }
    Ok(())
}

/// The outcome of one completed iteration: saturated exactly when no rule
/// was applied, the scheduler allows stopping, and the hooks changed
/// neither the number of e-nodes nor the number of classes.
pub fn iteration_outcome(
    applied_rules: usize,
    scheduler_can_stop: bool,
    nodes_before_hooks: usize,
    nodes_after_hooks: usize,
    classes_before_hooks: usize,
    classes_after_hooks: usize,
) -> (r: Result<(), StopReason>)
    ensures
        r is Err ==> (r matches Err(StopReason::Saturated)),
        r is Err <==> applied_rules == 0 && scheduler_can_stop && nodes_before_hooks == nodes_after_hooks
            && classes_before_hooks == classes_after_hooks,
{
    let saturated = applied_rules == 0 && scheduler_can_stop && nodes_before_hooks == nodes_after_hooks
        && classes_before_hooks == classes_after_hooks;
    if saturated {
        Err(StopReason::Saturated)
    } else {
        Ok(())
    }
}

/// A point of an iteration at which the run loop asks whether to go on.
pub enum RunEvent {
    /// An iteration is about to start; `elapsed_ms` since the run started.
    Start { elapsed_ms: u64, size: usize },
    /// The hooks ran; `hook_error` is the first error a hook gave.
    HooksDone { hook_error: Option<String> },
    /// The rules were searched; `search_error` is the scheduler's refusal.
    Searched { search_error: Option<StopReason>, elapsed_ms: u64, size: usize },
    /// The matches were applied.
    Applied { elapsed_ms: u64, size: usize },
    /// The e-graph was rebuilt and the iteration recorded.
    Finished {
        applied_rules: usize,
        scheduler_can_stop: bool,
        nodes_before_hooks: usize,
        nodes_after_hooks: usize,
        classes_before_hooks: usize,
        classes_after_hooks: usize,
        elapsed_ms: u64,
        size: usize,
    },
}

/// What the run loop does next.
pub enum RunAction {
    /// Run the hooks.
    RunHooks,
    /// Search the rules.
    Search,
    /// Apply the matches.
    Apply,
    /// Rebuild and record the iteration.
    Rebuild,
    /// Start the next iteration.
    NextIteration,
    /// Stop for the given reason, recording a final iteration.
    Stop(StopReason),
}

/// The limits of a run and the number of iterations recorded so far.
pub struct RunState {
    pub iter_limit: usize,
    pub node_limit: usize,
    pub time_limit_ms: u64,
    pub iterations: usize,
}

/// What a run does next, given the limits and count of `state` and the
/// event that the run loop reports.
pub open spec fn run_decision(state: RunState, event: RunEvent) -> RunAction {
    match event {
        RunEvent::Start { elapsed_ms, size } => match limit_stop(
            elapsed_ms,
            state.time_limit_ms,
            size,
            state.node_limit,
            state.iterations,
            state.iter_limit,
        ) {
            Some(reason) => RunAction::Stop(reason),
            None => RunAction::RunHooks,
        },
        RunEvent::HooksDone { hook_error } => match hook_error {
            Some(e) => RunAction::Stop(StopReason::Other(e)),
            None => RunAction::Search,
        },
        RunEvent::Searched { search_error, elapsed_ms, size } => match limit_stop(
            elapsed_ms,
            state.time_limit_ms,
            size,
            state.node_limit,
            state.iterations,
            state.iter_limit,
        ) {
            Some(reason) => RunAction::Stop(reason),
            None => match search_error {
                Some(e) => RunAction::Stop(e),
                None => RunAction::Apply,
            },
        },
        RunEvent::Applied { elapsed_ms, size } => match limit_stop(
            elapsed_ms,
            state.time_limit_ms,
            size,
            state.node_limit,
            state.iterations,
            state.iter_limit,
        ) {
            Some(reason) => RunAction::Stop(reason),
            None => RunAction::Rebuild,
        },
        RunEvent::Finished {
            applied_rules,
            scheduler_can_stop,
            nodes_before_hooks,
            nodes_after_hooks,
            classes_before_hooks,
            classes_after_hooks,
            elapsed_ms,
            size,
        } => if applied_rules == 0 && scheduler_can_stop && nodes_before_hooks == nodes_after_hooks
            && classes_before_hooks == classes_after_hooks {
            RunAction::Stop(StopReason::Saturated)
        } else {
            match limit_stop(
                elapsed_ms,
                state.time_limit_ms,
                size,
                state.node_limit,
                (state.iterations + 1) as usize,
                state.iter_limit,
            ) {
                Some(reason) => RunAction::Stop(reason),
                None => RunAction::NextIteration,
            }
        },
}
}

/// The iterations counted after `event`: one more for a finished iteration.
pub open spec fn counted_after(state: RunState, event: RunEvent) -> int {
    state.iterations + (if event is Finished {
        1int
    } else {
        0int
    })
}

/// A run never counts more iterations than its limit: from a state under
/// the limit (or at the start of an iteration, where the limit is
/// checked), every step that lets the run go on leaves the count under the
/// limit. So a run records at most `iter_limit` finished iterations before
/// its final, stopping one.
pub proof fn law_iterations_bounded(state: RunState, event: RunEvent)
    requires
        event is Start || state.iterations < state.iter_limit,
    ensures
        !(run_decision(state, event) is Stop) ==> counted_after(state, event) < state.iter_limit,
{
}

/// A run at its iteration limit stops at the start of the next iteration,
/// unless the time or size limit stops it first.
pub proof fn law_limit_stops(state: RunState, elapsed_ms: u64, size: usize)
    requires
        state.iterations >= state.iter_limit,
    ensures
        run_decision(state, RunEvent::Start { elapsed_ms, size }) is Stop,
{
}

/// A finished iteration ends the run as saturated exactly when it learned
/// nothing: no rule applied, the scheduler allows stopping (no rule is
/// still banned), and the hooks changed neither the number of e-nodes nor
/// the number of classes. An iteration whose scheduler cannot stop yet
/// never ends the run as saturated.
pub proof fn law_saturation_needs_a_quiet_iteration(state: RunState, event: RunEvent)
    ensures
        event matches RunEvent::Finished {
            applied_rules,
            scheduler_can_stop,
            nodes_before_hooks,
            nodes_after_hooks,
            classes_before_hooks,
            classes_after_hooks,
            ..
        } ==> ((run_decision(state, event) matches RunAction::Stop(StopReason::Saturated)) <==> (applied_rules == 0
            && scheduler_can_stop && nodes_before_hooks == nodes_after_hooks && classes_before_hooks
            == classes_after_hooks)),
        (event matches RunEvent::Finished { scheduler_can_stop, .. } && !scheduler_can_stop) ==> !(run_decision(
            state,
            event,
        ) matches RunAction::Stop(StopReason::Saturated)),
{
}

/// The decisions of a run, one event at a time. The limits are checked
/// before an iteration starts, after the search and after the applying; a
/// failing hook or a refused search stops the run; a finished iteration is
/// counted, then stops the run if it saturated, and else the limits are
/// checked once more.
pub fn run_step(state: &mut RunState, event: RunEvent) -> (r: RunAction)
    requires
        old(state).iterations < usize::MAX,
    ensures
        final(state).iter_limit == old(state).iter_limit,
        final(state).node_limit == old(state).node_limit,
        final(state).time_limit_ms == old(state).time_limit_ms,
        final(state).iterations == counted_after(*old(state), event),
        r == run_decision(*old(state), event),
{
    match event {
        RunEvent::Start { elapsed_ms, size } => {
            match check_limits(elapsed_ms, state.time_limit_ms, size, state.node_limit, state.iterations, state.iter_limit) {
                Ok(()) => RunAction::RunHooks,
                Err(e) => RunAction::Stop(e),
            }
        },
        RunEvent::HooksDone { hook_error } => match hook_error {
            Some(e) => RunAction::Stop(StopReason::Other(e)),
            None => RunAction::Search,
        },
        RunEvent::Searched { search_error, elapsed_ms, size } => {
            match check_limits(elapsed_ms, state.time_limit_ms, size, state.node_limit, state.iterations, state.iter_limit) {
                Ok(()) => match search_error {
                    Some(e) => RunAction::Stop(e),
                    None => RunAction::Apply,
                },
                Err(e) => RunAction::Stop(e),
            }
        },
        RunEvent::Applied { elapsed_ms, size } => {
            match check_limits(elapsed_ms, state.time_limit_ms, size, state.node_limit, state.iterations, state.iter_limit) {
                Ok(()) => RunAction::Rebuild,
                Err(e) => RunAction::Stop(e),
            }
        },
        RunEvent::Finished {
            applied_rules,
            scheduler_can_stop,
            nodes_before_hooks,
            nodes_after_hooks,
            classes_before_hooks,
            classes_after_hooks,
            elapsed_ms,
            size,
        } => {
            state.iterations = state.iterations + 1;
            match iteration_outcome(
                applied_rules,
                scheduler_can_stop,
                nodes_before_hooks,
                nodes_after_hooks,
                classes_before_hooks,
                classes_after_hooks,
            ) {
                Err(e) => RunAction::Stop(e),
                Ok(()) => match check_limits(
                    elapsed_ms,
                    state.time_limit_ms,
                    size,
                    state.node_limit,
                    state.iterations,
                    state.iter_limit,
                ) {
                    Ok(()) => RunAction::NextIteration,
                    Err(e) => RunAction::Stop(e),
                },
            }
        },
    }
}

} // verus!

verus! {

/// Positions `a` and `b` of the class ids have one leader in each of the
/// first `t` case e-graphs (`finds[c][x]` is the leader of id `x` in case
/// `c`).
pub open spec fn same_upto(finds: Seq<Seq<Id>>, a: int, b: int, t: int) -> bool {
    forall|c: int| 0 <= c < t ==> #[trigger] finds[c][a] == finds[c][b]
}

/// The id at position `x` is kept by the refinement: with no case, every id
/// is; otherwise its group before the last case has another member.
pub open spec fn survives(finds: Seq<Seq<Id>>, n: int, x: int) -> bool {
    finds.len() == 0 || exists|y: int| 0 <= y < n && y != x && #[trigger] same_upto(finds, x, y, finds.len() - 1)
}

/// The ids among the first `k` that have the leaders of position `x` in
/// every case, in order.
pub open spec fn group_upto(ids: Seq<Id>, finds: Seq<Seq<Id>>, x: int, k: int) -> Seq<Id>
    decreases k,
{
    if k <= 0 {
        Seq::empty()
    } else if same_upto(finds, x, k - 1, finds.len() as int) {
        group_upto(ids, finds, x, k - 1).push(ids[k - 1])
    } else {
        group_upto(ids, finds, x, k - 1)
    }
}

/// The group of position `x`: the ids that are in its class in every case.
pub open spec fn group_of(ids: Seq<Id>, finds: Seq<Seq<Id>>, x: int) -> Seq<Id> {
    group_upto(ids, finds, x, ids.len() as int)
}

/// Whether positions `a` and `b` have one leader in each of the first `t`
/// cases.
fn same_leaders(finds: &[Vec<Id>], a: usize, b: usize, t: usize) -> (r: bool)
    requires
        t <= finds@.len(),
        forall|c: int| 0 <= c < finds@.len() ==> a < (#[trigger] finds@[c])@.len() && b < finds@[c]@.len(),
    ensures
        r == same_upto(finds_view(finds@), a as int, b as int, t as int),
{
    let mut c: usize = 0;
    while c < t
        invariant
            t <= finds@.len(),
            forall|d: int| 0 <= d < finds@.len() ==> a < (#[trigger] finds@[d])@.len() && b < finds@[d]@.len(),
            0 <= c <= t,
            same_upto(finds_view(finds@), a as int, b as int, c as int),
        decreases t - c,
    {
        if finds[c][a] != finds[c][b] {
            proof {
                assert(finds_view(finds@)[c as int][a as int] != finds_view(finds@)[c as int][b as int]);
            }
            return false;
        }
        proof {
            assert forall|d: int| 0 <= d < c + 1 implies #[trigger] finds_view(finds@)[d][a as int] == finds_view(
                finds@,
            )[d][b as int] by {
                if d < c {
                    assert(same_upto(finds_view(finds@), a as int, b as int, c as int));
                }
            }
        }
        c = c + 1;
    }
    true
}

/// The leaders in each case as values.
pub open spec fn finds_view(f: Seq<Vec<Id>>) -> Seq<Seq<Id>> {
    f.map_values(|v: Vec<Id>| v@)
}

/// The conclusions of a case split: the class ids of the e-graph grouped by their
/// leaders in every case e-graph, as a refinement that drops, after each
/// case, the groups left with one id. With no case, all the ids form one
/// group. `finds[c][x]` is the leader, in case `c`, of the id at position
/// `x`.
pub fn intersect_conclusions(class_ids: &[Id], finds: &[Vec<Id>]) -> (r: Vec<Vec<Id>>)
    requires
        class_ids@.no_duplicates(),
        forall|c: int| 0 <= c < finds@.len() ==> (#[trigger] finds@[c])@.len() == class_ids@.len(),
    ensures
        conclusions_ok(class_ids@, finds_view(finds@), r@),
{
    let n = class_ids.len();
    let t = finds.len();
    let ghost ids = class_ids@;
    let ghost fv = finds_view(finds@);
    let mut placed: Vec<bool> = Vec::new();
    let mut z: usize = 0;
    while z < n
        invariant
            0 <= z <= n,
            placed@.len() == z,
            forall|y: int| 0 <= y < z ==> !(#[trigger] placed@[y]),
        decreases n - z,
    {
        placed.push(false);
        z = z + 1;
    }
    let mut out: Vec<Vec<Id>> = Vec::new();
    let ghost mut reps: Seq<int> = Seq::empty();
    let mut x: usize = 0;
    while x < n
        invariant
            n == ids.len(),
            t == fv.len(),
            fv == finds_view(finds@),
            ids == class_ids@,
            ids.no_duplicates(),
            forall|c: int| 0 <= c < finds@.len() ==> (#[trigger] finds@[c])@.len() == n,
            0 <= x <= n,
            placed@.len() == n,
            reps.len() == out@.len(),
            forall|g: int|
                0 <= g < reps.len() ==> 0 <= #[trigger] reps[g] < x && survives(fv, n as int, reps[g]) && out@[g]@ == group_of(
                    ids,
                    fv,
                    reps[g],
                ),
            forall|g1: int, g2: int| 0 <= g1 < g2 < reps.len() ==> !same_upto(fv, #[trigger] reps[g1], #[trigger] reps[g2], t as int),
            forall|y: int|
                0 <= y < n ==> (#[trigger] placed@[y] <==> exists|g: int|
                    0 <= g < reps.len() && #[trigger] same_upto(fv, reps[g], y, t as int)),
            forall|y: int|
                0 <= y < x && #[trigger] survives(fv, n as int, y) ==> placed@[y],
        decreases n - x,
    {
        if !placed[x] {
            let keep = survives_at(finds, n, x);
            if keep {
                let ghost placed0 = placed@;
                let grp = gather_group(class_ids, finds, x, &mut placed);
                proof {
                    assert(same_upto(fv, x as int, x as int, t as int));
                    assert forall|g: int| 0 <= g < reps.len() implies !same_upto(fv, #[trigger] reps[g], x as int, t as int) by {
                        assert(!placed0[x as int]);
                    }
                }
                out.push(grp);
                proof {
                    let reps0 = reps;
                    reps = reps.push(x as int);
                    assert forall|g: int| 0 <= g < reps.len() implies 0 <= #[trigger] reps[g] < x + 1 && survives(
                        fv,
                        n as int,
                        reps[g],
                    ) && out@[g]@ == group_of(ids, fv, reps[g]) by {
                        if g < reps0.len() {
                            assert(reps[g] == reps0[g]);
                        }
                    }
                    assert forall|g1: int, g2: int| 0 <= g1 < g2 < reps.len() implies !same_upto(
                        fv,
                        #[trigger] reps[g1],
                        #[trigger] reps[g2],
                        t as int,
                    ) by {
                        if g2 < reps0.len() {
                            assert(reps[g1] == reps0[g1] && reps[g2] == reps0[g2]);
                        } else {
                            assert(reps[g1] == reps0[g1]);
                        }
                    }
                    assert forall|w: int| 0 <= w < n implies (#[trigger] placed@[w] <==> exists|g: int|
                        0 <= g < reps.len() && #[trigger] same_upto(fv, reps[g], w, t as int)) by {
                        if placed@[w] {
                            if placed0[w] {
                                let g = choose|g: int| 0 <= g < reps0.len() && #[trigger] same_upto(fv, reps0[g], w, t as int);
                                assert(reps[g] == reps0[g]);
                            } else {
                                assert(reps[reps0.len() as int] == x);
                            }
                        } else {
                            if exists|g: int| 0 <= g < reps.len() && #[trigger] same_upto(fv, reps[g], w, t as int) {
                                let g = choose|g: int| 0 <= g < reps.len() && #[trigger] same_upto(fv, reps[g], w, t as int);
                                if g < reps0.len() {
                                    assert(reps[g] == reps0[g]);
                                }
                            }
                        }
                    }
                }
            }
        }
        x = x + 1;
    }
    proof {
        lemma_conclusions(ids, fv, reps, out@, placed@);
    }
    out
}

/// Whether the id at position `x` is kept by the refinement.
fn survives_at(finds: &[Vec<Id>], n: usize, x: usize) -> (r: bool)
    requires
        x < n,
        forall|c: int| 0 <= c < finds@.len() ==> (#[trigger] finds@[c])@.len() == n,
    ensures
        r == survives(finds_view(finds@), n as int, x as int),
{
    let t = finds.len();
    let ghost fv = finds_view(finds@);
    if t == 0 {
        return true;
    }
    let mut keep = false;
    let mut y: usize = 0;
    while y < n
        invariant
            t > 0,
            t == fv.len(),
            fv == finds_view(finds@),
            x < n,
            forall|c: int| 0 <= c < finds@.len() ==> (#[trigger] finds@[c])@.len() == n,
            0 <= y <= n,
            keep <==> exists|w: int| 0 <= w < y && w != x && #[trigger] same_upto(fv, x as int, w, t - 1),
        decreases n - y,
    {
        if y != x && same_leaders(finds, x, y, t - 1) {
            keep = true;
        }
        y = y + 1;
    }
    keep
}

/// The group of position `x`, marking its members as placed.
fn gather_group(class_ids: &[Id], finds: &[Vec<Id>], x: usize, placed: &mut Vec<bool>) -> (grp: Vec<Id>)
    requires
        x < class_ids@.len(),
        old(placed)@.len() == class_ids@.len(),
        forall|c: int| 0 <= c < finds@.len() ==> (#[trigger] finds@[c])@.len() == class_ids@.len(),
    ensures
        grp@ == group_of(class_ids@, finds_view(finds@), x as int),
        final(placed)@.len() == class_ids@.len(),
        forall|w: int|
            0 <= w < class_ids@.len() ==> (#[trigger] final(placed)@[w] <==> old(placed)@[w] || same_upto(
                finds_view(finds@),
                x as int,
                w,
                finds@.len() as int,
            )),
{
    let n = class_ids.len();
    let t = finds.len();
    let ghost ids = class_ids@;
    let ghost fv = finds_view(finds@);
    let ghost placed0 = placed@;
    let mut grp: Vec<Id> = Vec::new();
    let mut y: usize = 0;
    while y < n
        invariant
            t == fv.len(),
            fv == finds_view(finds@),
            n == ids.len(),
            ids == class_ids@,
            x < n,
            forall|c: int| 0 <= c < finds@.len() ==> (#[trigger] finds@[c])@.len() == n,
            0 <= y <= n,
            grp@ == group_upto(ids, fv, x as int, y as int),
            placed@.len() == n,
            placed0.len() == n,
            forall|w: int|
                0 <= w < n ==> (#[trigger] placed@[w] <==> placed0[w] || (w < y && same_upto(fv, x as int, w, t as int))),
        decreases n - y,
    {
        if same_leaders(finds, x, y, t) {
            grp.push(class_ids[y]);
            placed.set(y, true);
        }
        y = y + 1;
    }
    grp
}

/// `v` is the group of a kept position.
pub open spec fn kept_group(ids: Seq<Id>, fv: Seq<Seq<Id>>, v: Seq<Id>) -> bool {
    exists|x: int| 0 <= x < ids.len() && #[trigger] survives(fv, ids.len() as int, x) && is_group(ids, fv, x, v)
}

/// `v` is the group of position `x`.
pub open spec fn is_group(ids: Seq<Id>, fv: Seq<Seq<Id>>, x: int, v: Seq<Id>) -> bool {
    v == group_of(ids, fv, x)
}

/// The conclusions `out` of a case split: every group is the group of a
/// kept position, every kept position's group is there, and no group is
/// there twice.
pub open spec fn conclusions_ok(ids: Seq<Id>, fv: Seq<Seq<Id>>, out: Seq<Vec<Id>>) -> bool {
    &&& forall|g: int| 0 <= g < out.len() ==> kept_group(ids, fv, (#[trigger] out[g])@)
    &&& forall|x: int|
        0 <= x < ids.len() && #[trigger] survives(fv, ids.len() as int, x) ==> exists|g: int|
            0 <= g < out.len() && is_group(ids, fv, x, (#[trigger] out[g])@)
    &&& forall|g1: int, g2: int| 0 <= g1 < g2 < out.len() ==> (#[trigger] out[g1])@ != (#[trigger] out[g2])@
}

/// What the refinement's loop leaves proves its result.
proof fn lemma_conclusions(ids: Seq<Id>, fv: Seq<Seq<Id>>, reps: Seq<int>, out: Seq<Vec<Id>>, placed: Seq<bool>)
    requires
        ids.no_duplicates(),
        placed.len() == ids.len(),
        reps.len() == out.len(),
        forall|g: int|
            0 <= g < reps.len() ==> 0 <= #[trigger] reps[g] < ids.len() && survives(fv, ids.len() as int, reps[g])
                && out[g]@ == group_of(ids, fv, reps[g]),
        forall|g1: int, g2: int| 0 <= g1 < g2 < reps.len() ==> !same_upto(fv, #[trigger] reps[g1], #[trigger] reps[g2], fv.len() as int),
        forall|y: int|
            0 <= y < ids.len() ==> (#[trigger] placed[y] <==> exists|g: int|
                0 <= g < reps.len() && #[trigger] same_upto(fv, reps[g], y, fv.len() as int)),
        forall|y: int| 0 <= y < ids.len() && #[trigger] survives(fv, ids.len() as int, y) ==> placed[y],
    ensures
        conclusions_ok(ids, fv, out),
{
    lemma_conclusions_sound(ids, fv, reps, out, placed);
    lemma_conclusions_complete(ids, fv, reps, out, placed);
    lemma_conclusions_distinct(ids, fv, reps, out, placed);
}

/// Each group found is the group of a kept representative.
proof fn lemma_conclusions_sound(ids: Seq<Id>, fv: Seq<Seq<Id>>, reps: Seq<int>, out: Seq<Vec<Id>>, placed: Seq<bool>)
    requires
        ids.no_duplicates(),
        placed.len() == ids.len(),
        reps.len() == out.len(),
        forall|g: int|
            0 <= g < reps.len() ==> 0 <= #[trigger] reps[g] < ids.len() && survives(fv, ids.len() as int, reps[g])
                && out[g]@ == group_of(ids, fv, reps[g]),
        forall|g1: int, g2: int| 0 <= g1 < g2 < reps.len() ==> !same_upto(fv, #[trigger] reps[g1], #[trigger] reps[g2], fv.len() as int),
        forall|y: int|
            0 <= y < ids.len() ==> (#[trigger] placed[y] <==> exists|g: int|
                0 <= g < reps.len() && #[trigger] same_upto(fv, reps[g], y, fv.len() as int)),
        forall|y: int| 0 <= y < ids.len() && #[trigger] survives(fv, ids.len() as int, y) ==> placed[y],
    ensures
        forall|g: int| 0 <= g < out.len() ==> kept_group(ids, fv, (#[trigger] out[g])@),
{
    assert forall|g: int| 0 <= g < out.len() implies kept_group(ids, fv, (#[trigger] out[g])@) by {
        let x0 = reps[g];
        assert(survives(fv, ids.len() as int, x0) && is_group(ids, fv, x0, out[g]@));
    }
}

/// Each kept position was placed in the group of a representative of its
/// class, which is its own group.
proof fn lemma_conclusions_complete(ids: Seq<Id>, fv: Seq<Seq<Id>>, reps: Seq<int>, out: Seq<Vec<Id>>, placed: Seq<bool>)
    requires
        ids.no_duplicates(),
        placed.len() == ids.len(),
        reps.len() == out.len(),
        forall|g: int|
            0 <= g < reps.len() ==> 0 <= #[trigger] reps[g] < ids.len() && survives(fv, ids.len() as int, reps[g])
                && out[g]@ == group_of(ids, fv, reps[g]),
        forall|g1: int, g2: int| 0 <= g1 < g2 < reps.len() ==> !same_upto(fv, #[trigger] reps[g1], #[trigger] reps[g2], fv.len() as int),
        forall|y: int|
            0 <= y < ids.len() ==> (#[trigger] placed[y] <==> exists|g: int|
                0 <= g < reps.len() && #[trigger] same_upto(fv, reps[g], y, fv.len() as int)),
        forall|y: int| 0 <= y < ids.len() && #[trigger] survives(fv, ids.len() as int, y) ==> placed[y],
    ensures
        forall|x: int|
            0 <= x < ids.len() && #[trigger] survives(fv, ids.len() as int, x) ==> exists|g: int|
                0 <= g < out.len() && is_group(ids, fv, x, (#[trigger] out[g])@),
{
    assert forall|x0: int| 0 <= x0 < ids.len() && #[trigger] survives(fv, ids.len() as int, x0) implies exists|g: int|
        0 <= g < out.len() && is_group(ids, fv, x0, (#[trigger] out[g])@) by {
        assert(placed[x0]);
        let g = choose|g: int| 0 <= g < reps.len() && #[trigger] same_upto(fv, reps[g], x0, fv.len() as int);
        lemma_same_group(ids, fv, reps[g], x0, ids.len() as int);
        assert(is_group(ids, fv, x0, out[g]@));
    }
}

/// Representatives of different classes have different groups: each
/// group holds its representative's id, which no other group holds.
proof fn lemma_conclusions_distinct(ids: Seq<Id>, fv: Seq<Seq<Id>>, reps: Seq<int>, out: Seq<Vec<Id>>, placed: Seq<bool>)
    requires
        ids.no_duplicates(),
        placed.len() == ids.len(),
        reps.len() == out.len(),
        forall|g: int|
            0 <= g < reps.len() ==> 0 <= #[trigger] reps[g] < ids.len() && survives(fv, ids.len() as int, reps[g])
                && out[g]@ == group_of(ids, fv, reps[g]),
        forall|g1: int, g2: int| 0 <= g1 < g2 < reps.len() ==> !same_upto(fv, #[trigger] reps[g1], #[trigger] reps[g2], fv.len() as int),
        forall|y: int|
            0 <= y < ids.len() ==> (#[trigger] placed[y] <==> exists|g: int|
                0 <= g < reps.len() && #[trigger] same_upto(fv, reps[g], y, fv.len() as int)),
        forall|y: int| 0 <= y < ids.len() && #[trigger] survives(fv, ids.len() as int, y) ==> placed[y],
    ensures
        forall|g1: int, g2: int| 0 <= g1 < g2 < out.len() ==> (#[trigger] out[g1])@ != (#[trigger] out[g2])@,
{
    let n = ids.len() as int;
    let t = fv.len() as int;
    assert forall|g1: int, g2: int| 0 <= g1 < g2 < out.len() implies (#[trigger] out[g1])@ != (#[trigger] out[g2])@ by {
        let a = reps[g1];
        let b = reps[g2];
        lemma_group_has(ids, fv, b, b, n);
        if group_of(ids, fv, a) == group_of(ids, fv, b) {
            let q = choose|q: int| #[trigger] holds_at(group_of(ids, fv, b), q, ids[b]);
            lemma_group_only(ids, fv, a, n, q);
            let y = choose|y: int| 0 <= y < n && #[trigger] same_upto(fv, a, y, t) && group_of(ids, fv, a)[q] == ids[y];
            assert(y == b);
        }
    }
}

/// `g` holds `v` at `q`.
pub open spec fn holds_at(g: Seq<Id>, q: int, v: Id) -> bool {
    0 <= q < g.len() && g[q] == v
}

/// Positions with one leader in every case have one group.
proof fn lemma_same_group(ids: Seq<Id>, fv: Seq<Seq<Id>>, a: int, b: int, k: int)
    requires
        same_upto(fv, a, b, fv.len() as int),
    ensures
        group_upto(ids, fv, a, k) == group_upto(ids, fv, b, k),
    decreases k,
{
    if k > 0 {
        lemma_same_group(ids, fv, a, b, k - 1);
        assert(same_upto(fv, a, k - 1, fv.len() as int) == same_upto(fv, b, k - 1, fv.len() as int)) by {
            if same_upto(fv, a, k - 1, fv.len() as int) {
                assert forall|c: int| 0 <= c < fv.len() implies #[trigger] fv[c][b] == fv[c][k - 1] by {
                    assert(fv[c][a] == fv[c][b]);
                }
            }
            if same_upto(fv, b, k - 1, fv.len() as int) {
                assert forall|c: int| 0 <= c < fv.len() implies #[trigger] fv[c][a] == fv[c][k - 1] by {
                    assert(fv[c][a] == fv[c][b]);
                }
            }
        }
    }
}

/// A position in the class of `a` puts its id in the group of `a`.
proof fn lemma_group_has(ids: Seq<Id>, fv: Seq<Seq<Id>>, a: int, y: int, k: int)
    requires
        0 <= y < k,
        same_upto(fv, a, y, fv.len() as int),
    ensures
        exists|q: int| #[trigger] holds_at(group_upto(ids, fv, a, k), q, ids[y]),
    decreases k,
{
    if y < k - 1 {
        lemma_group_has(ids, fv, a, y, k - 1);
        let q = choose|q: int| #[trigger] holds_at(group_upto(ids, fv, a, k - 1), q, ids[y]);
        if same_upto(fv, a, k - 1, fv.len() as int) {
            assert(group_upto(ids, fv, a, k)[q] == group_upto(ids, fv, a, k - 1)[q]);
        }
        assert(holds_at(group_upto(ids, fv, a, k), q, ids[y]));
    } else {
        let g = group_upto(ids, fv, a, k);
        assert(g[g.len() - 1] == ids[y]);
        assert(holds_at(g, g.len() - 1, ids[y]));
    }
}

/// Every id in the group of `a` is at a position in its class.
proof fn lemma_group_only(ids: Seq<Id>, fv: Seq<Seq<Id>>, a: int, k: int, q: int)
    requires
        0 <= q < group_upto(ids, fv, a, k).len(),
    ensures
        exists|y: int| 0 <= y < k && #[trigger] same_upto(fv, a, y, fv.len() as int) && group_upto(ids, fv, a, k)[q] == ids[y],
    decreases k,
{
    if k > 0 {
        let prev = group_upto(ids, fv, a, k - 1);
        if same_upto(fv, a, k - 1, fv.len() as int) {
            if q < prev.len() {
                lemma_group_only(ids, fv, a, k - 1, q);
                assert(group_upto(ids, fv, a, k)[q] == prev[q]);
            } else {
                assert(group_upto(ids, fv, a, k)[q] == ids[k - 1]);
            }
        } else {
            lemma_group_only(ids, fv, a, k - 1, q);
        }
    }
}

} // verus!

verus! {

/// The e-graphs searched in one iteration of a case-splitting scheduler, in
/// order: from the iteration `when` on, every case of every split (by the
/// split's position and the case's), then the e-graph itself (`None`).
pub open spec fn search_plan(when: usize, iteration: usize, case_counts: Seq<usize>) -> Seq<Option<(usize, usize)>> {
    if when <= iteration {
        case_targets(case_counts, case_counts.len() as int).push(None)
    } else {
        seq![None]
    }
}

/// The cases of the first `k` splits, split by split.
pub open spec fn case_targets(case_counts: Seq<usize>, k: int) -> Seq<Option<(usize, usize)>>
    decreases k,
{
    if k <= 0 {
        Seq::empty()
    } else {
        case_targets(case_counts, k - 1) + Seq::new(
            case_counts[k - 1] as nat,
            |i: int| Some(((k - 1) as usize, i as usize)),
        )
    }
}

/// What a case-splitting scheduler does in an iteration: whether it splits
/// into cases now (at the iteration `when`), and which e-graphs it searches,
/// given how many cases each split has.
pub fn plan_search(when: usize, iteration: usize, case_counts: &[usize]) -> (r: (bool, Vec<Option<(usize, usize)>>))
    ensures
        r.0 == (when == iteration),
        r.1@ == search_plan(when, iteration, case_counts@),
{
    let mut targets: Vec<Option<(usize, usize)>> = Vec::new();
    if when <= iteration {
        let mut k: usize = 0;
        while k < case_counts.len()
            invariant
                0 <= k <= case_counts@.len(),
                targets@ == case_targets(case_counts@, k as int),
            decreases case_counts@.len() - k,
        {
            let ghost before = targets@;
            let count = case_counts[k];
            let mut i: usize = 0;
            while i < count
                invariant
                    0 <= i <= count,
                    k < case_counts@.len(),
                    count == case_counts@[k as int],
                    targets@ == before + Seq::new(i as nat, |j: int| Some((k, j as usize))),
                decreases count - i,
            {
                targets.push(Some((k, i)));
                proof {
                    assert(targets@ =~= before + Seq::new((i + 1) as nat, |j: int| Some((k, j as usize))));
                }
                i = i + 1;
            }
            proof {
                assert(case_targets(case_counts@, k + 1) =~= before + Seq::new(
                    case_counts@[k as int] as nat,
                    |j: int| Some((k, j as usize)),
                ));
            }
            k = k + 1;
        }
        proof {
            assert(case_counts@.len() as int == k as int);
        }
    }
    targets.push(None);
    (when == iteration, targets)
}

} // verus!
