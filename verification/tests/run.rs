use easter_egg::run::{check_rules, BackoffScheduler, RuleStats, SearchMetadata};
use easter_egg::run::{check_limits, intersect_conclusions, iteration_outcome, plan_search, run_step, RunAction, RunEvent, RunState, StopReason};
use easter_egg::search_matches::SearchMatches;
use easter_egg::subst::{Subst, Var};
use easter_egg::Id;

fn subst_with(id: u32) -> Subst {
    let mut s = Subst::with_capacity(1);
    s.insert(Var::from_str("?x").unwrap(), Id(id));
    s
}

fn matches_of(class: u32, n: u32) -> SearchMatches {
    let mut m = SearchMatches::new();
    m.add_class(Id(class), (0..n).map(subst_with).collect());
    m
}

fn fresh(match_limit: usize, ban_length: usize) -> RuleStats {
    RuleStats { times_applied: 0, banned_until: 0, times_banned: 0, match_limit, ban_length }
}

#[test]
fn search_metadata_text() {
    let m = SearchMetadata::new(3, 17);
    assert_eq!(m.to_string(), "3 matches 17 binds");
    assert_eq!(m.matches(), 3);
    assert_eq!(m.binds(), 17);
}

#[test]
fn backoff_keeps_small_results() {
    let mut stats = fresh(2, 5);
    let mut asked = 0;
    let r = BackoffScheduler::search_with_stats(0, &mut stats, |limit| {
        asked = limit;
        Some(matches_of(1, 2))
    });
    assert_eq!(asked, 3);
    assert!(r.is_some());
    assert_eq!(stats.times_applied, 1);
    assert_eq!(stats.times_banned, 0);
}

#[test]
fn backoff_bans_and_doubles() {
    let mut stats = fresh(2, 5);
    let r = BackoffScheduler::search_with_stats(4, &mut stats, |_| Some(matches_of(1, 3)));
    assert!(r.is_none());
    assert_eq!(stats.times_banned, 1);
    assert_eq!(stats.banned_until, 9);
    // banned: not searched at all
    let mut called = false;
    let r = BackoffScheduler::search_with_stats(8, &mut stats, |_| {
        called = true;
        None
    });
    assert!(r.is_none());
    assert!(!called);
    // after the ban the threshold has doubled to 4 and the ban length to 10
    let mut asked = 0;
    let r = BackoffScheduler::search_with_stats(9, &mut stats, |limit| {
        asked = limit;
        Some(matches_of(2, 5))
    });
    assert_eq!(asked, 5);
    assert!(r.is_none());
    assert_eq!(stats.times_banned, 2);
    assert_eq!(stats.banned_until, 19);
}

#[test]
fn builders_set_rule_stats() {
    let mut s = BackoffScheduler::default();
    assert!(s.can_stop(0));
    let s = s.rule_ban_length("a", 3).rule_match_limit("b", 0).do_not_ban("c");
    assert_eq!(s.stats_of("a").unwrap().ban_length, 3);
    assert_eq!(s.stats_of("a").unwrap().match_limit, 1000);
    assert_eq!(s.stats_of("b").unwrap().match_limit, 0);
    assert_eq!(s.stats_of("b").unwrap().ban_length, 5);
    assert_eq!(s.stats_of("c").unwrap().match_limit, usize::MAX);
    assert!(s.stats_of("zzz").is_none());
    let s2 = BackoffScheduler::new().with_initial_match_limit(7).with_ban_length(2).rule_ban_length("d", 1);
    assert_eq!(s2.stats_of("d").unwrap().match_limit, 7);
}

#[test]
fn can_stop_fast_forwards_bans() {
    let mut s = BackoffScheduler::default().with_initial_match_limit(0).with_ban_length(4);
    // two rules get banned: "a" at iteration 2 until 6, "b" at 3 until 7
    assert!(s.search_rewrite(2, "a", |_| Some(matches_of(1, 1))).is_none());
    assert!(s.search_rewrite(3, "b", |_| Some(matches_of(1, 1))).is_none());
    assert_eq!(s.stats_of("a").unwrap().banned_until, 6);
    assert_eq!(s.stats_of("b").unwrap().banned_until, 7);
    // at iteration 4 both are banned: fast-forward by 2 so "a" ends now
    assert!(!s.can_stop(4));
    assert_eq!(s.stats_of("a").unwrap().banned_until, 4);
    assert_eq!(s.stats_of("b").unwrap().banned_until, 5);
    // now only "b" is banned past 4: it is fast-forwarded to end at 4
    assert!(!s.can_stop(4));
    assert_eq!(s.stats_of("b").unwrap().banned_until, 4);
    assert_eq!(s.stats_of("a").unwrap().banned_until, 4);
    assert!(s.can_stop(4));
}

#[test]
fn search_matches_merge_unions_classes() {
    let a = matches_of(3, 2);
    let mut b = matches_of(1, 1);
    b.add_class(Id(3), vec![subst_with(1), subst_with(5)]);
    let m = a.merge(b);
    assert_eq!(m.len(), 2);
    assert_eq!(m.total_substs(), 4);
    let all = SearchMatches::merge_matches(vec![matches_of(1, 1), matches_of(2, 2), matches_of(1, 2)]).unwrap();
    assert_eq!(all.len(), 2);
    assert_eq!(all.total_substs(), 4);
    assert!(SearchMatches::merge_matches(vec![]).is_none());
}

#[test]
fn search_matches_lists_classes_in_order() {
    let x = Var::from_str("?x").unwrap();
    let mut m = matches_of(7, 1);
    m.add_class(Id(2), vec![subst_with(4), subst_with(6)]);
    let first = m.first().unwrap();
    assert_eq!(first.eclass, Id(2));
    assert_eq!(first.substs.len(), 2);
    let classes: Vec<Id> = m.iter().iter().map(|e| e.eclass).collect();
    assert_eq!(classes, vec![Id(2), Id(7)]);
    let bound: Vec<Id> = m.substs().iter().map(|s| *s.get(&x).unwrap()).collect();
    assert_eq!(bound, vec![Id(4), Id(6), Id(0)]);
    assert!(SearchMatches::new().first().is_none());
    assert!(SearchMatches::new().substs().is_empty());
}

#[test]
fn search_matches_text_lists_classes_and_substs() {
    let mut m = matches_of(7, 1);
    m.add_class(Id(2), vec![subst_with(4), subst_with(6)]);
    assert_eq!(
        m.to_string(),
        "SearchMatches(class 2: {?x: 4 color: None}, {?x: 6 color: None}, class 7: {?x: 0 color: None})"
    );
    assert_eq!(SearchMatches::new().to_string(), "SearchMatches()");
}

#[test]
fn check_rules_reports_repeated_names_in_first_order() {
    let names: Vec<String> = ["b", "a", "b", "c", "a", "b"].iter().map(|s| s.to_string()).collect();
    assert_eq!(check_rules(&names), vec![("b".to_string(), 3), ("a".to_string(), 2)]);
    let distinct: Vec<String> = ["x", "y"].iter().map(|s| s.to_string()).collect();
    assert!(check_rules(&distinct).is_empty());
    assert!(check_rules(&[]).is_empty());
}

#[test]
fn check_limits_order_and_values() {
    assert!(matches!(check_limits(10, 5, 100, 1, 9, 1), Err(StopReason::TimeLimit(10))));
    assert!(matches!(check_limits(5, 5, 100, 1, 9, 1), Err(StopReason::NodeLimit(100))));
    assert!(matches!(check_limits(5, 5, 1, 1, 9, 9), Err(StopReason::IterationLimit(9))));
    assert!(matches!(check_limits(5, 5, 1, 1, 3, 9), Ok(())));
}

#[test]
fn iteration_saturates_only_when_nothing_changed() {
    assert!(matches!(iteration_outcome(0, true, 4, 4, 2, 2), Err(StopReason::Saturated)));
    assert!(iteration_outcome(1, true, 4, 4, 2, 2).is_ok());
    assert!(iteration_outcome(0, false, 4, 4, 2, 2).is_ok());
    assert!(iteration_outcome(0, true, 4, 5, 2, 2).is_ok());
    assert!(iteration_outcome(0, true, 4, 4, 2, 3).is_ok());
}

#[test]
fn run_step_walks_an_iteration() {
    let mut st = RunState { iter_limit: 2, node_limit: 100, time_limit_ms: 1000, iterations: 0 };
    assert!(matches!(run_step(&mut st, RunEvent::Start { elapsed_ms: 0, size: 3 }), RunAction::RunHooks));
    assert!(matches!(run_step(&mut st, RunEvent::HooksDone { hook_error: None }), RunAction::Search));
    assert!(matches!(
        run_step(&mut st, RunEvent::Searched { search_error: None, elapsed_ms: 1, size: 3 }),
        RunAction::Apply
    ));
    assert!(matches!(run_step(&mut st, RunEvent::Applied { elapsed_ms: 2, size: 5 }), RunAction::Rebuild));
    let fin = RunEvent::Finished {
        applied_rules: 1,
        scheduler_can_stop: true,
        nodes_before_hooks: 3,
        nodes_after_hooks: 3,
        classes_before_hooks: 3,
        classes_after_hooks: 3,
        elapsed_ms: 3,
        size: 5,
    };
    assert!(matches!(run_step(&mut st, fin), RunAction::NextIteration));
    assert_eq!(st.iterations, 1);
    let fin2 = RunEvent::Finished {
        applied_rules: 1,
        scheduler_can_stop: true,
        nodes_before_hooks: 5,
        nodes_after_hooks: 5,
        classes_before_hooks: 3,
        classes_after_hooks: 3,
        elapsed_ms: 4,
        size: 6,
    };
    assert!(matches!(run_step(&mut st, fin2), RunAction::Stop(StopReason::IterationLimit(2))));
    let fin3 = RunEvent::Finished {
        applied_rules: 0,
        scheduler_can_stop: true,
        nodes_before_hooks: 5,
        nodes_after_hooks: 5,
        classes_before_hooks: 3,
        classes_after_hooks: 3,
        elapsed_ms: 4,
        size: 6,
    };
    assert!(matches!(run_step(&mut st, fin3), RunAction::Stop(StopReason::Saturated)));
    match run_step(&mut st, RunEvent::HooksDone { hook_error: Some("bad".to_string()) }) {
        RunAction::Stop(StopReason::Other(m)) => assert_eq!(m, "bad"),
        _ => panic!("a failing hook stops the run"),
    }
}

/// Drives `run_step` as a run loop does with no rules and no hooks, and
/// returns the stop reason and the number of iterations a run records (one
/// per finished iteration, and a final one).
fn drive_empty_run(iter_limit: usize) -> (StopReason, usize) {
    let mut st = RunState { iter_limit, node_limit: 10_000, time_limit_ms: 5_000, iterations: 0 };
    let mut recorded = 0;
    loop {
        let mut event = RunEvent::Start { elapsed_ms: 0, size: 0 };
        loop {
            match run_step(&mut st, event) {
                RunAction::RunHooks => event = RunEvent::HooksDone { hook_error: None },
                RunAction::Search => event = RunEvent::Searched { search_error: None, elapsed_ms: 0, size: 0 },
                RunAction::Apply => event = RunEvent::Applied { elapsed_ms: 0, size: 0 },
                RunAction::Rebuild => {
                    recorded += 1;
                    event = RunEvent::Finished {
                        applied_rules: 0,
                        scheduler_can_stop: true,
                        nodes_before_hooks: 0,
                        nodes_after_hooks: 0,
                        classes_before_hooks: 0,
                        classes_after_hooks: 0,
                        elapsed_ms: 0,
                        size: 0,
                    };
                }
                RunAction::NextIteration => break,
                RunAction::Stop(reason) => return (reason, recorded + 1),
            }
        }
    }
}

#[test]
fn run_step_stops_an_empty_run() {
    let (reason, iterations) = drive_empty_run(30);
    assert!(matches!(reason, StopReason::Saturated));
    assert_eq!(iterations, 2);
    let (reason, iterations) = drive_empty_run(0);
    assert!(matches!(reason, StopReason::IterationLimit(0)));
    assert_eq!(iterations, 1);
}

#[test]
fn run_step_never_counts_past_the_limit() {
    let mut st = RunState { iter_limit: 2, node_limit: 10_000, time_limit_ms: 5_000, iterations: 0 };
    let fin = |applied: usize| RunEvent::Finished {
        applied_rules: applied,
        scheduler_can_stop: true,
        nodes_before_hooks: 1,
        nodes_after_hooks: 1,
        classes_before_hooks: 1,
        classes_after_hooks: 1,
        elapsed_ms: 0,
        size: 1,
    };
    assert!(matches!(run_step(&mut st, fin(1)), RunAction::NextIteration));
    assert_eq!(st.iterations, 1);
    assert!(matches!(run_step(&mut st, fin(1)), RunAction::Stop(StopReason::IterationLimit(2))));
    assert_eq!(st.iterations, 2);
    assert!(matches!(
        run_step(&mut st, RunEvent::Start { elapsed_ms: 0, size: 1 }),
        RunAction::Stop(StopReason::IterationLimit(2))
    ));
}

#[test]
fn intersect_conclusions_refines_by_every_case() {
    let ids: Vec<Id> = vec![Id(1), Id(2), Id(3), Id(4)];
    let none: Vec<Vec<Id>> = vec![];
    assert_eq!(intersect_conclusions(&ids, &none), vec![ids.clone()]);
    let one = vec![vec![Id(1), Id(1), Id(3), Id(3)]];
    assert_eq!(intersect_conclusions(&ids, &one), vec![vec![Id(1), Id(2)], vec![Id(3), Id(4)]]);
    let two = vec![vec![Id(1), Id(1), Id(1), Id(4)], vec![Id(1), Id(1), Id(3), Id(4)]];
    assert_eq!(intersect_conclusions(&ids, &two), vec![vec![Id(1), Id(2)], vec![Id(3)]]);
    let apart = vec![vec![Id(1), Id(2), Id(3), Id(4)], vec![Id(1), Id(1), Id(1), Id(1)]];
    assert!(intersect_conclusions(&ids, &apart).is_empty());
}

#[test]
fn plan_search_adds_cases_from_the_split_on() {
    let (split, targets) = plan_search(3, 2, &[2, 1]);
    assert!(!split);
    assert_eq!(targets, vec![None]);
    let (split, targets) = plan_search(3, 3, &[2, 1]);
    assert!(split);
    assert_eq!(targets, vec![Some((0, 0)), Some((0, 1)), Some((1, 0)), None]);
    let (split, targets) = plan_search(3, 5, &[0, 2]);
    assert!(!split);
    assert_eq!(targets, vec![Some((1, 0)), Some((1, 1)), None]);
}
