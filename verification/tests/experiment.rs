use oasis_simulation::config::RecSysKind;
use oasis_simulation::experiment::{
    ablation_check, parse_agent_counts, parse_recsys_list, parse_usize, position_of, repro_plan,
    representative_cell, AblationCheck,
};

#[test]
fn usize_parses_like_std() {
    assert_eq!(parse_usize("200"), Some(200));
    assert_eq!(parse_usize("+7"), Some(7));
    assert_eq!(parse_usize("0"), Some(0));
    assert_eq!(parse_usize(""), None);
    assert_eq!(parse_usize("+"), None);
    assert_eq!(parse_usize("-1"), None);
    assert_eq!(parse_usize("1 0"), None);
    assert_eq!(parse_usize("12a"), None);
    assert_eq!(parse_usize("99999999999999999999999"), None);
    for s in ["200", "+7", "", "+", "-1", "12a", "18446744073709551616", "18446744073709551615"] {
        assert_eq!(parse_usize(s), s.parse::<usize>().ok(), "{s}");
    }
}

#[test]
fn agent_count_lists() {
    assert_eq!(parse_agent_counts("200,1000"), Ok(vec![200, 1000]));
    assert_eq!(parse_agent_counts(" 80 , ,+5,"), Ok(vec![80, 5]));
    assert_eq!(parse_agent_counts(""), Ok(vec![]));
    assert_eq!(
        parse_agent_counts("200, lots, x"),
        Err("不正なエージェント数: lots".to_string())
    );
}

#[test]
fn recommender_lists() {
    assert_eq!(
        parse_recsys_list("interest,hot-score,none"),
        Ok(vec![RecSysKind::Interest, RecSysKind::HotScore, RecSysKind::Off])
    );
    assert_eq!(
        parse_recsys_list("none, bogus, other"),
        Err("不正な推薦器種別: \"bogus\" (interest / hot-score / none)".to_string())
    );
}

#[test]
fn reproduction_sizes() {
    let p = repro_plan(false, 200, 3, 24, 30);
    assert_eq!((p.n_agents, p.runs, p.timesteps, p.n_leaders, p.convergence_patience), (200, 3, 24, 30, 25));
    let q = repro_plan(true, 200, 3, 24, 30);
    assert_eq!((q.n_agents, q.runs, q.timesteps, q.n_leaders, q.convergence_patience), (80, 2, 16, 8, 17));
    let r = repro_plan(false, 10, 1, 5, 30);
    assert_eq!(r.n_leaders, 10);
}

#[test]
fn findings_are_read_from_the_interest_condition_first() {
    assert_eq!(representative_cell(&vec![RecSysKind::Off, RecSysKind::HotScore, RecSysKind::Interest]), 2);
    assert_eq!(representative_cell(&vec![RecSysKind::Off, RecSysKind::HotScore]), 1);
    assert_eq!(representative_cell(&vec![RecSysKind::Off]), 0);
    assert_eq!(position_of(&vec![RecSysKind::Off, RecSysKind::Off], RecSysKind::Off), Some(0));
    assert_eq!(position_of(&vec![RecSysKind::Off], RecSysKind::Interest), None);
}

#[test]
fn ablation_checks() {
    assert_eq!(
        ablation_check(&vec![RecSysKind::Interest, RecSysKind::HotScore, RecSysKind::Off]),
        AblationCheck::HotVsNone { hot: 1, none: 2 }
    );
    assert_eq!(ablation_check(&vec![RecSysKind::Interest, RecSysKind::Off]), AblationCheck::Spread);
    assert_eq!(ablation_check(&vec![RecSysKind::Interest]), AblationCheck::Skip);
    assert_eq!(ablation_check(&vec![]), AblationCheck::Skip);
}
