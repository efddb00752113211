//! End-to-end tests of the sweep engine: sampler grammar and iteration,
//! the dual relative/absolute quantity, cross-product expansion, and
//! backend dispatch.

use routing_sims::dispatch::ToolVariant;
use routing_sims::errors::Error;
use routing_sims::params::ArgProc;
use routing_sims::params::AttackType;
use routing_sims::params::SimParams;
use routing_sims::params::SimType;
use routing_sims::quantity::Quantity;
use routing_sims::ratio::Ratio;
use routing_sims::relorabs::RelOrAbs;
use routing_sims::sample::SamplePoints;
use routing_sims::NN;

fn args_full() -> ArgProc {
    ArgProc {
        cmd_calc: false,
        cmd_structure: false,
        cmd_full: true,
        flag_n: None,
        flag_r: None,
        flag_k: None,
        flag_q: None,
        flag_s: None,
        flag_p: None,
        flag_qtype: None,
        flag_ttype: None,
    }
}

#[test]
fn stepped_range_yields_inclusive_points() {
    let sp = SamplePoints::<NN>::parse("10-20:5").unwrap();
    assert_eq!(sp.points(), vec![10, 15, 20]);
}

#[test]
fn default_step_range_counts_by_one() {
    let sp = SamplePoints::<NN>::parse("3-5").unwrap();
    assert_eq!(sp.points(), vec![3, 4, 5]);
}

#[test]
fn list_keeps_order() {
    let sp = SamplePoints::<NN>::parse("1,2,5").unwrap();
    assert_eq!(sp.points(), vec![1, 2, 5]);
}

#[test]
fn single_number_yields_once() {
    let sp = SamplePoints::<NN>::parse("7").unwrap();
    assert_eq!(sp.points(), vec![7]);
}

#[test]
fn range_with_start_past_stop_yields_start_only() {
    let sp = SamplePoints::<NN>::parse("9-5").unwrap();
    assert_eq!(sp.points(), vec![9]);
}

#[test]
fn iteration_is_restartable() {
    let sp = SamplePoints::<NN>::parse("10-20:5").unwrap();
    let first = sp.points();
    let second = sp.points();
    assert_eq!(first, second);
    let mut it1 = sp.iter();
    let mut via_next = Vec::new();
    while let Some(v) = it1.next() {
        via_next.push(v);
    }
    assert_eq!(via_next, first);
    let mut it2 = sp.iter();
    let mut again = Vec::new();
    while let Some(v) = it2.next() {
        again.push(v);
    }
    assert_eq!(again, via_next);
}

#[test]
fn malformed_specs_are_rejected() {
    assert_eq!(SamplePoints::<NN>::parse("").unwrap_err(), Error::SpecFormat);
    assert_eq!(SamplePoints::<NN>::parse("1-").unwrap_err(), Error::SpecFormat);
    assert_eq!(SamplePoints::<NN>::parse("1-2-3").unwrap_err(), Error::SpecFormat);
    assert_eq!(SamplePoints::<NN>::parse("1-2:3:4").unwrap_err(), Error::SpecFormat);
    assert_eq!(SamplePoints::<NN>::parse("1,,2").unwrap_err(), Error::SpecFormat);
    assert_eq!(SamplePoints::<NN>::parse("a").unwrap_err(), Error::SpecFormat);
    // A zero step would never end: rejected up front.
    assert_eq!(SamplePoints::<NN>::parse("1-5:0").unwrap_err(), Error::SpecFormat);
}

#[test]
fn percent_parses_to_relative_and_resolves_by_truncation() {
    let q = RelOrAbs::parse_item("20%").unwrap();
    assert_eq!(q, RelOrAbs::Rel(Ratio { micros: 200000 }));
    assert_eq!(q.from_base(500), 100);
}

#[test]
fn absolute_count_passes_through_base() {
    let q = RelOrAbs::parse_item("50").unwrap();
    assert_eq!(q, RelOrAbs::Abs(50));
    assert_eq!(q.from_base(500), 50);
}

#[test]
fn relative_resolution_truncates() {
    // 0.333333 of 10 is 3.33333, truncated to 3.
    let q = RelOrAbs::parse_item("33.3333%").unwrap();
    assert_eq!(q.from_base(10), 3);
}

#[test]
fn mixed_representation_addition_fails() {
    let rel = RelOrAbs::Rel(Ratio { micros: 100000 });
    let abs = RelOrAbs::Abs(1);
    assert_eq!(rel.checked_add(abs).unwrap_err(), Error::Mismatch);
    assert_eq!(abs.checked_add(rel).unwrap_err(), Error::Mismatch);
    assert_eq!(rel.le_checked(abs).unwrap_err(), Error::Mismatch);
}

#[test]
fn mixed_representation_range_fails_at_parse() {
    assert_eq!(SamplePoints::<RelOrAbs>::parse("10%-20").unwrap_err(), Error::Mismatch);
}

#[test]
fn ratio_range_with_step() {
    let sp = SamplePoints::<Ratio>::parse("0.5-0.7:0.1").unwrap();
    assert_eq!(
        sp.points(),
        vec![
            Ratio { micros: 500000 },
            Ratio { micros: 600000 },
            Ratio { micros: 700000 }
        ]
    );
}

#[test]
fn defaults_give_one_configuration() {
    let mut ap = args_full();
    ap.cmd_full = false;
    ap.cmd_calc = true;
    let v = ap.make_sim_params().unwrap();
    assert_eq!(v.len(), 1);
    assert_eq!(v[0].sim_type, SimType::DirectCalc);
    assert_eq!(v[0].num_nodes, 1000);
    assert_eq!(v[0].num_malicious, RelOrAbs::Rel(Ratio { micros: 100000 }));
    assert_eq!(v[0].min_group_size, 10);
    assert_eq!(v[0].quorum_prop, Ratio { micros: 500000 });
    assert_eq!(v[0].max_steps, 1000);
    assert_eq!(v[0].repetitions, 100);
    assert_eq!(v[0].age_quorum, false);
    assert_eq!(v[0].targetting.name(), "untarg.");
}

#[test]
fn two_swept_dimensions_cover_every_pair_once() {
    let mut ap = args_full();
    ap.flag_n = Some("1000,2000,3000".to_string());
    ap.flag_k = Some("10-11".to_string());
    let v = ap.make_sim_params().unwrap();
    // a = 3 node counts, b = 2 group sizes: exactly 6, every pair once.
    assert_eq!(v.len(), 6);
    let mut pairs: Vec<(NN, NN)> = v.iter().map(|p| (p.num_nodes, p.min_group_size)).collect();
    for a in &[1000, 2000, 3000] {
        for b in &[10, 11] {
            assert_eq!(pairs.iter().filter(|x| **x == (*a, *b)).count(), 1);
        }
    }
    // The node dimension replicates first: its block comes before the
    // group-size block.
    pairs.truncate(3);
    assert_eq!(pairs, vec![(1000, 10), (2000, 10), (3000, 10)]);
}

#[test]
fn full_mode_all_flags_give_four_variants() {
    let mut ap = args_full();
    ap.flag_qtype = Some("all".to_string());
    ap.flag_ttype = Some("all".to_string());
    let v = ap.make_sim_params().unwrap();
    assert_eq!(v.len(), 4);
    let variants: Vec<ToolVariant> = v.iter().map(|p| p.result().unwrap().variant).collect();
    assert_eq!(
        variants,
        vec![
            ToolVariant::FullSimpleUntargetted,
            ToolVariant::FullAgeUntargetted,
            ToolVariant::FullSimpleTargetted,
            ToolVariant::FullAgeTargetted
        ]
    );
}

#[test]
fn unknown_selector_fails() {
    let mut ap = args_full();
    ap.flag_qtype = Some("best".to_string());
    assert_eq!(ap.make_sim_params().unwrap_err(), Error::UnknownFlag);
    let mut ap2 = args_full();
    ap2.flag_ttype = Some("worst".to_string());
    assert_eq!(ap2.make_sim_params().unwrap_err(), Error::UnknownFlag);
}

#[test]
fn zero_group_size_fails_invariant_before_dispatch() {
    let mut ap = args_full();
    ap.flag_k = Some("0".to_string());
    let v = ap.make_sim_params().unwrap();
    assert_eq!(v[0].result().unwrap_err(), Error::InvariantViolation);
}

#[test]
fn malicious_count_above_nodes_fails_invariant() {
    let mut ap = args_full();
    ap.flag_n = Some("100".to_string());
    ap.flag_r = Some("200".to_string());
    let v = ap.make_sim_params().unwrap();
    assert_eq!(v[0].result().unwrap_err(), Error::InvariantViolation);
}

#[test]
fn quorum_out_of_range_fails_invariant() {
    let mut ap = args_full();
    ap.flag_q = Some("1.5".to_string());
    let v = ap.make_sim_params().unwrap();
    assert_eq!(v[0].result().unwrap_err(), Error::InvariantViolation);
}

#[test]
fn dispatch_resolves_and_selects() {
    let p = SimParams {
        sim_type: SimType::FullSim,
        age_quorum: true,
        targetting: AttackType::SimpleTargetted,
        num_nodes: 500,
        num_malicious: RelOrAbs::Rel(Ratio { micros: 200000 }),
        min_group_size: 8,
        quorum_prop: Ratio { micros: 500000 },
        max_steps: 1000,
        repetitions: 10,
    };
    let d = p.result().unwrap();
    assert_eq!(d.variant, ToolVariant::FullAgeTargetted);
    assert_eq!(d.args.num_malicious, 100);
    assert_eq!(d.args.num_nodes, 500);
    assert!(d.args.any_group);
}

#[test]
fn names_match_the_table_headers() {
    assert_eq!(SimType::DirectCalc.name(), "dir_calc");
    assert_eq!(SimType::Structure.name(), "structure");
    assert_eq!(SimType::FullSim.name(), "full_sim");
    assert_eq!(AttackType::Untargetted.name(), "untarg.");
    assert_eq!(AttackType::SimpleTargetted.name(), "simp_targ");
}

#[test]
fn error_descriptions_name_the_failure() {
    assert_eq!(Error::SpecFormat.describe(), "malformed sweep specification");
    assert_eq!(Error::UnknownFlag.describe(), "unknown flag value");
}
