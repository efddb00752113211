//! Pre-flight invariant checking and backend selection: a valid
//! configuration maps onto exactly one of a fixed set of backend variants.

use vstd::prelude::*;

use crate::errors::Error;
use crate::params::expand_age;
use crate::params::expand_attack;
use crate::params::expand_group;
use crate::params::expand_malicious;
use crate::params::expand_nodes;
use crate::params::expand_quorum;
use crate::params::with_age;
use crate::params::with_attack;
use crate::params::ArgProc;
use crate::params::AttackType;
use crate::params::SimParams;
use crate::params::SimType;
use crate::ratio::Ratio;
use crate::ratio::RATIO_ONE;
use crate::NN;

verus! {

/// The resolved arguments handed to a backend.
#[derive(Clone, Copy, Debug, PartialEq, Eq, Structural)]
pub struct ToolArgs {
    /// Total node count.
    pub num_nodes: NN,
    /// Malicious node count, resolved against the node count.
    pub num_malicious: NN,
    /// Minimum group size.
    pub min_group_size: NN,
    /// Quorum size as a proportion of the group.
    pub quorum_prop: Ratio,
    /// Whether any group may be attacked; the only supported mode.
    pub any_group: bool,
    /// Maximum number of simulated steps.
    pub max_steps: NN,
    /// Repetitions for probabilistic computation.
    pub repetitions: NN,
}

/// The fixed set of backend variants.
#[derive(Clone, Copy, Debug, PartialEq, Eq, Structural)]
pub enum ToolVariant {
    /// Direct calculation.
    DirectCalc,
    /// Group-structure simulation.
    Structure,
    /// Full simulation, plain quorum, untargetted attack.
    FullSimpleUntargetted,
    /// Full simulation, age-aware quorum, untargetted attack.
    FullAgeUntargetted,
    /// Full simulation, plain quorum, simple targetted attack.
    FullSimpleTargetted,
    /// Full simulation, age-aware quorum, simple targetted attack.
    FullAgeTargetted,
}

/// A checked configuration, ready to hand to its backend.
#[derive(Clone, Copy, Debug, PartialEq, Eq, Structural)]
pub struct Dispatch {
    /// The resolved arguments.
    pub args: ToolArgs,
    /// The backend variant the configuration maps onto.
    pub variant: ToolVariant,
}

impl SimParams {
    /// The arguments after resolving the malicious quantity.
    pub open spec fn resolved_args(self) -> ToolArgs {
        ToolArgs {
            num_nodes: self.num_nodes,
            num_malicious: self.num_malicious.spec_from_base(self.num_nodes),
            min_group_size: self.min_group_size,
            quorum_prop: self.quorum_prop,
            any_group: true,
            max_steps: self.max_steps,
            repetitions: self.repetitions,
        }
    }

    /// The configuration's correctness preconditions: a positive minimum
    /// group size, a quorum proportion within (0, 1], a resolved malicious
    /// count no larger than the node count, and at least one repetition
    /// whenever the computation is probabilistic.
    pub open spec fn invariant_ok(self) -> bool {
        &&& self.min_group_size >= 1
        &&& 0 < self.quorum_prop.micros <= RATIO_ONE
        &&& self.num_malicious.spec_from_base(self.num_nodes) <= self.num_nodes
        &&& (self.sim_type != SimType::DirectCalc ==> self.repetitions >= 1)
    }

    /// The total, pure mapping from discrete choices to a backend variant.
    pub open spec fn spec_variant(self) -> ToolVariant {
        match self.sim_type {
            SimType::DirectCalc => ToolVariant::DirectCalc,
            SimType::Structure => ToolVariant::Structure,
            SimType::FullSim => match (self.age_quorum, self.targetting) {
                (false, AttackType::Untargetted) => ToolVariant::FullSimpleUntargetted,
                (true, AttackType::Untargetted) => ToolVariant::FullAgeUntargetted,
                (false, AttackType::SimpleTargetted) => ToolVariant::FullSimpleTargetted,
                (true, AttackType::SimpleTargetted) => ToolVariant::FullAgeTargetted,
            },
        }
    }

    /// Resolve the malicious quantity, check every configuration invariant,
    /// and select the backend variant; an invariant violation fails before
    /// any backend work.
    pub fn result(&self) -> (r: Result<Dispatch, Error>)
        ensures
            self.invariant_ok() ==> r == Ok::<Dispatch, Error>(
                Dispatch { args: self.resolved_args(), variant: self.spec_variant() },
            ),
            !self.invariant_ok() ==> r == Err::<Dispatch, Error>(Error::InvariantViolation),
    {
        let resolved = self.num_malicious.from_base(self.num_nodes);
        if self.min_group_size < 1 || self.quorum_prop.micros == 0 || self.quorum_prop.micros
            > RATIO_ONE || resolved > self.num_nodes {
            return Err(Error::InvariantViolation);
        }
        let probabilistic = match self.sim_type {
            SimType::DirectCalc => false,
            _ => true,
        };
        if probabilistic && self.repetitions < 1 {
            return Err(Error::InvariantViolation);
        }
        let args = ToolArgs {
            num_nodes: self.num_nodes,
            num_malicious: resolved,
            min_group_size: self.min_group_size,
            quorum_prop: self.quorum_prop,
            any_group: true,
            max_steps: self.max_steps,
            repetitions: self.repetitions,
        };
        let variant = match self.sim_type {
            SimType::DirectCalc => ToolVariant::DirectCalc,
            SimType::Structure => ToolVariant::Structure,
            SimType::FullSim => match (self.age_quorum, self.targetting) {
                (false, AttackType::Untargetted) => ToolVariant::FullSimpleUntargetted,
                (true, AttackType::Untargetted) => ToolVariant::FullAgeUntargetted,
                (false, AttackType::SimpleTargetted) => ToolVariant::FullSimpleTargetted,
                (true, AttackType::SimpleTargetted) => ToolVariant::FullAgeTargetted,
            },
        };
        Ok(Dispatch { args, variant })
    }
}

/// Under full-simulation mode with both discrete choices expanded by
/// `all` and every numeric dimension pinned to a single value, exactly
/// four configurations are produced, one per full-simulation backend
/// variant, in this order: plain/untargetted, age-aware/untargetted,
/// plain/targetted, age-aware/targetted.
pub proof fn lemma_full_mode_four_variants(ap: ArgProc)
    requires
        !ap.cmd_calc,
        !ap.cmd_structure,
        ap.dims_ok(),
        ap.dim_nodes()->Ok_0.len() == 1,
        ap.dim_malicious()->Ok_0.len() == 1,
        ap.dim_group()->Ok_0.len() == 1,
        ap.dim_quorum()->Ok_0.len() == 1,
        ap.dim_age()->Ok_0 == seq![false, true],
        ap.dim_attack()->Ok_0 == seq![
            AttackType::Untargetted,
            AttackType::SimpleTargetted,
        ],
    ensures
        ap.spec_expansion().len() == 4,
        ap.spec_expansion()[0].spec_variant() == ToolVariant::FullSimpleUntargetted,
        ap.spec_expansion()[1].spec_variant() == ToolVariant::FullAgeUntargetted,
        ap.spec_expansion()[2].spec_variant() == ToolVariant::FullSimpleTargetted,
        ap.spec_expansion()[3].spec_variant() == ToolVariant::FullAgeTargetted,
{
    let base = ap.spec_base();
    let e1 = expand_nodes(seq![base], ap.dim_nodes()->Ok_0);
    let e2 = expand_malicious(e1, ap.dim_malicious()->Ok_0);
    let e3 = expand_group(e2, ap.dim_group()->Ok_0);
    let e4 = expand_quorum(e3, ap.dim_quorum()->Ok_0);
    let e5 = expand_age(e4, ap.dim_age()->Ok_0);
    let e6 = expand_attack(e5, ap.dim_attack()->Ok_0);
    assert(e1.len() == 1 && e2.len() == 1 && e3.len() == 1 && e4.len() == 1);
    assert(e4[0].sim_type == SimType::FullSim);
    assert(e5.len() == 2);
    assert(e5[0] == with_age(e4[0], false));
    assert(e5[1] == with_age(e4[0], true));
    assert(e6.len() == 4);
    assert(e6[0] == with_attack(e5[0], AttackType::Untargetted));
    assert(e6[1] == with_attack(e5[1], AttackType::Untargetted));
    assert(e6[2] == with_attack(e5[0], AttackType::SimpleTargetted));
    assert(e6[3] == with_attack(e5[1], AttackType::SimpleTargetted));
    assert(ap.spec_expansion() == e6);
}

} // verus!
