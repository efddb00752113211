//! Concrete simulation configurations and their expansion: several
//! independently swept dimensions are combined into the full cross product,
//! in a fixed, observable replication order.

use vstd::prelude::*;

use crate::errors::Error;
use crate::ratio::Ratio;
use crate::relorabs::RelOrAbs;
use crate::sample::SamplePoints;
use crate::sample::lemma_parse_nonempty;
use crate::NN;

verus! {

/// Which simulation the user asked for.
#[derive(Clone, Copy, Debug, PartialEq, Eq, Structural)]
pub enum SimType {
    /// Direct calculation: all groups at minimum size, no ageing or targetting.
    DirectCalc,
    /// Simulate group structure, but no ageing or targetting.
    Structure,
    /// Full simulation, split further by quorum and attack choices.
    FullSim,
}

impl SimType {
    /// The simulation's display name.
    pub fn name(self) -> (r: &'static str)
        ensures
            r@ == match self {
                SimType::DirectCalc => "dir_calc"@,
                SimType::Structure => "structure"@,
                SimType::FullSim => "full_sim"@,
            },
    {
        match self {
            SimType::DirectCalc => "dir_calc",
            SimType::Structure => "structure",
            SimType::FullSim => "full_sim",
        }
    }
}

/// How the adversary chooses its targets.
#[derive(Clone, Copy, Debug, PartialEq, Eq, Structural)]
pub enum AttackType {
    /// No targetting.
    Untargetted,
    /// Simple targetted attack.
    SimpleTargetted,
}

impl AttackType {
    /// The strategy's display name.
    pub fn name(&self) -> (r: &'static str)
        ensures
            r@ == match *self {
                AttackType::Untargetted => "untarg."@,
                AttackType::SimpleTargetted => "simp_targ"@,
            },
    {
        match *self {
            AttackType::Untargetted => "untarg.",
            AttackType::SimpleTargetted => "simp_targ",
        }
    }
}

/// One fully concrete set of simulation parameters.
#[derive(Clone, Copy, Debug, PartialEq, Eq, Structural)]
#[verifier::ext_equal]
pub struct SimParams {
    /// Which simulation runs.
    pub sim_type: SimType,
    /// Whether the quorum algorithm is age-aware.
    pub age_quorum: bool,
    /// The attack-targetting strategy.
    pub targetting: AttackType,
    /// Total node count.
    pub num_nodes: NN,
    /// Malicious quantity, resolved against the node count at dispatch.
    pub num_malicious: RelOrAbs,
    /// Minimum group size.
    pub min_group_size: NN,
    /// Quorum size as a proportion of the group.
    pub quorum_prop: Ratio,
    /// Maximum number of simulated steps.
    pub max_steps: NN,
    /// Repetitions for probabilistic computation.
    pub repetitions: NN,
}

/// `p` with its node count replaced.
pub open spec fn with_nodes(p: SimParams, v: NN) -> SimParams {
    SimParams { num_nodes: v, ..p }
}

/// `p` with its malicious quantity replaced.
pub open spec fn with_malicious(p: SimParams, v: RelOrAbs) -> SimParams {
    SimParams { num_malicious: v, ..p }
}

/// `p` with its minimum group size replaced.
pub open spec fn with_group(p: SimParams, v: NN) -> SimParams {
    SimParams { min_group_size: v, ..p }
}

/// `p` with its quorum proportion replaced.
pub open spec fn with_quorum(p: SimParams, v: Ratio) -> SimParams {
    SimParams { quorum_prop: v, ..p }
}

/// `p` with its quorum-algorithm flag replaced.
pub open spec fn with_age(p: SimParams, v: bool) -> SimParams {
    SimParams { age_quorum: v, ..p }
}

/// `p` with its attack-targetting strategy replaced.
pub open spec fn with_attack(p: SimParams, v: AttackType) -> SimParams {
    SimParams { targetting: v, ..p }
}

/// One replication pass: for each value, the whole current list is copied
/// with only the node count overridden, and the copies are appended in
/// order. The first value is already in the current list.
pub open spec fn expand_nodes(cur: Seq<SimParams>, vals: Seq<NN>) -> Seq<SimParams> {
    Seq::new(cur.len() * vals.len(), |i: int| with_nodes(cur[i % (cur.len() as int)], vals[i / (cur.len() as int)]))
}

/// One replication pass over the malicious quantity.
pub open spec fn expand_malicious(cur: Seq<SimParams>, vals: Seq<RelOrAbs>) -> Seq<SimParams> {
    Seq::new(cur.len() * vals.len(), |i: int| with_malicious(cur[i % (cur.len() as int)], vals[i / (cur.len() as int)]))
}

/// One replication pass over the minimum group size.
pub open spec fn expand_group(cur: Seq<SimParams>, vals: Seq<NN>) -> Seq<SimParams> {
    Seq::new(cur.len() * vals.len(), |i: int| with_group(cur[i % (cur.len() as int)], vals[i / (cur.len() as int)]))
}

/// One replication pass over the quorum proportion.
pub open spec fn expand_quorum(cur: Seq<SimParams>, vals: Seq<Ratio>) -> Seq<SimParams> {
    Seq::new(cur.len() * vals.len(), |i: int| with_quorum(cur[i % (cur.len() as int)], vals[i / (cur.len() as int)]))
}

/// One replication pass over the quorum-algorithm flag.
pub open spec fn expand_age(cur: Seq<SimParams>, vals: Seq<bool>) -> Seq<SimParams> {
    Seq::new(cur.len() * vals.len(), |i: int| with_age(cur[i % (cur.len() as int)], vals[i / (cur.len() as int)]))
}

/// One replication pass over the attack strategy.
pub open spec fn expand_attack(cur: Seq<SimParams>, vals: Seq<AttackType>) -> Seq<SimParams> {
    Seq::new(cur.len() * vals.len(), |i: int| with_attack(cur[i % (cur.len() as int)], vals[i / (cur.len() as int)]))
}

/// The command's flags, as plain values handed in from the edge.
pub struct ArgProc {
    /// Direct-calculation mode was chosen.
    pub cmd_calc: bool,
    /// Structure-simulation mode was chosen.
    pub cmd_structure: bool,
    /// Full-simulation mode was chosen.
    pub cmd_full: bool,
    /// Node count sweep.
    pub flag_n: Option<String>,
    /// Malicious-node sweep: counts or `%`-suffixed proportions.
    pub flag_r: Option<String>,
    /// Minimum group size sweep.
    pub flag_k: Option<String>,
    /// Quorum proportion sweep.
    pub flag_q: Option<String>,
    /// Maximum number of steps.
    pub flag_s: Option<NN>,
    /// Repetition count.
    pub flag_p: Option<NN>,
    /// Quorum algorithm: `simple`, `age` or `all`.
    pub flag_qtype: Option<String>,
    /// Attack strategy: `none`, `simple` or `all`.
    pub flag_ttype: Option<String>,
}

impl ArgProc {
    /// The node-count dimension: the parsed sweep, or the default 1000.
    pub open spec fn dim_nodes(self) -> Result<Seq<NN>, Error> {
        match self.flag_n {
            None => Ok(seq![1000u64]),
            Some(s) => match SamplePoints::<NN>::spec_parse_points(s@) {
                Ok(m) => Ok(m.sample_seq()),
                Err(e) => Err(e),
            },
        }
    }

    /// The malicious-quantity dimension: the parsed sweep, or one tenth.
    pub open spec fn dim_malicious(self) -> Result<Seq<RelOrAbs>, Error> {
        match self.flag_r {
            None => Ok(seq![RelOrAbs::Rel(Ratio { micros: 100000u64 })]),
            Some(s) => match SamplePoints::<RelOrAbs>::spec_parse_points(s@) {
                Ok(m) => Ok(m.sample_seq()),
                Err(e) => Err(e),
            },
        }
    }

    /// The minimum-group-size dimension: the parsed sweep, or the default 10.
    pub open spec fn dim_group(self) -> Result<Seq<NN>, Error> {
        match self.flag_k {
            None => Ok(seq![10u64]),
            Some(s) => match SamplePoints::<NN>::spec_parse_points(s@) {
                Ok(m) => Ok(m.sample_seq()),
                Err(e) => Err(e),
            },
        }
    }

    /// The quorum-proportion dimension: the parsed sweep, or one half.
    pub open spec fn dim_quorum(self) -> Result<Seq<Ratio>, Error> {
        match self.flag_q {
            None => Ok(seq![Ratio { micros: 500000u64 }]),
            Some(s) => match SamplePoints::<Ratio>::spec_parse_points(s@) {
                Ok(m) => Ok(m.sample_seq()),
                Err(e) => Err(e),
            },
        }
    }

    /// The quorum-algorithm dimension: `simple` and the default pin the
    /// plain algorithm, `age` the age-aware one, `all` takes both.
    pub open spec fn dim_age(self) -> Result<Seq<bool>, Error> {
        match self.flag_qtype {
            None => Ok(seq![false]),
            Some(s) => if s@ == "simple"@ {
                Ok(seq![false])
            } else if s@ == "age"@ {
                Ok(seq![true])
            } else if s@ == "all"@ {
                Ok(seq![false, true])
            } else {
                Err(Error::UnknownFlag)
            },
        }
    }

    /// The attack-strategy dimension: `none` and the default pin the
    /// untargetted attack, `simple` the targetted one, `all` takes both.
    pub open spec fn dim_attack(self) -> Result<Seq<AttackType>, Error> {
        match self.flag_ttype {
            None => Ok(seq![AttackType::Untargetted]),
            Some(s) => if s@ == "none"@ {
                Ok(seq![AttackType::Untargetted])
            } else if s@ == "simple"@ {
                Ok(seq![AttackType::SimpleTargetted])
            } else if s@ == "all"@ {
                Ok(seq![AttackType::Untargetted, AttackType::SimpleTargetted])
            } else {
                Err(Error::UnknownFlag)
            },
        }
    }

    /// The chosen simulation, calculation mode first.
    pub open spec fn spec_sim_type(self) -> SimType {
        if self.cmd_calc {
            SimType::DirectCalc
        } else if self.cmd_structure {
            SimType::Structure
        } else {
            SimType::FullSim
        }
    }

    /// The step bound: the flag, or the default 1000.
    pub open spec fn spec_max_steps(self) -> NN {
        match self.flag_s {
            Some(v) => v,
            None => 1000u64,
        }
    }

    /// The repetition count: the flag, or the default 100.
    pub open spec fn spec_repetitions(self) -> NN {
        match self.flag_p {
            Some(v) => v,
            None => 100u64,
        }
    }

    /// Whether every dimension resolves.
    pub open spec fn dims_ok(self) -> bool {
        &&& self.dim_nodes() is Ok
        &&& self.dim_malicious() is Ok
        &&& self.dim_group() is Ok
        &&& self.dim_quorum() is Ok
        &&& self.dim_age() is Ok
        &&& self.dim_attack() is Ok
    }

    /// The first dimension error, in the order the flags are read.
    pub open spec fn first_error(self) -> Error {
        if self.dim_nodes() is Err {
            self.dim_nodes()->Err_0
        } else if self.dim_malicious() is Err {
            self.dim_malicious()->Err_0
        } else if self.dim_group() is Err {
            self.dim_group()->Err_0
        } else if self.dim_quorum() is Err {
            self.dim_quorum()->Err_0
        } else if self.dim_age() is Err {
            self.dim_age()->Err_0
        } else {
            self.dim_attack()->Err_0
        }
    }

    /// The base configuration: the first sampled value of every dimension.
    pub open spec fn spec_base(self) -> SimParams {
        SimParams {
            sim_type: self.spec_sim_type(),
            age_quorum: self.dim_age()->Ok_0[0],
            targetting: self.dim_attack()->Ok_0[0],
            num_nodes: self.dim_nodes()->Ok_0[0],
            num_malicious: self.dim_malicious()->Ok_0[0],
            min_group_size: self.dim_group()->Ok_0[0],
            quorum_prop: self.dim_quorum()->Ok_0[0],
            max_steps: self.spec_max_steps(),
            repetitions: self.spec_repetitions(),
        }
    }

    /// The full cross product, replicated dimension by dimension in the
    /// fixed priority order: node count, malicious quantity, group size,
    /// quorum proportion, quorum algorithm, attack strategy.
    pub open spec fn spec_expansion(self) -> Seq<SimParams> {
        expand_attack(
            expand_age(
                expand_quorum(
                    expand_group(
                        expand_malicious(
                            expand_nodes(seq![self.spec_base()], self.dim_nodes()->Ok_0),
                            self.dim_malicious()->Ok_0,
                        ),
                        self.dim_group()->Ok_0,
                    ),
                    self.dim_quorum()->Ok_0,
                ),
                self.dim_age()->Ok_0,
            ),
            self.dim_attack()->Ok_0,
        )
    }
}

/// Whether two strings hold the same characters.
fn str_eq(a: &str, b: &str) -> (r: bool)
    ensures
        r == (a@ == b@),
{
    let la = a.unicode_len();
    let lb = b.unicode_len();
    if la != lb {
        return false;
    }
    let mut i: usize = 0;
    while i < la
        invariant
            0 <= i <= la,
            la == a@.len() == b@.len(),
            forall|j: int| 0 <= j < i ==> a@[j] == b@[j],
        decreases la - i,
    {
        if a.get_char(i) != b.get_char(i) {
            return false;
        }
        i = i + 1;
    }
    proof {
        assert(a@ =~= b@);
    }
    true
}


/// One replication pass, appending a copy of the whole current list for
/// each later value of the dimension, with only that field overridden.
#[verifier::loop_isolation(false)]
#[verifier::rlimit(100)]
#[verifier::spinoff_prover]
fn replicate_nodes(v: &mut Vec<SimParams>, vals: &Vec<NN>)
    requires
        old(v)@.len() >= 1,
        vals@.len() >= 1,
        forall|i: int| 0 <= i < old(v)@.len() ==> old(v)@[i].num_nodes == vals@[0],
    ensures
        final(v)@ == expand_nodes(old(v)@, vals@),
{
    let ghost cur = v@;
    let n0: usize = v.len();
    let mut j: usize = 1;
    proof {
        assert forall|i: int| 0 <= i < cur.len() implies #[trigger] cur[i] == with_nodes(
            cur[i % (n0 as int)],
            vals@[i / (n0 as int)],
        ) by {
            vstd::arithmetic::div_mod::lemma_fundamental_div_mod_converse(i, n0 as int, 0, i);
            assert(old(v)@[i].num_nodes == vals@[0]);
            assert(with_nodes(cur[i], vals@[0]) =~= cur[i]);
        }
    }
    while j < vals.len()
        invariant
            1 <= j <= vals@.len(),
            n0 == cur.len(),
            n0 >= 1,
            v@.len() == n0 * j,
            forall|i: int| 0 <= i < v@.len() ==> #[trigger] v@[i] == with_nodes(
                cur[i % (n0 as int)],
                vals@[i / (n0 as int)],
            ),
        decreases vals@.len() - j,
    {
        let ghost startlen = v@.len();
        proof {
            assert(n0 * j >= n0 * 1) by (nonlinear_arith)
                requires
                    j >= 1,
                    n0 >= 0,
            ;
        }
        let mut idx: usize = 0;
        while idx < n0
            invariant
                0 <= idx <= n0 == cur.len(),
                n0 >= 1,
                1 <= j < vals@.len(),
                startlen == n0 * j,
                startlen >= n0,
                v@.len() == startlen + idx,
                forall|i: int| 0 <= i < startlen ==> #[trigger] v@[i] == with_nodes(
                    cur[i % (n0 as int)],
                    vals@[i / (n0 as int)],
                ),
                forall|m: int| 0 <= m < idx ==> #[trigger] v@[startlen + m] == with_nodes(
                    cur[m],
                    vals@[j as int],
                ),
            decreases n0 - idx,
        {
            let mut sp = v[idx];
            proof {
                vstd::arithmetic::div_mod::lemma_fundamental_div_mod_converse(
                    idx as int,
                    n0 as int,
                    0,
                    idx as int,
                );
                assert(sp == with_nodes(cur[idx as int], vals@[0]));
                assert(old(v)@[idx as int].num_nodes == vals@[0]);
                assert(with_nodes(cur[idx as int], vals@[0]) =~= cur[idx as int]);
            }
            sp.num_nodes = vals[j];
            proof {
                assert(sp =~= with_nodes(cur[idx as int], vals@[j as int]));
            }
            v.push(sp);
            idx = idx + 1;
        }
        j = j + 1;
        proof {
            assert(n0 * j == startlen + n0) by (nonlinear_arith)
                requires
                    startlen == n0 * (j - 1),
            ;
            assert forall|i: int| 0 <= i < v@.len() implies v@[i] == with_nodes(
                cur[i % (n0 as int)],
                vals@[i / (n0 as int)],
            ) by {
                if i >= startlen {
                    let m = i - startlen;
                    assert(v@[startlen + m] == with_nodes(cur[m], vals@[j - 1]));
                    vstd::arithmetic::div_mod::lemma_fundamental_div_mod_converse(
                        i,
                        n0 as int,
                        j - 1,
                        m,
                    );
                }
            }
        }
    }
    proof {
        assert(v@ =~= expand_nodes(cur, vals@));
    }
}

/// One replication pass, appending a copy of the whole current list for
/// each later value of the dimension, with only that field overridden.
#[verifier::loop_isolation(false)]
#[verifier::rlimit(100)]
#[verifier::spinoff_prover]
fn replicate_malicious(v: &mut Vec<SimParams>, vals: &Vec<RelOrAbs>)
    requires
        old(v)@.len() >= 1,
        vals@.len() >= 1,
        forall|i: int| 0 <= i < old(v)@.len() ==> old(v)@[i].num_malicious == vals@[0],
    ensures
        final(v)@ == expand_malicious(old(v)@, vals@),
{
    let ghost cur = v@;
    let n0: usize = v.len();
    let mut j: usize = 1;
    proof {
        assert forall|i: int| 0 <= i < cur.len() implies #[trigger] cur[i] == with_malicious(
            cur[i % (n0 as int)],
            vals@[i / (n0 as int)],
        ) by {
            vstd::arithmetic::div_mod::lemma_fundamental_div_mod_converse(i, n0 as int, 0, i);
            assert(old(v)@[i].num_malicious == vals@[0]);
            assert(with_malicious(cur[i], vals@[0]) =~= cur[i]);
        }
    }
    while j < vals.len()
        invariant
            1 <= j <= vals@.len(),
            n0 == cur.len(),
            n0 >= 1,
            v@.len() == n0 * j,
            forall|i: int| 0 <= i < v@.len() ==> #[trigger] v@[i] == with_malicious(
                cur[i % (n0 as int)],
                vals@[i / (n0 as int)],
            ),
        decreases vals@.len() - j,
    {
        let ghost startlen = v@.len();
        proof {
            assert(n0 * j >= n0 * 1) by (nonlinear_arith)
                requires
                    j >= 1,
                    n0 >= 0,
            ;
        }
        let mut idx: usize = 0;
        while idx < n0
            invariant
                0 <= idx <= n0 == cur.len(),
                n0 >= 1,
                1 <= j < vals@.len(),
                startlen == n0 * j,
                startlen >= n0,
                v@.len() == startlen + idx,
                forall|i: int| 0 <= i < startlen ==> #[trigger] v@[i] == with_malicious(
                    cur[i % (n0 as int)],
                    vals@[i / (n0 as int)],
                ),
                forall|m: int| 0 <= m < idx ==> #[trigger] v@[startlen + m] == with_malicious(
                    cur[m],
                    vals@[j as int],
                ),
            decreases n0 - idx,
        {
            let mut sp = v[idx];
            proof {
                vstd::arithmetic::div_mod::lemma_fundamental_div_mod_converse(
                    idx as int,
                    n0 as int,
                    0,
                    idx as int,
                );
                assert(sp == with_malicious(cur[idx as int], vals@[0]));
                assert(old(v)@[idx as int].num_malicious == vals@[0]);
                assert(with_malicious(cur[idx as int], vals@[0]) =~= cur[idx as int]);
            }
            sp.num_malicious = vals[j];
            proof {
                assert(sp =~= with_malicious(cur[idx as int], vals@[j as int]));
            }
            v.push(sp);
            idx = idx + 1;
        }
        j = j + 1;
        proof {
            assert(n0 * j == startlen + n0) by (nonlinear_arith)
                requires
                    startlen == n0 * (j - 1),
            ;
            assert forall|i: int| 0 <= i < v@.len() implies v@[i] == with_malicious(
                cur[i % (n0 as int)],
                vals@[i / (n0 as int)],
            ) by {
                if i >= startlen {
                    let m = i - startlen;
                    assert(v@[startlen + m] == with_malicious(cur[m], vals@[j - 1]));
                    vstd::arithmetic::div_mod::lemma_fundamental_div_mod_converse(
                        i,
                        n0 as int,
                        j - 1,
                        m,
                    );
                }
            }
        }
    }
    proof {
        assert(v@ =~= expand_malicious(cur, vals@));
    }
}

/// One replication pass, appending a copy of the whole current list for
/// each later value of the dimension, with only that field overridden.
#[verifier::loop_isolation(false)]
#[verifier::rlimit(100)]
#[verifier::spinoff_prover]
fn replicate_group(v: &mut Vec<SimParams>, vals: &Vec<NN>)
    requires
        old(v)@.len() >= 1,
        vals@.len() >= 1,
        forall|i: int| 0 <= i < old(v)@.len() ==> old(v)@[i].min_group_size == vals@[0],
    ensures
        final(v)@ == expand_group(old(v)@, vals@),
{
    let ghost cur = v@;
    let n0: usize = v.len();
    let mut j: usize = 1;
    proof {
        assert forall|i: int| 0 <= i < cur.len() implies #[trigger] cur[i] == with_group(
            cur[i % (n0 as int)],
            vals@[i / (n0 as int)],
        ) by {
            vstd::arithmetic::div_mod::lemma_fundamental_div_mod_converse(i, n0 as int, 0, i);
            assert(old(v)@[i].min_group_size == vals@[0]);
            assert(with_group(cur[i], vals@[0]) =~= cur[i]);
        }
    }
    while j < vals.len()
        invariant
            1 <= j <= vals@.len(),
            n0 == cur.len(),
            n0 >= 1,
            v@.len() == n0 * j,
            forall|i: int| 0 <= i < v@.len() ==> #[trigger] v@[i] == with_group(
                cur[i % (n0 as int)],
                vals@[i / (n0 as int)],
            ),
        decreases vals@.len() - j,
    {
        let ghost startlen = v@.len();
        proof {
            assert(n0 * j >= n0 * 1) by (nonlinear_arith)
                requires
                    j >= 1,
                    n0 >= 0,
            ;
        }
        let mut idx: usize = 0;
        while idx < n0
            invariant
                0 <= idx <= n0 == cur.len(),
                n0 >= 1,
                1 <= j < vals@.len(),
                startlen == n0 * j,
                startlen >= n0,
                v@.len() == startlen + idx,
                forall|i: int| 0 <= i < startlen ==> #[trigger] v@[i] == with_group(
                    cur[i % (n0 as int)],
                    vals@[i / (n0 as int)],
                ),
                forall|m: int| 0 <= m < idx ==> #[trigger] v@[startlen + m] == with_group(
                    cur[m],
                    vals@[j as int],
                ),
            decreases n0 - idx,
        {
            let mut sp = v[idx];
            proof {
                vstd::arithmetic::div_mod::lemma_fundamental_div_mod_converse(
                    idx as int,
                    n0 as int,
                    0,
                    idx as int,
                );
                assert(sp == with_group(cur[idx as int], vals@[0]));
                assert(old(v)@[idx as int].min_group_size == vals@[0]);
                assert(with_group(cur[idx as int], vals@[0]) =~= cur[idx as int]);
            }
            sp.min_group_size = vals[j];
            proof {
                assert(sp =~= with_group(cur[idx as int], vals@[j as int]));
            }
            v.push(sp);
            idx = idx + 1;
        }
        j = j + 1;
        proof {
            assert(n0 * j == startlen + n0) by (nonlinear_arith)
                requires
                    startlen == n0 * (j - 1),
            ;
            assert forall|i: int| 0 <= i < v@.len() implies v@[i] == with_group(
                cur[i % (n0 as int)],
                vals@[i / (n0 as int)],
            ) by {
                if i >= startlen {
                    let m = i - startlen;
                    assert(v@[startlen + m] == with_group(cur[m], vals@[j - 1]));
                    vstd::arithmetic::div_mod::lemma_fundamental_div_mod_converse(
                        i,
                        n0 as int,
                        j - 1,
                        m,
                    );
                }
            }
        }
    }
    proof {
        assert(v@ =~= expand_group(cur, vals@));
    }
}

/// One replication pass, appending a copy of the whole current list for
/// each later value of the dimension, with only that field overridden.
#[verifier::loop_isolation(false)]
#[verifier::rlimit(100)]
#[verifier::spinoff_prover]
fn replicate_quorum(v: &mut Vec<SimParams>, vals: &Vec<Ratio>)
    requires
        old(v)@.len() >= 1,
        vals@.len() >= 1,
        forall|i: int| 0 <= i < old(v)@.len() ==> old(v)@[i].quorum_prop == vals@[0],
    ensures
        final(v)@ == expand_quorum(old(v)@, vals@),
{
    let ghost cur = v@;
    let n0: usize = v.len();
    let mut j: usize = 1;
    proof {
        assert forall|i: int| 0 <= i < cur.len() implies #[trigger] cur[i] == with_quorum(
            cur[i % (n0 as int)],
            vals@[i / (n0 as int)],
        ) by {
            vstd::arithmetic::div_mod::lemma_fundamental_div_mod_converse(i, n0 as int, 0, i);
            assert(old(v)@[i].quorum_prop == vals@[0]);
            assert(with_quorum(cur[i], vals@[0]) =~= cur[i]);
        }
    }
    while j < vals.len()
        invariant
            1 <= j <= vals@.len(),
            n0 == cur.len(),
            n0 >= 1,
            v@.len() == n0 * j,
            forall|i: int| 0 <= i < v@.len() ==> #[trigger] v@[i] == with_quorum(
                cur[i % (n0 as int)],
                vals@[i / (n0 as int)],
            ),
        decreases vals@.len() - j,
    {
        let ghost startlen = v@.len();
        proof {
            assert(n0 * j >= n0 * 1) by (nonlinear_arith)
                requires
                    j >= 1,
                    n0 >= 0,
            ;
        }
        let mut idx: usize = 0;
        while idx < n0
            invariant
                0 <= idx <= n0 == cur.len(),
                n0 >= 1,
                1 <= j < vals@.len(),
                startlen == n0 * j,
                startlen >= n0,
                v@.len() == startlen + idx,
                forall|i: int| 0 <= i < startlen ==> #[trigger] v@[i] == with_quorum(
                    cur[i % (n0 as int)],
                    vals@[i / (n0 as int)],
                ),
                forall|m: int| 0 <= m < idx ==> #[trigger] v@[startlen + m] == with_quorum(
                    cur[m],
                    vals@[j as int],
                ),
            decreases n0 - idx,
        {
            let mut sp = v[idx];
            proof {
                vstd::arithmetic::div_mod::lemma_fundamental_div_mod_converse(
                    idx as int,
                    n0 as int,
                    0,
                    idx as int,
                );
                assert(sp == with_quorum(cur[idx as int], vals@[0]));
                assert(old(v)@[idx as int].quorum_prop == vals@[0]);
                assert(with_quorum(cur[idx as int], vals@[0]) =~= cur[idx as int]);
            }
            sp.quorum_prop = vals[j];
            proof {
                assert(sp =~= with_quorum(cur[idx as int], vals@[j as int]));
            }
            v.push(sp);
            idx = idx + 1;
        }
        j = j + 1;
        proof {
            assert(n0 * j == startlen + n0) by (nonlinear_arith)
                requires
                    startlen == n0 * (j - 1),
            ;
            assert forall|i: int| 0 <= i < v@.len() implies v@[i] == with_quorum(
                cur[i % (n0 as int)],
                vals@[i / (n0 as int)],
            ) by {
                if i >= startlen {
                    let m = i - startlen;
                    assert(v@[startlen + m] == with_quorum(cur[m], vals@[j - 1]));
                    vstd::arithmetic::div_mod::lemma_fundamental_div_mod_converse(
                        i,
                        n0 as int,
                        j - 1,
                        m,
                    );
                }
            }
        }
    }
    proof {
        assert(v@ =~= expand_quorum(cur, vals@));
    }
}

/// One replication pass, appending a copy of the whole current list for
/// each later value of the dimension, with only that field overridden.
#[verifier::loop_isolation(false)]
#[verifier::rlimit(100)]
#[verifier::spinoff_prover]
fn replicate_age(v: &mut Vec<SimParams>, vals: &Vec<bool>)
    requires
        old(v)@.len() >= 1,
        vals@.len() >= 1,
        forall|i: int| 0 <= i < old(v)@.len() ==> old(v)@[i].age_quorum == vals@[0],
    ensures
        final(v)@ == expand_age(old(v)@, vals@),
{
    let ghost cur = v@;
    let n0: usize = v.len();
    let mut j: usize = 1;
    proof {
        assert forall|i: int| 0 <= i < cur.len() implies #[trigger] cur[i] == with_age(
            cur[i % (n0 as int)],
            vals@[i / (n0 as int)],
        ) by {
            vstd::arithmetic::div_mod::lemma_fundamental_div_mod_converse(i, n0 as int, 0, i);
            assert(old(v)@[i].age_quorum == vals@[0]);
            assert(with_age(cur[i], vals@[0]) =~= cur[i]);
        }
    }
    while j < vals.len()
        invariant
            1 <= j <= vals@.len(),
            n0 == cur.len(),
            n0 >= 1,
            v@.len() == n0 * j,
            forall|i: int| 0 <= i < v@.len() ==> #[trigger] v@[i] == with_age(
                cur[i % (n0 as int)],
                vals@[i / (n0 as int)],
            ),
        decreases vals@.len() - j,
    {
        let ghost startlen = v@.len();
        proof {
            assert(n0 * j >= n0 * 1) by (nonlinear_arith)
                requires
                    j >= 1,
                    n0 >= 0,
            ;
        }
        let mut idx: usize = 0;
        while idx < n0
            invariant
                0 <= idx <= n0 == cur.len(),
                n0 >= 1,
                1 <= j < vals@.len(),
                startlen == n0 * j,
                startlen >= n0,
                v@.len() == startlen + idx,
                forall|i: int| 0 <= i < startlen ==> #[trigger] v@[i] == with_age(
                    cur[i % (n0 as int)],
                    vals@[i / (n0 as int)],
                ),
                forall|m: int| 0 <= m < idx ==> #[trigger] v@[startlen + m] == with_age(
                    cur[m],
                    vals@[j as int],
                ),
            decreases n0 - idx,
        {
            let mut sp = v[idx];
            proof {
                vstd::arithmetic::div_mod::lemma_fundamental_div_mod_converse(
                    idx as int,
                    n0 as int,
                    0,
                    idx as int,
                );
                assert(sp == with_age(cur[idx as int], vals@[0]));
                assert(old(v)@[idx as int].age_quorum == vals@[0]);
                assert(with_age(cur[idx as int], vals@[0]) =~= cur[idx as int]);
            }
            sp.age_quorum = vals[j];
            proof {
                assert(sp =~= with_age(cur[idx as int], vals@[j as int]));
            }
            v.push(sp);
            idx = idx + 1;
        }
        j = j + 1;
        proof {
            assert(n0 * j == startlen + n0) by (nonlinear_arith)
                requires
                    startlen == n0 * (j - 1),
            ;
            assert forall|i: int| 0 <= i < v@.len() implies v@[i] == with_age(
                cur[i % (n0 as int)],
                vals@[i / (n0 as int)],
            ) by {
                if i >= startlen {
                    let m = i - startlen;
                    assert(v@[startlen + m] == with_age(cur[m], vals@[j - 1]));
                    vstd::arithmetic::div_mod::lemma_fundamental_div_mod_converse(
                        i,
                        n0 as int,
                        j - 1,
                        m,
                    );
                }
            }
        }
    }
    proof {
        assert(v@ =~= expand_age(cur, vals@));
    }
}

/// One replication pass, appending a copy of the whole current list for
/// each later value of the dimension, with only that field overridden.
#[verifier::rlimit(100)]
#[verifier::spinoff_prover]
fn replicate_attack(v: &mut Vec<SimParams>, vals: &Vec<AttackType>)
    requires
        old(v)@.len() >= 1,
        vals@.len() >= 1,
        forall|i: int| 0 <= i < old(v)@.len() ==> old(v)@[i].targetting == vals@[0],
    ensures
        final(v)@ == expand_attack(old(v)@, vals@),
{
    let ghost cur = v@;
    let n0: usize = v.len();
    let mut j: usize = 1;
    proof {
        assert forall|i: int| 0 <= i < cur.len() implies #[trigger] cur[i] == with_attack(
            cur[i % (n0 as int)],
            vals@[i / (n0 as int)],
        ) by {
            vstd::arithmetic::div_mod::lemma_fundamental_div_mod_converse(i, n0 as int, 0, i);
            assert(old(v)@[i].targetting == vals@[0]);
            assert(with_attack(cur[i], vals@[0]) =~= cur[i]);
        }
    }
    while j < vals.len()
        invariant
            1 <= j <= vals@.len(),
            n0 == cur.len(),
            n0 >= 1,
            cur == old(v)@,
            forall|i: int| 0 <= i < cur.len() ==> #[trigger] cur[i].targetting == vals@[0],
            v@.len() == n0 * j,
            forall|i: int| 0 <= i < v@.len() ==> #[trigger] v@[i] == with_attack(
                cur[i % (n0 as int)],
                vals@[i / (n0 as int)],
            ),
        decreases vals@.len() - j,
    {
        let ghost startlen = v@.len();
        proof {
            assert(n0 * j >= n0 * 1) by (nonlinear_arith)
                requires
                    j >= 1,
                    n0 >= 0,
            ;
        }
        let mut idx: usize = 0;
        while idx < n0
            invariant
                0 <= idx <= n0 == cur.len(),
                n0 >= 1,
                cur == old(v)@,
                forall|i: int| 0 <= i < cur.len() ==> #[trigger] cur[i].targetting == vals@[0],
                1 <= j < vals@.len(),
                startlen == n0 * j,
                startlen >= n0,
                v@.len() == startlen + idx,
                forall|i: int| 0 <= i < startlen ==> #[trigger] v@[i] == with_attack(
                    cur[i % (n0 as int)],
                    vals@[i / (n0 as int)],
                ),
                forall|m: int| 0 <= m < idx ==> #[trigger] v@[startlen + m] == with_attack(
                    cur[m],
                    vals@[j as int],
                ),
            decreases n0 - idx,
        {
            let mut sp = v[idx];
            proof {
                vstd::arithmetic::div_mod::lemma_fundamental_div_mod_converse(
                    idx as int,
                    n0 as int,
                    0,
                    idx as int,
                );
                assert(sp == with_attack(cur[idx as int], vals@[0]));
                assert(old(v)@[idx as int].targetting == vals@[0]);
                assert(with_attack(cur[idx as int], vals@[0]) =~= cur[idx as int]);
            }
            sp.targetting = vals[j];
            proof {
                assert(sp =~= with_attack(cur[idx as int], vals@[j as int]));
            }
            v.push(sp);
            idx = idx + 1;
        }
        j = j + 1;
        proof {
            assert(n0 * j == startlen + n0) by (nonlinear_arith)
                requires
                    startlen == n0 * (j - 1),
            ;
            assert forall|i: int| 0 <= i < v@.len() implies v@[i] == with_attack(
                cur[i % (n0 as int)],
                vals@[i / (n0 as int)],
            ) by {
                if i >= startlen {
                    let m = i - startlen;
                    assert(v@[startlen + m] == with_attack(cur[m], vals@[j - 1]));
                    vstd::arithmetic::div_mod::lemma_fundamental_div_mod_converse(
                        i,
                        n0 as int,
                        j - 1,
                        m,
                    );
                }
            }
        }
    }
    proof {
        assert(v@ =~= expand_attack(cur, vals@));
    }
}


impl ArgProc {
    /// Expand the flags into the full, ordered cross product of concrete
    /// configurations: the base takes the first value of every dimension,
    /// then each dimension in priority order appends, for each of its later
    /// values, a copy of everything built so far with that one field
    /// overridden. Fails with the first dimension error.
    #[verifier::rlimit(100)]
    #[verifier::spinoff_prover]
    pub fn make_sim_params(&self) -> (r: Result<Vec<SimParams>, Error>)
        requires
            self.cmd_calc || self.cmd_structure || self.cmd_full,
        ensures
            self.dims_ok() ==> (r matches Ok(v) && v@ == self.spec_expansion()),
            !self.dims_ok() ==> r == Err::<Vec<SimParams>, Error>(self.first_error()),
    {
        let nodes: Vec<NN> = match &self.flag_n {
            None => {
                let mut w: Vec<NN> = Vec::new();
                w.push(1000);
                proof {
                    assert(w@ =~= seq![1000u64]);
                }
                w
            },
            Some(sf) => {
                proof {
                    lemma_parse_nonempty::<NN>(sf@);
                }
                match SamplePoints::<NN>::parse(sf.as_str()) {
                    Ok(sp) => sp.points(),
                    Err(e) => {
                        return Err(e);
                    },
                }
            },
        };
        let mals: Vec<RelOrAbs> = match &self.flag_r {
            None => {
                let mut w: Vec<RelOrAbs> = Vec::new();
                w.push(RelOrAbs::Rel(crate::ratio::Ratio { micros: 100000 }));
                proof {
                    assert(w@ =~= seq![RelOrAbs::Rel(Ratio { micros: 100000u64 })]);
                }
                w
            },
            Some(sf) => {
                proof {
                    lemma_parse_nonempty::<RelOrAbs>(sf@);
                }
                match SamplePoints::<RelOrAbs>::parse(sf.as_str()) {
                    Ok(sp) => sp.points(),
                    Err(e) => {
                        return Err(e);
                    },
                }
            },
        };
        let groups: Vec<NN> = match &self.flag_k {
            None => {
                let mut w: Vec<NN> = Vec::new();
                w.push(10);
                proof {
                    assert(w@ =~= seq![10u64]);
                }
                w
            },
            Some(sf) => {
                proof {
                    lemma_parse_nonempty::<NN>(sf@);
                }
                match SamplePoints::<NN>::parse(sf.as_str()) {
                    Ok(sp) => sp.points(),
                    Err(e) => {
                        return Err(e);
                    },
                }
            },
        };
        let quorums: Vec<Ratio> = match &self.flag_q {
            None => {
                let mut w: Vec<Ratio> = Vec::new();
                w.push(Ratio { micros: 500000 });
                proof {
                    assert(w@ =~= seq![Ratio { micros: 500000u64 }]);
                }
                w
            },
            Some(sf) => {
                proof {
                    lemma_parse_nonempty::<Ratio>(sf@);
                }
                match SamplePoints::<Ratio>::parse(sf.as_str()) {
                    Ok(sp) => sp.points(),
                    Err(e) => {
                        return Err(e);
                    },
                }
            },
        };
        let ages: Vec<bool> = match &self.flag_qtype {
            None => {
                let mut w: Vec<bool> = Vec::new();
                w.push(false);
                proof {
                    assert(w@ =~= seq![false]);
                }
                w
            },
            Some(sf) => {
                let st = sf.as_str();
                let mut w: Vec<bool> = Vec::new();
                if str_eq(st, "simple") {
                    w.push(false);
                    proof {
                        assert(w@ =~= seq![false]);
                    }
                } else if str_eq(st, "age") {
                    w.push(true);
                    proof {
                        assert(w@ =~= seq![true]);
                    }
                } else if str_eq(st, "all") {
                    w.push(false);
                    w.push(true);
                    proof {
                        assert(w@ =~= seq![false, true]);
                    }
                } else {
                    return Err(Error::UnknownFlag);
                }
                w
            },
        };
        let atts: Vec<AttackType> = match &self.flag_ttype {
            None => {
                let mut w: Vec<AttackType> = Vec::new();
                w.push(AttackType::Untargetted);
                proof {
                    assert(w@ =~= seq![AttackType::Untargetted]);
                }
                w
            },
            Some(sf) => {
                let st = sf.as_str();
                let mut w: Vec<AttackType> = Vec::new();
                if str_eq(st, "none") {
                    w.push(AttackType::Untargetted);
                    proof {
                        assert(w@ =~= seq![AttackType::Untargetted]);
                    }
                } else if str_eq(st, "simple") {
                    w.push(AttackType::SimpleTargetted);
                    proof {
                        assert(w@ =~= seq![AttackType::SimpleTargetted]);
                    }
                } else if str_eq(st, "all") {
                    w.push(AttackType::Untargetted);
                    w.push(AttackType::SimpleTargetted);
                    proof {
                        assert(w@ =~= seq![
                            AttackType::Untargetted,
                            AttackType::SimpleTargetted,
                        ]);
                    }
                } else {
                    return Err(Error::UnknownFlag);
                }
                w
            },
        };
        proof {
            assert(nodes@ == self.dim_nodes()->Ok_0);
            assert(mals@ == self.dim_malicious()->Ok_0);
            assert(groups@ == self.dim_group()->Ok_0);
            assert(quorums@ == self.dim_quorum()->Ok_0);
            assert(ages@ == self.dim_age()->Ok_0);
            assert(atts@ == self.dim_attack()->Ok_0);
        }
        Ok(self.expand_all(&nodes, &mals, &groups, &quorums, &ages, &atts))
    }

    /// Build the base configuration from the dimensions' first values and
    /// run every replication pass in priority order.
    #[verifier::rlimit(100)]
    #[verifier::spinoff_prover]
    fn expand_all(
        &self,
        nodes: &Vec<NN>,
        mals: &Vec<RelOrAbs>,
        groups: &Vec<NN>,
        quorums: &Vec<Ratio>,
        ages: &Vec<bool>,
        atts: &Vec<AttackType>,
    ) -> (r: Vec<SimParams>)
        requires
            self.cmd_calc || self.cmd_structure || self.cmd_full,
            self.dims_ok(),
            nodes@ == self.dim_nodes()->Ok_0,
            mals@ == self.dim_malicious()->Ok_0,
            groups@ == self.dim_group()->Ok_0,
            quorums@ == self.dim_quorum()->Ok_0,
            ages@ == self.dim_age()->Ok_0,
            atts@ == self.dim_attack()->Ok_0,
            nodes@.len() >= 1,
            mals@.len() >= 1,
            groups@.len() >= 1,
            quorums@.len() >= 1,
            ages@.len() >= 1,
            atts@.len() >= 1,
        ensures
            r@ == self.spec_expansion(),
    {
        let tool = if self.cmd_calc {
            SimType::DirectCalc
        } else if self.cmd_structure {
            SimType::Structure
        } else {
            SimType::FullSim
        };
        let base = SimParams {
            sim_type: tool,
            age_quorum: ages[0],
            targetting: atts[0],
            num_nodes: nodes[0],
            num_malicious: mals[0],
            min_group_size: groups[0],
            quorum_prop: quorums[0],
            max_steps: match self.flag_s {
                Some(x) => x,
                None => 1000,
            },
            repetitions: match self.flag_p {
                Some(x) => x,
                None => 100,
            },
        };
        proof {
            assert(base == self.spec_base());
        }
        let mut v: Vec<SimParams> = Vec::new();
        v.push(base);
        proof {
            assert(v@ =~= seq![base]);
        }
        let ghost c0 = v@;
        replicate_nodes(&mut v, &nodes);
        proof {
            assert(v@.len() >= 1) by (nonlinear_arith)
                requires
                    v@.len() == c0.len() * nodes@.len(),
                    c0.len() >= 1,
                    nodes@.len() >= 1,
            ;
            lemma_keeps_fields_nodes(c0, nodes@, mals@[0], groups@[0], quorums@[0], ages@[0], atts@[0]);
        }
        let ghost c1 = v@;
        replicate_malicious(&mut v, &mals);
        proof {
            assert(v@.len() >= 1) by (nonlinear_arith)
                requires
                    v@.len() == c1.len() * mals@.len(),
                    c1.len() >= 1,
                    mals@.len() >= 1,
            ;
            lemma_keeps_fields_malicious(c1, mals@, groups@[0], quorums@[0], ages@[0], atts@[0]);
        }
        let ghost c2 = v@;
        replicate_group(&mut v, &groups);
        proof {
            assert(v@.len() >= 1) by (nonlinear_arith)
                requires
                    v@.len() == c2.len() * groups@.len(),
                    c2.len() >= 1,
                    groups@.len() >= 1,
            ;
            lemma_keeps_fields_group(c2, groups@, quorums@[0], ages@[0], atts@[0]);
        }
        let ghost c3 = v@;
        replicate_quorum(&mut v, &quorums);
        proof {
            assert(v@.len() >= 1) by (nonlinear_arith)
                requires
                    v@.len() == c3.len() * quorums@.len(),
                    c3.len() >= 1,
                    quorums@.len() >= 1,
            ;
            lemma_keeps_fields_quorum(c3, quorums@, ages@[0], atts@[0]);
        }
        let ghost c4 = v@;
        replicate_age(&mut v, &ages);
        proof {
            assert(v@.len() >= 1) by (nonlinear_arith)
                requires
                    v@.len() == c4.len() * ages@.len(),
                    c4.len() >= 1,
                    ages@.len() >= 1,
            ;
            lemma_keeps_fields_age(c4, ages@, atts@[0]);
        }
        replicate_attack(&mut v, &atts);
        proof {
            assert(v@ == self.spec_expansion());
        }
        v
    }

}

/// A position below `a * b` splits uniquely into a digit below `a` and a
/// digit below `b`.
proof fn lemma_index_decomp(k: int, a: int, b: int)
    requires
        a >= 1,
        b >= 1,
        0 <= k < a * b,
    ensures
        0 <= k % a < a,
        0 <= k / a < b,
        k == a * (k / a) + k % a,
{
    vstd::arithmetic::div_mod::lemma_fundamental_div_mod(k, a);
    vstd::arithmetic::div_mod::lemma_mod_bound(k, a);
    assert(0 <= k / a < b) by (nonlinear_arith)
        requires
            a >= 1,
            b >= 1,
            0 <= k < a * b,
            k == a * (k / a) + k % a,
            0 <= k % a < a,
    ;
}

/// For two independently swept dimensions — the node count, of size `a`,
/// and the malicious quantity, of size `b` — with every other dimension
/// pinned to a single value, the expansion holds exactly `a * b`
/// configurations; the one at position `ib * a + ia` carries the `ia`-th
/// node count and the `ib`-th malicious quantity, so every pair is covered
/// exactly once; and when neither dimension repeats a value, no two
/// configurations are equal.
#[verifier::rlimit(100)]
#[verifier::spinoff_prover]
pub proof fn lemma_two_dimension_cross_product(ap: ArgProc)
    requires
        ap.dims_ok(),
        ap.dim_nodes()->Ok_0.len() >= 1,
        ap.dim_malicious()->Ok_0.len() >= 1,
        ap.dim_group()->Ok_0.len() == 1,
        ap.dim_quorum()->Ok_0.len() == 1,
        ap.dim_age()->Ok_0.len() == 1,
        ap.dim_attack()->Ok_0.len() == 1,
    ensures
        ap.spec_expansion().len() == ap.dim_nodes()->Ok_0.len() * ap.dim_malicious()->Ok_0.len(),
        forall|ia: int, ib: int|
            0 <= ia < ap.dim_nodes()->Ok_0.len() && 0 <= ib < ap.dim_malicious()->Ok_0.len()
                ==> (#[trigger] ap.spec_expansion()[ib * (ap.dim_nodes()->Ok_0.len() as int) + ia])
                == with_malicious(
                with_nodes(ap.spec_base(), ap.dim_nodes()->Ok_0[ia]),
                ap.dim_malicious()->Ok_0[ib],
            ),
        ((forall|x: int, y: int|
            0 <= x < y < ap.dim_nodes()->Ok_0.len() ==> ap.dim_nodes()->Ok_0[x]
                != ap.dim_nodes()->Ok_0[y]) && (forall|x: int, y: int|
            0 <= x < y < ap.dim_malicious()->Ok_0.len() ==> ap.dim_malicious()->Ok_0[x]
                != ap.dim_malicious()->Ok_0[y])) ==> (forall|i: int, j: int|
            0 <= i < j < ap.spec_expansion().len() ==> ap.spec_expansion()[i]
                != ap.spec_expansion()[j]),
{
    let nodes = ap.dim_nodes()->Ok_0;
    let mals = ap.dim_malicious()->Ok_0;
    let a = nodes.len() as int;
    let b = mals.len() as int;
    let base = ap.spec_base();
    let e1 = expand_nodes(seq![base], nodes);
    let e2 = expand_malicious(e1, mals);
    let e3 = expand_group(e2, ap.dim_group()->Ok_0);
    let e4 = expand_quorum(e3, ap.dim_quorum()->Ok_0);
    let e5 = expand_age(e4, ap.dim_age()->Ok_0);
    let e6 = expand_attack(e5, ap.dim_attack()->Ok_0);
    // The first pass writes each node count once.
    assert(seq![base].len() == 1);
    assert(e1.len() == seq![base].len() * nodes.len());
    assert(e1.len() == 1 * nodes.len());
    assert(e1.len() == a) by (nonlinear_arith)
        requires
            e1.len() == 1 * nodes.len(),
            a == nodes.len(),
    ;
    assert forall|j: int| 0 <= j < a implies #[trigger] e1[j] == with_nodes(base, nodes[j]) by {
        vstd::arithmetic::div_mod::lemma_fundamental_div_mod_converse(j, 1, j, 0);
    }
    // The second pass pairs every node count with every malicious quantity.
    assert(e2.len() == a * b);
    assert forall|k: int| 0 <= k < a * b implies #[trigger] e2[k] == with_malicious(
        with_nodes(base, nodes[k % a]),
        mals[k / a],
    ) by {
        lemma_index_decomp(k, a, b);
    }
    // The pinned passes change nothing.
    assert forall|i: int| 0 <= i < e2.len() implies #[trigger] e3[i] == e2[i] by {
        vstd::arithmetic::div_mod::lemma_fundamental_div_mod_converse(i, e2.len() as int, 0, i);
        lemma_index_decomp(i, a, b);
        assert(e2[i].min_group_size == base.min_group_size);
        assert(with_group(e2[i], ap.dim_group()->Ok_0[0]) =~= e2[i]);
    }
    assert(e3 =~= e2);
    assert forall|i: int| 0 <= i < e3.len() implies #[trigger] e4[i] == e3[i] by {
        vstd::arithmetic::div_mod::lemma_fundamental_div_mod_converse(i, e3.len() as int, 0, i);
        lemma_index_decomp(i, a, b);
        assert(e3[i].quorum_prop == base.quorum_prop);
        assert(with_quorum(e3[i], ap.dim_quorum()->Ok_0[0]) =~= e3[i]);
    }
    assert(e4 =~= e3);
    assert forall|i: int| 0 <= i < e4.len() implies #[trigger] e5[i] == e4[i] by {
        vstd::arithmetic::div_mod::lemma_fundamental_div_mod_converse(i, e4.len() as int, 0, i);
        lemma_index_decomp(i, a, b);
        assert(e4[i].age_quorum == base.age_quorum);
        assert(with_age(e4[i], ap.dim_age()->Ok_0[0]) =~= e4[i]);
    }
    assert(e5 =~= e4);
    assert forall|i: int| 0 <= i < e5.len() implies #[trigger] e6[i] == e5[i] by {
        vstd::arithmetic::div_mod::lemma_fundamental_div_mod_converse(i, e5.len() as int, 0, i);
        lemma_index_decomp(i, a, b);
        assert(e5[i].targetting == base.targetting);
        assert(with_attack(e5[i], ap.dim_attack()->Ok_0[0]) =~= e5[i]);
    }
    assert(e6 =~= e2);
    assert(ap.spec_expansion() == e6);
    // Coverage: the pair (ia, ib) sits exactly at ib * a + ia.
    assert forall|ia: int, ib: int| 0 <= ia < a && 0 <= ib < b implies (
    #[trigger] ap.spec_expansion()[ib * a + ia]) == with_malicious(
        with_nodes(base, nodes[ia]),
        mals[ib],
    ) by {
        assert(0 <= ib * a + ia < a * b) by (nonlinear_arith)
            requires
                0 <= ia < a,
                0 <= ib < b,
        ;
        vstd::arithmetic::div_mod::lemma_fundamental_div_mod_converse(ib * a + ia, a, ib, ia);
    }
    // No duplicates when neither dimension repeats a value.
    if (forall|x: int, y: int| 0 <= x < y < a ==> nodes[x] != nodes[y]) && (forall|x: int, y: int|
        0 <= x < y < b ==> mals[x] != mals[y]) {
        assert forall|i: int, j: int|
            0 <= i < j < ap.spec_expansion().len() implies ap.spec_expansion()[i]
            != ap.spec_expansion()[j] by {
            lemma_index_decomp(i, a, b);
            lemma_index_decomp(j, a, b);
            if i % a == j % a && i / a == j / a {
                assert(i == j);
            } else if i % a != j % a {
                if i % a < j % a {
                    assert(nodes[i % a] != nodes[j % a]);
                } else {
                    assert(nodes[j % a] != nodes[i % a]);
                }
                assert(ap.spec_expansion()[i].num_nodes != ap.spec_expansion()[j].num_nodes);
            } else {
                if i / a < j / a {
                    assert(mals[i / a] != mals[j / a]);
                } else {
                    assert(mals[j / a] != mals[i / a]);
                }
                assert(ap.spec_expansion()[i].num_malicious != ap.spec_expansion()[
                    j
                ].num_malicious);
            }
        }
    }
}

/// After the node pass, every entry keeps the first value of every later
/// dimension.
proof fn lemma_keeps_fields_nodes(
    cur: Seq<SimParams>,
    vals: Seq<NN>,
    m0: RelOrAbs,
    g0: NN,
    q0: Ratio,
    a0: bool,
    t0: AttackType,
)
    requires
        cur.len() >= 1,
        forall|i: int|
            0 <= i < cur.len() ==> (#[trigger] cur[i]).num_malicious == m0 && cur[i].min_group_size
                == g0 && cur[i].quorum_prop == q0 && cur[i].age_quorum == a0 && cur[i].targetting
                == t0,
    ensures
        forall|i: int|
            0 <= i < expand_nodes(cur, vals).len() ==> (#[trigger] expand_nodes(cur, vals)[i])
                .num_malicious == m0 && expand_nodes(cur, vals)[i].min_group_size == g0
                && expand_nodes(cur, vals)[i].quorum_prop == q0 && expand_nodes(
                cur,
                vals,
            )[i].age_quorum == a0 && expand_nodes(cur, vals)[i].targetting == t0,
{
    assert forall|i: int| 0 <= i < expand_nodes(cur, vals).len() implies (#[trigger] expand_nodes(
        cur,
        vals,
    )[i]).num_malicious == m0 && expand_nodes(cur, vals)[i].min_group_size == g0 && expand_nodes(
        cur,
        vals,
    )[i].quorum_prop == q0 && expand_nodes(cur, vals)[i].age_quorum == a0 && expand_nodes(
        cur,
        vals,
    )[i].targetting == t0 by {
        vstd::arithmetic::div_mod::lemma_mod_bound(i, cur.len() as int);
        assert(cur[i % (cur.len() as int)].num_malicious == m0);
    }
}

/// After the malicious pass, later dimensions keep their first value.
proof fn lemma_keeps_fields_malicious(
    cur: Seq<SimParams>,
    vals: Seq<RelOrAbs>,
    g0: NN,
    q0: Ratio,
    a0: bool,
    t0: AttackType,
)
    requires
        cur.len() >= 1,
        forall|i: int|
            0 <= i < cur.len() ==> (#[trigger] cur[i]).min_group_size == g0 && cur[i].quorum_prop
                == q0 && cur[i].age_quorum == a0 && cur[i].targetting == t0,
    ensures
        forall|i: int|
            0 <= i < expand_malicious(cur, vals).len() ==> (#[trigger] expand_malicious(
                cur,
                vals,
            )[i]).min_group_size == g0 && expand_malicious(cur, vals)[i].quorum_prop == q0
                && expand_malicious(cur, vals)[i].age_quorum == a0 && expand_malicious(
                cur,
                vals,
            )[i].targetting == t0,
{
    assert forall|i: int| 0 <= i < expand_malicious(cur, vals).len() implies (
    #[trigger] expand_malicious(cur, vals)[i]).min_group_size == g0 && expand_malicious(
        cur,
        vals,
    )[i].quorum_prop == q0 && expand_malicious(cur, vals)[i].age_quorum == a0 && expand_malicious(
        cur,
        vals,
    )[i].targetting == t0 by {
        vstd::arithmetic::div_mod::lemma_mod_bound(i, cur.len() as int);
        assert(cur[i % (cur.len() as int)].min_group_size == g0);
    }
}

/// After the group pass, later dimensions keep their first value.
proof fn lemma_keeps_fields_group(
    cur: Seq<SimParams>,
    vals: Seq<NN>,
    q0: Ratio,
    a0: bool,
    t0: AttackType,
)
    requires
        cur.len() >= 1,
        forall|i: int|
            0 <= i < cur.len() ==> (#[trigger] cur[i]).quorum_prop == q0 && cur[i].age_quorum == a0
                && cur[i].targetting == t0,
    ensures
        forall|i: int|
            0 <= i < expand_group(cur, vals).len() ==> (#[trigger] expand_group(cur, vals)[i])
                .quorum_prop == q0 && expand_group(cur, vals)[i].age_quorum == a0 && expand_group(
                cur,
                vals,
            )[i].targetting == t0,
{
    assert forall|i: int| 0 <= i < expand_group(cur, vals).len() implies (#[trigger] expand_group(
        cur,
        vals,
    )[i]).quorum_prop == q0 && expand_group(cur, vals)[i].age_quorum == a0 && expand_group(
        cur,
        vals,
    )[i].targetting == t0 by {
        vstd::arithmetic::div_mod::lemma_mod_bound(i, cur.len() as int);
        assert(cur[i % (cur.len() as int)].quorum_prop == q0);
    }
}

/// After the quorum pass, later dimensions keep their first value.
proof fn lemma_keeps_fields_quorum(cur: Seq<SimParams>, vals: Seq<Ratio>, a0: bool, t0: AttackType)
    requires
        cur.len() >= 1,
        forall|i: int|
            0 <= i < cur.len() ==> (#[trigger] cur[i]).age_quorum == a0 && cur[i].targetting == t0,
    ensures
        forall|i: int|
            0 <= i < expand_quorum(cur, vals).len() ==> (#[trigger] expand_quorum(cur, vals)[i])
                .age_quorum == a0 && expand_quorum(cur, vals)[i].targetting == t0,
{
    assert forall|i: int| 0 <= i < expand_quorum(cur, vals).len() implies (
    #[trigger] expand_quorum(cur, vals)[i]).age_quorum == a0 && expand_quorum(
        cur,
        vals,
    )[i].targetting == t0 by {
        vstd::arithmetic::div_mod::lemma_mod_bound(i, cur.len() as int);
        assert(cur[i % (cur.len() as int)].age_quorum == a0);
    }
}

/// After the age pass, the attack dimension keeps its first value.
proof fn lemma_keeps_fields_age(cur: Seq<SimParams>, vals: Seq<bool>, t0: AttackType)
    requires
        cur.len() >= 1,
        forall|i: int| 0 <= i < cur.len() ==> (#[trigger] cur[i]).targetting == t0,
    ensures
        forall|i: int|
            0 <= i < expand_age(cur, vals).len() ==> (#[trigger] expand_age(cur, vals)[i])
                .targetting == t0,
{
    assert forall|i: int| 0 <= i < expand_age(cur, vals).len() implies (#[trigger] expand_age(
        cur,
        vals,
    )[i]).targetting == t0 by {
        vstd::arithmetic::div_mod::lemma_mod_bound(i, cur.len() as int);
        assert(cur[i % (cur.len() as int)].targetting == t0);
    }
}

} // verus!
