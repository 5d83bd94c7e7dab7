//! The update engine: per-node evaluation, chain validation, and the
//! once-per-tick pass that validates every root, evaluates the nodes that
//! can safely be evaluated in dependency order, and falls invalid root
//! actuators back to the hardware's automatic mode.

use vstd::prelude::*;
use vstd::arithmetic::div_mod::{
    lemma_div_is_ordered, lemma_div_multiples_vanish, lemma_div_multiples_vanish_fancy,
    lemma_div_nonincreasing, lemma_div_of0, lemma_div_pos_is_pos,
};
use crate::hardware::{cmd_node, is_speed, lookup, Command, HardwareError, Readings};
use crate::node::{
    coords_ok, has_id, idx_of, lemma_update_value, node_of, node_ok, wf, Aggregation, Coord, Id,
    Input, Linear, Node, NodeType, Nodes, RootNodes, Target,
};

verus! {

/// What can go wrong during a tick.
#[derive(Clone, Copy, PartialEq, Eq, Structural, Debug)]
pub enum UpdateError {
    /// A referenced identifier is absent from the graph: a defect of the
    /// surrounding system, never ignored.
    NodeNotFound,
    /// An input was expected to hold a computed value but did not: an
    /// ordering bug, unreachable through a full tick.
    ValueIsNone,
    /// The node itself is structurally unfit for evaluation.
    NodeIsInvalid,
    /// The hardware layer failed.
    Hardware(HardwareError),
    /// A node that needs at least one input was wired with none.
    NoInputData,
}

/// Piecewise-linear interpolation, clamped outside
/// [`min_temp`, `max_temp`]; the quotient is floored.
pub open spec fn linear_value(l: Linear, t: int) -> int {
    if t <= l.min_temp {
        l.min_speed as int
    } else if t >= l.max_temp {
        l.max_speed as int
    } else {
        l.min_speed + (t - l.min_temp) * (l.max_speed - l.min_speed) / (l.max_temp - l.min_temp)
    }
}

/// Two-point mapping with hysteresis: the previous output (or the idle
/// speed, before any output exists) is kept between the two points.
pub open spec fn target_value(tg: Target, t: int, prev: Option<i32>) -> int {
    if t >= tg.load_temp {
        tg.load_speed as int
    } else if t <= tg.idle_temp {
        tg.idle_speed as int
    } else {
        match prev {
            Some(v) => v as int,
            None => tg.idle_speed as int,
        }
    }
}

/// The least element of a non-empty value sequence.
pub open spec fn seq_min(vs: Seq<i32>) -> int
    decreases vs.len(),
{
    if vs.len() == 0 {
        0
    } else if vs.len() == 1 {
        vs[0] as int
    } else {
        let m = seq_min(vs.drop_last());
        if vs.last() < m {
            vs.last() as int
        } else {
            m
        }
    }
}

/// The greatest element of a non-empty value sequence.
pub open spec fn seq_max(vs: Seq<i32>) -> int
    decreases vs.len(),
{
    if vs.len() == 0 {
        0
    } else if vs.len() == 1 {
        vs[0] as int
    } else {
        let m = seq_max(vs.drop_last());
        if vs.last() > m {
            vs.last() as int
        } else {
            m
        }
    }
}

/// The sum of a value sequence.
pub open spec fn seq_sum(vs: Seq<i32>) -> int
    decreases vs.len(),
{
    if vs.len() == 0 {
        0
    } else {
        seq_sum(vs.drop_last()) + vs.last()
    }
}

/// The floor of the mean, written without dividing a negative number so
/// that it mirrors the unsigned machine division that computes it.
pub open spec fn avg_of(vs: Seq<i32>) -> int {
    let s = seq_sum(vs);
    let n = vs.len() as int;
    if s >= 0 {
        s / n
    } else {
        -(((-s) + n - 1) / n)
    }
}

/// How a `CustomTemp` node reduces its inputs.
pub open spec fn agg_value(k: Aggregation, vs: Seq<i32>) -> int {
    match k {
        Aggregation::Min => seq_min(vs),
        Aggregation::Max => seq_max(vs),
        Aggregation::Average => avg_of(vs),
    }
}

/// Linear interpolation between two curve points; the quotient is floored.
pub open spec fn interp(a: Coord, b: Coord, t: int) -> int {
    a.percent + (t - a.temp) * (b.percent - a.percent) / (b.temp - a.temp)
}

/// A user-drawn curve's output: clamped to the first point below it and to
/// the last point above it, interpolated between neighbouring points.
pub open spec fn curve_value(cs: Seq<Coord>, t: int) -> int
    decreases cs.len(),
{
    if cs.len() == 0 {
        0
    } else if t <= cs[0].temp {
        cs[0].percent as int
    } else if cs.len() == 1 {
        cs[0].percent as int
    } else if t < cs[1].temp {
        interp(cs[0], cs[1], t)
    } else {
        curve_value(cs.drop_first(), t)
    }
}

/// Resolving the already-computed values of the inputs `ins[k..]`, in
/// declaration order: a missing node is `NodeNotFound`, an empty cached
/// value is `ValueIsNone`.
pub open spec fn gather_from(s: Seq<Node>, ins: Seq<Input>, k: int) -> Result<
    Seq<i32>,
    UpdateError,
>
    decreases ins.len() - k,
{
    if k < 0 || k >= ins.len() {
        Ok(Seq::empty())
    } else if !has_id(s, ins[k].id) {
        Err(UpdateError::NodeNotFound)
    } else {
        match node_of(s, ins[k].id).value {
            None => Err(UpdateError::ValueIsNone),
            Some(v) => match gather_from(s, ins, k + 1) {
                Ok(rest) => Ok(seq![v] + rest),
                Err(e) => Err(e),
            },
        }
    }
}

/// What evaluating node `n` against the store `s` and the sensor snapshot
/// `rd` yields: its new cached value, and for a `Control` node the hardware
/// command it issues. Error precedence follows the walk itself: the inputs
/// are resolved first (`NodeNotFound`, `ValueIsNone`); a kind that requires
/// at least one input but was wired with none is `NoInputData`; unfit
/// kind-specific parameters are `NodeIsInvalid`.
pub open spec fn eval_result(n: Node, s: Seq<Node>, rd: Seq<(u64, i32)>) -> Result<
    (int, Option<Command>),
    UpdateError,
> {
    match gather_from(s, n.inputs@, 0) {
        Err(e) => Err(e),
        Ok(vals) => match n.node_type {
            NodeType::Flat(f) => Ok((f.value as int, None)),
            NodeType::Control(c) => if n.inputs@.len() == 0 {
                Err(UpdateError::NoInputData)
            } else {
                match c.hardware_id {
                    None => Err(UpdateError::NodeIsInvalid),
                    Some(h) => Ok(
                        (
                            vals[0] as int,
                            Some(Command::SetSpeed { id: n.id, hardware_id: h, speed: vals[0] }),
                        ),
                    ),
                }
            },
            NodeType::Fan(f) => match f.hardware_id {
                None => Err(UpdateError::NodeIsInvalid),
                Some(h) => match lookup(rd, h) {
                    None => Err(UpdateError::Hardware(HardwareError::SensorNotFound)),
                    Some(v) => Ok((v as int, None)),
                },
            },
            NodeType::Temp(t) => match t.hardware_id {
                None => Err(UpdateError::NodeIsInvalid),
                Some(h) => match lookup(rd, h) {
                    None => Err(UpdateError::Hardware(HardwareError::SensorNotFound)),
                    Some(v) => Ok((v as int, None)),
                },
            },
            NodeType::CustomTemp(ct) => if n.inputs@.len() == 0 {
                Err(UpdateError::NoInputData)
            } else {
                Ok((agg_value(ct.kind, vals), None))
            },
            NodeType::Linear(l) => if n.inputs@.len() == 0 {
                Err(UpdateError::NoInputData)
            } else if l.min_speed > l.max_speed {
                Err(UpdateError::NodeIsInvalid)
            } else {
                Ok((linear_value(l, vals[0] as int), None))
            },
            NodeType::Target(tg) => if n.inputs@.len() == 0 {
                Err(UpdateError::NoInputData)
            } else {
                Ok((target_value(tg, vals[0] as int, n.value), None))
            },
            NodeType::Graph(g) => if n.inputs@.len() == 0 {
                Err(UpdateError::NoInputData)
            } else if g.coords@.len() == 0 || !coords_ok(g.coords@) {
                Err(UpdateError::NodeIsInvalid)
            } else {
                Ok((curve_value(g.coords@, vals[0] as int), None))
            },
        },
    }
}

fn compute_linear(l: &Linear, t: i32) -> (r: i32)
    requires
        l.min_speed <= l.max_speed,
    ensures
        r as int == linear_value(*l, t as int),
{
    if t <= l.min_temp as i32 {
        l.min_speed as i32
    } else if t >= l.max_temp as i32 {
        l.max_speed as i32
    } else {
        let tt = t as u32;
        let dt = tt - l.min_temp as u32;
        let ds = l.max_speed as u32 - l.min_speed as u32;
        proof {
            vstd::arithmetic::mul::lemma_mul_upper_bound(dt as int, 255, ds as int, 255);
        }
        let num = dt * ds;
        let den = l.max_temp as u32 - l.min_temp as u32;
        let q = num / den;
        proof {
            lemma_div_is_ordered(num as int, 65025int, den as int);
            lemma_div_nonincreasing(65025int, den as int);
            lemma_div_pos_is_pos(num as int, den as int);
        }
        (l.min_speed as u32 + q) as i32
    }
}

fn compute_target(tg: &Target, t: i32, prev: Option<i32>) -> (r: i32)
    ensures
        r as int == target_value(*tg, t as int, prev),
{
    if t >= tg.load_temp as i32 {
        tg.load_speed as i32
    } else if t <= tg.idle_temp as i32 {
        tg.idle_speed as i32
    } else {
        match prev {
            Some(v) => v,
            None => tg.idle_speed as i32,
        }
    }
}

fn agg_min(vals: &Vec<i32>) -> (r: i32)
    requires
        vals@.len() >= 1,
    ensures
        r as int == seq_min(vals@),
{
    let mut acc = vals[0];
    let mut k: usize = 1;
    proof {
        assert(vals@.take(1) =~= seq![vals@[0]]);
    }
    while k < vals.len()
        invariant
            1 <= k <= vals@.len(),
            acc as int == seq_min(vals@.take(k as int)),
        decreases vals@.len() - k,
    {
        proof {
            assert(vals@.take(k as int + 1).drop_last() =~= vals@.take(k as int));
            assert(vals@.take(k as int + 1).last() == vals@[k as int]);
        }
        if vals[k] < acc {
            acc = vals[k];
        }
        k += 1;
    }
    proof {
        assert(vals@.take(vals@.len() as int) =~= vals@);
    }
    acc
}

fn agg_max(vals: &Vec<i32>) -> (r: i32)
    requires
        vals@.len() >= 1,
    ensures
        r as int == seq_max(vals@),
{
    let mut acc = vals[0];
    let mut k: usize = 1;
    proof {
        assert(vals@.take(1) =~= seq![vals@[0]]);
    }
    while k < vals.len()
        invariant
            1 <= k <= vals@.len(),
            acc as int == seq_max(vals@.take(k as int)),
        decreases vals@.len() - k,
    {
        proof {
            assert(vals@.take(k as int + 1).drop_last() =~= vals@.take(k as int));
            assert(vals@.take(k as int + 1).last() == vals@[k as int]);
        }
        if vals[k] > acc {
            acc = vals[k];
        }
        k += 1;
    }
    proof {
        assert(vals@.take(vals@.len() as int) =~= vals@);
    }
    acc
}

fn agg_avg(vals: &Vec<i32>) -> (r: i32)
    requires
        vals@.len() >= 1,
    ensures
        r as int == avg_of(vals@),
{
    let mut acc: i128 = 0;
    let mut k: usize = 0;
    proof {
        assert(vals@.take(0) =~= Seq::<i32>::empty());
    }
    while k < vals.len()
        invariant
            k <= vals@.len(),
            acc as int == seq_sum(vals@.take(k as int)),
            -0x8000_0000 * (k as int) <= acc as int <= 0x7fff_ffff * (k as int),
        decreases vals@.len() - k,
    {
        proof {
            assert(vals@.take(k as int + 1).drop_last() =~= vals@.take(k as int));
            assert(vals@.take(k as int + 1).last() == vals@[k as int]);
        }
        acc = acc + vals[k] as i128;
        k += 1;
    }
    proof {
        assert(vals@.take(vals@.len() as int) =~= vals@);
    }
    let n = vals.len();
    let ghost ni = n as int;
    if acc >= 0 {
        let q = (acc as u128) / (n as u128);
        proof {
            assert(acc as int <= ni * 0x7fff_ffff) by {
                vstd::arithmetic::mul::lemma_mul_is_commutative(0x7fff_ffff, ni);
            }
            lemma_div_is_ordered(acc as int, ni * 0x7fff_ffff, ni);
            lemma_div_multiples_vanish(0x7fff_ffff, ni);
            lemma_div_pos_is_pos(acc as int, ni);
        }
        q as i32
    } else {
        let m = (-acc) as u128;
        let q = (m + (n as u128 - 1)) / (n as u128);
        proof {
            assert(m as int <= ni * 0x8000_0000) by {
                vstd::arithmetic::mul::lemma_mul_is_commutative(0x8000_0000, ni);
            }
            lemma_div_is_ordered(m as int + ni - 1, ni * 0x8000_0000 + ni - 1, ni);
            lemma_div_multiples_vanish_fancy(0x8000_0000, ni - 1, ni);
            lemma_div_pos_is_pos(m as int + ni - 1, ni);
        }
        let qi: i128 = -(q as i128);
        qi as i32
    }
}

#[verifier::rlimit(50)]
fn compute_curve(cs: &Vec<Coord>, t: i32) -> (r: i32)
    requires
        cs@.len() >= 1,
        coords_ok(cs@),
    ensures
        r as int == curve_value(cs@, t as int),
{
    if t <= cs[0].temp as i32 {
        return cs[0].percent as i32;
    }
    let mut k: usize = 0;
    proof {
        assert(cs@.skip(0) =~= cs@);
    }
    while k < cs.len() - 1
        invariant
            cs@.len() >= 1,
            coords_ok(cs@),
            k < cs@.len(),
            t as int >= cs@[k as int].temp,
            curve_value(cs@, t as int) == curve_value(cs@.skip(k as int), t as int),
        decreases cs@.len() - k,
    {
        proof {
            assert(cs@.skip(k as int)[0] == cs@[k as int]);
            assert(cs@.skip(k as int)[1] == cs@[k as int + 1]);
        }
        if t < cs[k + 1].temp as i32 {
            let a = cs[k];
            let b = cs[k + 1];
            let tt = t as u32;
            let dt = tt - a.temp as u32;
            let ds = b.percent as u32 - a.percent as u32;
            proof {
                vstd::arithmetic::mul::lemma_mul_upper_bound(dt as int, 255, ds as int, 255);
            }
            let num = dt * ds;
            let den = b.temp as u32 - a.temp as u32;
            let q = num / den;
            proof {
                lemma_div_is_ordered(num as int, 65025int, den as int);
                lemma_div_nonincreasing(65025int, den as int);
                lemma_div_pos_is_pos(num as int, den as int);
                if t as int == a.temp {
                    assert(num as int == 0) by (nonlinear_arith)
                        requires dt as int == 0, num as int == (dt as int) * (ds as int);
                    lemma_div_of0(den as int);
                    assert(q == 0);
                }
            }
            return (a.percent as u32 + q) as i32;
        }
        proof {
            assert(cs@.skip(k as int).drop_first() =~= cs@.skip(k as int + 1));
        }
        k += 1;
    }
    proof {
        assert(cs@.skip(k as int)[0] == cs@[k as int]);
        assert(cs@.skip(k as int).len() == 1);
    }
    cs[k].percent as i32
}

impl Node {
        pub fn update(&self, nodes: &Nodes, readings: &Readings) -> (r: Result<
        (i32, Option<Command>),
        UpdateError,
    >)
        requires
            wf(nodes@),
        ensures
            match (r, eval_result(*self, nodes@, readings@)) {
                (Ok((v, c)), Ok((sv, sc))) => v as int == sv && c == sc,
                (Err(e), Err(se)) => e == se,
                _ => false,
            },
    {
        let mut vals: Vec<i32> = Vec::new();
        let mut k: usize = 0;
        proof {
            let g0 = gather_from(nodes@, self.inputs@, 0);
            if g0 is Ok {
                assert(Seq::<i32>::empty() + g0->Ok_0 =~= g0->Ok_0);
            }
        }
        while k < self.inputs.len()
            invariant
                wf(nodes@),
                k <= self.inputs@.len(),
                vals@.len() == k,
                gather_from(nodes@, self.inputs@, 0) == prepend(
                    vals@,
                    gather_from(nodes@, self.inputs@, k as int),
                ),
            decreases self.inputs@.len() - k,
        {
            let inp_id = self.inputs[k].id;
            match nodes.get(inp_id) {
                None => {
                    return Err(UpdateError::NodeNotFound);
                },
                Some(n) => match n.value {
                    None => {
                        return Err(UpdateError::ValueIsNone);
                    },
                    Some(v) => {
                        proof {
                            let rest = gather_from(nodes@, self.inputs@, k as int + 1);
                            if rest is Ok {
                                assert(vals@ + (seq![v] + rest->Ok_0) =~= (vals@ + seq![v])
                                    + rest->Ok_0);
                                assert(vals@.push(v) =~= vals@ + seq![v]);
                            }
                        }
                        vals.push(v);
                    },
                },
            }
            k += 1;
        }
        proof {
            assert(gather_from(nodes@, self.inputs@, k as int) == Ok::<Seq<i32>, UpdateError>(
                Seq::empty(),
            ));
            assert(vals@ + Seq::<i32>::empty() =~= vals@);
            assert(gather_from(nodes@, self.inputs@, 0) == Ok::<Seq<i32>, UpdateError>(vals@));
        }
        match &self.node_type {
            NodeType::Flat(f) => Ok((f.value as i32, None)),
            NodeType::Control(c) => {
                if self.inputs.len() == 0 {
                    return Err(UpdateError::NoInputData);
                }
                match c.hardware_id {
                    None => Err(UpdateError::NodeIsInvalid),
                    Some(h) => {
                        let v = vals[0];
                        Ok((v, Some(Command::SetSpeed { id: self.id, hardware_id: h, speed: v })))
                    },
                }
            },
            NodeType::Fan(f) => {
                match f.hardware_id {
                    None => Err(UpdateError::NodeIsInvalid),
                    Some(h) => match readings.get(h) {
                        None => Err(UpdateError::Hardware(HardwareError::SensorNotFound)),
                        Some(v) => Ok((v, None)),
                    },
                }
            },
            NodeType::Temp(t) => {
                match t.hardware_id {
                    None => Err(UpdateError::NodeIsInvalid),
                    Some(h) => match readings.get(h) {
                        None => Err(UpdateError::Hardware(HardwareError::SensorNotFound)),
                        Some(v) => Ok((v, None)),
                    },
                }
            },
            NodeType::CustomTemp(ct) => {
                if self.inputs.len() == 0 {
                    return Err(UpdateError::NoInputData);
                }
                let v = match ct.kind {
                    Aggregation::Min => agg_min(&vals),
                    Aggregation::Max => agg_max(&vals),
                    Aggregation::Average => agg_avg(&vals),
                };
                Ok((v, None))
            },
            NodeType::Linear(l) => {
                if self.inputs.len() == 0 {
                    return Err(UpdateError::NoInputData);
                }
                if l.min_speed > l.max_speed {
                    return Err(UpdateError::NodeIsInvalid);
                }
                Ok((compute_linear(l, vals[0]), None))
            },
            NodeType::Target(tg) => {
                if self.inputs.len() == 0 {
                    return Err(UpdateError::NoInputData);
                }
                Ok((compute_target(tg, vals[0], self.value), None))
            },
            NodeType::Graph(g) => {
                if self.inputs.len() == 0 {
                    return Err(UpdateError::NoInputData);
                }
                if g.coords.len() == 0 {
                    return Err(UpdateError::NodeIsInvalid);
                }
                if !crate::node::coords_sorted(&g.coords) {
                    return Err(UpdateError::NodeIsInvalid);
                }
                Ok((compute_curve(&g.coords, vals[0]), None))
            },
        }
    }
}

/// Prefixing already-resolved values onto the rest of a gather.
spec fn prepend(vs: Seq<i32>, g: Result<Seq<i32>, UpdateError>) -> Result<
    Seq<i32>,
    UpdateError,
> {
    match g {
        Ok(rest) => Ok(vs + rest),
        Err(e) => Err(e),
    }
}

/// Validity of a node's entire upstream chain, checked with a descent
/// budget: `None` means a referenced node is missing from the store (a hard
/// error); `Some(false)` means some node on the chain fails its structural
/// check, or the budget ran out (which, with a budget of the store's size,
/// only a cycle can cause); `Some(true)` means the whole chain is sound.
pub open spec fn chain_ok(s: Seq<Node>, id: Id, fuel: nat) -> Option<bool>
    decreases fuel, 0int, 0int,
{
    if !has_id(s, id) {
        None
    } else if !node_ok(node_of(s, id)) {
        Some(false)
    } else if fuel == 0 {
        Some(false)
    } else {
        chain_ok_inputs(s, node_of(s, id).inputs@, 0, (fuel - 1) as nat)
    }
}

/// Chain validity of the inputs `ins[k..]`, each under budget `fuel`, with
/// the same short-circuiting as the walk itself.
pub open spec fn chain_ok_inputs(s: Seq<Node>, ins: Seq<Input>, k: int, fuel: nat) -> Option<bool>
    decreases fuel, 1int, ins.len() - k,
{
    if k < 0 || k >= ins.len() {
        Some(true)
    } else {
        match chain_ok(s, ins[k].id, fuel) {
            None => None,
            Some(false) => Some(false),
            Some(true) => chain_ok_inputs(s, ins, k + 1, fuel),
        }
    }
}

/// Chain validity with the budget every tick uses: one level per node in
/// the store, enough for any acyclic chain.
pub open spec fn chain_valid(s: Seq<Node>, id: Id) -> Option<bool> {
    chain_ok(s, id, s.len() as nat)
}


/// A chain found sound under some descent budget stays sound under any
/// larger one.
pub proof fn lemma_chain_ok_mono(s: Seq<Node>, id: Id, f1: nat, f2: nat)
    requires
        chain_ok(s, id, f1) == Some(true),
        f1 <= f2,
    ensures
        chain_ok(s, id, f2) == Some(true),
    decreases f1, 0int, 0int,
{
    lemma_chain_ok_inputs_mono(
        s,
        node_of(s, id).inputs@,
        0,
        (f1 - 1) as nat,
        (f2 - 1) as nat,
    );
}

proof fn lemma_chain_ok_inputs_mono(s: Seq<Node>, ins: Seq<Input>, k: int, f1: nat, f2: nat)
    requires
        chain_ok_inputs(s, ins, k, f1) == Some(true),
        f1 <= f2,
    ensures
        chain_ok_inputs(s, ins, k, f2) == Some(true),
    decreases f1, 1int, ins.len() - k,
{
    if 0 <= k < ins.len() {
        lemma_chain_ok_mono(s, ins[k].id, f1, f2);
        lemma_chain_ok_inputs_mono(s, ins, k + 1, f1, f2);
    }
}

/// Membership of `tgt` in the dependency chain rooted at `id`.
pub open spec fn in_chain(s: Seq<Node>, id: Id, tgt: Id, fuel: nat) -> bool
    decreases fuel,
{
    id == tgt || (fuel > 0 && has_id(s, id) && exists|kk: int|
        0 <= kk < node_of(s, id).inputs@.len() && in_chain(
            s,
            #[trigger] node_of(s, id).inputs@[kk].id,
            tgt,
            (fuel - 1) as nat,
        ))
}

/// Membership of `x` in the chain rooted at `root`, kept opaque so that the
/// engine's quantified facts about whole traces do not interact with
/// `in_chain`'s own recursion.
#[verifier::opaque]
pub open spec fn chain_member(s: Seq<Node>, root: Id, x: Id, fuel: nat) -> bool {
    in_chain(s, root, x, fuel)
}

proof fn lemma_chain_member_self(s: Seq<Node>, x: Id, fuel: nat)
    ensures
        chain_member(s, x, x, fuel),
{
    reveal(chain_member);
}

proof fn lemma_chain_member_lift(s: Seq<Node>, parent: Id, kk: int, x: Id, fuel: nat)
    requires
        fuel >= 1,
        has_id(s, parent),
        0 <= kk < node_of(s, parent).inputs@.len(),
        chain_member(s, node_of(s, parent).inputs@[kk].id, x, (fuel - 1) as nat),
    ensures
        chain_member(s, parent, x, fuel),
{
    reveal(chain_member);
    assert(in_chain(s, parent, x, fuel));
}

/// Every identifier in `t[from..]` names a structurally sound node of `s`.
pub open spec fn trace_nodes_ok(s: Seq<Node>, t: Seq<Id>, from: int) -> bool {
    forall|i: int| from <= i < t.len() ==> has_id(s, #[trigger] t[i]) && node_ok(node_of(s, t[i]))
}

/// `x` is named somewhere in `t[lo..]`.
pub open spec fn appears(t: Seq<Id>, lo: int, x: Id) -> bool {
    exists|j: int| lo <= j < t.len() && t[j] == x
}

/// Every input of every node named in `t[from..]` is named again later in
/// `t`: the pre-order shape of a validation trace, which reversal turns
/// into the inputs-first evaluation order.
pub open spec fn inputs_after(s: Seq<Node>, t: Seq<Id>, from: int) -> bool {
    forall|i: int, kk: int|
        #![trigger node_of(s, t[i]).inputs@[kk]]
        from <= i < t.len() && 0 <= kk < node_of(s, t[i]).inputs@.len() ==> appears(
            t,
            i + 1,
            node_of(s, t[i]).inputs@[kk].id,
        )
}

/// What appears in a trace still appears after more entries follow it.
proof fn lemma_appears_extend(a: Seq<Id>, b: Seq<Id>, lo: int, x: Id)
    requires
        0 <= lo,
        a.is_prefix_of(b),
        appears(a, lo, x),
    ensures
        appears(b, lo, x),
{
    let j = choose|j: int| lo <= j < a.len() && a[j] == x;
    assert(b.subrange(0, a.len() as int) =~= a);
    assert(b[j] == a[j]);
    assert(lo <= j < b.len() && b[j] == x);
}

proof fn lemma_appears_weaken(t: Seq<Id>, lo: int, lo2: int, x: Id)
    requires
        lo2 <= lo,
        appears(t, lo, x),
    ensures
        appears(t, lo2, x),
{
    let j = choose|j: int| lo <= j < t.len() && t[j] == x;
    assert(lo2 <= j < t.len() && t[j] == x);
}

/// A trace that satisfies `inputs_after` keeps satisfying it when a
/// suffix with the same property (relative to its own start) is appended.
proof fn lemma_inputs_after_extend(s: Seq<Node>, a: Seq<Id>, b: Seq<Id>, from: int)
    requires
        0 <= from,
        a.is_prefix_of(b),
        inputs_after(s, a, from),
        inputs_after(s, b, a.len() as int),
    ensures
        inputs_after(s, b, from),
{
    assert forall|i: int, kk: int|
        #![trigger node_of(s, b[i]).inputs@[kk]]
        from <= i < b.len() && 0 <= kk < node_of(s, b[i]).inputs@.len() implies appears(
        b,
        i + 1,
        node_of(s, b[i]).inputs@[kk].id,
    ) by {
        if i < a.len() {
            assert(b.subrange(0, a.len() as int) =~= a);
            assert(b[i] == a[i]);
            assert(appears(a, i + 1, node_of(s, a[i]).inputs@[kk].id));
            lemma_appears_extend(a, b, i + 1, node_of(s, a[i]).inputs@[kk].id);
        }
    }
}

proof fn lemma_prefix_refl(a: Seq<Id>)
    ensures
        a.is_prefix_of(a),
{
    assert(a.subrange(0, a.len() as int) =~= a);
}

proof fn lemma_prefix_push(a: Seq<Id>, x: Id)
    ensures
        a.is_prefix_of(a.push(x)),
{
    assert(a.push(x).subrange(0, a.len() as int) =~= a);
}

proof fn lemma_prefix_trans(a: Seq<Id>, b: Seq<Id>, c: Seq<Id>)
    requires
        a.is_prefix_of(b),
        b.is_prefix_of(c),
    ensures
        a.is_prefix_of(c),
{
    assert(c.subrange(0, a.len() as int) =~= a);
}

impl Node {
    /// Walks backward from this node through its input chain, confirming
    /// every ancestor is individually well-formed and present. Returns the
    /// verdict together with the visitation trace, in pre-order from this
    /// node toward the leaves; a missing ancestor is the hard error
    /// `NodeNotFound` instead of a verdict. The verdict equals
    /// `chain_valid(nodes@, self.id)`. On a positive verdict the trace
    /// covers the whole chain and nothing else — its entries are exactly
    /// the chain's members, all structurally sound, chain-valid, and each
    /// listed before its inputs. On a negative verdict the partial walk is
    /// discarded and the trace is empty.
    pub fn validate(&self, nodes: &Nodes) -> (r: Result<(bool, Vec<Id>), UpdateError>)
        requires
            wf(nodes@),
            has_id(nodes@, self.id),
            node_of(nodes@, self.id) == *self,
        ensures
            match r {
                Ok((b, t)) => chain_valid(nodes@, self.id) == Some(b) && (b ==> {
                    &&& trace_nodes_ok(nodes@, t@, 0)
                    &&& inputs_after(nodes@, t@, 0)
                    &&& forall|i: int|
                        0 <= i < t@.len() ==> chain_valid(nodes@, #[trigger] t@[i]) == Some(true)
                    &&& forall|i: int|
                        0 <= i < t@.len() ==> chain_member(
                            nodes@,
                            self.id,
                            #[trigger] t@[i],
                            nodes@.len() as nat,
                        )
                    &&& forall|tgt: Id|
                        in_chain(nodes@, self.id, tgt, nodes@.len() as nat) ==> appears(
                            t@,
                            0,
                            tgt,
                        )
                }) && (!b ==> t@ == Seq::<Id>::empty()),
                Err(e) => e == UpdateError::NodeNotFound && chain_valid(nodes@, self.id) is None,
            },
    {
        let mut trace: Vec<Id> = Vec::new();
        let fuel = nodes.len();
        match self.validate_rec(nodes, fuel, &mut trace) {
            Ok(true) => Ok((true, trace)),
            Ok(false) => {
                let empty: Vec<Id> = Vec::new();
                proof {
                    assert(empty@ =~= Seq::<Id>::empty());
                }
                Ok((false, empty))
            },
            Err(e) => Err(e),
        }
    }

    #[verifier::loop_isolation(false)]
    #[verifier::rlimit(100)]
    fn validate_rec(&self, nodes: &Nodes, fuel: usize, trace: &mut Vec<Id>) -> (r: Result<
        bool,
        UpdateError,
    >)
        requires
            wf(nodes@),
            has_id(nodes@, self.id),
            node_of(nodes@, self.id) == *self,
        ensures
            old(trace)@.is_prefix_of(final(trace)@),
            match r {
                Ok(b) => chain_ok(nodes@, self.id, fuel as nat) == Some(b),
                Err(e) => e == UpdateError::NodeNotFound && chain_ok(
                    nodes@,
                    self.id,
                    fuel as nat,
                ) is None,
            },
            r == Ok::<bool, UpdateError>(true) ==> {
                &&& trace_nodes_ok(nodes@, final(trace)@, old(trace)@.len() as int)
                &&& inputs_after(nodes@, final(trace)@, old(trace)@.len() as int)
                &&& forall|i: int|
                    old(trace)@.len() <= i < final(trace)@.len() ==> chain_ok(
                        nodes@,
                        #[trigger] final(trace)@[i],
                        fuel as nat,
                    ) == Some(true)
                &&& forall|i: int|
                    old(trace)@.len() <= i < final(trace)@.len() ==> chain_member(
                        nodes@,
                        self.id,
                        #[trigger] final(trace)@[i],
                        fuel as nat,
                    )
                &&& forall|tgt: Id|
                    in_chain(nodes@, self.id, tgt, fuel as nat) ==> appears(
                        final(trace)@,
                        old(trace)@.len() as int,
                        tgt,
                    )
            },
        decreases fuel,
    {
        proof {
            lemma_prefix_refl(trace@);
        }
        if !self.is_valid() {
            return Ok(false);
        }
        if fuel == 0 {
            return Ok(false);
        }
        let ghost base = trace@.len() as int;
        proof {
            lemma_prefix_push(trace@, self.id);
        }
        trace.push(self.id);
        let ghost fm1 = (fuel - 1) as nat;
        let mut k: usize = 0;
        while k < self.inputs.len()
            invariant
                k <= self.inputs@.len(),
                old(trace)@.is_prefix_of(trace@),
                trace@.len() > base,
                trace@[base] == self.id,
                trace_nodes_ok(nodes@, trace@, base),
                inputs_after(nodes@, trace@, base + 1),
                forall|i: int|
                    base < i < trace@.len() ==> chain_ok(
                        nodes@,
                        #[trigger] trace@[i],
                        fuel as nat,
                    ) == Some(true),
                forall|i: int|
                    base < i < trace@.len() ==> chain_member(
                        nodes@,
                        self.id,
                        #[trigger] trace@[i],
                        fuel as nat,
                    ),
                chain_ok_inputs(nodes@, self.inputs@, 0, fm1) == chain_ok_inputs(
                    nodes@,
                    self.inputs@,
                    k as int,
                    fm1,
                ),
                forall|kk: int|
                    #![trigger self.inputs@[kk]]
                    0 <= kk < k ==> appears(trace@, base + 1, self.inputs@[kk].id),
                forall|tgt: Id, kk: int|
                    0 <= kk < k && #[trigger] in_chain(nodes@, self.inputs@[kk].id, tgt, fm1)
                        ==> appears(trace@, base, tgt),
            decreases self.inputs@.len() - k,
        {
            let inp_id = self.inputs[k].id;
            match nodes.get(inp_id) {
                None => {
                    proof {
                        assert(chain_ok(nodes@, self.inputs@[k as int].id, fm1) is None);
                        assert(chain_ok_inputs(nodes@, self.inputs@, k as int, fm1) is None);
                        assert(chain_ok(nodes@, self.id, fuel as nat) is None);
                    }
                    return Err(UpdateError::NodeNotFound);
                },
                Some(n) => {
                    let ghost pre = trace@;
                    let res = n.validate_rec(nodes, fuel - 1, trace);
                    proof {
                        lemma_prefix_trans(old(trace)@, pre, trace@);
                        assert(n.id == inp_id);
                        assert((fuel - 1) as nat == fm1);
                        assert(forall|i: int| 0 <= i < pre.len() ==> #[trigger] trace@[i] == pre[i])
                            by {
                            assert(trace@.subrange(0, pre.len() as int) =~= pre);
                        }
                    }
                    match res {
                        Ok(true) => {
                            proof {
                                assert(chain_ok(nodes@, self.inputs@[k as int].id, fm1) == Some(
                                    true,
                                ));
                                assert(chain_ok_inputs(nodes@, self.inputs@, k as int, fm1)
                                    == chain_ok_inputs(nodes@, self.inputs@, k as int + 1, fm1));
                                assert forall|i: int|
                                    base <= i < trace@.len() implies has_id(
                                    nodes@,
                                    #[trigger] trace@[i],
                                ) && node_ok(node_of(nodes@, trace@[i])) by {
                                    if i < pre.len() {
                                        assert(trace@[i] == pre[i]);
                                    }
                                }
                                lemma_inputs_after_extend(nodes@, pre, trace@, base + 1);
                                assert forall|i: int|
                                    base < i < trace@.len() implies chain_ok(
                                    nodes@,
                                    #[trigger] trace@[i],
                                    fuel as nat,
                                ) == Some(true) by {
                                    if i < pre.len() {
                                        assert(trace@[i] == pre[i]);
                                    } else {
                                        assert(chain_ok(nodes@, trace@[i], fm1) == Some(true));
                                        lemma_chain_ok_mono(nodes@, trace@[i], fm1, fuel as nat);
                                    }
                                }
                                assert forall|i: int|
                                    base < i < trace@.len() implies chain_member(
                                    nodes@,
                                    self.id,
                                    #[trigger] trace@[i],
                                    fuel as nat,
                                ) by {
                                    if i < pre.len() {
                                        assert(trace@[i] == pre[i]);
                                    } else {
                                        assert(chain_member(nodes@, n.id, trace@[i], fm1));
                                        assert(node_of(nodes@, self.id).inputs@[k as int].id
                                            == n.id);
                                        lemma_chain_member_lift(
                                            nodes@,
                                            self.id,
                                            k as int,
                                            trace@[i],
                                            fuel as nat,
                                        );
                                    }
                                }
                                assert(in_chain(nodes@, n.id, n.id, fm1));
                                assert(appears(trace@, pre.len() as int, n.id));
                                assert forall|kk: int|
                                    #![trigger self.inputs@[kk]]
                                    0 <= kk < k + 1 implies appears(
                                    trace@,
                                    base + 1,
                                    self.inputs@[kk].id,
                                ) by {
                                    if kk < k {
                                        lemma_appears_extend(
                                            pre,
                                            trace@,
                                            base + 1,
                                            self.inputs@[kk].id,
                                        );
                                    } else {
                                        lemma_appears_weaken(
                                            trace@,
                                            pre.len() as int,
                                            base + 1,
                                            n.id,
                                        );
                                    }
                                }
                                assert forall|tgt: Id, kk: int|
                                    0 <= kk < k + 1 && #[trigger] in_chain(
                                        nodes@,
                                        self.inputs@[kk].id,
                                        tgt,
                                        fm1,
                                    ) implies appears(trace@, base, tgt) by {
                                    if kk < k {
                                        lemma_appears_extend(pre, trace@, base, tgt);
                                    } else {
                                        assert(in_chain(nodes@, n.id, tgt, fm1));
                                        assert(appears(trace@, pre.len() as int, tgt));
                                        lemma_appears_weaken(trace@, pre.len() as int, base, tgt);
                                    }
                                }
                            }
                        },
                        Ok(false) => {
                            proof {
                                assert(chain_ok(nodes@, self.inputs@[k as int].id, fm1) == Some(
                                    false,
                                ));
                                assert(chain_ok_inputs(nodes@, self.inputs@, k as int, fm1)
                                    == Some(false));
                                assert(chain_ok(nodes@, self.id, fuel as nat) == Some(false));
                            }
                            return Ok(false);
                        },
                        Err(e) => {
                            proof {
                                assert(chain_ok(nodes@, self.inputs@[k as int].id, fm1) is None);
                                assert(chain_ok_inputs(nodes@, self.inputs@, k as int, fm1)
                                    is None);
                                assert(chain_ok(nodes@, self.id, fuel as nat) is None);
                            }
                            return Err(e);
                        },
                    }
                },
            }
            k += 1;
        }
        proof {
            assert(chain_ok_inputs(nodes@, self.inputs@, k as int, fm1) == Some(true));
            assert(chain_ok(nodes@, self.id, fuel as nat) == Some(true));
            assert(node_of(nodes@, trace@[base]) == *self);
            assert forall|i: int|
                base <= i < trace@.len() implies chain_ok(
                nodes@,
                #[trigger] trace@[i],
                fuel as nat,
            ) == Some(true) by {
                if i == base {
                    assert(trace@[i] == self.id);
                }
            }
            assert forall|i: int|
                base <= i < trace@.len() implies chain_member(
                nodes@,
                self.id,
                #[trigger] trace@[i],
                fuel as nat,
            ) by {
                if i == base {
                    assert(trace@[i] == self.id);
                    lemma_chain_member_self(nodes@, self.id, fuel as nat);
                }
            }
            assert forall|i: int, kk: int|
                #![trigger node_of(nodes@, trace@[i]).inputs@[kk]]
                base <= i < trace@.len() && 0 <= kk < node_of(nodes@, trace@[i]).inputs@.len()
                implies appears(trace@, i + 1, node_of(nodes@, trace@[i]).inputs@[kk].id) by {
                if i == base {
                    assert(node_of(nodes@, trace@[i]).inputs@[kk] == self.inputs@[kk]);
                    assert(appears(trace@, base + 1, self.inputs@[kk].id));
                }
            }
            assert(inputs_after(nodes@, trace@, base));
            assert forall|tgt: Id| in_chain(nodes@, self.id, tgt, fuel as nat) implies appears(
                trace@,
                base,
                tgt,
            ) by {
                if tgt == self.id {
                    assert(base <= base < trace@.len() && trace@[base] == tgt);
                } else {
                    assert((fuel as nat - 1) as nat == fm1);
                    let kk = choose|kk: int|
                        0 <= kk < node_of(nodes@, self.id).inputs@.len() && in_chain(
                            nodes@,
                            #[trigger] node_of(nodes@, self.id).inputs@[kk].id,
                            tgt,
                            (fuel as nat - 1) as nat,
                        );
                    assert(in_chain(nodes@, self.inputs@[kk].id, tgt, fm1));
                }
            }
        }
        Ok(true)
    }
}

/// `x` is named somewhere in `t[..hi]`.
pub open spec fn appears_before(t: Seq<Id>, hi: int, x: Id) -> bool {
    exists|j: int| 0 <= j < hi && t[j] == x
}

/// Every input of every node named in `t` is named earlier in `t`: the
/// inputs-first shape of an evaluation plan. For every node evaluated in a
/// tick, each of its inputs appears strictly earlier in the order.
pub open spec fn inputs_before(s: Seq<Node>, t: Seq<Id>) -> bool {
    forall|i: int, kk: int|
        #![trigger node_of(s, t[i]).inputs@[kk]]
        0 <= i < t.len() && 0 <= kk < node_of(s, t[i]).inputs@.len() ==> appears_before(
            t,
            i,
            node_of(s, t[i]).inputs@[kk].id,
        )
}

/// Reversing a pre-order validation trace (each node before its inputs)
/// yields an evaluation order in which every node's inputs appear strictly
/// earlier than the node itself.
pub proof fn lemma_reverse_order(s: Seq<Node>, t: Seq<Id>, r: Seq<Id>)
    requires
        r.len() == t.len(),
        forall|i: int| 0 <= i < t.len() ==> #[trigger] r[i] == t[t.len() - 1 - i],
        inputs_after(s, t, 0),
    ensures
        inputs_before(s, r),
{
    assert forall|i: int, kk: int|
        #![trigger node_of(s, r[i]).inputs@[kk]]
        0 <= i < r.len() && 0 <= kk < node_of(s, r[i]).inputs@.len() implies appears_before(
        r,
        i,
        node_of(s, r[i]).inputs@[kk].id,
    ) by {
        let ti = t.len() - 1 - i;
        assert(r[i] == t[ti]);
        assert(appears(t, ti + 1, node_of(s, t[ti]).inputs@[kk].id));
        let j = choose|j: int| ti + 1 <= j < t.len() && t[j] == node_of(s, t[ti]).inputs@[kk].id;
        let rj = t.len() - 1 - j;
        assert(r[rj] == t[j]);
        assert(0 <= rj < i && r[rj] == node_of(s, r[i]).inputs@[kk].id);
    }
}

proof fn lemma_appears_reverse(t: Seq<Id>, r: Seq<Id>, x: Id)
    requires
        r.len() == t.len(),
        forall|i: int| 0 <= i < t.len() ==> #[trigger] r[i] == t[t.len() - 1 - i],
        appears(t, 0, x),
    ensures
        appears(r, 0, x),
{
    let j = choose|j: int| 0 <= j < t.len() && t[j] == x;
    assert(r[t.len() - 1 - j] == t[j]);
    assert(0 <= t.len() - 1 - j < r.len() && r[t.len() - 1 - j] == x);
}

proof fn lemma_appears_concat(a: Seq<Id>, b: Seq<Id>, x: Id)
    requires
        appears(b, 0, x),
    ensures
        appears(a + b, 0, x),
{
    let j = choose|j: int| 0 <= j < b.len() && b[j] == x;
    assert((a + b)[a.len() + j] == b[j]);
    assert(0 <= a.len() + j < (a + b).len() && (a + b)[a.len() + j] == x);
}

/// A trace whose own entries respect `inputs_after` keeps doing so when it
/// follows an arbitrary prefix.
proof fn lemma_inputs_after_shift(s: Seq<Node>, a: Seq<Id>, b: Seq<Id>)
    requires
        inputs_after(s, b, 0),
    ensures
        inputs_after(s, a + b, a.len() as int),
{
    let t = a + b;
    assert forall|i: int, kk: int|
        #![trigger node_of(s, t[i]).inputs@[kk]]
        a.len() <= i < t.len() && 0 <= kk < node_of(s, t[i]).inputs@.len() implies appears(
        t,
        i + 1,
        node_of(s, t[i]).inputs@[kk].id,
    ) by {
        let bi = i - a.len();
        assert(t[i] == b[bi]);
        assert(appears(b, bi + 1, node_of(s, b[bi]).inputs@[kk].id));
        let j = choose|j: int| bi + 1 <= j < b.len() && b[j] == node_of(s, b[bi]).inputs@[kk].id;
        assert(t[a.len() + j] == b[j]);
        assert(i + 1 <= a.len() + j < t.len() && t[a.len() + j] == node_of(
            s,
            t[i],
        ).inputs@[kk].id);
    }
}

proof fn lemma_contains_push<T>(s: Seq<T>, c: T, x: T)
    requires
        s.contains(x),
    ensures
        s.push(c).contains(x),
{
    let j = choose|j: int| 0 <= j < s.len() && s[j] == x;
    assert(s.push(c)[j] == x);
}

/// Two node stores of the same shape: same identifiers, wiring and kinds
/// position by position; only the cached values may differ.
pub open spec fn same_shape(a: Seq<Node>, b: Seq<Node>) -> bool {
    b.len() == a.len() && forall|i: int|
        0 <= i < a.len() ==> (#[trigger] b[i]).id == a[i].id && b[i].name == a[i].name && b[i].inputs
            == a[i].inputs && b[i].node_type == a[i].node_type
}

proof fn lemma_same_shape_lookup(a: Seq<Node>, b: Seq<Node>, id: Id)
    requires
        wf(a),
        same_shape(a, b),
        has_id(a, id),
    ensures
        wf(b),
        has_id(b, id),
        idx_of(b, id) == idx_of(a, id),
        node_of(b, id).id == node_of(a, id).id,
        node_of(b, id).inputs == node_of(a, id).inputs,
        node_of(b, id).node_type == node_of(a, id).node_type,
        node_ok(node_of(b, id)) == node_ok(node_of(a, id)),
{
    assert(wf(b)) by {
        assert(forall|i: int| 0 <= i < a.len() ==> (#[trigger] b[i]).id == a[i].id);
    }
    let i = idx_of(a, id);
    assert(0 <= i < a.len() && a[i].id == id);
    assert(b[i].id == id);
    assert(has_id(b, id));
    crate::node::lemma_node_of(b, i);
}

fn contains_id(v: &Vec<Id>, x: Id) -> (r: bool)
    ensures
        r == v@.contains(x),
{
    let mut k: usize = 0;
    while k < v.len()
        invariant
            k <= v@.len(),
            forall|j: int| 0 <= j < k ==> v@[j] != x,
        decreases v@.len() - k,
    {
        if v[k] == x {
            assert(v@.contains(x)) by {
                assert(v@[k as int] == x);
            }
            return true;
        }
        k += 1;
    }
    assert(!v@.contains(x));
    false
}

fn reverse_vec(v: &Vec<Id>) -> (r: Vec<Id>)
    ensures
        r@.len() == v@.len(),
        forall|i: int| 0 <= i < v@.len() ==> #[trigger] r@[i] == v@[v@.len() - 1 - i],
{
    let mut r: Vec<Id> = Vec::new();
    let mut k: usize = v.len();
    while k > 0
        invariant
            k <= v@.len(),
            r@.len() == v@.len() - k,
            forall|i: int| 0 <= i < r@.len() ==> #[trigger] r@[i] == v@[v@.len() - 1 - i],
        decreases k,
    {
        k -= 1;
        r.push(v[k]);
    }
    r
}

/// Once per tick, every input of an evaluated node already holds a value.
proof fn lemma_gather_ok(s: Seq<Node>, ins: Seq<Input>, k: int)
    requires
        0 <= k <= ins.len(),
        forall|kk: int|
            k <= kk < ins.len() ==> has_id(s, (#[trigger] ins[kk]).id) && node_of(
                s,
                ins[kk].id,
            ).value is Some,
    ensures
        gather_from(s, ins, k) is Ok,
    decreases ins.len() - k,
{
    if k < ins.len() {
        lemma_gather_ok(s, ins, k + 1);
    }
}

/// `x` lies on the chain of some root whose whole chain is valid: exactly
/// the nodes a tick evaluates.
pub open spec fn on_valid_chain(s: Seq<Node>, roots: Seq<Id>, x: Id) -> bool {
    exists|q: int|
        0 <= q < roots.len() && chain_valid(s, #[trigger] roots[q]) == Some(true) && chain_member(
            s,
            roots[q],
            x,
            s.len() as nat,
        )
}

/// Every sensor that a `Fan` or `Temp` node on some valid root's chain
/// refers to has a reading in the snapshot: all a tick ever reads.
pub open spec fn chain_readings_ok(s: Seq<Node>, roots: Seq<Id>, rd: Seq<(u64, i32)>) -> bool {
    forall|x: Id|
        #[trigger] on_valid_chain(s, roots, x) && has_id(s, x) ==> match node_of(s, x).node_type {
            NodeType::Fan(f) => f.hardware_id is Some ==> lookup(rd, f.hardware_id.unwrap())
                is Some,
            NodeType::Temp(t) => t.hardware_id is Some ==> lookup(rd, t.hardware_id.unwrap())
                is Some,
            _ => true,
        }
}

/// Node `x` holds exactly the value its evaluation yields: evaluated as the
/// pre-tick node (same wiring and kind, pre-tick cached value) against the
/// final store — sound because every input of `x` is evaluated before `x`
/// and written only once — and the sensor snapshot.
pub open spec fn value_settled(s0: Seq<Node>, sf: Seq<Node>, rd: Seq<(u64, i32)>, x: Id) -> bool {
    &&& has_id(sf, x)
    &&& match eval_result(node_of(s0, x), sf, rd) {
        Ok((v, c)) => match node_of(sf, x).value {
            Some(fv) => fv as int == v,
            None => false,
        },
        Err(_) => false,
    }
}

/// The command node `x`'s evaluation issues, if any, is among `cmds`.
pub open spec fn cmd_settled(
    s0: Seq<Node>,
    sf: Seq<Node>,
    rd: Seq<(u64, i32)>,
    cmds: Seq<Command>,
    x: Id,
) -> bool {
    match eval_result(node_of(s0, x), sf, rd) {
        Ok((v, c)) => match c {
            Some(cmd) => cmds.contains(cmd),
            None => true,
        },
        Err(_) => true,
    }
}

/// Input resolution reads only the referenced nodes' presence and values.
proof fn lemma_gather_unchanged(s: Seq<Node>, s2: Seq<Node>, ins: Seq<Input>, k: int)
    requires
        forall|kk: int|
            k <= kk < ins.len() ==> has_id(s2, (#[trigger] ins[kk]).id) == has_id(s, ins[kk].id)
                && (has_id(s, ins[kk].id) ==> node_of(s2, ins[kk].id).value == node_of(
                s,
                ins[kk].id,
            ).value),
    ensures
        gather_from(s2, ins, k) == gather_from(s, ins, k),
    decreases ins.len() - k,
{
    if 0 <= k < ins.len() {
        lemma_gather_unchanged(s, s2, ins, k + 1);
    }
}

/// Evaluation depends on the store only through input resolution.
proof fn lemma_eval_result_gather(n: Node, s: Seq<Node>, s2: Seq<Node>, rd: Seq<(u64, i32)>)
    requires
        gather_from(s2, n.inputs@, 0) == gather_from(s, n.inputs@, 0),
    ensures
        eval_result(n, s2, rd) == eval_result(n, s, rd),
{
}

/// Evaluation reads only a node's identity, wiring, kind and cached value.
proof fn lemma_eval_result_same_fields(n1: Node, n2: Node, s: Seq<Node>, rd: Seq<(u64, i32)>)
    requires
        n1.id == n2.id,
        n1.inputs == n2.inputs,
        n1.node_type == n2.node_type,
        n1.value == n2.value,
    ensures
        eval_result(n1, s, rd) == eval_result(n2, s, rd),
{
}

proof fn lemma_on_valid_chain_intro(s: Seq<Node>, roots: Seq<Id>, q: int, x: Id)
    requires
        0 <= q < roots.len(),
        chain_valid(s, roots[q]) == Some(true),
        chain_member(s, roots[q], x, s.len() as nat),
    ensures
        on_valid_chain(s, roots, x),
{
}

/// The update engine. It holds no state of its own: each call to `graph`
/// is one full tick.
pub struct Update {}

impl Default for Update {
    fn default() -> (r: Self)
        ensures
            r == (Update {  }),
    {
        Self::new()
    }
}

impl Update {
    pub fn new() -> (r: Self)
        ensures
            r == (Update {  }),
    {
        Update {  }
    }

    /// The engine caches nothing between ticks; kept for callers that
    /// expect to reset one.
    pub fn clear_cache(&mut self) {
    }

    /// One full control tick over the graph. For every root, in order:
    /// validate its chain; the traces of the roots that validate, reversed,
    /// form the evaluation plan, walked once with already-evaluated nodes
    /// skipped, each result written into the node's cached value; a
    /// `Control` node contributes the hardware command it issues. Roots
    /// whose chain is invalid contribute nothing and their control is
    /// instead told to fall back to the hardware's automatic mode.
    ///
    /// A chain with a missing node is the hard error `NodeNotFound`, raised
    /// if and only if some root's chain has one; a sensor without a reading
    /// is `Hardware`; `ValueIsNone` can never come out of a tick, because
    /// the plan puts every input before its consumer. When every root's
    /// verdict is decided and every sensor on a valid chain has a reading,
    /// the tick returns `Ok`. Only nodes on valid roots' chains are ever
    /// written, on `Ok` and on error alike, and each such node ends holding
    /// exactly the value its evaluation yields (`value_settled`) — so, for
    /// example, a valid `Control` root's computed speed command is in the
    /// returned list (`cmd_settled`). Speed commands go only to `Control`
    /// nodes on valid chains, at most one per node, however many roots
    /// share it.
    #[verifier::loop_isolation(false)]
    #[verifier::rlimit(100)]
    pub fn graph(&mut self, nodes: &mut Nodes, readings: &Readings, root_nodes: &RootNodes) -> (r:
        Result<Vec<Command>, UpdateError>)
        requires
            wf(old(nodes)@),
        ensures
            wf(final(nodes)@),
            same_shape(old(nodes)@, final(nodes)@),
            forall|i: int|
                0 <= i < old(nodes)@.len() ==> (#[trigger] final(nodes)@[i]).value == old(
                    nodes,
                )@[i].value || (on_valid_chain(old(nodes)@, root_nodes@, old(nodes)@[i].id)
                    && value_settled(old(nodes)@, final(nodes)@, readings@, old(nodes)@[i].id)),
            (r == Err::<Vec<Command>, UpdateError>(UpdateError::NodeNotFound)) <==> (exists|q: int|
                0 <= q < root_nodes@.len() && chain_valid(
                    old(nodes)@,
                    #[trigger] root_nodes@[q],
                ) is None),
            ((forall|q: int|
                0 <= q < root_nodes@.len() ==> chain_valid(
                    old(nodes)@,
                    #[trigger] root_nodes@[q],
                ) is Some) && chain_readings_ok(old(nodes)@, root_nodes@, readings@)) ==> r is Ok,
            match r {
                Ok(cmds) => {
                    &&& forall|q: int, tgt: Id|
                        0 <= q < root_nodes@.len() && chain_valid(
                            old(nodes)@,
                            #[trigger] root_nodes@[q],
                        ) == Some(true) && #[trigger] in_chain(
                            old(nodes)@,
                            root_nodes@[q],
                            tgt,
                            old(nodes)@.len() as nat,
                        ) ==> value_settled(old(nodes)@, final(nodes)@, readings@, tgt)
                            && cmd_settled(old(nodes)@, final(nodes)@, readings@, cmds@, tgt)
                    &&& forall|x: int, y: int|
                        0 <= x < y < cmds@.len() && is_speed(#[trigger] cmds@[x]) && is_speed(
                            #[trigger] cmds@[y],
                        ) ==> cmd_node(cmds@[x]) != cmd_node(cmds@[y])
                    &&& forall|x: int|
                        0 <= x < cmds@.len() && is_speed(#[trigger] cmds@[x]) ==> chain_valid(
                            old(nodes)@,
                            cmd_node(cmds@[x]),
                        ) == Some(true) && on_valid_chain(
                            old(nodes)@,
                            root_nodes@,
                            cmd_node(cmds@[x]),
                        ) && node_of(old(nodes)@, cmd_node(cmds@[x])).node_type is Control
                    &&& forall|q: int|
                        0 <= q < root_nodes@.len() && chain_valid(
                            old(nodes)@,
                            #[trigger] root_nodes@[q],
                        ) == Some(false) ==> match node_of(old(nodes)@, root_nodes@[q]).node_type {
                            NodeType::Control(c) => c.hardware_id is Some ==> cmds@.contains(
                                Command::SetAuto {
                                    id: root_nodes@[q],
                                    hardware_id: c.hardware_id.unwrap(),
                                },
                            ),
                            _ => true,
                        }
                },
                Err(e) => (e == UpdateError::NodeNotFound || e is Hardware) && (e is Hardware
                    ==> !chain_readings_ok(old(nodes)@, root_nodes@, readings@)),
            },
    {
        let ghost s0 = nodes@;
        let fuel = nodes.len();
        let mut to_update: Vec<Id> = Vec::new();
        let mut fallback: Vec<Id> = Vec::new();
        let mut ri: usize = 0;
        while ri < root_nodes.len()
            invariant
                nodes@ == s0,
                ri <= root_nodes@.len(),
                trace_nodes_ok(s0, to_update@, 0),
                inputs_after(s0, to_update@, 0),
                forall|i: int|
                    0 <= i < to_update@.len() ==> chain_valid(s0, #[trigger] to_update@[i])
                        == Some(true) && on_valid_chain(s0, root_nodes@, to_update@[i]),
                forall|q: int, tgt: Id|
                    0 <= q < ri && chain_valid(s0, #[trigger] root_nodes@[q]) == Some(true)
                        && #[trigger] in_chain(s0, root_nodes@[q], tgt, s0.len() as nat)
                        ==> appears(to_update@, 0, tgt),
                forall|q: int| 0 <= q < ri ==> chain_valid(s0, #[trigger] root_nodes@[q]) is Some,
                forall|q: int|
                    0 <= q < ri && chain_valid(s0, #[trigger] root_nodes@[q]) == Some(false)
                        ==> fallback@.contains(root_nodes@[q]),
                forall|x: Id|
                    #[trigger] fallback@.contains(x) ==> chain_valid(s0, x) == Some(false)
                        && has_id(s0, x),
            decreases root_nodes@.len() - ri,
        {
            let root_id = root_nodes[ri];
            match nodes.get(root_id) {
                None => {
                    proof {
                        assert(chain_valid(s0, root_nodes@[ri as int]) is None);
                    }
                    return Err(UpdateError::NodeNotFound);
                },
                Some(root) => {
                    proof {
                        assert(root.id == root_id);
                    }
                    match root.validate(nodes) {
                        Err(e) => {
                            proof {
                                assert(chain_valid(s0, root_nodes@[ri as int]) is None);
                            }
                            return Err(e);
                        },
                        Ok((false, _tr)) => {
                            proof {
                                assert forall|x: Id| #[trigger]
                                    fallback@.push(root_id).contains(x) implies chain_valid(s0, x)
                                    == Some(false) && has_id(s0, x) by {
                                    if x != root_id {
                                        let j = choose|j: int|
                                            0 <= j < fallback@.push(root_id).len() && fallback@.push(
                                                root_id,
                                            )[j] == x;
                                        assert(fallback@[j] == x);
                                        assert(fallback@.contains(x));
                                    } else {
                                        assert(fallback@.push(root_id).contains(x));
                                    }
                                }
                                assert forall|q: int|
                                    0 <= q < ri + 1 && chain_valid(s0, #[trigger] root_nodes@[q])
                                        == Some(false) implies fallback@.push(root_id).contains(
                                    root_nodes@[q],
                                ) by {
                                    if q < ri {
                                        lemma_contains_push(fallback@, root_id, root_nodes@[q]);
                                    } else {
                                        assert(fallback@.push(root_id)[fallback@.len() as int]
                                            == root_id);
                                    }
                                }
                            }
                            fallback.push(root_id);
                        },
                        Ok((true, mut tr)) => {
                            let ghost pre = to_update@;
                            let ghost trv = tr@;
                            to_update.append(&mut tr);
                            proof {
                                assert(to_update@ == pre + trv);
                                assert(pre.is_prefix_of(to_update@)) by {
                                    assert(to_update@.subrange(0, pre.len() as int) =~= pre);
                                }
                                assert forall|i: int|
                                    0 <= i < to_update@.len() implies has_id(
                                    s0,
                                    #[trigger] to_update@[i],
                                ) && node_ok(node_of(s0, to_update@[i])) && chain_valid(
                                    s0,
                                    to_update@[i],
                                ) == Some(true) && on_valid_chain(
                                    s0,
                                    root_nodes@,
                                    to_update@[i],
                                ) by {
                                    if i < pre.len() {
                                        assert(to_update@[i] == pre[i]);
                                    } else {
                                        assert(to_update@[i] == trv[i - pre.len()]);
                                        assert(chain_member(
                                            s0,
                                            root.id,
                                            to_update@[i],
                                            s0.len() as nat,
                                        ));
                                        lemma_on_valid_chain_intro(
                                            s0,
                                            root_nodes@,
                                            ri as int,
                                            to_update@[i],
                                        );
                                    }
                                }
                                lemma_inputs_after_shift(s0, pre, trv);
                                lemma_inputs_after_extend(s0, pre, to_update@, 0);
                                assert forall|q: int, tgt: Id|
                                    0 <= q < ri + 1 && chain_valid(s0, #[trigger] root_nodes@[q])
                                        == Some(true) && #[trigger] in_chain(
                                        s0,
                                        root_nodes@[q],
                                        tgt,
                                        s0.len() as nat,
                                    ) implies appears(to_update@, 0, tgt) by {
                                    if q < ri {
                                        lemma_appears_extend(pre, to_update@, 0, tgt);
                                    } else {
                                        assert(root.id == root_nodes@[q]);
                                        assert(appears(trv, 0, tgt));
                                        lemma_appears_concat(pre, trv, tgt);
                                    }
                                }
                            }
                        },
                    }
                },
            }
            ri += 1;
        }
        let plan = reverse_vec(&to_update);
        proof {
            lemma_reverse_order(s0, to_update@, plan@);
            assert forall|i: int|
                0 <= i < plan@.len() implies has_id(s0, #[trigger] plan@[i]) && node_ok(
                node_of(s0, plan@[i]),
            ) && chain_valid(s0, plan@[i]) == Some(true) && on_valid_chain(
                s0,
                root_nodes@,
                plan@[i],
            ) by {
                assert(plan@[i] == to_update@[to_update@.len() - 1 - i]);
            }
        }
        let mut updated: Vec<Id> = Vec::new();
        let mut cmds: Vec<Command> = Vec::new();
        let mut k: usize = 0;
        while k < plan.len()
            invariant
                wf(nodes@),
                same_shape(s0, nodes@),
                k <= plan@.len(),
                forall|i: int| 0 <= i < k ==> updated@.contains(#[trigger] plan@[i]),
                forall|x: Id|
                    #[trigger] updated@.contains(x) ==> has_id(nodes@, x) && node_of(
                        nodes@,
                        x,
                    ).value is Some,
                forall|i: int|
                    0 <= i < s0.len() ==> (#[trigger] nodes@[i]).value == s0[i].value
                        || updated@.contains(s0[i].id),
                forall|x: Id|
                    #[trigger] updated@.contains(x) ==> chain_valid(s0, x) == Some(true)
                        && on_valid_chain(s0, root_nodes@, x),
                forall|x: Id|
                    #[trigger] updated@.contains(x) ==> value_settled(s0, nodes@, readings@, x)
                        && cmd_settled(s0, nodes@, readings@, cmds@, x),
                forall|x: Id, kk: int|
                    updated@.contains(x) && 0 <= kk < node_of(s0, x).inputs@.len()
                        ==> updated@.contains((#[trigger] node_of(s0, x).inputs@[kk]).id),
                forall|x: int|
                    0 <= x < cmds@.len() && is_speed(#[trigger] cmds@[x]) ==> updated@.contains(
                        cmd_node(cmds@[x]),
                    ) && chain_valid(s0, cmd_node(cmds@[x])) == Some(true) && on_valid_chain(
                        s0,
                        root_nodes@,
                        cmd_node(cmds@[x]),
                    ) && node_of(s0, cmd_node(cmds@[x])).node_type is Control,
                forall|x: int, y: int|
                    0 <= x < y < cmds@.len() && is_speed(#[trigger] cmds@[x]) && is_speed(
                        #[trigger] cmds@[y],
                    ) ==> cmd_node(cmds@[x]) != cmd_node(cmds@[y]),
            decreases plan@.len() - k,
        {
            let id = plan[k];
            if !contains_id(&updated, id) {
                proof {
                    lemma_same_shape_lookup(s0, nodes@, id);
                }
                match nodes.get(id) {
                    None => {
                        proof {
                            assert(false);
                        }
                        return Err(UpdateError::NodeNotFound);
                    },
                    Some(node) => {
                        proof {
                            assert(node.inputs == node_of(s0, id).inputs);
                            assert forall|kk: int|
                                0 <= kk < node.inputs@.len() implies has_id(
                                nodes@,
                                (#[trigger] node.inputs@[kk]).id,
                            ) && node_of(nodes@, node.inputs@[kk].id).value is Some
                                && updated@.contains(node.inputs@[kk].id) by {
                                assert(node.inputs@[kk] == node_of(s0, plan@[k as int]).inputs@[kk]);
                                assert(appears_before(
                                    plan@,
                                    k as int,
                                    node_of(s0, plan@[k as int]).inputs@[kk].id,
                                ));
                                let j = choose|j: int|
                                    0 <= j < k as int && plan@[j] == node_of(
                                        s0,
                                        plan@[k as int],
                                    ).inputs@[kk].id;
                                assert(updated@.contains(plan@[j]));
                            }
                            lemma_gather_ok(nodes@, node.inputs@, 0);
                        }
                        let res = node.update(nodes, readings);
                        match res {
                            Err(e) => {
                                proof {
                                    assert(e is Hardware);
                                    assert(!chain_readings_ok(s0, root_nodes@, readings@)) by {
                                        if chain_readings_ok(s0, root_nodes@, readings@) {
                                            assert(on_valid_chain(s0, root_nodes@, id));
                                            assert(node_of(s0, id).node_type == node.node_type);
                                            assert(false);
                                        }
                                    }
                                }
                                return Err(e);
                            },
                            Ok((v, cmd)) => {
                                let ghost sb = nodes@;
                                let ghost upre = updated@;
                                proof {
                                    assert(node_of(sb, id) == *node);
                                    assert(idx_of(sb, id) == idx_of(s0, id));
                                    assert(sb[idx_of(s0, id)].value == s0[idx_of(s0, id)].value)
                                        by {
                                        assert(s0[idx_of(s0, id)].id == id);
                                        assert(!updated@.contains(s0[idx_of(s0, id)].id));
                                    }
                                    lemma_eval_result_same_fields(*node, node_of(s0, id), sb, readings@);
                                }
                                nodes.set_value(id, v);
                                proof {
                                    lemma_update_value(sb, id, v);
                                    assert(same_shape(s0, nodes@)) by {
                                        assert(forall|i: int|
                                            0 <= i < sb.len() && i != idx_of(sb, id)
                                                ==> #[trigger] nodes@[i] == sb[i]);
                                        assert(nodes@[idx_of(sb, id)].id == sb[idx_of(
                                            sb,
                                            id,
                                        )].id && nodes@[idx_of(sb, id)].name == sb[idx_of(
                                            sb,
                                            id,
                                        )].name && nodes@[idx_of(sb, id)].inputs == sb[idx_of(
                                            sb,
                                            id,
                                        )].inputs && nodes@[idx_of(sb, id)].node_type == sb[idx_of(
                                            sb,
                                            id,
                                        )].node_type);
                                    }
                                    assert forall|x: Id| #[trigger]
                                        upre.push(id).contains(x) implies has_id(nodes@, x)
                                        && node_of(nodes@, x).value is Some by {
                                        if x == id {
                                            assert(node_of(nodes@, id).value == Some(v));
                                        } else {
                                            let j = choose|j: int|
                                                0 <= j < upre.push(id).len() && upre.push(id)[j]
                                                    == x;
                                            assert(upre[j] == x);
                                            assert(upre.contains(x));
                                            assert(node_of(nodes@, x) == node_of(sb, x));
                                        }
                                    }
                                    assert forall|x: Id| #[trigger]
                                        upre.push(id).contains(x) implies value_settled(
                                        s0,
                                        nodes@,
                                        readings@,
                                        x,
                                    ) && cmd_settled(s0, nodes@, readings@, cmds@, x) || x == id
                                        by {
                                        if x != id {
                                            let j = choose|j: int|
                                                0 <= j < upre.push(id).len() && upre.push(id)[j]
                                                    == x;
                                            assert(upre[j] == x);
                                            assert(upre.contains(x));
                                            assert forall|kk: int|
                                                0 <= kk < node_of(s0, x).inputs@.len()
                                                    implies has_id(nodes@, (#[trigger] node_of(
                                                s0,
                                                x,
                                            ).inputs@[kk]).id) == has_id(
                                                sb,
                                                node_of(s0, x).inputs@[kk].id,
                                            ) && (has_id(sb, node_of(s0, x).inputs@[kk].id)
                                                ==> node_of(
                                                nodes@,
                                                node_of(s0, x).inputs@[kk].id,
                                            ).value == node_of(
                                                sb,
                                                node_of(s0, x).inputs@[kk].id,
                                            ).value) by {
                                                let y = node_of(s0, x).inputs@[kk].id;
                                                assert(upre.contains(y));
                                                assert(y != id);
                                                assert(node_of(nodes@, y) == node_of(sb, y));
                                            }
                                            lemma_gather_unchanged(
                                                sb,
                                                nodes@,
                                                node_of(s0, x).inputs@,
                                                0,
                                            );
                                            lemma_eval_result_gather(
                                                node_of(s0, x),
                                                sb,
                                                nodes@,
                                                readings@,
                                            );
                                            assert(node_of(nodes@, x) == node_of(sb, x));
                                        }
                                    }
                                    assert forall|kk: int|
                                        0 <= kk < node_of(s0, id).inputs@.len() implies has_id(
                                        nodes@,
                                        (#[trigger] node_of(s0, id).inputs@[kk]).id,
                                    ) == has_id(sb, node_of(s0, id).inputs@[kk].id) && (has_id(
                                        sb,
                                        node_of(s0, id).inputs@[kk].id,
                                    ) ==> node_of(nodes@, node_of(s0, id).inputs@[kk].id).value
                                        == node_of(sb, node_of(s0, id).inputs@[kk].id).value) by {
                                        let y = node_of(s0, id).inputs@[kk].id;
                                        assert(node_of(s0, id).inputs@[kk] == node.inputs@[kk]);
                                        assert(upre.contains(y));
                                        assert(y != id);
                                        assert(node_of(nodes@, y) == node_of(sb, y));
                                    }
                                    lemma_gather_unchanged(sb, nodes@, node_of(s0, id).inputs@, 0);
                                    lemma_eval_result_gather(node_of(s0, id), sb, nodes@, readings@);
                                    assert(value_settled(s0, nodes@, readings@, id)) by {
                                        assert(node_of(nodes@, id).value == Some(v));
                                    }
                                }
                                updated.push(id);
                                proof {
                                    assert forall|i: int|
                                        0 <= i < k + 1 implies updated@.contains(
                                        #[trigger] plan@[i],
                                    ) by {
                                        if i < k {
                                            lemma_contains_push(upre, id, plan@[i]);
                                        } else {
                                            assert(updated@[upre.len() as int] == id);
                                        }
                                    }
                                    assert forall|x: int|
                                        0 <= x < cmds@.len() && is_speed(
                                            #[trigger] cmds@[x],
                                        ) implies updated@.contains(cmd_node(cmds@[x])) by {
                                        lemma_contains_push(upre, id, cmd_node(cmds@[x]));
                                    }
                                    assert forall|i: int|
                                        0 <= i < s0.len() implies (#[trigger] nodes@[i]).value
                                        == s0[i].value || updated@.contains(s0[i].id) by {
                                        if nodes@[i].value != s0[i].value {
                                            if i == idx_of(s0, id) {
                                                assert(s0[i].id == id);
                                                assert(updated@[upre.len() as int] == id);
                                            } else {
                                                assert(nodes@[i] == sb[i]);
                                                assert(upre.contains(s0[i].id));
                                                lemma_contains_push(upre, id, s0[i].id);
                                            }
                                        }
                                    }
                                    assert forall|x: Id, kk: int|
                                        updated@.contains(x) && 0 <= kk < node_of(
                                            s0,
                                            x,
                                        ).inputs@.len() implies updated@.contains(
                                        (#[trigger] node_of(s0, x).inputs@[kk]).id,
                                    ) by {
                                        if x == id {
                                            assert(node_of(s0, id).inputs@[kk]
                                                == node.inputs@[kk]);
                                            assert(upre.contains(node.inputs@[kk].id));
                                            lemma_contains_push(
                                                upre,
                                                id,
                                                node.inputs@[kk].id,
                                            );
                                        } else {
                                            let j = choose|j: int|
                                                0 <= j < updated@.len() && updated@[j] == x;
                                            if j < upre.len() {
                                                assert(upre[j] == x);
                                                assert(upre.contains(x));
                                                assert(upre.contains(
                                                    node_of(s0, x).inputs@[kk].id,
                                                ));
                                                lemma_contains_push(
                                                    upre,
                                                    id,
                                                    node_of(s0, x).inputs@[kk].id,
                                                );
                                            }
                                        }
                                    }
                                }
                                match cmd {
                                    Some(c) => {
                                        proof {
                                            assert(is_speed(c) && cmd_node(c) == id);
                                            assert(!upre.contains(id));
                                            assert(node_of(s0, id).node_type is Control);
                                            assert forall|x: int|
                                                0 <= x < cmds@.push(c).len() && is_speed(
                                                    #[trigger] cmds@.push(c)[x],
                                                ) implies updated@.contains(
                                                cmd_node(cmds@.push(c)[x]),
                                            ) && chain_valid(s0, cmd_node(cmds@.push(c)[x]))
                                                == Some(true) && on_valid_chain(
                                                s0,
                                                root_nodes@,
                                                cmd_node(cmds@.push(c)[x]),
                                            ) && node_of(
                                                s0,
                                                cmd_node(cmds@.push(c)[x]),
                                            ).node_type is Control by {
                                                if x < cmds@.len() {
                                                    assert(cmds@.push(c)[x] == cmds@[x]);
                                                    lemma_contains_push(
                                                        upre,
                                                        id,
                                                        cmd_node(cmds@[x]),
                                                    );
                                                } else {
                                                    assert(updated@.contains(id));
                                                    assert(chain_valid(s0, id) == Some(true));
                                                }
                                            }
                                            assert forall|x: Id| #[trigger]
                                                updated@.contains(x) implies cmd_settled(
                                                s0,
                                                nodes@,
                                                readings@,
                                                cmds@.push(c),
                                                x,
                                            ) by {
                                                if x == id {
                                                    assert(cmds@.push(c)[cmds@.len() as int]
                                                        == c);
                                                    assert(cmds@.push(c).contains(c));
                                                } else {
                                                    let er = eval_result(
                                                        node_of(s0, x),
                                                        nodes@,
                                                        readings@,
                                                    );
                                                    if er is Ok {
                                                        if er->Ok_0.1 is Some {
                                                            lemma_contains_push(
                                                                cmds@,
                                                                c,
                                                                er->Ok_0.1->Some_0,
                                                            );
                                                        }
                                                    }
                                                }
                                            }
                                            assert forall|x: int, y: int|
                                                0 <= x < y < cmds@.push(c).len() && is_speed(
                                                    #[trigger] cmds@.push(c)[x],
                                                ) && is_speed(
                                                    #[trigger] cmds@.push(c)[y],
                                                ) implies cmd_node(cmds@.push(c)[x]) != cmd_node(
                                                cmds@.push(c)[y],
                                            ) by {
                                                if y == cmds@.len() {
                                                    assert(cmds@.push(c)[x] == cmds@[x]);
                                                    assert(upre.contains(cmd_node(cmds@[x])));
                                                    assert(cmd_node(cmds@.push(c)[y]) == id);
                                                } else {
                                                    assert(cmds@.push(c)[x] == cmds@[x]);
                                                    assert(cmds@.push(c)[y] == cmds@[y]);
                                                }
                                            }
                                        }
                                        cmds.push(c);
                                    },
                                    None => {
                                        proof {
                                            assert(cmd_settled(s0, nodes@, readings@, cmds@, id));
                                        }
                                    },
                                }
                            },
                        }
                    },
                }
            } else {
                proof {
                    assert forall|i: int|
                        0 <= i < k + 1 implies updated@.contains(#[trigger] plan@[i]) by {}
                }
            }
            k += 1;
        }
        let mut fi: usize = 0;
        while fi < fallback.len()
            invariant
                wf(nodes@),
                same_shape(s0, nodes@),
                forall|x: Id|
                    #[trigger] updated@.contains(x) ==> has_id(nodes@, x) && node_of(
                        nodes@,
                        x,
                    ).value is Some,
                forall|i: int|
                    0 <= i < s0.len() ==> (#[trigger] nodes@[i]).value == s0[i].value
                        || updated@.contains(s0[i].id),
                forall|x: Id|
                    #[trigger] updated@.contains(x) ==> chain_valid(s0, x) == Some(true)
                        && on_valid_chain(s0, root_nodes@, x),
                forall|x: Id|
                    #[trigger] updated@.contains(x) ==> value_settled(s0, nodes@, readings@, x)
                        && cmd_settled(s0, nodes@, readings@, cmds@, x),
                forall|x: int|
                    0 <= x < cmds@.len() && is_speed(#[trigger] cmds@[x]) ==> updated@.contains(
                        cmd_node(cmds@[x]),
                    ) && chain_valid(s0, cmd_node(cmds@[x])) == Some(true) && on_valid_chain(
                        s0,
                        root_nodes@,
                        cmd_node(cmds@[x]),
                    ) && node_of(s0, cmd_node(cmds@[x])).node_type is Control,
                forall|x: int, y: int|
                    0 <= x < y < cmds@.len() && is_speed(#[trigger] cmds@[x]) && is_speed(
                        #[trigger] cmds@[y],
                    ) ==> cmd_node(cmds@[x]) != cmd_node(cmds@[y]),
                fi <= fallback@.len(),
                forall|q: int|
                    0 <= q < fi ==> match node_of(s0, #[trigger] fallback@[q]).node_type {
                        NodeType::Control(c) => c.hardware_id is Some ==> cmds@.contains(
                            Command::SetAuto {
                                id: fallback@[q],
                                hardware_id: c.hardware_id.unwrap(),
                            },
                        ),
                        _ => true,
                    },
            decreases fallback@.len() - fi,
        {
            let fid = fallback[fi];
            proof {
                assert(fallback@.contains(fid)) by {
                    assert(fallback@[fi as int] == fid);
                }
                lemma_same_shape_lookup(s0, nodes@, fid);
            }
            match nodes.get(fid) {
                None => {
                    proof {
                        assert(false);
                    }
                    return Err(UpdateError::NodeNotFound);
                },
                Some(n) => {
                    match &n.node_type {
                        NodeType::Control(c) => {
                            match c.hardware_id {
                                Some(h) => {
                                    let c2 = Command::SetAuto { id: fid, hardware_id: h };
                                    proof {
                                        assert forall|q: int|
                                            0 <= q < fi + 1 implies match node_of(
                                            s0,
                                            #[trigger] fallback@[q],
                                        ).node_type {
                                            NodeType::Control(cc) => cc.hardware_id is Some
                                                ==> cmds@.push(c2).contains(
                                                Command::SetAuto {
                                                    id: fallback@[q],
                                                    hardware_id: cc.hardware_id.unwrap(),
                                                },
                                            ),
                                            _ => true,
                                        } by {
                                            if q < fi {
                                                match node_of(s0, fallback@[q]).node_type {
                                                    NodeType::Control(cc) => {
                                                        if cc.hardware_id is Some {
                                                            lemma_contains_push(
                                                                cmds@,
                                                                c2,
                                                                Command::SetAuto {
                                                                    id: fallback@[q],
                                                                    hardware_id:
                                                                        cc.hardware_id.unwrap(),
                                                                },
                                                            );
                                                        }
                                                    },
                                                    _ => {},
                                                }
                                            } else {
                                                assert(cmds@.push(c2)[cmds@.len() as int] == c2);
                                            }
                                        }
                                        assert forall|x: int|
                                            0 <= x < cmds@.push(c2).len() && is_speed(
                                                #[trigger] cmds@.push(c2)[x],
                                            ) implies updated@.contains(
                                            cmd_node(cmds@.push(c2)[x]),
                                        ) && chain_valid(s0, cmd_node(cmds@.push(c2)[x]))
                                            == Some(true) && on_valid_chain(
                                            s0,
                                            root_nodes@,
                                            cmd_node(cmds@.push(c2)[x]),
                                        ) && node_of(
                                            s0,
                                            cmd_node(cmds@.push(c2)[x]),
                                        ).node_type is Control by {
                                            assert(!is_speed(c2));
                                            if x < cmds@.len() {
                                                assert(cmds@.push(c2)[x] == cmds@[x]);
                                            }
                                        }
                                        assert forall|x: Id| #[trigger]
                                            updated@.contains(x) implies cmd_settled(
                                            s0,
                                            nodes@,
                                            readings@,
                                            cmds@.push(c2),
                                            x,
                                        ) by {
                                            let er = eval_result(
                                                node_of(s0, x),
                                                nodes@,
                                                readings@,
                                            );
                                            if er is Ok {
                                                if er->Ok_0.1 is Some {
                                                    lemma_contains_push(
                                                        cmds@,
                                                        c2,
                                                        er->Ok_0.1->Some_0,
                                                    );
                                                }
                                            }
                                        }
                                        assert forall|x: int, y: int|
                                            0 <= x < y < cmds@.push(c2).len() && is_speed(
                                                #[trigger] cmds@.push(c2)[x],
                                            ) && is_speed(
                                                #[trigger] cmds@.push(c2)[y],
                                            ) implies cmd_node(cmds@.push(c2)[x]) != cmd_node(
                                            cmds@.push(c2)[y],
                                        ) by {
                                            assert(!is_speed(c2));
                                            if y < cmds@.len() {
                                                assert(cmds@.push(c2)[x] == cmds@[x]);
                                                assert(cmds@.push(c2)[y] == cmds@[y]);
                                            } else {
                                                assert(cmds@.push(c2)[y] == c2);
                                            }
                                        }
                                    }
                                    cmds.push(c2);
                                },
                                None => {},
                            }
                        },
                        _ => {},
                    }
                },
            }
            fi += 1;
        }
        proof {
            assert forall|q: int, tgt: Id|
                0 <= q < root_nodes@.len() && chain_valid(s0, #[trigger] root_nodes@[q]) == Some(
                    true,
                ) && #[trigger] in_chain(s0, root_nodes@[q], tgt, s0.len() as nat) implies
                value_settled(s0, nodes@, readings@, tgt) && cmd_settled(
                s0,
                nodes@,
                readings@,
                cmds@,
                tgt,
            ) by {
                assert(appears(to_update@, 0, tgt));
                lemma_appears_reverse(to_update@, plan@, tgt);
                let j = choose|j: int| 0 <= j < plan@.len() && plan@[j] == tgt;
                assert(updated@.contains(plan@[j]));
            }
            assert forall|q: int|
                0 <= q < root_nodes@.len() && chain_valid(s0, #[trigger] root_nodes@[q]) == Some(
                    false,
                ) implies match node_of(s0, root_nodes@[q]).node_type {
                NodeType::Control(c) => c.hardware_id is Some ==> cmds@.contains(
                    Command::SetAuto {
                        id: root_nodes@[q],
                        hardware_id: c.hardware_id.unwrap(),
                    },
                ),
                _ => true,
            } by {
                assert(fallback@.contains(root_nodes@[q]));
                let qq = choose|qq: int|
                    0 <= qq < fallback@.len() && fallback@[qq] == root_nodes@[q];
            }
        }
        Ok(cmds)
    }
}

/// Re-evaluating a node against the same sensor snapshot, with the same
/// resolved input values and with its own previous output as its cached
/// value, yields that same output and the same command. Applied chain-wise,
/// leaf to root, this makes a second tick over an unchanged graph with
/// unchanged readings reproduce every value of the first.
pub proof fn lemma_eval_idempotent(
    n: Node,
    s: Seq<Node>,
    s2: Seq<Node>,
    rd: Seq<(u64, i32)>,
    v: i32,
    c: Option<Command>,
)
    requires
        eval_result(n, s, rd) == Ok::<(int, Option<Command>), UpdateError>((v as int, c)),
        gather_from(s2, n.inputs@, 0) == gather_from(s, n.inputs@, 0),
    ensures
        eval_result(Node { value: Some(v), ..n }, s2, rd) == Ok::<
            (int, Option<Command>),
            UpdateError,
        >((v as int, c)),
{
}

} // verus!
