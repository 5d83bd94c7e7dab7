//! Data model: identifiers, node kinds and their parameters, nodes, and the
//! node store (`Nodes`, the graph's mapping from identifier to node).

use vstd::prelude::*;

verus! {

/// Stable identifier of a node, unique within one graph instance.
pub type Id = u64;

/// The identifiers of the graph's terminal consumers (the actuators),
/// processed in this order each tick.
pub type RootNodes = Vec<Id>;

/// One declared input of a node: the upstream node's identifier, with the
/// display name it was wired under.
pub struct Input {
    pub id: Id,
    pub name: String,
}

/// How a `CustomTemp` node reduces its input temperatures.
#[derive(Clone, Copy, PartialEq, Eq, Structural, Debug)]
pub enum Aggregation {
    Min,
    Max,
    Average,
}

/// Constant-value node parameters.
#[derive(Clone, Copy)]
pub struct Flat {
    pub value: u16,
}

/// Actuator node parameters: which hardware control it drives.
#[derive(Clone, Copy)]
pub struct Control {
    pub hardware_id: Option<u64>,
    pub active: bool,
}

/// Tachometer-reading node parameters.
#[derive(Clone, Copy)]
pub struct Fan {
    pub hardware_id: Option<u64>,
}

/// Temperature-probe node parameters.
#[derive(Clone, Copy)]
pub struct Temp {
    pub hardware_id: Option<u64>,
}

/// Multi-input aggregation node parameters.
#[derive(Clone, Copy)]
pub struct CustomTemp {
    pub kind: Aggregation,
}

/// Piecewise-linear interpolation between (min_temp, min_speed) and
/// (max_temp, max_speed), clamped outside the range.
#[derive(Clone, Copy)]
pub struct Linear {
    pub min_temp: u8,
    pub min_speed: u8,
    pub max_temp: u8,
    pub max_speed: u8,
}

/// Two-point mapping with hysteresis: full speed above the load point, idle
/// speed below the idle point, previous output kept in between.
#[derive(Clone, Copy)]
pub struct Target {
    pub idle_temp: u8,
    pub idle_speed: u8,
    pub load_temp: u8,
    pub load_speed: u8,
}

/// One point of a user-drawn curve.
#[derive(Clone, Copy)]
pub struct Coord {
    pub temp: u8,
    pub percent: u8,
}

/// User-drawn curve node parameters: interpolation points, temperatures
/// strictly increasing and percents non-decreasing when well-formed.
/// A curve maps one upstream temperature to a percent, so the kind takes
/// exactly one input; a multi-input formula is built by feeding it a
/// `CustomTemp` aggregation.
pub struct Curve {
    pub coords: Vec<Coord>,
}

/// The computation kind of a node, with its kind-specific parameters.
pub enum NodeType {
    Flat(Flat),
    Control(Control),
    Fan(Fan),
    Temp(Temp),
    CustomTemp(CustomTemp),
    Linear(Linear),
    Target(Target),
    Graph(Curve),
}

/// One vertex of the control graph.
pub struct Node {
    pub id: Id,
    pub name: String,
    pub inputs: Vec<Input>,
    pub node_type: NodeType,
    pub value: Option<i32>,
}

/// Structural well-formedness of a single node: its input arity matches its
/// kind, and its kind-specific parameters are sane.
pub open spec fn node_ok(n: Node) -> bool {
    match n.node_type {
        NodeType::Flat(_) => n.inputs@.len() == 0,
        NodeType::Control(c) => n.inputs@.len() == 1 && c.hardware_id is Some && c.active,
        NodeType::Fan(f) => n.inputs@.len() == 0 && f.hardware_id is Some,
        NodeType::Temp(t) => n.inputs@.len() == 0 && t.hardware_id is Some,
        NodeType::CustomTemp(_) => n.inputs@.len() >= 1,
        NodeType::Linear(l) => n.inputs@.len() == 1 && l.min_temp < l.max_temp && l.min_speed
            <= l.max_speed,
        NodeType::Target(t) => n.inputs@.len() == 1 && t.idle_temp < t.load_temp && t.idle_speed
            <= t.load_speed,
        NodeType::Graph(g) => n.inputs@.len() == 1 && g.coords@.len() >= 1 && coords_ok(g.coords@),
    }
}

/// Curve points are sorted: temperatures strictly increasing, percents
/// non-decreasing.
pub open spec fn coords_ok(cs: Seq<Coord>) -> bool {
    forall|i: int|
        0 <= i < cs.len() - 1 ==> (#[trigger] cs[i].temp) < cs[i + 1].temp && cs[i].percent <= cs[
            i + 1
        ].percent
}

impl Node {
    /// Executable mirror of `node_ok`: the per-node structural check.
    pub fn is_valid(&self) -> (r: bool)
        ensures
            r == node_ok(*self),
    {
        match &self.node_type {
            NodeType::Flat(_) => self.inputs.len() == 0,
            NodeType::Control(c) => self.inputs.len() == 1 && c.hardware_id.is_some() && c.active,
            NodeType::Fan(f) => self.inputs.len() == 0 && f.hardware_id.is_some(),
            NodeType::Temp(t) => self.inputs.len() == 0 && t.hardware_id.is_some(),
            NodeType::CustomTemp(_) => self.inputs.len() >= 1,
            NodeType::Linear(l) => self.inputs.len() == 1 && l.min_temp < l.max_temp
                && l.min_speed <= l.max_speed,
            NodeType::Target(t) => self.inputs.len() == 1 && t.idle_temp < t.load_temp
                && t.idle_speed <= t.load_speed,
            NodeType::Graph(g) => self.inputs.len() == 1 && g.coords.len() >= 1 && coords_sorted(
                &g.coords,
            ),
        }
    }
}

/// Executable check of `coords_ok`.
pub fn coords_sorted(cs: &Vec<Coord>) -> (r: bool)
    ensures
        r == coords_ok(cs@),
{
    if cs.len() == 0 {
        return true;
    }
    let mut k: usize = 0;
    while k < cs.len() - 1
        invariant
            cs@.len() >= 1,
            k < cs@.len(),
            forall|i: int|
                0 <= i < k ==> (#[trigger] cs@[i].temp) < cs@[i + 1].temp && cs@[i].percent <= cs@[
                    i + 1].percent,
        decreases cs@.len() - k,
    {
        if !(cs[k].temp < cs[k + 1].temp && cs[k].percent <= cs[k + 1].percent) {
            return false;
        }
        k += 1;
    }
    true
}

/// Whether some node in `s` bears identifier `id`.
pub open spec fn has_id(s: Seq<Node>, id: Id) -> bool {
    exists|i: int| 0 <= i < s.len() && s[i].id == id
}

/// The index of the node bearing `id`; meaningful only under `wf(s)` and
/// `has_id(s, id)`.
pub open spec fn idx_of(s: Seq<Node>, id: Id) -> int {
    choose|i: int| 0 <= i < s.len() && s[i].id == id
}

/// The node bearing `id`; meaningful only under `wf(s)` and `has_id(s, id)`.
pub open spec fn node_of(s: Seq<Node>, id: Id) -> Node {
    s[idx_of(s, id)]
}

/// Well-formedness of a node store: identifiers are unique.
pub open spec fn wf(s: Seq<Node>) -> bool {
    forall|i: int, j: int|
        0 <= i < s.len() && 0 <= j < s.len() && s[i].id == s[j].id ==> i == j
}

/// Under uniqueness, the lookup functions recover exactly the node stored at
/// a given index.
pub proof fn lemma_node_of(s: Seq<Node>, i: int)
    requires
        wf(s),
        0 <= i < s.len(),
    ensures
        has_id(s, s[i].id),
        idx_of(s, s[i].id) == i,
        node_of(s, s[i].id) == s[i],
{
    assert(has_id(s, s[i].id));
    let j = idx_of(s, s[i].id);
    assert(0 <= j < s.len() && s[j].id == s[i].id);
}

/// Overwriting one node's cached value, leaving its identity, wiring and
/// kind alone, preserves every lookup of the other nodes.
pub proof fn lemma_update_value(s: Seq<Node>, id: Id, v: i32)
    requires
        wf(s),
        has_id(s, id),
    ensures
        ({
            let s2 = s.update(idx_of(s, id), Node { value: Some(v), ..node_of(s, id) });
            &&& wf(s2)
            &&& s2.len() == s.len()
            &&& forall|x: Id| has_id(s2, x) == has_id(s, x)
            &&& node_of(s2, id) == (Node { value: Some(v), ..node_of(s, id) })
            &&& forall|x: Id| has_id(s, x) && x != id ==> node_of(s2, x) == node_of(s, x)
        }),
{
    let i = idx_of(s, id);
    assert(0 <= i < s.len() && s[i].id == id);
    let s2 = s.update(i, Node { value: Some(v), ..node_of(s, id) });
    assert forall|x: Id| has_id(s2, x) == has_id(s, x) by {
        if has_id(s2, x) {
            let j = choose|j: int| 0 <= j < s2.len() && s2[j].id == x;
            assert(s[j].id == x);
        }
        if has_id(s, x) {
            let j = choose|j: int| 0 <= j < s.len() && s[j].id == x;
            assert(s2[j].id == x);
        }
    }
    lemma_node_of(s2, i);
    assert forall|x: Id| has_id(s, x) && x != id implies node_of(s2, x) == node_of(s, x) by {
        let j = choose|j: int| 0 <= j < s.len() && s[j].id == x;
        assert(s2[j].id == x);
        lemma_node_of(s, j);
        lemma_node_of(s2, j);
    }
}

/// The graph's node store: the mapping from identifier to node. Backed by a
/// vector whose entries carry pairwise-distinct identifiers.
pub struct Nodes {
    nodes: Vec<Node>,
}

impl View for Nodes {
    type V = Seq<Node>;

    closed spec fn view(&self) -> Seq<Node> {
        self.nodes@
    }
}

impl Nodes {
    /// An empty store.
    pub fn new() -> (r: Nodes)
        ensures
            r@ == Seq::<Node>::empty(),
            wf(r@),
    {
        let r = Nodes { nodes: Vec::new() };
        proof {
            assert(r@ =~= Seq::<Node>::empty());
        }
        r
    }

    pub fn len(&self) -> (r: usize)
        ensures
            r == self@.len(),
    {
        self.nodes.len()
    }

    /// Inserts a node; refused (returning false) when the identifier is
    /// already taken, so uniqueness is kept.
    pub fn insert(&mut self, node: Node) -> (r: bool)
        requires
            wf(old(self)@),
        ensures
            wf(final(self)@),
            r == !has_id(old(self)@, node.id),
            r ==> final(self)@ == old(self)@.push(node),
            !r ==> final(self)@ == old(self)@,
    {
        let id = node.id;
        let mut k: usize = 0;
        while k < self.nodes.len()
            invariant
                k <= self@.len(),
                self@ == old(self)@,
                wf(self@),
                forall|i: int| 0 <= i < k ==> self@[i].id != id,
                id == node.id,
            decreases self@.len() - k,
        {
            if self.nodes[k].id == id {
                return false;
            }
            k += 1;
        }
        assert(!has_id(self@, node.id));
        self.nodes.push(node);
        assert(wf(self@)) by {
            assert(forall|i: int|
                0 <= i < old(self)@.len() ==> self@[i] == old(self)@[i]);
        }
        true
    }

    /// Looks a node up by identifier.
    pub fn get(&self, id: Id) -> (r: Option<&Node>)
        requires
            wf(self@),
        ensures
            match r {
                Some(n) => has_id(self@, id) && *n == node_of(self@, id),
                None => !has_id(self@, id),
            },
    {
        let mut k: usize = 0;
        while k < self.nodes.len()
            invariant
                k <= self@.len(),
                wf(self@),
                forall|i: int| 0 <= i < k ==> self@[i].id != id,
            decreases self@.len() - k,
        {
            if self.nodes[k].id == id {
                proof {
                    lemma_node_of(self@, k as int);
                }
                return Some(&self.nodes[k]);
            }
            k += 1;
        }
        None
    }

    /// Overwrites the cached value of the node bearing `id`.
    pub fn set_value(&mut self, id: Id, value: i32)
        requires
            wf(old(self)@),
            has_id(old(self)@, id),
        ensures
            final(self)@ == old(self)@.update(
                idx_of(old(self)@, id),
                Node { value: Some(value), ..node_of(old(self)@, id) },
            ),
    {
        let ghost s = self@;
        let mut k: usize = 0;
        while k < self.nodes.len()
            invariant
                k <= self@.len(),
                self@ == s,
                old(self)@ == s,
                wf(s),
                has_id(s, id),
                forall|i: int| 0 <= i < k ==> self@[i].id != id,
            decreases self@.len() - k,
        {
            if self.nodes[k].id == id {
                proof {
                    lemma_node_of(s, k as int);
                }
                let n = &mut self.nodes[k];
                n.value = Some(value);
                proof {
                    assert(self@ == s.update(idx_of(s, id), Node { value: Some(value), ..node_of(s, id) }));
                }
                return ;
            }
            k += 1;
        }
        proof {
            let j = choose|j: int| 0 <= j < s.len() && s[j].id == id;
            assert(false);
        }
    }

    /// Reads back the cached value of the node bearing `id`; `None` when the
    /// identifier is unknown or the node holds no value.
    pub fn value_of(&self, id: Id) -> (r: Option<i32>)
        requires
            wf(self@),
        ensures
            has_id(self@, id) ==> r == node_of(self@, id).value,
            !has_id(self@, id) ==> r is None,
    {
        match self.get(id) {
            Some(n) => n.value,
            None => None,
        }
    }
}

} // verus!
