//! The aggregated-graph data model and the coarsening algorithm.
//!
//! Raw assets are numbered `0 .. asset_count`; their direct edges are given
//! up front by the asset-graph collaborator as plain vectors.  Every
//! aggregated value — a `Leaf` wrapping one asset, or a `Node` summarizing
//! lower-depth values — lives in an interner and is referred to by its index,
//! the handle.  The interner keeps at most one value per structural content
//! (two handle sets count as the same content when they hold the same
//! handles), so handle equality coincides with structural equality.

use vstd::prelude::*;

use crate::handles::handles_clone;
use crate::handles::handles_contain;
use crate::handles::handles_distinct;
use crate::handles::handles_insert;
use crate::handles::handles_remove;
use crate::handles::seq_disjoint;
use crate::handles::seq_set_eq;

verus! {

/// The direct-reference table supplied by the asset-graph collaborator:
/// `refs[a]` holds the assets that asset `a` directly references, each listed
/// once, possibly including `a` itself.
pub struct AssetGraph {
    pub refs: Vec<Vec<usize>>,
}

impl AssetGraph {
    /// How many assets the graph holds.
    pub open spec fn asset_count(self) -> nat {
        self.refs@.len()
    }

    /// The direct references of asset `a`, as given.
    pub open spec fn asset_refs(self, a: int) -> Seq<usize> {
        self.refs@[a]@
    }

    /// Every listed reference stays inside the graph and is listed once.
    pub open spec fn wf(self) -> bool {
        forall|a: int| 0 <= a < self.refs@.len() ==> {
            &&& (#[trigger] self.refs@[a])@.no_duplicates()
            &&& forall|i: int|
                0 <= i < self.refs@[a]@.len() ==> (#[trigger] self.refs@[a]@[i]) < self.refs@.len()
        }
    }

    /// Asset `a` has nothing to chase: every direct reference it lists is
    /// itself (or it lists none).
    pub open spec fn dead_end(self, a: usize) -> bool {
        forall|i: int|
            0 <= i < self.asset_refs(a as int).len() ==> #[trigger] self.asset_refs(a as int)[i]
                == a
    }

    /// Checked constructor: accepts a reference table exactly when every
    /// entry is in range and no asset lists a reference twice.
    pub fn new(refs: Vec<Vec<usize>>) -> (r: Option<AssetGraph>)
        ensures
            match r {
                Some(g) => g.wf() && g.refs@ == refs@,
                None => !(AssetGraph { refs }).wf(),
            },
    {
        let n = refs.len();
        let mut a: usize = 0;
        while a < n
            invariant
                n == refs@.len(),
                a <= n,
                forall|b: int| 0 <= b < a ==> {
                    &&& (#[trigger] refs@[b])@.no_duplicates()
                    &&& forall|i: int| 0 <= i < refs@[b]@.len() ==> (#[trigger] refs@[b]@[i]) < n
                },
            decreases n - a,
        {
            if !handles_distinct(&refs[a]) {
                proof {
                    let g = (AssetGraph { refs: refs });
                    if g.wf() {
                        assert(g.refs@[a as int]@.no_duplicates());
                    }
                }
                return None;
            }
            let m = refs[a].len();
            let mut i: usize = 0;
            while i < m
                invariant
                    a < n,
                    n == refs@.len(),
                    m == refs@[a as int]@.len(),
                    i <= m,
                    forall|j: int| 0 <= j < i ==> (#[trigger] refs@[a as int]@[j]) < n,
                decreases m - i,
            {
                if refs[a][i] >= n {
                    proof {
                        let g = (AssetGraph { refs: refs });
                        if g.wf() {
                            assert(g.refs@[a as int]@.no_duplicates());
                            assert(g.refs@[a as int]@[i as int] < g.refs@.len());
                        }
                    }
                    return None;
                }
                i += 1;
            }
            a += 1;
        }
        Some(AssetGraph { refs })
    }

    /// Number of assets, at run time.
    pub fn len(&self) -> (n: usize)
        ensures
            n == self.asset_count(),
    {
        self.refs.len()
    }
}

/// An aggregated-graph value: a `Leaf` wraps one raw asset (depth 0); a
/// `Node` carries its aggregation level, the handles it has absorbed and its
/// outward frontier.
pub enum AggregatedGraph {
    Leaf(usize),
    Node { depth: usize, content: Vec<usize>, references: Vec<usize> },
}

impl AggregatedGraph {
    /// Aggregation level: 0 for a leaf, the stored level for a node.
    pub open spec fn depth_spec(self) -> nat {
        match self {
            AggregatedGraph::Leaf(_) => 0,
            AggregatedGraph::Node { depth, .. } => depth as nat,
        }
    }

    /// Aggregation level, at run time.
    pub fn depth(&self) -> (d: usize)
        ensures
            d as nat == self.depth_spec(),
    {
        match self {
            AggregatedGraph::Leaf(_) => 0,
            AggregatedGraph::Node { depth, .. } => *depth,
        }
    }
}

/// Structural equality of two aggregated values: equal wrapped assets, or
/// equal depths with the same absorbed handles and the same frontier handles,
/// order disregarded.
pub open spec fn equiv(a: AggregatedGraph, b: AggregatedGraph) -> bool {
    match (a, b) {
        (AggregatedGraph::Leaf(x), AggregatedGraph::Leaf(y)) => x == y,
        (
            AggregatedGraph::Node { depth: d1, content: c1, references: r1 },
            AggregatedGraph::Node { depth: d2, content: c2, references: r2 },
        ) => d1 == d2 && seq_set_eq(c1@, c2@) && seq_set_eq(r1@, r2@),
        _ => false,
    }
}

/// Run-time variant test.
fn value_is_leaf(v: &AggregatedGraph) -> (r: bool)
    ensures
        r == (*v is Leaf),
{
    match v {
        AggregatedGraph::Leaf(_) => true,
        AggregatedGraph::Node { .. } => false,
    }
}

/// The wrapped asset of a leaf value.
fn leaf_asset(v: &AggregatedGraph) -> (a: usize)
    requires
        *v is Leaf,
    ensures
        *v == AggregatedGraph::Leaf(a),
{
    match v {
        AggregatedGraph::Leaf(a) => *a,
        AggregatedGraph::Node { .. } => 0,
    }
}

/// A copy of the stored frontier of a node value.
fn node_references(v: &AggregatedGraph) -> (r: Vec<usize>)
    requires
        *v is Node,
    ensures
        r@ == v->references@,
{
    match v {
        AggregatedGraph::Leaf(_) => Vec::new(),
        AggregatedGraph::Node { references, .. } => handles_clone(references),
    }
}

/// Run-time test for `equiv`.
fn equiv_exec(a: &AggregatedGraph, b: &AggregatedGraph) -> (r: bool)
    ensures
        r == equiv(*a, *b),
{
    match (a, b) {
        (AggregatedGraph::Leaf(x), AggregatedGraph::Leaf(y)) => *x == *y,
        (
            AggregatedGraph::Node { depth: d1, content: c1, references: r1 },
            AggregatedGraph::Node { depth: d2, content: c2, references: r2 },
        ) => *d1 == *d2 && seq_set_eq_exec(c1, c2) && seq_set_eq_exec(r1, r2),
        (AggregatedGraph::Leaf(_), AggregatedGraph::Node { .. }) => false,
        (AggregatedGraph::Node { .. }, AggregatedGraph::Leaf(_)) => false,
    }
}

/// Run-time test for `seq_set_eq`: mutual containment.
fn seq_set_eq_exec(a: &Vec<usize>, b: &Vec<usize>) -> (r: bool)
    ensures
        r == seq_set_eq(a@, b@),
{
    let mut i: usize = 0;
    while i < a.len()
        invariant
            i <= a@.len(),
            forall|j: int| 0 <= j < i ==> b@.contains(#[trigger] a@[j]),
        decreases a@.len() - i,
    {
        if !handles_contain(b, a[i]) {
            return false;
        }
        i += 1;
    }
    let mut j: usize = 0;
    while j < b.len()
        invariant
            forall|k: int| 0 <= k < a@.len() ==> b@.contains(#[trigger] a@[k]),
            j <= b@.len(),
            forall|k: int| 0 <= k < j ==> a@.contains(#[trigger] b@[k]),
        decreases b@.len() - j,
    {
        if !handles_contain(a, b[j]) {
            return false;
        }
        j += 1;
    }
    proof {
        assert forall|x: usize| a@.contains(x) <==> b@.contains(x) by {
            if a@.contains(x) {
                let k = choose|k: int| 0 <= k < a@.len() && a@[k] == x;
                assert(b@.contains(a@[k]));
            }
            if b@.contains(x) {
                let k = choose|k: int| 0 <= k < b@.len() && b@[k] == x;
                assert(a@.contains(b@[k]));
            }
        }
    }
    true
}

/// The interning substrate together with the asset graph it summarizes.
/// Handle `h` names the value `values[h]`; values only ever get appended.
pub struct Aggregator {
    pub graph: AssetGraph,
    pub values: Vec<AggregatedGraph>,
}

impl Aggregator {
    /// How many values are interned.
    pub open spec fn len_spec(self) -> nat {
        self.values@.len()
    }

    /// The value a handle names.
    pub open spec fn val(self, h: int) -> AggregatedGraph {
        self.values@[h]
    }

    /// The aggregation level of the value a handle names.
    pub open spec fn depth_at(self, h: int) -> nat {
        self.val(h).depth_spec()
    }

    /// The absorbed handles of a node value.
    pub open spec fn node_content(self, h: int) -> Seq<usize> {
        self.val(h)->content@
    }

    /// The frontier handles of a node value.
    pub open spec fn node_refs(self, h: int) -> Seq<usize> {
        self.val(h)->references@
    }

    /// Shape of a value `v` as it would stand at interner index `i`: a leaf
    /// wraps an asset of the graph; a node sits one level above its absorbed
    /// values, refers only to already-interned handles, keeps content and
    /// frontier apart, and its frontier sits exactly one level below it.
    pub open spec fn value_ok(self, v: AggregatedGraph, i: int) -> bool {
        match v {
            AggregatedGraph::Leaf(a) => (a as int) < self.graph.asset_count(),
            AggregatedGraph::Node { depth, content, references } => {
                &&& 1 <= depth <= i
                &&& content@.no_duplicates()
                &&& references@.no_duplicates()
                &&& seq_disjoint(content@, references@)
                &&& content@.len() >= 1
                &&& forall|j: int| 0 <= j < content@.len() ==> {
                    &&& (#[trigger] content@[j]) < i
                    &&& self.depth_at(content@[j] as int) < depth
                }
                &&& forall|j: int| 0 <= j < references@.len() ==> {
                    &&& (#[trigger] references@[j]) < i
                    &&& self.depth_at(references@[j] as int) == (depth - 1) as nat
                }
            },
        }
    }

    /// The interner invariant: a well-formed graph, every value well shaped
    /// at its own index, and no two interned values structurally equal.
    pub open spec fn wf(self) -> bool {
        &&& self.graph.wf()
        &&& forall|i: int| 0 <= i < self.len_spec() ==> self.value_ok(#[trigger] self.values@[i], i)
        &&& forall|i: int, j: int|
            0 <= i < self.len_spec() && 0 <= j < self.len_spec() && i != j ==> !equiv(
                self.values@[i],
                self.values@[j],
            )
    }

    /// `self` carries every value of `prior`, unchanged and at the same
    /// handle, over the same asset graph.
    pub open spec fn extends(self, prior: Aggregator) -> bool {
        &&& self.graph == prior.graph
        &&& prior.len_spec() <= self.len_spec()
        &&& forall|i: int| 0 <= i < prior.len_spec() ==> self.values@[i] == #[trigger] prior.values@[i]
    }

    /// An empty interner over a given graph.
    pub fn new(graph: AssetGraph) -> (a: Aggregator)
        requires
            graph.wf(),
        ensures
            a.wf(),
            a.graph == graph,
            a.len_spec() == 0,
    {
        Aggregator { graph, values: Vec::new() }
    }

    /// Interned values are canonical: structurally equal values share one
    /// handle.  This is the interning contract that makes repeated
    /// aggregation land on identical handles.
    pub proof fn lemma_canonical(self, i: int, j: int)
        requires
            self.wf(),
            0 <= i < self.len_spec(),
            0 <= j < self.len_spec(),
            equiv(self.val(i), self.val(j)),
        ensures
            i == j,
    {
    }

    /// Value shape only depends on the graph and on handles below `i`, so it
    /// survives appending further values.
    proof fn lemma_value_ok_frame(self, later: Aggregator, v: AggregatedGraph, i: int)
        requires
            later.extends(self),
            self.value_ok(v, i),
            i <= self.len_spec(),
        ensures
            later.value_ok(v, i),
    {
    }

    /// Intern a value: return the handle of the structurally equal value if
    /// one is present, else append.  Appending requires the value to be well
    /// shaped at the new index.
    pub fn intern(&mut self, v: AggregatedGraph) -> (h: usize)
        requires
            old(self).wf(),
            old(self).value_ok(v, old(self).len_spec() as int),
        ensures
            final(self).wf(),
            final(self).extends(*old(self)),
            (h as int) < final(self).len_spec(),
            final(self).len_spec() <= old(self).len_spec() + 1,
            equiv(final(self).val(h as int), v),
            final(self).len_spec() == old(self).len_spec() + 1 ==> final(self).val(h as int) == v
                && h as int == old(self).len_spec(),
    {
        let n = self.values.len();
        let mut i: usize = 0;
        while i < n
            invariant
                *self == *old(self),
                self.wf(),
                n == self.len_spec(),
                i <= n,
                forall|j: int| 0 <= j < i ==> !equiv(self.values@[j], v),
            decreases n - i,
        {
            if equiv_exec(&self.values[i], &v) {
                return i;
            }
            i += 1;
        }
        let ghost pre = *self;
        self.values.push(v);
        proof {
            assert(self.extends(pre));
            assert forall|k: int| 0 <= k < self.len_spec() implies self.value_ok(
                #[trigger] self.values@[k],
                k,
            ) by {
                if k < pre.len_spec() {
                    pre.lemma_value_ok_frame(*self, pre.values@[k], k);
                } else {
                    pre.lemma_value_ok_frame(*self, v, k);
                }
            }
        }
        n
    }

    /// Construct (or retrieve) the canonical leaf for an asset.
    pub fn leaf(&mut self, asset: usize) -> (h: usize)
        requires
            old(self).wf(),
            (asset as int) < old(self).graph.asset_count(),
        ensures
            final(self).wf(),
            final(self).extends(*old(self)),
            (h as int) < final(self).len_spec(),
            final(self).len_spec() <= old(self).len_spec() + 1,
            final(self).val(h as int) == AggregatedGraph::Leaf(asset),
    {
        let h = self.intern(AggregatedGraph::Leaf(asset));
        proof {
            assert(equiv(self.val(h as int), AggregatedGraph::Leaf(asset)));
            match self.val(h as int) {
                AggregatedGraph::Leaf(b) => {
                    assert(b == asset);
                },
                AggregatedGraph::Node { .. } => {
                    assert(false);
                },
            }
        }
        h
    }

    /// The aggregation cost of the value a handle names: for a leaf the
    /// count of its distinct non-self direct references, for a node the size
    /// of its stored frontier.
    pub open spec fn cost_spec(self, h: int) -> nat {
        match self.val(h) {
            AggregatedGraph::Leaf(a) => if self.graph.asset_refs(a as int).contains(a) {
                (self.graph.asset_refs(a as int).len() - 1) as nat
            } else {
                self.graph.asset_refs(a as int).len()
            },
            AggregatedGraph::Node { references, .. } => references@.len(),
        }
    }

    /// The cost projection, at run time.
    pub fn cost(&self, h: usize) -> (c: usize)
        requires
            self.wf(),
            (h as int) < self.len_spec(),
        ensures
            c as nat == self.cost_spec(h as int),
    {
        match &self.values[h] {
            AggregatedGraph::Leaf(a) => {
                let n = self.graph.refs[*a].len();
                if handles_contain(&self.graph.refs[*a], *a) {
                    n - 1
                } else {
                    n
                }
            },
            AggregatedGraph::Node { references, .. } => references.len(),
        }
    }

    /// A handle's frontier is empty: a leaf without non-self references, or
    /// a node whose stored frontier is empty.  Equivalently, cost zero.
    pub open spec fn frontier_empty(self, h: int) -> bool {
        self.cost_spec(h) == 0
    }

    /// `x` names a coarsening step of `s`: a node one level above `s` that
    /// absorbed `s` into its content.
    pub open spec fn is_step(self, x: usize, s: usize) -> bool {
        &&& (x as int) < self.len_spec()
        &&& (s as int) < self.len_spec()
        &&& self.val(x as int) is Node
        &&& self.depth_at(x as int) == self.depth_at(s as int) + 1
        &&& self.node_content(x as int).contains(s)
    }

    /// `x` stands in a node's content or frontier.
    pub open spec fn in_node(self, n: int, x: usize) -> bool {
        self.node_content(n).contains(x) || self.node_refs(n).contains(x)
    }

    /// Every frontier entry of `h` has a representative in the set `cov`:
    /// for a leaf, the canonical leaf of each non-self direct reference; for
    /// a node, a coarsening step of each stored frontier handle.
    pub open spec fn frontier_in(self, h: int, cov: Set<usize>) -> bool {
        match self.val(h) {
            AggregatedGraph::Leaf(a) => forall|b: usize|
                #![trigger self.graph.asset_refs(a as int).contains(b)]
                self.graph.asset_refs(a as int).contains(b) && b != a ==> exists|x: usize|
                    #![trigger cov.contains(x)]
                    {
                        &&& (x as int) < self.len_spec()
                        &&& self.val(x as int) == AggregatedGraph::Leaf(b)
                        &&& cov.contains(x)
                    },
            AggregatedGraph::Node { .. } => forall|s: usize|
                #![trigger self.node_refs(h).contains(s)]
                self.node_refs(h).contains(s) ==> exists|x: usize|
                    #![trigger cov.contains(x)]
                    {
                        &&& self.is_step(x, s)
                        &&& cov.contains(x)
                    },
        }
    }

    /// Frontier representatives survive appending values.
    proof fn lemma_frontier_in_extends(self, later: Aggregator, h: int, cov: Set<usize>)
        requires
            later.extends(self),
            0 <= h < self.len_spec(),
            self.frontier_in(h, cov),
        ensures
            later.frontier_in(h, cov),
    {
        self.lemma_extends_preserves(later, h);
        match self.val(h) {
            AggregatedGraph::Leaf(a) => {
                assert forall|b: usize|
                    #![trigger later.graph.asset_refs(a as int).contains(b)]
                    later.graph.asset_refs(a as int).contains(b) && b != a implies exists|x: usize|
                    #![trigger cov.contains(x)]
                    {
                        &&& (x as int) < later.len_spec()
                        &&& later.val(x as int) == AggregatedGraph::Leaf(b)
                        &&& cov.contains(x)
                    } by {
                    let x = choose|x: usize|
                        #![trigger cov.contains(x)]
                        {
                            &&& (x as int) < self.len_spec()
                            &&& self.val(x as int) == AggregatedGraph::Leaf(b)
                            &&& cov.contains(x)
                        };
                    self.lemma_extends_preserves(later, x as int);
                    assert((x as int) < later.len_spec() && later.val(x as int)
                        == AggregatedGraph::Leaf(b) && cov.contains(x));
                }
            },
            AggregatedGraph::Node { .. } => {
                assert forall|s: usize|
                    #![trigger later.node_refs(h).contains(s)]
                    later.node_refs(h).contains(s) implies exists|x: usize|
                    #![trigger cov.contains(x)]
                    {
                        &&& later.is_step(x, s)
                        &&& cov.contains(x)
                    } by {
                    assert(later.node_refs(h) == self.node_refs(h));
                    assert(self.node_refs(h).contains(s));
                    let x = choose|x: usize|
                        #![trigger cov.contains(x)]
                        {
                            &&& self.is_step(x, s)
                            &&& cov.contains(x)
                        };
                    self.lemma_is_step_extends(later, x, s);
                    assert(later.is_step(x, s) && cov.contains(x));
                }
            },
        }
    }

    /// The classification facts of one bucket triple at level `d`: every
    /// member is interned at that level, duplicate-free per bucket, `inner`
    /// holds cost zero and the other two buckets positive cost.
    pub open spec fn vr_classified(self, v: ValuedReferences, d: nat) -> bool {
        &&& forall|x: usize| #[trigger] vr_member(v, x) ==> (x as int) < self.len_spec()
            && self.depth_at(x as int) == d
        &&& forall|x: usize| #[trigger] v.inner@.contains(x) ==> self.cost_spec(x as int) == 0
        &&& forall|x: usize| #[trigger] v.outer@.contains(x) ==> self.cost_spec(x as int) > 0
        &&& forall|x: usize| #[trigger] v.references@.contains(x) ==> self.cost_spec(x as int) > 0
        &&& v.inner@.no_duplicates()
        &&& v.outer@.no_duplicates()
        &&& v.references@.no_duplicates()
    }

    /// Classification facts survive appending values.
    proof fn lemma_vr_classified_extends(self, later: Aggregator, v: ValuedReferences, d: nat)
        requires
            later.extends(self),
            self.vr_classified(v, d),
        ensures
            later.vr_classified(v, d),
    {
        assert forall|x: usize| #[trigger] vr_member(v, x) implies (x as int) < later.len_spec()
            && later.depth_at(x as int) == d by {
            self.lemma_extends_preserves(later, x as int);
        }
        assert forall|x: usize| #[trigger] v.inner@.contains(x) implies later.cost_spec(x as int)
            == 0 by {
            assert(vr_member(v, x));
            self.lemma_extends_preserves(later, x as int);
        }
        assert forall|x: usize| #[trigger] v.outer@.contains(x) implies later.cost_spec(x as int)
            > 0 by {
            assert(vr_member(v, x));
            self.lemma_extends_preserves(later, x as int);
        }
        assert forall|x: usize| #[trigger] v.references@.contains(x) implies later.cost_spec(
            x as int,
        ) > 0 by {
            assert(vr_member(v, x));
            self.lemma_extends_preserves(later, x as int);
        }
    }

    /// Some handle in `sources` has `x` as its coarsening step.
    pub open spec fn step_target(self, sources: Seq<usize>, x: usize) -> bool {
        exists|s: usize| sources.contains(s) && self.is_step(x, s)
    }

    /// Some handle in `results` is a coarsening step of `s`.
    pub open spec fn step_covered(self, results: Seq<usize>, s: usize) -> bool {
        exists|x: usize| results.contains(x) && self.is_step(x, s)
    }

    /// The value a handle names summarizes (transitively, through content)
    /// the leaf of the given asset.
    pub open spec fn derives_from(self, h: int, asset: usize) -> bool
        decreases h,
    {
        match self.val(h) {
            AggregatedGraph::Leaf(a) => a == asset,
            AggregatedGraph::Node { .. } => exists|j: int|
                #![trigger self.node_content(h)[j]]
                {
                    &&& 0 <= j < self.node_content(h).len()
                    &&& 0 <= (self.node_content(h)[j] as int) < h
                    &&& self.derives_from(self.node_content(h)[j] as int, asset)
                },
        }
    }

    /// Appending values changes no old value, so the facts below carry over.
    proof fn lemma_extends_preserves(self, later: Aggregator, h: int)
        requires
            later.extends(self),
            0 <= h < self.len_spec(),
        ensures
            later.val(h) == self.val(h),
            later.depth_at(h) == self.depth_at(h),
            later.cost_spec(h) == self.cost_spec(h),
    {
    }

    /// A coarsening-step fact survives appending values.
    proof fn lemma_is_step_extends(self, later: Aggregator, x: usize, s: usize)
        requires
            later.extends(self),
            self.is_step(x, s),
        ensures
            later.is_step(x, s),
    {
    }

    /// A derivation fact survives appending values.
    proof fn lemma_derives_extends(self, later: Aggregator, h: int, asset: usize)
        requires
            later.extends(self),
            0 <= h < self.len_spec(),
            self.derives_from(h, asset),
        ensures
            later.derives_from(h, asset),
        decreases h,
    {
        match self.val(h) {
            AggregatedGraph::Leaf(_) => {},
            AggregatedGraph::Node { .. } => {
                let j = choose|j: int|
                    #![trigger self.node_content(h)[j]]
                    {
                        &&& 0 <= j < self.node_content(h).len()
                        &&& 0 <= (self.node_content(h)[j] as int) < h
                        &&& self.derives_from(self.node_content(h)[j] as int, asset)
                    };
                self.lemma_derives_extends(later, self.node_content(h)[j] as int, asset);
                assert(later.node_content(h)[j] == self.node_content(h)[j]);
            },
        }
    }

    /// A chain of exactly `k` coarsening steps out of the asset's leaf, each
    /// step taken off a summary whose frontier was still nonempty.  This is
    /// what a driver that gives up after `k` steps leaves behind.
    pub open spec fn stalled_chain(self, c: usize, asset: usize, k: nat) -> bool
        decreases k,
    {
        if k == 0 {
            (c as int) < self.len_spec() && self.val(c as int) == AggregatedGraph::Leaf(asset)
        } else {
            exists|p: usize|
                #![trigger self.is_step(c, p)]
                {
                    &&& self.stalled_chain(p, asset, (k - 1) as nat)
                    &&& !self.frontier_empty(p as int)
                    &&& self.is_step(c, p)
                }
        }
    }

    /// A stalled chain survives appending values.
    proof fn lemma_stalled_chain_extends(self, later: Aggregator, c: usize, asset: usize, k: nat)
        requires
            later.extends(self),
            self.stalled_chain(c, asset, k),
        ensures
            later.stalled_chain(c, asset, k),
        decreases k,
    {
        if k == 0 {
        } else {
            let p = choose|p: usize|
                #![trigger self.is_step(c, p)]
                {
                    &&& self.stalled_chain(p, asset, (k - 1) as nat)
                    &&& !self.frontier_empty(p as int)
                    &&& self.is_step(c, p)
                };
            self.lemma_stalled_chain_extends(later, p, asset, (k - 1) as nat);
            self.lemma_is_step_extends(later, c, p);
            self.lemma_extends_preserves(later, p as int);
            assert(later.stalled_chain(p, asset, (k - 1) as nat) && !later.frontier_empty(
                p as int,
            ) && later.is_step(c, p));
        }
    }

    /// In a well-formed interner a value's depth never exceeds its handle.
    proof fn lemma_depth_le_handle(self, h: int)
        requires
            self.wf(),
            0 <= h < self.len_spec(),
        ensures
            self.depth_at(h) <= h,
    {
        assert(self.value_ok(self.values@[h], h));
    }

    /// The content projection: the wrapped asset for a leaf, the absorbed
    /// handles for a node.
    pub fn content(&self, h: usize) -> (c: AggregatedGraphNodeContent)
        requires
            self.wf(),
            (h as int) < self.len_spec(),
        ensures
            match self.val(h as int) {
                AggregatedGraph::Leaf(a) => c == AggregatedGraphNodeContent::Asset(a),
                AggregatedGraph::Node { .. } => {
                    &&& c is Children
                    &&& c->Children_0@ == self.node_content(h as int)
                },
            },
    {
        match &self.values[h] {
            AggregatedGraph::Leaf(a) => AggregatedGraphNodeContent::Asset(*a),
            AggregatedGraph::Node { content, .. } => AggregatedGraphNodeContent::Children(
                handles_clone(content),
            ),
        }
    }
}

/// What a handle holds inside: one raw asset (a leaf) or absorbed child
/// handles (a node).
pub enum AggregatedGraphNodeContent {
    Asset(usize),
    Children(Vec<usize>),
}

/// The three-way classification of a node's frontier, per round: `inner`
/// holds cost-0 dead ends, `outer` the entries still shallow enough to merge
/// (cost at most the node's own), `references` the strictly bigger entries
/// that stay frontier edges.
pub struct ValuedReferences {
    pub inner: Vec<usize>,
    pub outer: Vec<usize>,
    pub references: Vec<usize>,
}

/// A handle stands in one of the three buckets.
pub open spec fn vr_member(v: ValuedReferences, x: usize) -> bool {
    v.inner@.contains(x) || v.outer@.contains(x) || v.references@.contains(x)
}

/// Every member of `cov` stands in one of the four handle sequences.
pub open spec fn covered_by(
    cov: Set<usize>,
    a: Seq<usize>,
    b: Seq<usize>,
    c: Seq<usize>,
    d: Seq<usize>,
) -> bool {
    forall|x: usize| cov.contains(x) ==> a.contains(x) || b.contains(x) || c.contains(x)
        || d.contains(x)
}

impl Aggregator {
    /// `x` names the canonical leaf of some non-self direct reference of
    /// asset `a`.
    pub open spec fn leaf_neighbor(self, x: usize, a: usize) -> bool {
        exists|b: usize|
            self.val(x as int) == AggregatedGraph::Leaf(b) && self.graph.asset_refs(
                a as int,
            ).contains(b) && b != a
    }

    /// A leaf's cost is zero exactly when the asset has no non-self direct
    /// reference.
    proof fn lemma_leaf_cost_zero(self, h: usize)
        requires
            self.wf(),
            (h as int) < self.len_spec(),
            self.val(h as int) is Leaf,
        ensures
            self.cost_spec(h as int) == 0 <==> !(exists|b: usize|
                self.graph.asset_refs(self.val(h as int)->0 as int).contains(b) && b != self.val(
                    h as int,
                )->0),
    {
        let a = self.val(h as int)->0;
        let s = self.graph.asset_refs(a as int);
        assert(self.value_ok(self.values@[h as int], h as int));
        assert(s.no_duplicates());
        if self.cost_spec(h as int) == 0 {
            if exists|b: usize| s.contains(b) && b != a {
                let b = choose|b: usize| s.contains(b) && b != a;
                let i = choose|i: int| 0 <= i < s.len() && s[i] == b;
                if s.contains(a) {
                    let j = choose|j: int| 0 <= j < s.len() && s[j] == a;
                    assert(i != j);
                    assert(s.len() >= 2);
                } else {
                    assert(s.len() >= 1);
                }
            }
        } else {
            if s.contains(a) {
                assert(s.len() >= 2);
                let j = choose|j: int| 0 <= j < s.len() && s[j] == a;
                let i: int = if j == 0 {
                    1
                } else {
                    0
                };
                assert(s[i] != s[j]);
                assert(s.contains(s[i]));
            } else {
                assert(s.len() >= 1);
                assert(s.contains(s[0]));
                assert(s[0] != a);
            }
        }
    }

    /// The references projection of a leaf: the canonical leaf of every
    /// non-self direct reference of the wrapped asset.  The asset's
    /// self-reference, if any, is dropped.
    #[verifier::loop_isolation(false)]
    #[verifier::rlimit(100)]
    fn leaf_references(&mut self, h: usize, asset: usize) -> (r: Vec<usize>)
        requires
            old(self).wf(),
            (h as int) < old(self).len_spec(),
            old(self).val(h as int) == AggregatedGraph::Leaf(asset),
        ensures
            final(self).wf(),
            final(self).extends(*old(self)),
            r@.no_duplicates(),
            forall|j: int| 0 <= j < r@.len() ==> ((#[trigger] r@[j]) as int) < final(self).len_spec(),
            forall|j: int|
                0 <= j < r@.len() ==> final(self).depth_at((#[trigger] r@[j]) as int) == 0,
            forall|x: usize| r@.contains(x) ==> final(self).leaf_neighbor(x, asset),
            forall|x: usize|
                (x as int) < final(self).len_spec() && final(self).leaf_neighbor(x, asset)
                    ==> r@.contains(x),
            forall|b: usize|
                old(self).graph.asset_refs(asset as int).contains(b) && b != asset ==> exists|
                    x: usize,
                |
                    r@.contains(x) && final(self).val(x as int) == AggregatedGraph::Leaf(b),
            !r@.contains(h),
    {
        let ghost pre = *self;
        let mut r: Vec<usize> = Vec::new();
        let neighbors = handles_clone(&self.graph.refs[asset]);
        let ghost nseq = pre.graph.asset_refs(asset as int);
            let mut i: usize = 0;
            while i < neighbors.len()
                invariant
                    self.wf(),
                    self.extends(pre),
                    neighbors@ == nseq,
                    i <= nseq.len(),
                    r@.no_duplicates(),
                    forall|j: int| 0 <= j < r@.len() ==> ((#[trigger] r@[j]) as int)
                        < self.len_spec(),
                    forall|x: usize| r@.contains(x) ==> self.leaf_neighbor(x, asset),
                    forall|j: int|
                        0 <= j < i && nseq[j] != asset ==> exists|x: usize|
                            r@.contains(x) && self.val(x as int) == AggregatedGraph::Leaf(
                                #[trigger] nseq[j],
                            ),
                decreases nseq.len() - i,
            {
                let b = neighbors[i];
                proof {
                    assert(pre.graph.wf());
                    assert(nseq[i as int] < pre.graph.asset_count());
                }
                if b != asset {
                    let ghost mid = *self;
                    let x = self.leaf(b);
                    proof {
                        assert forall|y: usize| r@.contains(y) implies self.leaf_neighbor(
                            y,
                            asset,
                        ) by {
                            let bb = choose|bb: usize|
                                mid.val(y as int) == AggregatedGraph::Leaf(bb)
                                    && mid.graph.asset_refs(asset as int).contains(bb) && bb
                                    != asset;
                            let jj = choose|jj: int| 0 <= jj < r@.len() && r@[jj] == y;
                            assert(self.val(y as int) == AggregatedGraph::Leaf(bb));
                        }
                        assert forall|j: int| 0 <= j < i && nseq[j] != asset implies exists|
                            x2: usize,
                        |
                            r@.contains(x2) && self.val(x2 as int) == AggregatedGraph::Leaf(
                                #[trigger] nseq[j],
                            ) by {
                            let x2 = choose|x2: usize|
                                r@.contains(x2) && mid.val(x2 as int) == AggregatedGraph::Leaf(
                                    nseq[j],
                                );
                            let jj = choose|jj: int| 0 <= jj < r@.len() && r@[jj] == x2;
                            assert(self.val(x2 as int) == AggregatedGraph::Leaf(nseq[j]));
                            assert(r@.contains(x2));
                        }
                        assert(nseq[i as int] == b);
                        assert(nseq.contains(b));
                        assert(self.graph.asset_refs(asset as int) == nseq);
                        assert(self.leaf_neighbor(x, asset));
                    }
                    let ghost r0 = r@;
                    handles_insert(&mut r, x);
                    proof {
                        assert forall|j: int| 0 <= j < i + 1 && nseq[j] != asset implies exists|
                            x2: usize,
                        |
                            r@.contains(x2) && self.val(x2 as int) == AggregatedGraph::Leaf(
                                #[trigger] nseq[j],
                            ) by {
                            if j < i {
                                let x2 = choose|x2: usize|
                                    r0.contains(x2) && self.val(x2 as int)
                                        == AggregatedGraph::Leaf(nseq[j]);
                                assert(r@.contains(x2));
                            } else {
                                assert(r@.contains(x));
                            }
                        }
                        assert forall|y: usize| r@.contains(y) implies self.leaf_neighbor(
                            y,
                            asset,
                        ) by {
                            if r0.contains(y) {
                            } else {
                                assert(y == x);
                            }
                        }
                    }
                } else {
                    proof {
                        assert(nseq[i as int] == asset);
                    }
                }
                i += 1;
            }
            proof {
                assert forall|x: usize|
                    (x as int) < self.len_spec() && self.leaf_neighbor(x, asset)
                        implies r@.contains(x) by {
                    let b = choose|b: usize|
                        self.val(x as int) == AggregatedGraph::Leaf(b) && self.graph.asset_refs(
                            asset as int,
                        ).contains(b) && b != asset;
                    let j = choose|j: int| 0 <= j < nseq.len() && nseq[j] == b;
                    let x2 = choose|x2: usize|
                        r@.contains(x2) && self.val(x2 as int) == AggregatedGraph::Leaf(b);
                    self.lemma_canonical(x as int, x2 as int);
                }
                assert(!r@.contains(h)) by {
                    if r@.contains(h) {
                        assert(self.leaf_neighbor(h, asset));
                    }
                }
                assert forall|b: usize| nseq.contains(b) && b != asset implies exists|x: usize|
                    r@.contains(x) && self.val(x as int) == AggregatedGraph::Leaf(b) by {
                    let j = choose|j: int| 0 <= j < nseq.len() && nseq[j] == b;
                    assert(nseq[j] == b);
                }
                assert forall|j: int| 0 <= j < r@.len() implies self.depth_at(
                    (#[trigger] r@[j]) as int,
                ) == pre.depth_at(h as int) by {
                    assert(r@.contains(r@[j]));
                    assert(self.leaf_neighbor(r@[j], asset));
                }
            }
        r
    }

    /// The references projection.  For a leaf: the canonical leaves of the
    /// asset's direct references, with the self-reference dropped.  For a
    /// node: each stored frontier handle coarsened one more step, collected
    /// without duplicates.
    #[verifier::loop_isolation(false)]
    #[verifier::rlimit(100)]
    pub fn references(&mut self, h: usize) -> (r: Vec<usize>)
        requires
            old(self).wf(),
            (h as int) < old(self).len_spec(),
        ensures
            final(self).wf(),
            final(self).extends(*old(self)),
            r@.no_duplicates(),
            forall|j: int| 0 <= j < r@.len() ==> ((#[trigger] r@[j]) as int) < final(self).len_spec(),
            forall|j: int|
                0 <= j < r@.len() ==> final(self).depth_at((#[trigger] r@[j]) as int) == old(self).depth_at(h as int),
            old(self).val(h as int) matches AggregatedGraph::Leaf(a) ==> {
                &&& forall|x: usize| r@.contains(x) ==> final(self).leaf_neighbor(x, a)
                &&& forall|x: usize|
                    (x as int) < final(self).len_spec() && final(self).leaf_neighbor(x, a)
                        ==> r@.contains(x)
                &&& forall|b: usize|
                    old(self).graph.asset_refs(a as int).contains(b) && b != a ==> exists|x: usize|
                        r@.contains(x) && final(self).val(x as int) == AggregatedGraph::Leaf(b)
                &&& !r@.contains(h)
            },
            old(self).val(h as int) is Node ==> {
                &&& (r@.len() == 0 <==> old(self).node_refs(h as int).len() == 0)
                &&& r@.len() <= old(self).node_refs(h as int).len()
                &&& forall|j: int|
                    0 <= j < r@.len() ==> final(self).step_target(
                        old(self).node_refs(h as int),
                        #[trigger] r@[j],
                    )
                &&& forall|j: int|
                    0 <= j < old(self).node_refs(h as int).len() ==> final(self).step_covered(
                        r@,
                        #[trigger] old(self).node_refs(h as int)[j],
                    )
            },
        decreases old(self).depth_at(h as int), 1int,
    {
        let ghost pre = *self;
        let is_leaf = value_is_leaf(&self.values[h]);
        if is_leaf {
            let asset = leaf_asset(&self.values[h]);
            let r = self.leaf_references(h, asset);
            r
        } else {
            let stored = node_references(&self.values[h]);
            let mut r: Vec<usize> = Vec::new();
            let ghost nd = pre.depth_at(h as int);
            proof {
                assert(pre.value_ok(pre.values@[h as int], h as int));
            }
            let mut i: usize = 0;
            while i < stored.len()
                invariant
                    self.wf(),
                    self.extends(pre),
                    stored@ == pre.node_refs(h as int),
                    i <= stored@.len(),
                    forall|j: int| 0 <= j < stored@.len() ==> ((#[trigger] stored@[j]) as int)
                        < pre.len_spec() && pre.depth_at(stored@[j] as int) == (nd - 1) as nat,
                    nd >= 1,
                    r@.no_duplicates(),
                    forall|j: int| 0 <= j < r@.len() ==> ((#[trigger] r@[j]) as int)
                        < self.len_spec(),
                    forall|j: int| 0 <= j < r@.len() ==> self.depth_at((#[trigger] r@[j]) as int)
                        == nd,
                    forall|j: int|
                        0 <= j < r@.len() ==> self.step_target(
                            pre.node_refs(h as int),
                            #[trigger] r@[j],
                        ),
                    forall|j: int|
                        0 <= j < i ==> self.step_covered(
                            r@,
                            #[trigger] pre.node_refs(h as int)[j],
                        ),
                    i > 0 ==> r@.len() > 0,
                    r@.len() <= i,
                decreases stored@.len() - i,
            {
                let s = stored[i];
                let ghost mid = *self;
                let x = self.aggregate_more(s);
                proof {
                    assert forall|j: int| 0 <= j < r@.len() implies self.step_target(
                        pre.node_refs(h as int),
                        #[trigger] r@[j],
                    ) by {
                        let s2 = choose|s2: usize|
                            pre.node_refs(h as int).contains(s2) && mid.is_step(r@[j], s2);
                        mid.lemma_is_step_extends(*self, r@[j], s2);
                        assert(pre.node_refs(h as int).contains(s2) && self.is_step(r@[j], s2));
                    }
                    assert forall|j: int| 0 <= j < i implies self.step_covered(
                        r@,
                        #[trigger] pre.node_refs(h as int)[j],
                    ) by {
                        let x2 = choose|x2: usize|
                            r@.contains(x2) && mid.is_step(x2, pre.node_refs(h as int)[j]);
                        mid.lemma_is_step_extends(*self, x2, pre.node_refs(h as int)[j]);
                        assert(r@.contains(x2) && self.is_step(x2, pre.node_refs(h as int)[j]));
                    }
                    assert(stored@.contains(s));
                    assert(pre.node_refs(h as int).contains(s));
                }
                let ghost r0 = r@;
                handles_insert(&mut r, x);
                proof {
                    assert(self.is_step(x, s));
                    assert forall|j: int| 0 <= j < r@.len() implies self.step_target(
                        pre.node_refs(h as int),
                        #[trigger] r@[j],
                    ) by {
                        if r0.contains(r@[j]) {
                        } else {
                            assert(r@[j] == x);
                            assert(pre.node_refs(h as int).contains(s) && self.is_step(x, s));
                        }
                    }
                    assert forall|j: int| 0 <= j < i + 1 implies self.step_covered(
                        r@,
                        #[trigger] pre.node_refs(h as int)[j],
                    ) by {
                        if j < i {
                            let x2 = choose|x2: usize|
                                r0.contains(x2) && self.is_step(x2, pre.node_refs(h as int)[j]);
                            assert(r@.contains(x2) && self.is_step(x2, pre.node_refs(h as int)[j]));
                        } else {
                            assert(pre.node_refs(h as int)[j] == stored@[j]);
                            assert(r@.contains(x) && self.is_step(x, pre.node_refs(h as int)[j]));
                        }
                    }
                }
                i += 1;
            }
            proof {
                assert(pre.val(h as int) is Node);
                assert(r@.len() == 0 <==> pre.node_refs(h as int).len() == 0);
            }
            r
        }
    }

    /// Compute the node's own cost, then place every frontier entry of the
    /// references projection into exactly one bucket by its cost: zero into
    /// `inner`, more than the node's own into `references`, the rest into
    /// `outer`.  The buckets are disjoint and together hold the frontier
    /// exactly — nothing is dropped or duplicated.
    #[verifier::loop_isolation(false)]
    #[verifier::rlimit(60)]
    pub fn valued_references(&mut self, h: usize) -> (v: ValuedReferences)
        requires
            old(self).wf(),
            (h as int) < old(self).len_spec(),
        ensures
            final(self).wf(),
            final(self).extends(*old(self)),
            v.inner@.no_duplicates(),
            v.outer@.no_duplicates(),
            v.references@.no_duplicates(),
            seq_disjoint(v.inner@, v.outer@),
            seq_disjoint(v.inner@, v.references@),
            seq_disjoint(v.outer@, v.references@),
            forall|x: usize| v.inner@.contains(x) ==> final(self).cost_spec(x as int) == 0,
            forall|x: usize|
                v.outer@.contains(x) ==> 0 < final(self).cost_spec(x as int) <= old(self).cost_spec(h as int),
            forall|x: usize|
                v.references@.contains(x) ==> final(self).cost_spec(x as int) > old(self).cost_spec(h as int),
            forall|x: usize|
                vr_member(v, x) ==> (x as int) < final(self).len_spec() && final(self).depth_at(
                    x as int,
                ) == old(self).depth_at(h as int),
            old(self).val(h as int) matches AggregatedGraph::Leaf(a) ==> {
                &&& forall|x: usize| vr_member(v, x) ==> final(self).leaf_neighbor(x, a)
                &&& forall|x: usize|
                    (x as int) < final(self).len_spec() && final(self).leaf_neighbor(x, a)
                        ==> vr_member(v, x)
                &&& forall|b: usize|
                    old(self).graph.asset_refs(a as int).contains(b) && b != a ==> exists|x: usize|
                        vr_member(v, x) && final(self).val(x as int) == AggregatedGraph::Leaf(b)
                &&& !vr_member(v, h)
            },
            old(self).val(h as int) is Node ==> {
                &&& ((forall|x: usize| !vr_member(v, x)) <==> old(self).node_refs(
                    h as int,
                ).len() == 0)
                &&& forall|x: usize|
                    #[trigger] vr_member(v, x) ==> final(self).step_target(
                        old(self).node_refs(h as int),
                        x,
                    )
                &&& forall|j: int|
                    0 <= j < old(self).node_refs(h as int).len() ==> exists|x: usize|
                        vr_member(v, x) && final(self).is_step(
                            x,
                            #[trigger] old(self).node_refs(h as int)[j],
                        )
            },
        decreases old(self).depth_at(h as int), 2int,
    {
        let ghost pre = *self;
        let self_cost = self.cost(h);
        let r = self.references(h);
        let mut inner: Vec<usize> = Vec::new();
        let mut outer: Vec<usize> = Vec::new();
        let mut references: Vec<usize> = Vec::new();
        let mut i: usize = 0;
        while i < r.len()
            invariant
                i <= r@.len(),
                inner@.no_duplicates(),
                outer@.no_duplicates(),
                references@.no_duplicates(),
                forall|x: usize| inner@.contains(x) ==> self.cost_spec(x as int) == 0,
                forall|x: usize|
                    outer@.contains(x) ==> 0 < self.cost_spec(x as int) <= self_cost,
                forall|x: usize| references@.contains(x) ==> self.cost_spec(x as int) > self_cost,
                forall|x: usize|
                    #![trigger inner@.contains(x)]
                    #![trigger outer@.contains(x)]
                    #![trigger references@.contains(x)]
                    #![trigger r@.take(i as int).contains(x)]
                    (inner@.contains(x) || outer@.contains(x) || references@.contains(x)) <==> r@.take(
                        i as int,
                    ).contains(x),
            decreases r@.len() - i,
        {
            let x = r[i];
            proof {
                assert(r@.contains(r@[i as int]));
                assert(!r@.take(i as int).contains(x)) by {
                    if r@.take(i as int).contains(x) {
                        let j = choose|j: int| 0 <= j < i && r@.take(i as int)[j] == x;
                        assert(r@[j] == r@[i as int]);
                    }
                }
            }
            let c = self.cost(x);
            if c == 0 {
                handles_insert(&mut inner, x);
            } else if c > self_cost {
                handles_insert(&mut references, x);
            } else {
                handles_insert(&mut outer, x);
            }
            proof {
                assert(r@.take(i + 1).drop_last() =~= r@.take(i as int));
                assert(r@.take(i + 1).last() == x);
                assert forall|y: usize|
                    #![trigger inner@.contains(y)]
                    #![trigger outer@.contains(y)]
                    #![trigger references@.contains(y)]
                    #![trigger r@.take(i + 1).contains(y)]
                    (inner@.contains(y) || outer@.contains(y) || references@.contains(y)) <==> r@.take(
                        i + 1,
                    ).contains(y) by {
                    if r@.take(i + 1).contains(y) {
                        let j = choose|j: int| #![trigger r@.take(i + 1)[j]] 0 <= j < i + 1 && r@.take(i + 1)[j] == y;
                        if j < i {
                            assert(r@.take(i as int)[j] == y);
                        }
                    }
                    if r@.take(i as int).contains(y) {
                        let j = choose|j: int| #![trigger r@.take(i as int)[j]] 0 <= j < i && r@.take(i as int)[j] == y;
                        assert(r@.take(i + 1)[j] == y);
                    }
                }
            }
            i += 1;
        }
        proof {
            assert(r@.take(r@.len() as int) =~= r@);
            let v = (ValuedReferences { inner, outer, references });
            assert forall|x: usize| vr_member(v, x) <==> r@.contains(x) by {}
            assert forall|x: usize| #[trigger] vr_member(v, x) implies (x as int)
                < self.len_spec() && self.depth_at(x as int) == pre.depth_at(h as int) by {
                assert(r@.contains(x));
                let j = choose|j: int| 0 <= j < r@.len() && r@[j] == x;
            }
            match pre.val(h as int) {
                AggregatedGraph::Leaf(a) => {
                    assert forall|x: usize| #[trigger] vr_member(v, x) implies self.leaf_neighbor(
                        x,
                        a,
                    ) by {
                        assert(r@.contains(x));
                    }
                    assert forall|b: usize|
                        pre.graph.asset_refs(a as int).contains(b) && b != a implies exists|
                        x: usize,
                    |
                        vr_member(v, x) && self.val(x as int) == AggregatedGraph::Leaf(b) by {
                        let x = choose|x: usize|
                            r@.contains(x) && self.val(x as int) == AggregatedGraph::Leaf(b);
                        assert(vr_member(v, x) && self.val(x as int) == AggregatedGraph::Leaf(b));
                    }
                    assert(!r@.contains(h));
                },
                AggregatedGraph::Node { .. } => {
                    if pre.node_refs(h as int).len() == 0 {
                        assert(r@.len() == 0);
                        assert forall|x: usize| !vr_member(v, x) by {
                            if r@.contains(x) {
                                let j = choose|j: int| 0 <= j < r@.len() && r@[j] == x;
                            }
                        }
                    } else {
                        assert(r@.len() > 0);
                        assert(r@.contains(r@[0]));
                        assert(vr_member(v, r@[0]));
                    }
                    assert forall|x: usize| #[trigger] vr_member(v, x) implies self.step_target(
                        pre.node_refs(h as int),
                        x,
                    ) by {
                        assert(r@.contains(x));
                        let j = choose|j: int| 0 <= j < r@.len() && r@[j] == x;
                        assert(self.step_target(pre.node_refs(h as int), r@[j]));
                    }
                    assert forall|j: int| 0 <= j < pre.node_refs(h as int).len() implies exists|
                        x: usize,
                    |
                        vr_member(v, x) && self.is_step(
                            x,
                            #[trigger] pre.node_refs(h as int)[j],
                        ) by {
                        assert(self.step_covered(r@, pre.node_refs(h as int)[j]));
                        let x = choose|x: usize|
                            r@.contains(x) && self.is_step(x, pre.node_refs(h as int)[j]);
                        assert(vr_member(v, x) && self.is_step(x, pre.node_refs(h as int)[j]));
                    }
                },
            }
        }
        ValuedReferences { inner, outer, references }
    }

    /// One coarsening step: absorb the node and, over two rounds (three at a
    /// positive even depth — the alternation that dissolves cycles), its
    /// still-shallow frontier, classifying every encountered frontier entry;
    /// entries strictly bigger than their source stay frontier edges unless
    /// already absorbed, and whatever is still queued when the rounds end
    /// joins the frontier.  The result is the interned node one level deeper.
    #[verifier::loop_isolation(false)]
    #[verifier::rlimit(60)]
    pub fn aggregate_more(&mut self, h: usize) -> (res: usize)
        requires
            old(self).wf(),
            (h as int) < old(self).len_spec(),
        ensures
            final(self).wf(),
            final(self).extends(*old(self)),
            (res as int) < final(self).len_spec(),
            final(self).is_step(res, h),
            final(self).depth_at(res as int) == old(self).depth_at(h as int) + 1,
            seq_disjoint(
                final(self).node_content(res as int),
                final(self).node_refs(res as int),
            ),
            forall|j: int|
                0 <= j < final(self).node_content(res as int).len() ==> final(self).depth_at(
                    (#[trigger] final(self).node_content(res as int)[j]) as int,
                ) < final(self).depth_at(res as int),
            old(self).val(h as int) matches AggregatedGraph::Leaf(a) ==> forall|b: usize|
                #![trigger old(self).graph.asset_refs(a as int).contains(b)]
                old(self).graph.asset_refs(a as int).contains(b) && b != a ==> exists|x: usize|
                    #![trigger final(self).in_node(res as int, x)]
                    {
                        &&& final(self).val(x as int) == AggregatedGraph::Leaf(b)
                        &&& final(self).in_node(res as int, x)
                    },
            old(self).val(h as int) is Node ==> forall|s: usize|
                #![trigger old(self).node_refs(h as int).contains(s)]
                old(self).node_refs(h as int).contains(s) ==> exists|x: usize|
                    #![trigger final(self).in_node(res as int, x)]
                    {
                        &&& final(self).is_step(x, s)
                        &&& final(self).in_node(res as int, x)
                    },
        decreases old(self).depth_at(h as int), 3int,
    {
        let ghost pre = *self;
        let node_depth = self.values[h].depth();
        proof {
            self.lemma_depth_le_handle(h as int);
        }
        let mut in_progress: Vec<usize> = Vec::new();
        let mut content: Vec<usize> = Vec::new();
        let mut references: Vec<usize> = Vec::new();
        let ghost mut hcov: Set<usize> = Set::empty();
        in_progress.push(h);
        let rounds: usize = if node_depth > 0 && node_depth % 2 == 0 {
            3
        } else {
            2
        };
        let mut round: usize = 0;
        while round < rounds
            invariant
                self.wf(),
                self.extends(pre),
                round <= rounds,
                in_progress@.no_duplicates(),
                content@.no_duplicates(),
                references@.no_duplicates(),
                seq_disjoint(in_progress@, content@),
                seq_disjoint(in_progress@, references@),
                seq_disjoint(content@, references@),
                forall|x: usize| in_progress@.contains(x) ==> (x as int) < self.len_spec()
                    && self.depth_at(x as int) == node_depth,
                forall|x: usize| content@.contains(x) ==> (x as int) < self.len_spec()
                    && self.depth_at(x as int) == node_depth,
                forall|x: usize| references@.contains(x) ==> (x as int) < self.len_spec()
                    && self.depth_at(x as int) == node_depth && self.cost_spec(x as int) > 0,
                round == 0 ==> in_progress@ =~= seq![h] && content@.len() == 0 && hcov
                    =~= Set::<usize>::empty(),
                round > 0 ==> content@.contains(h),
                round > 0 ==> forall|x: usize| in_progress@.contains(x) ==> self.cost_spec(
                    x as int,
                ) > 0,
                round > 0 ==> self.frontier_in(h as int, hcov),
                round > 0 ==> covered_by(
                    hcov,
                    content@,
                    references@,
                    in_progress@,
                    Seq::<usize>::empty(),
                ),
            decreases rounds - round,
        {
            // absorb the queued handles into content for this round
            let mut k: usize = 0;
            while k < in_progress.len()
                invariant
                    k <= in_progress@.len(),
                    content@.no_duplicates(),
                    forall|x: usize| content@.contains(x) ==> (x as int) < self.len_spec()
                        && self.depth_at(x as int) == node_depth,
                    seq_disjoint(content@, references@),
                    forall|j: int| 0 <= j < k ==> content@.contains(#[trigger] in_progress@[j]),
                    content@.contains(h) || (round == 0 && k == 0),
                    round > 0 ==> covered_by(
                        hcov,
                        content@,
                        references@,
                        in_progress@,
                        Seq::<usize>::empty(),
                    ),
                decreases in_progress@.len() - k,
            {
                proof {
                    assert(in_progress@.contains(in_progress@[k as int]));
                }
                handles_insert(&mut content, in_progress[k]);
                k += 1;
            }
            proof {
                assert(in_progress@.len() > 0 ==> content@.contains(in_progress@[0]));
                if round == 0 {
                    assert(in_progress@.contains(h));
                }
                assert(content@.contains(h));
            }
            // classify the frontier of every handle absorbed this round
            let mut vrs: Vec<ValuedReferences> = Vec::new();
            let mut k2: usize = 0;
            while k2 < in_progress.len()
                invariant
                    k2 <= in_progress@.len(),
                    self.wf(),
                    self.extends(pre),
                    forall|x: usize| in_progress@.contains(x) ==> (x as int) < self.len_spec()
                        && self.depth_at(x as int) == node_depth,
                    forall|x: usize| content@.contains(x) ==> (x as int) < self.len_spec()
                        && self.depth_at(x as int) == node_depth,
                    forall|x: usize| references@.contains(x) ==> (x as int) < self.len_spec()
                        && self.depth_at(x as int) == node_depth && self.cost_spec(x as int) > 0,
                    vrs@.len() == k2,
                    forall|p: int| 0 <= p < vrs@.len() ==> self.vr_classified(
                        #[trigger] vrs@[p],
                        node_depth as nat,
                    ),
                    round == 0 && k2 == 0 ==> hcov =~= Set::<usize>::empty(),
                    round == 0 && k2 >= 1 ==> self.frontier_in(h as int, hcov) && (forall|
                        x: usize,
                    |
                        hcov.contains(x) ==> vr_member(vrs@[0], x)),
                    round > 0 ==> self.frontier_in(h as int, hcov),
                    round > 0 ==> covered_by(
                        hcov,
                        content@,
                        references@,
                        in_progress@,
                        Seq::<usize>::empty(),
                    ),
                decreases in_progress@.len() - k2,
            {
                proof {
                    assert(in_progress@.contains(in_progress@[k2 as int]));
                }
                let ghost mid = *self;
                let ghost vrs0 = vrs@;
                let vr = self.valued_references(in_progress[k2]);
                vrs.push(vr);
                proof {
                    assert(vrs@.len() == vrs0.len() + 1);
                    assert forall|p: int| 0 <= p < vrs@.len() implies self.vr_classified(
                        #[trigger] vrs@[p],
                        node_depth as nat,
                    ) by {
                        if p < vrs0.len() {
                            assert(vrs@[p] == vrs0[p]);
                            mid.lemma_vr_classified_extends(*self, vrs0[p], node_depth as nat);
                        } else {
                            assert(vrs@[p] == vr);
                        }
                    }
                    assert forall|x: usize| content@.contains(x) implies (x as int)
                        < self.len_spec() && self.depth_at(x as int) == node_depth by {
                        mid.lemma_extends_preserves(*self, x as int);
                    }
                    assert forall|x: usize| references@.contains(x) implies (x as int)
                        < self.len_spec() && self.depth_at(x as int) == node_depth
                        && self.cost_spec(x as int) > 0 by {
                        mid.lemma_extends_preserves(*self, x as int);
                    }
                    assert forall|x: usize| in_progress@.contains(x) implies (x as int)
                        < self.len_spec() && self.depth_at(x as int) == node_depth by {
                        mid.lemma_extends_preserves(*self, x as int);
                    }
                    if round == 0 && k2 == 0 {
                        hcov = Set::new(|x: usize| vr_member(vr, x));
                        assert(in_progress@[0] == h);
                        assert(mid.val(h as int) == pre.val(h as int));
                        assert(self.frontier_in(h as int, hcov)) by {
                            match pre.val(h as int) {
                                AggregatedGraph::Leaf(a) => {
                                    assert forall|b: usize|
                                        #![trigger self.graph.asset_refs(a as int).contains(b)]
                                        self.graph.asset_refs(a as int).contains(b) && b != a
                                            implies exists|x: usize|
                                        #![trigger hcov.contains(x)]
                                        {
                                            &&& (x as int) < self.len_spec()
                                            &&& self.val(x as int) == AggregatedGraph::Leaf(b)
                                            &&& hcov.contains(x)
                                        } by {
                                        let x = choose|x: usize|
                                            vr_member(vr, x) && self.val(x as int)
                                                == AggregatedGraph::Leaf(b);
                                        assert(hcov.contains(x));
                                        assert((x as int) < self.len_spec() && self.val(x as int)
                                            == AggregatedGraph::Leaf(b) && hcov.contains(x));
                                    }
                                },
                                AggregatedGraph::Node { .. } => {
                                    assert forall|s2: usize|
                                        #![trigger self.node_refs(h as int).contains(s2)]
                                        self.node_refs(h as int).contains(s2) implies exists|
                                        x: usize,
                                    |
                                        #![trigger hcov.contains(x)]
                                        {
                                            &&& self.is_step(x, s2)
                                            &&& hcov.contains(x)
                                        } by {
                                        assert(mid.node_refs(h as int) == self.node_refs(
                                            h as int,
                                        ));
                                        let j = choose|j: int|
                                            0 <= j < mid.node_refs(h as int).len()
                                                && mid.node_refs(h as int)[j] == s2;
                                        assert(mid.node_refs(h as int)[j] == s2);
                                        let x = choose|x: usize|
                                            vr_member(vr, x) && self.is_step(
                                                x,
                                                mid.node_refs(h as int)[j],
                                            );
                                        assert(hcov.contains(x));
                                        assert(self.is_step(x, s2) && hcov.contains(x));
                                    }
                                },
                            }
                        }
                    }
                    if round > 0 {
                        mid.lemma_frontier_in_extends(*self, h as int, hcov);
                    }
                }
                k2 += 1;
            }
            // cost-0 entries are dead ends: absorb them
            let mut p: usize = 0;
            while p < vrs.len()
                invariant
                    p <= vrs@.len(),
                    content@.no_duplicates(),
                    forall|x: usize| content@.contains(x) ==> (x as int) < self.len_spec()
                        && self.depth_at(x as int) == node_depth,
                    seq_disjoint(content@, references@),
                    content@.contains(h),
                    forall|j: int| 0 <= j < in_progress@.len() ==> content@.contains(
                        #[trigger] in_progress@[j],
                    ),
                    forall|pp: int, q2: int|
                        0 <= pp < p && 0 <= q2 < vrs@[pp].inner@.len() ==> content@.contains(
                            #[trigger] vrs@[pp].inner@[q2],
                        ),
                    round > 0 ==> covered_by(
                        hcov,
                        content@,
                        references@,
                        in_progress@,
                        Seq::<usize>::empty(),
                    ),
                decreases vrs@.len() - p,
            {
                let m = vrs[p].inner.len();
                let mut q: usize = 0;
                while q < m
                    invariant
                        p < vrs@.len(),
                        m == vrs@[p as int].inner@.len(),
                        q <= m,
                        content@.no_duplicates(),
                        forall|x: usize| content@.contains(x) ==> (x as int) < self.len_spec()
                            && self.depth_at(x as int) == node_depth,
                        seq_disjoint(content@, references@),
                        content@.contains(h),
                        forall|j: int| 0 <= j < in_progress@.len() ==> content@.contains(
                            #[trigger] in_progress@[j],
                        ),
                        forall|pp: int, q2: int|
                            0 <= pp < p && 0 <= q2 < vrs@[pp].inner@.len() ==> content@.contains(
                                #[trigger] vrs@[pp].inner@[q2],
                            ),
                        forall|q2: int| 0 <= q2 < q ==> content@.contains(
                            #[trigger] vrs@[p as int].inner@[q2],
                        ),
                        round > 0 ==> covered_by(
                            hcov,
                            content@,
                            references@,
                            in_progress@,
                            Seq::<usize>::empty(),
                        ),
                    decreases m - q,
                {
                    proof {
                        assert(self.vr_classified(vrs@[p as int], node_depth as nat));
                        assert(vrs@[p as int].inner@.contains(vrs@[p as int].inner@[q as int]));
                        assert(vr_member(vrs@[p as int], vrs@[p as int].inner@[q as int]));
                    }
                    let e = vrs[p].inner[q];
                    handles_insert(&mut content, e);
                    q += 1;
                }
                p += 1;
            }
            // strictly bigger entries become frontier edges, unless absorbed
            let mut p2: usize = 0;
            while p2 < vrs.len()
                invariant
                    p2 <= vrs@.len(),
                    references@.no_duplicates(),
                    forall|x: usize| references@.contains(x) ==> (x as int) < self.len_spec()
                        && self.depth_at(x as int) == node_depth && self.cost_spec(x as int) > 0,
                    seq_disjoint(content@, references@),
                    forall|pp: int, q2: int|
                        0 <= pp < p2 && 0 <= q2 < vrs@[pp].references@.len() ==> content@.contains(
                            #[trigger] vrs@[pp].references@[q2],
                        ) || references@.contains(vrs@[pp].references@[q2]),
                    round > 0 ==> covered_by(
                        hcov,
                        content@,
                        references@,
                        in_progress@,
                        Seq::<usize>::empty(),
                    ),
                decreases vrs@.len() - p2,
            {
                let m = vrs[p2].references.len();
                let mut q: usize = 0;
                while q < m
                    invariant
                        p2 < vrs@.len(),
                        m == vrs@[p2 as int].references@.len(),
                        q <= m,
                        references@.no_duplicates(),
                        forall|x: usize| references@.contains(x) ==> (x as int) < self.len_spec()
                            && self.depth_at(x as int) == node_depth && self.cost_spec(x as int)
                            > 0,
                        seq_disjoint(content@, references@),
                        forall|pp: int, q2: int|
                            0 <= pp < p2 && 0 <= q2 < vrs@[pp].references@.len()
                                ==> content@.contains(#[trigger] vrs@[pp].references@[q2])
                                || references@.contains(vrs@[pp].references@[q2]),
                        forall|q2: int|
                            0 <= q2 < q ==> content@.contains(
                                #[trigger] vrs@[p2 as int].references@[q2],
                            ) || references@.contains(vrs@[p2 as int].references@[q2]),
                        round > 0 ==> covered_by(
                            hcov,
                            content@,
                            references@,
                            in_progress@,
                            Seq::<usize>::empty(),
                        ),
                    decreases m - q,
                {
                    proof {
                        assert(self.vr_classified(vrs@[p2 as int], node_depth as nat));
                        assert(vrs@[p2 as int].references@.contains(
                            vrs@[p2 as int].references@[q as int],
                        ));
                        assert(vr_member(vrs@[p2 as int], vrs@[p2 as int].references@[q as int]));
                    }
                    let e = vrs[p2].references[q];
                    if !handles_contain(&content, e) {
                        handles_insert(&mut references, e);
                    }
                    q += 1;
                }
                p2 += 1;
            }
            // still-shallow entries get another round, unless absorbed
            let mut next: Vec<usize> = Vec::new();
            let mut p3: usize = 0;
            while p3 < vrs.len()
                invariant
                    p3 <= vrs@.len(),
                    references@.no_duplicates(),
                    next@.no_duplicates(),
                    forall|x: usize| references@.contains(x) ==> (x as int) < self.len_spec()
                        && self.depth_at(x as int) == node_depth && self.cost_spec(x as int) > 0,
                    forall|x: usize| next@.contains(x) ==> (x as int) < self.len_spec()
                        && self.depth_at(x as int) == node_depth && self.cost_spec(x as int) > 0,
                    seq_disjoint(content@, references@),
                    seq_disjoint(next@, content@),
                    seq_disjoint(next@, references@),
                    forall|pp: int, q2: int|
                        0 <= pp < vrs@.len() && 0 <= q2 < vrs@[pp].references@.len()
                            ==> content@.contains(#[trigger] vrs@[pp].references@[q2])
                            || references@.contains(vrs@[pp].references@[q2]) || next@.contains(
                            vrs@[pp].references@[q2],
                        ),
                    forall|pp: int, q2: int|
                        0 <= pp < p3 && 0 <= q2 < vrs@[pp].outer@.len() ==> content@.contains(
                            #[trigger] vrs@[pp].outer@[q2],
                        ) || next@.contains(vrs@[pp].outer@[q2]),
                    round > 0 ==> covered_by(hcov, content@, references@, in_progress@, next@),
                decreases vrs@.len() - p3,
            {
                let m = vrs[p3].outer.len();
                let mut q: usize = 0;
                while q < m
                    invariant
                        p3 < vrs@.len(),
                        m == vrs@[p3 as int].outer@.len(),
                        q <= m,
                        references@.no_duplicates(),
                        next@.no_duplicates(),
                        forall|x: usize| references@.contains(x) ==> (x as int) < self.len_spec()
                            && self.depth_at(x as int) == node_depth && self.cost_spec(x as int)
                            > 0,
                        forall|x: usize| next@.contains(x) ==> (x as int) < self.len_spec()
                            && self.depth_at(x as int) == node_depth && self.cost_spec(x as int)
                            > 0,
                        seq_disjoint(content@, references@),
                        seq_disjoint(next@, content@),
                        seq_disjoint(next@, references@),
                        forall|pp: int, q2: int|
                            0 <= pp < vrs@.len() && 0 <= q2 < vrs@[pp].references@.len()
                                ==> content@.contains(#[trigger] vrs@[pp].references@[q2])
                                || references@.contains(vrs@[pp].references@[q2])
                                || next@.contains(vrs@[pp].references@[q2]),
                        forall|pp: int, q2: int|
                            0 <= pp < p3 && 0 <= q2 < vrs@[pp].outer@.len() ==> content@.contains(
                                #[trigger] vrs@[pp].outer@[q2],
                            ) || next@.contains(vrs@[pp].outer@[q2]),
                        forall|q2: int|
                            0 <= q2 < q ==> content@.contains(
                                #[trigger] vrs@[p3 as int].outer@[q2],
                            ) || next@.contains(vrs@[p3 as int].outer@[q2]),
                        round > 0 ==> covered_by(hcov, content@, references@, in_progress@, next@),
                    decreases m - q,
                {
                    proof {
                        assert(self.vr_classified(vrs@[p3 as int], node_depth as nat));
                        assert(vrs@[p3 as int].outer@.contains(vrs@[p3 as int].outer@[q as int]));
                        assert(vr_member(vrs@[p3 as int], vrs@[p3 as int].outer@[q as int]));
                    }
                    let e = vrs[p3].outer[q];
                    if !handles_contain(&content, e) {
                        handles_remove(&mut references, e);
                        handles_insert(&mut next, e);
                    }
                    q += 1;
                }
                p3 += 1;
            }
            proof {
                assert(covered_by(hcov, content@, references@, next@, Seq::<usize>::empty())) by {
                    assert forall|x: usize| hcov.contains(x) implies content@.contains(x)
                        || references@.contains(x) || next@.contains(x) by {
                        if round == 0 {
                            assert(vr_member(vrs@[0], x));
                            if vrs@[0].inner@.contains(x) {
                                let q2 = choose|q2: int|
                                    0 <= q2 < vrs@[0].inner@.len() && vrs@[0].inner@[q2] == x;
                                assert(content@.contains(vrs@[0].inner@[q2]));
                            } else if vrs@[0].references@.contains(x) {
                                let q2 = choose|q2: int|
                                    0 <= q2 < vrs@[0].references@.len() && vrs@[0].references@[q2]
                                        == x;
                                assert(content@.contains(vrs@[0].references@[q2])
                                    || references@.contains(vrs@[0].references@[q2])
                                    || next@.contains(vrs@[0].references@[q2]));
                            } else {
                                let q2 = choose|q2: int|
                                    0 <= q2 < vrs@[0].outer@.len() && vrs@[0].outer@[q2] == x;
                                assert(content@.contains(vrs@[0].outer@[q2]) || next@.contains(
                                    vrs@[0].outer@[q2],
                                ));
                            }
                        } else {
                            if in_progress@.contains(x) {
                                let j = choose|j: int|
                                    0 <= j < in_progress@.len() && in_progress@[j] == x;
                                assert(content@.contains(in_progress@[j]));
                            }
                        }
                    }
                }
            }
            in_progress = next;
            round += 1;
        }
        // whatever is still queued joins the frontier instead of being dropped
        let mut k3: usize = 0;
        while k3 < in_progress.len()
            invariant
                k3 <= in_progress@.len(),
                references@.no_duplicates(),
                forall|x: usize| references@.contains(x) ==> (x as int) < self.len_spec()
                    && self.depth_at(x as int) == node_depth,
                seq_disjoint(content@, references@),
                forall|x: usize|
                    references@.contains(x) ==> in_progress@.contains(x) || self.cost_spec(
                        x as int,
                    ) > 0,
                forall|j: int| 0 <= j < k3 ==> references@.contains(#[trigger] in_progress@[j]),
                covered_by(hcov, content@, references@, in_progress@, Seq::<usize>::empty()),
            decreases in_progress@.len() - k3,
        {
            proof {
                assert(in_progress@.contains(in_progress@[k3 as int]));
            }
            handles_insert(&mut references, in_progress[k3]);
            k3 += 1;
        }
        let total = self.values.len();
        proof {
            assert(node_depth < total);
        }
        let ghost before = *self;
        proof {
            let node = (AggregatedGraph::Node {
                depth: (node_depth + 1) as usize,
                content: content,
                references: references,
            });
            assert(content@.contains(h));
            let j = choose|j: int| 0 <= j < content@.len() && content@[j] == h;
            assert(content@.len() >= 1);
            assert forall|j2: int| 0 <= j2 < content@.len() implies {
                &&& ((#[trigger] content@[j2]) as int) < before.len_spec()
                &&& before.depth_at(content@[j2] as int) < node_depth + 1
            } by {
                assert(content@.contains(content@[j2]));
            }
            assert forall|j2: int| 0 <= j2 < references@.len() implies {
                &&& ((#[trigger] references@[j2]) as int) < before.len_spec()
                &&& before.depth_at(references@[j2] as int) == node_depth as nat
            } by {
                assert(references@.contains(references@[j2]));
            }
            assert(before.value_ok(node, before.len_spec() as int));
        }
        let res = self.intern(AggregatedGraph::Node {
            depth: node_depth + 1,
            content,
            references,
        });
        proof {
            assert(self.val(res as int) is Node) by {
                if self.val(res as int) is Leaf {
                    assert(false);
                }
            }
            assert(self.node_content(res as int).contains(h));
            assert(self.value_ok(self.values@[res as int], res as int));
            assert(self.depth_at(res as int) == node_depth + 1);
            assert(self.extends(pre));
            assert forall|j2: int| 0 <= j2 < self.node_content(res as int).len() implies self.depth_at(
                (#[trigger] self.node_content(res as int)[j2]) as int,
            ) < self.depth_at(res as int) by {
                assert(self.node_content(res as int)[j2] < res);
            }
            // nothing that was covered has been dropped: it sits in the node
            assert forall|x: usize| hcov.contains(x) implies self.in_node(res as int, x) by {
                if in_progress@.contains(x) {
                    let j = choose|j: int| 0 <= j < in_progress@.len() && in_progress@[j] == x;
                    assert(references@.contains(in_progress@[j]));
                }
                assert(content@.contains(x) || references@.contains(x));
            }
            assert(before.frontier_in(h as int, hcov));
            match pre.val(h as int) {
                AggregatedGraph::Leaf(a) => {
                    assert forall|b: usize|
                        #![trigger pre.graph.asset_refs(a as int).contains(b)]
                        pre.graph.asset_refs(a as int).contains(b) && b != a implies exists|
                        x: usize,
                    |
                        #![trigger self.in_node(res as int, x)]
                        {
                            &&& self.val(x as int) == AggregatedGraph::Leaf(b)
                            &&& self.in_node(res as int, x)
                        } by {
                        let x = choose|x: usize|
                            #![trigger hcov.contains(x)]
                            {
                                &&& (x as int) < before.len_spec()
                                &&& before.val(x as int) == AggregatedGraph::Leaf(b)
                                &&& hcov.contains(x)
                            };
                        before.lemma_extends_preserves(*self, x as int);
                        assert(self.val(x as int) == AggregatedGraph::Leaf(b) && self.in_node(
                            res as int,
                            x,
                        ));
                    }
                },
                AggregatedGraph::Node { .. } => {
                    assert forall|s2: usize|
                        #![trigger pre.node_refs(h as int).contains(s2)]
                        pre.node_refs(h as int).contains(s2) implies exists|x: usize|
                        #![trigger self.in_node(res as int, x)]
                        {
                            &&& self.is_step(x, s2)
                            &&& self.in_node(res as int, x)
                        } by {
                        assert(before.node_refs(h as int) == pre.node_refs(h as int));
                        assert(before.val(h as int) == pre.val(h as int));
                        assert(before.node_refs(h as int).contains(s2));
                        let x = choose|x: usize|
                            #![trigger hcov.contains(x)]
                            {
                                &&& before.is_step(x, s2)
                                &&& hcov.contains(x)
                            };
                        before.lemma_is_step_extends(*self, x, s2);
                        assert(self.is_step(x, s2) && self.in_node(res as int, x));
                    }
                },
            }
        }
        res
    }

    /// The driver: start from the canonical leaf of `asset` and coarsen until
    /// the frontier is empty, for at most `max_steps` coarsening steps (the
    /// alternating rounds are believed, not proved, to dissolve every cycle,
    /// so callers impose a hard bound).  On success the returned summary has
    /// an empty frontier and derives from the asset's leaf.
    #[verifier::loop_isolation(false)]
    pub fn aggregate(&mut self, asset: usize, max_steps: usize) -> (res: Option<usize>)
        requires
            old(self).wf(),
            (asset as int) < old(self).graph.asset_count(),
        ensures
            final(self).wf(),
            final(self).extends(*old(self)),
            res matches Some(hh) ==> {
                &&& (hh as int) < final(self).len_spec()
                &&& final(self).frontier_empty(hh as int)
                &&& final(self).derives_from(hh as int, asset)
            },
            max_steps > 0 && old(self).graph.dead_end(asset) ==> (res matches Some(hh)
                && final(self).val(hh as int) == AggregatedGraph::Leaf(asset)),
            res is None ==> exists|c: usize| final(self).stalled_chain(c, asset, max_steps as nat),
    {
        let ghost pre = *self;
        let mut current = self.leaf(asset);
        proof {
            assert(self.derives_from(current as int, asset));
            assert(self.stalled_chain(current, asset, 0));
        }
        let mut steps: usize = 0;
        while steps < max_steps
            invariant
                self.wf(),
                self.extends(pre),
                steps <= max_steps,
                (current as int) < self.len_spec(),
                self.derives_from(current as int, asset),
                self.stalled_chain(current, asset, steps as nat),
                pre.graph.dead_end(asset) ==> steps == 0 && self.val(current as int)
                    == AggregatedGraph::Leaf(asset),
            decreases max_steps - steps,
        {
            let ghost mid = *self;
            let r = self.references(current);
            proof {
                mid.lemma_extends_preserves(*self, current as int);
                mid.lemma_derives_extends(*self, current as int, asset);
                mid.lemma_stalled_chain_extends(*self, current, asset, steps as nat);
            }
            if r.len() == 0 {
                proof {
                    match mid.val(current as int) {
                        AggregatedGraph::Leaf(_) => {
                            self.lemma_leaf_cost_zero(current);
                            if self.cost_spec(current as int) != 0 {
                                let b = choose|b: usize|
                                    self.graph.asset_refs(
                                        self.val(current as int)->0 as int,
                                    ).contains(b) && b != self.val(current as int)->0;
                                let x = choose|x: usize|
                                    r@.contains(x) && self.val(x as int)
                                        == AggregatedGraph::Leaf(b);
                            }
                        },
                        AggregatedGraph::Node { .. } => {},
                    }
                }
                return Some(current);
            }
            proof {
                // a nonempty frontier means nonzero cost, so the step is owed
                match mid.val(current as int) {
                    AggregatedGraph::Leaf(a) => {
                        assert(r@.contains(r@[0]));
                        assert(self.leaf_neighbor(r@[0], a));
                        self.lemma_leaf_cost_zero(current);
                    },
                    AggregatedGraph::Node { .. } => {},
                }
                assert(!self.frontier_empty(current as int));
                // a dead-end asset never reaches this branch
                if pre.graph.dead_end(asset) {
                    assert(self.val(current as int) == AggregatedGraph::Leaf(asset));
                    let b = choose|b: usize|
                        self.graph.asset_refs(asset as int).contains(b) && b != asset;
                    let i = choose|i: int|
                        0 <= i < self.graph.asset_refs(asset as int).len()
                            && self.graph.asset_refs(asset as int)[i] == b;
                    assert(false);
                }
            }
            let ghost mid2 = *self;
            let next = self.aggregate_more(current);
            proof {
                mid2.lemma_derives_extends(*self, current as int, asset);
                mid2.lemma_stalled_chain_extends(*self, current, asset, steps as nat);
                mid2.lemma_extends_preserves(*self, current as int);
                // the new node absorbed `current`, so the derivation carries up
                assert(self.value_ok(self.values@[next as int], next as int));
                let j = choose|j: int|
                    0 <= j < self.node_content(next as int).len() && self.node_content(
                        next as int,
                    )[j] == current;
                assert(self.node_content(next as int).contains(current));
                assert(0 <= (self.node_content(next as int)[j] as int) < next as int);
                assert(self.derives_from(next as int, asset));
                // and the step was taken off a nonempty frontier
                assert(self.stalled_chain(current, asset, steps as nat) && !self.frontier_empty(
                    current as int,
                ) && self.is_step(next, current));
                assert(self.stalled_chain(next, asset, (steps + 1) as nat));
            }
            current = next;
            steps += 1;
        }
        None
    }
}

/// P3 as a law over every interned node: absorbed content and frontier are
/// disjoint.
pub proof fn lemma_content_references_disjoint(a: Aggregator, h: int)
    requires
        a.wf(),
        0 <= h < a.len_spec(),
        a.val(h) is Node,
    ensures
        seq_disjoint(a.node_content(h), a.node_refs(h)),
{
    assert(a.value_ok(a.values@[h], h));
}

/// P4 as a law over every interned node: everything absorbed sits strictly
/// below the node's own depth.
pub proof fn lemma_depth_monotonic(a: Aggregator, h: int, c: usize)
    requires
        a.wf(),
        0 <= h < a.len_spec(),
        a.val(h) is Node,
        a.node_content(h).contains(c),
    ensures
        a.depth_at(c as int) < a.depth_at(h),
{
    assert(a.value_ok(a.values@[h], h));
    let j = choose|j: int| 0 <= j < a.node_content(h).len() && a.node_content(h)[j] == c;
    assert(a.node_content(h)[j] == c);
}

} // verus!
