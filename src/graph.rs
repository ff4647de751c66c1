//! The graph of promotion layers: construction and validation.
use vstd::prelude::*;
use crate::promotions::{Promotion, PromotionKey};
use crate::tags::TagCollection;

verus! {

/// Where a layer sends its items.
#[derive(Clone, Copy, Debug, PartialEq, Eq, Structural)]
pub enum OutputMode {
    /// All items go on to the one successor, if any.
    PassThrough,
    /// Each item goes to the first edge whose tags it carries, else to the default edge.
    Split,
}

/// The output mode of a layer in a stack of layers.
pub type LayerOutput = OutputMode;

/// One stage of the graph.
#[derive(Clone, Debug)]
pub struct Layer {
    pub name: String,
    pub promotions: Vec<Promotion>,
    pub output_mode: OutputMode,
}

/// The test of a split edge: an item passes when it carries every tag of
/// `all_of` and none of `none_of`.
#[derive(Clone, Debug)]
pub struct SplitPredicate {
    pub all_of: TagCollection,
    pub none_of: TagCollection,
}

impl SplitPredicate {
    /// Whether an item with tags `tags` passes.
    pub open spec fn holds(&self, tags: Set<Seq<char>>) -> bool {
        self.all_of@.subset_of(tags) && self.none_of@.disjoint(tags)
    }

    /// The predicate that requires `all_of` and excludes nothing.
    pub fn requiring(all_of: TagCollection) -> (r: SplitPredicate)
        ensures
            r.all_of@ == all_of@,
            r.none_of@ == Set::<Seq<char>>::empty(),
    {
        SplitPredicate { all_of, none_of: TagCollection::empty() }
    }

    /// Whether an item with tags `tags` passes.
    pub fn matches(&self, tags: &TagCollection) -> (r: bool)
        ensures
            r == self.holds(tags@),
    {
        if !self.all_of.is_subset_of(tags) {
            return false;
        }
        let mut i: usize = 0;
        while i < self.none_of.tags.len()
            invariant
                i <= self.none_of.tags@.len(),
                forall|j: int| 0 <= j < i ==> !tags@.contains((#[trigger] self.none_of.tags@[j])@),
            decreases self.none_of.tags@.len() - i,
        {
            if tags.contains(&self.none_of.tags[i]) {
                assert(self.none_of@.contains(self.none_of.tags@[i as int]@));
                return false;
            }
            i += 1;
        }
        assert forall|t: Seq<char>| self.none_of@.contains(t) implies !tags@.contains(t) by {
            let j = choose|j: int| 0 <= j < self.none_of.tags@.len() && (#[trigger] self.none_of.tags@[j])@ == t;
        }
        true
    }
}

/// Whether some item could pass both predicates: nothing that one requires is
/// excluded by either.
pub open spec fn predicates_overlap(a: SplitPredicate, b: SplitPredicate) -> bool {
    a.all_of@.union(b.all_of@).disjoint(a.none_of@.union(b.none_of@))
}

/// Two predicates overlap exactly when some set of tags passes both.
pub proof fn lemma_predicates_overlap(a: SplitPredicate, b: SplitPredicate)
    ensures
        predicates_overlap(a, b) <==> exists|tags: Set<Seq<char>>| a.holds(tags) && b.holds(tags),
{
    if predicates_overlap(a, b) {
        let tags = a.all_of@.union(b.all_of@);
        assert(a.holds(tags) && b.holds(tags));
    }
    if exists|tags: Set<Seq<char>>| a.holds(tags) && b.holds(tags) {
        let tags = choose|tags: Set<Seq<char>>| a.holds(tags) && b.holds(tags);
        assert(a.all_of@.union(b.all_of@).disjoint(a.none_of@.union(b.none_of@))) by {
            assert forall|t: Seq<char>| a.all_of@.union(b.all_of@).contains(t) implies !a.none_of@.union(b.none_of@).contains(t) by {
                assert(tags.contains(t));
            }
        }
    }
}

/// Whether none of `tags` is in either collection.
fn none_excluded(tags: &TagCollection, x: &TagCollection, y: &TagCollection) -> (r: bool)
    ensures
        r == tags@.disjoint(x@.union(y@)),
{
    let mut i: usize = 0;
    while i < tags.tags.len()
        invariant
            i <= tags.tags@.len(),
            forall|j: int| 0 <= j < i ==> !x@.union(y@).contains((#[trigger] tags.tags@[j])@),
        decreases tags.tags@.len() - i,
    {
        if x.contains(&tags.tags[i]) || y.contains(&tags.tags[i]) {
            assert(tags@.contains(tags.tags@[i as int]@));
            return false;
        }
        i += 1;
    }
    assert forall|t: Seq<char>| tags@.contains(t) implies !x@.union(y@).contains(t) by {
        let j = choose|j: int| 0 <= j < tags.tags@.len() && (#[trigger] tags.tags@[j])@ == t;
    }
    true
}

/// Whether some item could pass both predicates.
fn overlap(a: &SplitPredicate, b: &SplitPredicate) -> (r: bool)
    ensures
        r == predicates_overlap(*a, *b),
{
    let r = none_excluded(&a.all_of, &a.none_of, &b.none_of) && none_excluded(&b.all_of, &a.none_of, &b.none_of);
    assert(r == predicates_overlap(*a, *b)) by {
        if !none_excluded_spec(a.all_of@, a.none_of@.union(b.none_of@)) {
            let t = choose|t: Seq<char>| a.all_of@.contains(t) && a.none_of@.union(b.none_of@).contains(t);
            assert(a.all_of@.union(b.all_of@).contains(t));
        }
        if !none_excluded_spec(b.all_of@, a.none_of@.union(b.none_of@)) {
            let t = choose|t: Seq<char>| b.all_of@.contains(t) && a.none_of@.union(b.none_of@).contains(t);
            assert(a.all_of@.union(b.all_of@).contains(t));
        }
    }
    r
}

spec fn none_excluded_spec(tags: Set<Seq<char>>, excluded: Set<Seq<char>>) -> bool {
    tags.disjoint(excluded)
}

/// The kind of an edge between two layers.
#[derive(Clone, Debug)]
pub enum EdgeKind {
    PassThrough,
    /// Taken by the items that the predicate holds of.
    Split(SplitPredicate),
    /// Taken by the items that match no predicate.
    SplitDefault,
}

/// An edge from layer `from` to layer `to`, by index.
#[derive(Clone, Debug)]
pub struct Edge {
    pub from: usize,
    pub to: usize,
    pub kind: EdgeKind,
}

/// Why a graph was refused.
#[derive(Clone, Copy, Debug, PartialEq, Eq, Structural)]
pub enum GraphError {
    MissingRoot,
    UnknownLayer,
    DuplicateLayer,
    EdgeModeMismatch,
    PassThroughFanOut,
    DuplicateDefault,
    OverlappingPredicates,
    DuplicatePromotionKey,
    Cycle,
    Unreachable,
}

/// Collects layers and edges before validation.
#[derive(Debug)]
pub struct PromotionGraphBuilder {
    pub layers: Vec<Layer>,
    pub edges: Vec<Edge>,
    pub root: Option<usize>,
}

impl PromotionGraphBuilder {
    pub fn new() -> (r: PromotionGraphBuilder)
        ensures
            r.layers@.len() == 0 && r.edges@.len() == 0 && r.root is None,
    {
        PromotionGraphBuilder { layers: Vec::new(), edges: Vec::new(), root: None }
    }

    /// Adds a layer; its handle is its index.
    pub fn add_layer(&mut self, name: String, promotions: Vec<Promotion>, output_mode: OutputMode) -> (r: usize)
        ensures
            r == old(self).layers@.len(),
            final(self).layers@.len() == old(self).layers@.len() + 1,
            final(self).layers@.drop_last() == old(self).layers@,
            final(self).layers@.last().name@ == name@,
            final(self).layers@.last().promotions@ == promotions@,
            final(self).layers@.last().output_mode == output_mode,
            final(self).edges@ == old(self).edges@,
            final(self).root == old(self).root,
    {
        let r = self.layers.len();
        self.layers.push(Layer { name, promotions, output_mode });
        assert(self.layers@.drop_last() =~= old(self).layers@);
        r
    }

    /// Adds the pass-through edge of layer `from`.
    pub fn connect_pass_through(&mut self, from: usize, to: usize)
        ensures
            final(self).edges@.len() == old(self).edges@.len() + 1,
            final(self).edges@.drop_last() == old(self).edges@,
            final(self).edges@.last().from == from && final(self).edges@.last().to == to,
            final(self).edges@.last().kind is PassThrough,
            final(self).layers@ == old(self).layers@,
            final(self).root == old(self).root,
    {
        self.edges.push(Edge { from, to, kind: EdgeKind::PassThrough });
        assert(self.edges@.drop_last() =~= old(self).edges@);
    }

    /// Adds a split edge of layer `from`, taken by items that carry `predicate`.
    pub fn connect_split(&mut self, from: usize, predicate: SplitPredicate, to: usize)
        ensures
            final(self).edges@.len() == old(self).edges@.len() + 1,
            final(self).edges@.drop_last() == old(self).edges@,
            final(self).edges@.last().from == from && final(self).edges@.last().to == to,
            final(self).edges@.last().kind == EdgeKind::Split(predicate),
            final(self).layers@ == old(self).layers@,
            final(self).root == old(self).root,
    {
        self.edges.push(Edge { from, to, kind: EdgeKind::Split(predicate) });
        assert(self.edges@.drop_last() =~= old(self).edges@);
    }

    /// Adds the default split edge of layer `from`.
    pub fn connect_split_default(&mut self, from: usize, to: usize)
        ensures
            final(self).edges@.len() == old(self).edges@.len() + 1,
            final(self).edges@.drop_last() == old(self).edges@,
            final(self).edges@.last().from == from && final(self).edges@.last().to == to,
            final(self).edges@.last().kind is SplitDefault,
            final(self).layers@ == old(self).layers@,
            final(self).root == old(self).root,
    {
        self.edges.push(Edge { from, to, kind: EdgeKind::SplitDefault });
        assert(self.edges@.drop_last() =~= old(self).edges@);
    }

    /// Designates the root layer.
    pub fn set_root(&mut self, root: usize)
        ensures
            final(self).root == Some(root),
            final(self).layers@ == old(self).layers@,
            final(self).edges@ == old(self).edges@,
    {
        self.root = Some(root);
    }
}

/// Whether the edge joins two layers and suits the output mode of its source.
pub open spec fn edge_ok(layers: Seq<Layer>, e: Edge) -> bool {
    &&& e.from < layers.len()
    &&& e.to < layers.len()
    &&& match e.kind {
        EdgeKind::PassThrough => layers[e.from as int].output_mode == OutputMode::PassThrough,
        _ => layers[e.from as int].output_mode == OutputMode::Split,
    }
}

/// Whether `order` lists every layer once, the root first, every edge forward,
/// and `rank` gives each layer's place in it.
pub open spec fn topological(n: nat, edges: Seq<Edge>, root: usize, order: Seq<usize>, rank: Seq<usize>) -> bool {
    &&& rank.len() == n
    &&& order.len() > 0 && order[0] == root
    &&& forall|k: int| 0 <= k < order.len() ==> (#[trigger] order[k]) < n && rank[order[k] as int] == k
    &&& forall|v: int| 0 <= v < n ==> (#[trigger] rank[v]) < order.len() && order[rank[v] as int] == v
    &&& forall|k: int| 0 <= k < edges.len() ==> rank[(#[trigger] edges[k]).from as int] < rank[edges[k].to as int]
    &&& forall|v: int| 0 <= v < n && v != root ==> #[trigger] has_entry(edges, v)
}

/// Whether some edge of `edges` enters layer `v`.
pub open spec fn has_entry(edges: Seq<Edge>, v: int) -> bool {
    exists|k: int| 0 <= k < edges.len() && (#[trigger] edges[k]).to == v
}

/// A validated graph of layers.
#[derive(Clone, Debug)]
pub struct PromotionGraph {
    pub(crate) layers: Vec<Layer>,
    pub(crate) edges: Vec<Edge>,
    pub(crate) root: usize,
    pub(crate) order: Vec<usize>,
    pub(crate) rank: Vec<usize>,
}

impl PromotionGraph {
    /// The layers, by index.
    pub open(crate) spec fn spec_layers(&self) -> Seq<Layer> {
        self.layers@
    }

    /// The edges.
    pub open(crate) spec fn spec_edges(&self) -> Seq<Edge> {
        self.edges@
    }

    /// The index of the root layer.
    pub open(crate) spec fn spec_root(&self) -> usize {
        self.root
    }

    /// The layers in the order the engine visits them.
    pub open(crate) spec fn spec_order(&self) -> Seq<usize> {
        self.order@
    }

    /// The layers in the order the engine visits them, root first.
    pub fn order(&self) -> (r: &Vec<usize>)
        ensures
            r@ == self.spec_order(),
    {
        &self.order
    }

    /// The layers, by index.
    pub fn layers(&self) -> (r: &Vec<Layer>)
        ensures
            r@ == self.spec_layers(),
    {
        &self.layers
    }

    pub open(crate) spec fn wf(&self) -> bool {
        &&& keys_unique(self.layers@)
        &&& forall|k: int| 0 <= k < self.edges@.len() ==> edge_ok(self.layers@, #[trigger] self.edges@[k])
        &&& topological(self.layers@.len(), self.edges@, self.root, self.order@, self.rank@)
    }
}

/// Whether two distinct edges of `edges` leave one layer as pass-through edges.
pub open spec fn pass_through_fan_out(edges: Seq<Edge>) -> bool {
    exists|a: int, b: int| 0 <= a < edges.len() && 0 <= b < edges.len() && a != b
        && (#[trigger] edges[a]).from == (#[trigger] edges[b]).from && edges[a].kind is PassThrough && edges[b].kind is PassThrough
}

/// Whether two distinct default edges leave one layer.
pub open spec fn duplicate_default(edges: Seq<Edge>) -> bool {
    exists|a: int, b: int| 0 <= a < edges.len() && 0 <= b < edges.len() && a != b
        && (#[trigger] edges[a]).from == (#[trigger] edges[b]).from && edges[a].kind is SplitDefault && edges[b].kind is SplitDefault
}

/// Whether two distinct split edges of one layer have predicates that some item
/// could pass both.
pub open spec fn overlapping_predicates(edges: Seq<Edge>) -> bool {
    exists|a: int, b: int| 0 <= a < edges.len() && 0 <= b < edges.len() && a != b
        && (#[trigger] edges[a]).from == (#[trigger] edges[b]).from
        && edges[a].kind is Split && edges[b].kind is Split
        && predicates_overlap(edges[a].kind->Split_0, edges[b].kind->Split_0)
}

/// Whether two layers share a name.
pub open spec fn duplicate_layer(layers: Seq<Layer>) -> bool {
    exists|a: int, b: int| 0 <= a < layers.len() && 0 <= b < layers.len() && a != b && (#[trigger] layers[a]).name@ == (#[trigger] layers[b]).name@
}

fn check_edges(layers: &Vec<Layer>, edges: &Vec<Edge>) -> (r: Option<GraphError>)
    ensures
        r is None <==> forall|k: int| 0 <= k < edges@.len() ==> edge_ok(layers@, #[trigger] edges@[k]),
        r is Some ==> r == Some(GraphError::UnknownLayer) || r == Some(GraphError::EdgeModeMismatch),
        r == Some(GraphError::UnknownLayer) ==> exists|k: int| 0 <= k < edges@.len()
            && ((#[trigger] edges@[k]).from >= layers@.len() || edges@[k].to >= layers@.len()),
{
    let mut k: usize = 0;
    while k < edges.len()
        invariant
            k <= edges@.len(),
            forall|j: int| 0 <= j < k ==> edge_ok(layers@, #[trigger] edges@[j]),
        decreases edges@.len() - k,
    {
        let e = &edges[k];
        if e.from >= layers.len() || e.to >= layers.len() {
            return Some(GraphError::UnknownLayer);
        }
        let ok = match e.kind {
            EdgeKind::PassThrough => layers[e.from].output_mode == OutputMode::PassThrough,
            _ => layers[e.from].output_mode == OutputMode::Split,
        };
        if !ok {
            assert(!edge_ok(layers@, edges@[k as int]));
            return Some(GraphError::EdgeModeMismatch);
        }
        k += 1;
    }
    None
}

fn check_pairs(edges: &Vec<Edge>) -> (r: Option<GraphError>)
    ensures
        r is None ==> !pass_through_fan_out(edges@) && !duplicate_default(edges@) && !overlapping_predicates(edges@),
        r == Some(GraphError::PassThroughFanOut) ==> pass_through_fan_out(edges@),
        r == Some(GraphError::DuplicateDefault) ==> duplicate_default(edges@),
        r == Some(GraphError::OverlappingPredicates) ==> overlapping_predicates(edges@),
        r is Some ==> r == Some(GraphError::PassThroughFanOut) || r == Some(GraphError::DuplicateDefault)
            || r == Some(GraphError::OverlappingPredicates),
{
    let mut a: usize = 0;
    while a < edges.len()
        invariant
            a <= edges@.len(),
            forall|x: int, y: int| 0 <= x < a && 0 <= y < edges@.len() && x != y && (#[trigger] edges@[x]).from == (#[trigger] edges@[y]).from ==>
                !(edges@[x].kind is PassThrough && edges@[y].kind is PassThrough)
                && !(edges@[x].kind is SplitDefault && edges@[y].kind is SplitDefault)
                && !(edges@[x].kind is Split && edges@[y].kind is Split && predicates_overlap(edges@[x].kind->Split_0, edges@[y].kind->Split_0))
                && !(edges@[y].kind is Split && edges@[x].kind is Split && predicates_overlap(edges@[y].kind->Split_0, edges@[x].kind->Split_0)),
        decreases edges@.len() - a,
    {
        let mut b: usize = 0;
        while b < edges.len()
            invariant
                a < edges@.len(),
                b <= edges@.len(),
                forall|x: int, y: int| 0 <= x < a && 0 <= y < edges@.len() && x != y && (#[trigger] edges@[x]).from == (#[trigger] edges@[y]).from ==>
                    !(edges@[x].kind is PassThrough && edges@[y].kind is PassThrough)
                    && !(edges@[x].kind is SplitDefault && edges@[y].kind is SplitDefault)
                    && !(edges@[x].kind is Split && edges@[y].kind is Split && predicates_overlap(edges@[x].kind->Split_0, edges@[y].kind->Split_0))
                    && !(edges@[y].kind is Split && edges@[x].kind is Split && predicates_overlap(edges@[y].kind->Split_0, edges@[x].kind->Split_0)),
                forall|y: int| 0 <= y < b && a != y && edges@[a as int].from == (#[trigger] edges@[y]).from ==>
                    !(edges@[a as int].kind is PassThrough && edges@[y].kind is PassThrough)
                    && !(edges@[a as int].kind is SplitDefault && edges@[y].kind is SplitDefault)
                    && !(edges@[a as int].kind is Split && edges@[y].kind is Split && predicates_overlap(edges@[a as int].kind->Split_0, edges@[y].kind->Split_0))
                    && !(edges@[y].kind is Split && edges@[a as int].kind is Split && predicates_overlap(edges@[y].kind->Split_0, edges@[a as int].kind->Split_0)),
            decreases edges@.len() - b,
        {
            if a != b && edges[a].from == edges[b].from {
                match (&edges[a].kind, &edges[b].kind) {
                    (EdgeKind::PassThrough, EdgeKind::PassThrough) => {
                        assert(edges@[a as int].from == edges@[b as int].from);
                        return Some(GraphError::PassThroughFanOut);
                    },
                    (EdgeKind::SplitDefault, EdgeKind::SplitDefault) => {
                        assert(edges@[a as int].from == edges@[b as int].from);
                        return Some(GraphError::DuplicateDefault);
                    },
                    (EdgeKind::Split(pa), EdgeKind::Split(pb)) => {
                        if overlap(pa, pb) {
                            assert(edges@[a as int].from == edges@[b as int].from);
                            return Some(GraphError::OverlappingPredicates);
                        }
                        if overlap(pb, pa) {
                            assert(edges@[b as int].from == edges@[a as int].from);
                            return Some(GraphError::OverlappingPredicates);
                        }
                    },
                    _ => {},
                }
            }
            b += 1;
        }
        a += 1;
    }
    None
}

fn check_names(layers: &Vec<Layer>) -> (r: bool)
    ensures
        r == duplicate_layer(layers@),
{
    let mut a: usize = 0;
    while a < layers.len()
        invariant
            a <= layers@.len(),
            forall|x: int, y: int| 0 <= x < a && 0 <= y < layers@.len() && x != y ==> (#[trigger] layers@[x]).name@ != (#[trigger] layers@[y]).name@,
        decreases layers@.len() - a,
    {
        let mut b: usize = 0;
        while b < layers.len()
            invariant
                a < layers@.len(),
                b <= layers@.len(),
                forall|x: int, y: int| 0 <= x < a && 0 <= y < layers@.len() && x != y ==> (#[trigger] layers@[x]).name@ != (#[trigger] layers@[y]).name@,
                forall|y: int| 0 <= y < b && y != a ==> layers@[a as int].name@ != (#[trigger] layers@[y]).name@,
            decreases layers@.len() - b,
        {
            if a != b && layers[a].name == layers[b].name {
                return true;
            }
            b += 1;
        }
        a += 1;
    }
    false
}

/// Whether some edge enters `v`, and whether every edge that does leaves a placed layer.
fn entering(edges: &Vec<Edge>, v: usize, placed: &Vec<bool>) -> (r: (bool, bool))
    requires
        forall|k: int| 0 <= k < edges@.len() ==> (#[trigger] edges@[k]).from < placed@.len(),
    ensures
        r.0 == exists|k: int| 0 <= k < edges@.len() && (#[trigger] edges@[k]).to == v,
        r.1 == forall|k: int| 0 <= k < edges@.len() && (#[trigger] edges@[k]).to == v ==> placed@[edges@[k].from as int],
{
    let mut entered = false;
    let mut all = true;
    let mut k: usize = 0;
    while k < edges.len()
        invariant
            k <= edges@.len(),
            forall|j: int| 0 <= j < edges@.len() ==> (#[trigger] edges@[j]).from < placed@.len(),
            entered == exists|j: int| 0 <= j < k && (#[trigger] edges@[j]).to == v,
            all == forall|j: int| 0 <= j < k && (#[trigger] edges@[j]).to == v ==> placed@[edges@[j].from as int],
        decreases edges@.len() - k,
    {
        if edges[k].to == v {
            entered = true;
            if !placed[edges[k].from] {
                all = false;
            }
        }
        k += 1;
    }
    (entered, all)
}

/// The invariant of the ordering: `order` and `rank` agree on the placed layers,
/// and every edge into a placed layer comes from a layer placed earlier.
pub open spec fn ordering_ok(n: nat, edges: Seq<Edge>, placed: Seq<bool>, order: Seq<usize>, rank: Seq<usize>) -> bool {
    &&& placed.len() == n
    &&& rank.len() == n
    &&& forall|k: int| 0 <= k < order.len() ==> (#[trigger] order[k]) < n && placed[order[k] as int] && rank[order[k] as int] == k
    &&& forall|v: int| 0 <= v < n && #[trigger] placed[v] ==> rank[v] < order.len() && order[rank[v] as int] == v
    &&& forall|k: int| 0 <= k < edges.len() && placed[(#[trigger] edges[k]).to as int] ==>
        placed[edges[k].from as int] && rank[edges[k].from as int] < rank[edges[k].to as int]
}

/// Whether every placed layer but the root has an edge coming in.
pub open spec fn entered_unless_root(n: nat, edges: Seq<Edge>, root: usize, placed: Seq<bool>) -> bool {
    forall|v: int| 0 <= v < n && #[trigger] placed[v] && v != root ==> has_entry(edges, v)
}

fn place(v: usize, root: usize, placed: &mut Vec<bool>, order: &mut Vec<usize>, rank: &mut Vec<usize>, edges: &Vec<Edge>, n: usize)
    requires
        ordering_ok(n as nat, edges@, old(placed)@, old(order)@, old(rank)@),
        v < n,
        !old(placed)@[v as int],
        forall|k: int| 0 <= k < edges@.len() ==> (#[trigger] edges@[k]).from < n && edges@[k].to < n,
        forall|k: int| 0 <= k < edges@.len() && (#[trigger] edges@[k]).to == v ==> old(placed)@[edges@[k].from as int],
        entered_unless_root(n as nat, edges@, root, old(placed)@),
        v == root || has_entry(edges@, v as int),
    ensures
        ordering_ok(n as nat, edges@, final(placed)@, final(order)@, final(rank)@),
        entered_unless_root(n as nat, edges@, root, final(placed)@),
        final(placed)@ == old(placed)@.update(v as int, true),
        final(order)@ == old(order)@.push(v),
{
    let len = order.len();
    rank.set(v, len);
    order.push(v);
    placed.set(v, true);
    proof {
        let n = n as nat;
        assert forall|k: int| 0 <= k < order@.len() implies (#[trigger] order@[k]) < n && placed@[order@[k] as int] && rank@[order@[k] as int] == k by {
            if k < len {
                assert(order@[k] == old(order)@[k]);
                assert(old(placed)@[old(order)@[k] as int]);
                assert(old(order)@[k] != v);
            }
        }
        assert forall|u: int| 0 <= u < n && #[trigger] placed@[u] implies rank@[u] < order@.len() && order@[rank@[u] as int] == u by {
            if u != v {
                assert(old(placed)@[u]);
            }
        }
        assert forall|k: int| 0 <= k < edges@.len() && placed@[(#[trigger] edges@[k]).to as int] implies
            placed@[edges@[k].from as int] && rank@[edges@[k].from as int] < rank@[edges@[k].to as int] by {
            let e = edges@[k];
            if e.to == v {
                assert(old(placed)@[e.from as int]);
                assert(old(rank)@[e.from as int] < len);
            } else {
                assert(old(placed)@[e.to as int]);
                if e.from == v {
                    assert(old(placed)@[e.from as int]);
                }
            }
        }
    }
}

/// The number of `true` entries of `s`.
pub open spec fn count_true(s: Seq<bool>) -> nat
    decreases s.len(),
{
    if s.len() == 0 {
        0
    } else {
        count_true(s.drop_last()) + if s.last() { 1nat } else { 0nat }
    }
}

proof fn lemma_count_true_bound(s: Seq<bool>)
    ensures
        count_true(s) <= s.len(),
    decreases s.len(),
{
    if s.len() > 0 {
        lemma_count_true_bound(s.drop_last());
    }
}

pub(crate) proof fn lemma_count_true_set(s: Seq<bool>, v: int)
    requires
        0 <= v < s.len(),
        !s[v],
    ensures
        count_true(s.update(v, true)) == count_true(s) + 1,
    decreases s.len(),
{
    let t = s.update(v, true);
    if v == s.len() - 1 {
        assert(t.drop_last() =~= s.drop_last());
    } else {
        assert(t.drop_last() =~= s.drop_last().update(v, true));
        lemma_count_true_set(s.drop_last(), v);
    }
}

/// Whether every edge into `v` leaves a placed layer.
pub open spec fn preds_placed(edges: Seq<Edge>, v: int, placed: Seq<bool>) -> bool {
    forall|k: int| 0 <= k < edges.len() && (#[trigger] edges[k]).to == v ==> placed[edges[k].from as int]
}

/// Whether no unplaced layer can be placed: each has no edge coming in, or an
/// edge coming in from an unplaced layer.
pub open spec fn stuck(n: nat, edges: Seq<Edge>, placed: Seq<bool>) -> bool {
    forall|u: int| 0 <= u < n ==> #[trigger] placed[u] || !(has_entry(edges, u) && preds_placed(edges, u, placed))
}

proof fn lemma_placed_up_to(n: nat, edges: Seq<Edge>, root: usize, placed: Seq<bool>, ord: Seq<usize>, rk: Seq<usize>, r: nat)
    requires
        placed.len() == n,
        root < n,
        placed[root as int],
        stuck(n, edges, placed),
        topological(n, edges, root, ord, rk),
        forall|k: int| 0 <= k < edges.len() ==> (#[trigger] edges[k]).from < n && edges[k].to < n,
    ensures
        forall|u: int| 0 <= u < n && rk[u] <= r ==> #[trigger] placed[u],
    decreases r,
{
    if r > 0 {
        lemma_placed_up_to(n, edges, root, placed, ord, rk, (r - 1) as nat);
    }
    assert forall|u: int| 0 <= u < n && rk[u] <= r implies #[trigger] placed[u] by {
        if u == root {
        } else if rk[u] == 0 {
            assert(ord[rk[u] as int] == u);
            assert(rk[ord[0] as int] == 0);
        } else if !placed[u] {
            assert(has_entry(edges, u));
            assert(!preds_placed(edges, u, placed));
            let k = choose|k: int| 0 <= k < edges.len() && (#[trigger] edges[k]).to == u && !placed[edges[k].from as int];
            assert(rk[edges[k].from as int] < rk[edges[k].to as int]);
            if r == 0 {
                assert(rk[edges[k].from as int] < 0);
            }
        }
    }
}

/// When the ordering is stuck with a layer unplaced, no order of the layers puts
/// every edge forward with every layer but the root entered.
proof fn lemma_stuck_no_order(n: nat, edges: Seq<Edge>, root: usize, placed: Seq<bool>, v: int)
    requires
        placed.len() == n,
        root < n,
        placed[root as int],
        stuck(n, edges, placed),
        0 <= v < n,
        !placed[v],
        forall|k: int| 0 <= k < edges.len() ==> (#[trigger] edges[k]).from < n && edges[k].to < n,
    ensures
        forall|ord: Seq<usize>, rk: Seq<usize>| !#[trigger] topological(n, edges, root, ord, rk),
{
    assert forall|ord: Seq<usize>, rk: Seq<usize>| !#[trigger] topological(n, edges, root, ord, rk) by {
        if topological(n, edges, root, ord, rk) {
            lemma_placed_up_to(n, edges, root, placed, ord, rk, rk[v] as nat);
        }
    }
}

/// Orders the layers from the root so that every edge goes forward and every
/// layer but the root is entered by an edge from an earlier one.
fn order_layers(n: usize, edges: &Vec<Edge>, root: usize) -> (r: Result<(Vec<usize>, Vec<usize>), GraphError>)
    requires
        root < n,
        forall|k: int| 0 <= k < edges@.len() ==> (#[trigger] edges@[k]).from < n && edges@[k].to < n,
    ensures
        r is Ok ==> topological(n as nat, edges@, root, r->Ok_0.0@, r->Ok_0.1@),
        r is Err ==> r == Err::<(Vec<usize>, Vec<usize>), GraphError>(GraphError::Cycle)
            || r == Err::<(Vec<usize>, Vec<usize>), GraphError>(GraphError::Unreachable),
        r is Err ==> forall|ord: Seq<usize>, rk: Seq<usize>| !#[trigger] topological(n as nat, edges@, root, ord, rk),
{
    let mut placed: Vec<bool> = Vec::new();
    let mut rank: Vec<usize> = Vec::new();
    let mut i: usize = 0;
    while i < n
        invariant
            i <= n,
            placed@.len() == i,
            rank@.len() == i,
            forall|j: int| 0 <= j < i ==> !#[trigger] placed@[j],
        decreases n - i,
    {
        placed.push(false);
        rank.push(0);
        i += 1;
    }
    let mut order: Vec<usize> = Vec::new();
    let (root_entered, _) = entering(edges, root, &placed);
    if root_entered {
        proof {
            assert forall|ord: Seq<usize>, rk: Seq<usize>| !#[trigger] topological(n as nat, edges@, root, ord, rk) by {
                if topological(n as nat, edges@, root, ord, rk) {
                    let k = choose|k: int| 0 <= k < edges@.len() && (#[trigger] edges@[k]).to == root;
                    assert(rk[edges@[k].from as int] < rk[root as int]);
                    assert(ord[rk[root as int] as int] == root);
                    assert(rk[ord[0] as int] == 0);
                }
            }
        }
        return Err(GraphError::Cycle);
    }
    proof {
        assert(count_true(placed@) == 0) by {
            assert forall|m: nat| m <= n implies count_true(#[trigger] placed@.take(m as int)) == 0 by {
                lemma_count_zero(placed@, m);
            }
            assert(placed@.take(n as int) =~= placed@);
        }
        lemma_count_true_set(placed@, root as int);
    }
    place(root, root, &mut placed, &mut order, &mut rank, edges, n);
    let mut progress: bool = true;
    while progress
        invariant
            ordering_ok(n as nat, edges@, placed@, order@, rank@),
            entered_unless_root(n as nat, edges@, root, placed@),
            order@.len() > 0 && order@[0] == root,
            root < n,
            placed@[root as int],
            placed@.len() == n,
            order@.len() == count_true(placed@),
            forall|k: int| 0 <= k < edges@.len() ==> (#[trigger] edges@[k]).from < n && edges@[k].to < n,
            !progress ==> stuck(n as nat, edges@, placed@),
        decreases (n - order@.len()) * 2 + if progress { 1int } else { 0int },
    {
        proof {
            lemma_count_true_bound(placed@);
        }
        let ghost len0 = order@.len();
        progress = false;
        let mut v: usize = 0;
        while v < n
            invariant
                ordering_ok(n as nat, edges@, placed@, order@, rank@),
                entered_unless_root(n as nat, edges@, root, placed@),
                order@.len() > 0 && order@[0] == root,
                root < n,
                placed@[root as int],
                placed@.len() == n,
                order@.len() == count_true(placed@),
                forall|k: int| 0 <= k < edges@.len() ==> (#[trigger] edges@[k]).from < n && edges@[k].to < n,
                progress ==> order@.len() > len0,
                !progress ==> order@.len() == len0,
                !progress ==> forall|u: int| 0 <= u < v ==> #[trigger] placed@[u] || !(has_entry(edges@, u) && preds_placed(edges@, u, placed@)),
            decreases n - v,
        {
            if !placed[v] {
                let (entered, all) = entering(edges, v, &placed);
                if entered && all {
                    proof {
                        lemma_count_true_set(placed@, v as int);
                    }
                    place(v, root, &mut placed, &mut order, &mut rank, edges, n);
                    assert(order@[0] == root);
                    progress = true;
                }
            }
            v += 1;
        }
        proof {
            lemma_count_true_bound(placed@);
        }
    }
    let mut v: usize = 0;
    while v < n
        invariant
            ordering_ok(n as nat, edges@, placed@, order@, rank@),
            entered_unless_root(n as nat, edges@, root, placed@),
            order@.len() > 0 && order@[0] == root,
            root < n,
            placed@[root as int],
            placed@.len() == n,
            stuck(n as nat, edges@, placed@),
            forall|k: int| 0 <= k < edges@.len() ==> (#[trigger] edges@[k]).from < n && edges@[k].to < n,
            forall|u: int| 0 <= u < v ==> #[trigger] placed@[u],
        decreases n - v,
    {
        if !placed[v] {
            proof {
                lemma_stuck_no_order(n as nat, edges@, root, placed@, v as int);
            }
            let mut w: usize = 0;
            while w < n
                invariant
                    placed@.len() == n,
                    forall|ord: Seq<usize>, rk: Seq<usize>| !#[trigger] topological(n as nat, edges@, root, ord, rk),
                    forall|k: int| 0 <= k < edges@.len() ==> (#[trigger] edges@[k]).from < n && edges@[k].to < n,
                decreases n - w,
            {
                if !placed[w] && w != root {
                    let (entered, _) = entering(edges, w, &placed);
                    if !entered {
                        return Err(GraphError::Unreachable);
                    }
                }
                w += 1;
            }
            return Err(GraphError::Cycle);
        }
        v += 1;
    }
    assert forall|u: int| 0 <= u < n implies (#[trigger] rank@[u]) < order@.len() && order@[rank@[u] as int] == u by {
        assert(placed@[u]);
    }
    assert forall|k: int| 0 <= k < edges@.len() implies rank@[(#[trigger] edges@[k]).from as int] < rank@[edges@[k].to as int] by {
        assert(placed@[edges@[k].to as int]);
    }
    assert forall|u: int| 0 <= u < n && u != root implies #[trigger] has_entry(edges@, u) by {
        assert(placed@[u]);
    }
    Ok((order, rank))
}

proof fn lemma_count_zero(s: Seq<bool>, m: nat)
    requires
        m <= s.len(),
        forall|j: int| 0 <= j < s.len() ==> !#[trigger] s[j],
    ensures
        count_true(s.take(m as int)) == 0,
    decreases m,
{
    if m > 0 {
        assert(s.take(m as int).drop_last() =~= s.take(m - 1));
        lemma_count_zero(s, (m - 1) as nat);
    }
}

/// Whether the builder describes a valid graph: a root among its layers, no
/// two layers of one name, every edge suited to its source, at most one
/// pass-through edge and one default edge out of a layer, no nested split
/// predicates, and an order of the layers from the root with every edge
/// forward and every other layer entered.
/// The key of promotion `q` of layer `l`.
pub open spec fn promo_key(layers: Seq<Layer>, l: int, q: int) -> PromotionKey {
    layers[l].promotions@[q].key_of()
}

/// Whether no other promotion of any layer shares the key of promotion `q` of layer `l`.
pub open spec fn unique_at(layers: Seq<Layer>, l: int, q: int) -> bool {
    forall|l2: int, q2: int|
        0 <= l2 < layers.len() && 0 <= q2 < layers[l2].promotions@.len() && #[trigger] promo_key(layers, l2, q2)
            == promo_key(layers, l, q) ==> l2 == l && q2 == q
}

/// Whether every promotion of the graph has a key of its own.
pub open spec fn keys_unique(layers: Seq<Layer>) -> bool {
    forall|l: int, q: int| 0 <= l < layers.len() && 0 <= q < layers[l].promotions@.len() ==> #[trigger] unique_at(layers, l, q)
}

fn key_unique_at(layers: &Vec<Layer>, l: usize, q: usize) -> (r: bool)
    requires
        l < layers@.len(),
        q < layers@[l as int].promotions@.len(),
    ensures
        r == unique_at(layers@, l as int, q as int),
{
    let key = layers[l].promotions[q].key();
    let mut l2: usize = 0;
    while l2 < layers.len()
        invariant
            l < layers@.len(),
            q < layers@[l as int].promotions@.len(),
            key == promo_key(layers@, l as int, q as int),
            l2 <= layers@.len(),
            forall|x: int, y: int| 0 <= x < l2 && 0 <= y < layers@[x].promotions@.len() && #[trigger] promo_key(layers@, x, y)
                == key ==> x == l && y == q,
        decreases layers@.len() - l2,
    {
        let mut q2: usize = 0;
        while q2 < layers[l2].promotions.len()
            invariant
                l < layers@.len(),
                q < layers@[l as int].promotions@.len(),
                key == promo_key(layers@, l as int, q as int),
                l2 < layers@.len(),
                q2 <= layers@[l2 as int].promotions@.len(),
                forall|x: int, y: int| 0 <= x < l2 && 0 <= y < layers@[x].promotions@.len() && #[trigger] promo_key(layers@, x, y)
                    == key ==> x == l && y == q,
                forall|y: int| 0 <= y < q2 && #[trigger] promo_key(layers@, l2 as int, y) == key ==> l2 == l && y == q,
            decreases layers@[l2 as int].promotions@.len() - q2,
        {
            if (l2 != l || q2 != q) && layers[l2].promotions[q2].key() == key {
                assert(promo_key(layers@, l2 as int, q2 as int) == key);
                return false;
            }
            q2 += 1;
        }
        l2 += 1;
    }
    true
}

fn check_keys(layers: &Vec<Layer>) -> (r: bool)
    ensures
        r == keys_unique(layers@),
{
    let mut l: usize = 0;
    while l < layers.len()
        invariant
            l <= layers@.len(),
            forall|x: int, y: int| 0 <= x < l && 0 <= y < layers@[x].promotions@.len() ==> #[trigger] unique_at(layers@, x, y),
        decreases layers@.len() - l,
    {
        let mut q: usize = 0;
        while q < layers[l].promotions.len()
            invariant
                l < layers@.len(),
                q <= layers@[l as int].promotions@.len(),
                forall|x: int, y: int| 0 <= x < l && 0 <= y < layers@[x].promotions@.len() ==> #[trigger] unique_at(layers@, x, y),
                forall|y: int| 0 <= y < q ==> #[trigger] unique_at(layers@, l as int, y),
            decreases layers@[l as int].promotions@.len() - q,
        {
            if !key_unique_at(layers, l, q) {
                return false;
            }
            q += 1;
        }
        l += 1;
    }
    true
}

pub open spec fn builder_valid(b: PromotionGraphBuilder) -> bool {
    &&& b.root is Some && b.root->Some_0 < b.layers@.len()
    &&& !duplicate_layer(b.layers@)
    &&& keys_unique(b.layers@)
    &&& forall|k: int| 0 <= k < b.edges@.len() ==> edge_ok(b.layers@, #[trigger] b.edges@[k])
    &&& !pass_through_fan_out(b.edges@)
    &&& !duplicate_default(b.edges@)
    &&& !overlapping_predicates(b.edges@)
    &&& exists|ord: Seq<usize>, rk: Seq<usize>| #[trigger] topological(b.layers@.len(), b.edges@, b.root->Some_0, ord, rk)
}

impl PromotionGraph {
    /// Validates the builder's layers and edges and orders the layers.
    pub fn from_builder(builder: PromotionGraphBuilder) -> (r: Result<PromotionGraph, GraphError>)
        ensures
            r is Ok ==> r->Ok_0.wf() && r->Ok_0.spec_layers() == builder.layers@ && r->Ok_0.spec_edges() == builder.edges@
                && builder.root == Some(r->Ok_0.spec_root()),
            r is Ok ==> !pass_through_fan_out(builder.edges@) && !duplicate_default(builder.edges@)
                && !overlapping_predicates(builder.edges@) && !duplicate_layer(builder.layers@),
            r == Err::<PromotionGraph, GraphError>(GraphError::MissingRoot) <==> (builder.root is None || builder.root->Some_0 >= builder.layers@.len()),
            r == Err::<PromotionGraph, GraphError>(GraphError::DuplicateLayer) ==> duplicate_layer(builder.layers@),
            r == Err::<PromotionGraph, GraphError>(GraphError::UnknownLayer) ==> exists|k: int| 0 <= k < builder.edges@.len()
                && ((#[trigger] builder.edges@[k]).from >= builder.layers@.len() || builder.edges@[k].to >= builder.layers@.len()),
            r == Err::<PromotionGraph, GraphError>(GraphError::EdgeModeMismatch) ==> exists|k: int| 0 <= k < builder.edges@.len()
                && !edge_ok(builder.layers@, #[trigger] builder.edges@[k]),
            r == Err::<PromotionGraph, GraphError>(GraphError::PassThroughFanOut) ==> pass_through_fan_out(builder.edges@),
            r == Err::<PromotionGraph, GraphError>(GraphError::DuplicateDefault) ==> duplicate_default(builder.edges@),
            r == Err::<PromotionGraph, GraphError>(GraphError::OverlappingPredicates) ==> overlapping_predicates(builder.edges@),
            r == Err::<PromotionGraph, GraphError>(GraphError::Cycle) || r == Err::<PromotionGraph, GraphError>(GraphError::Unreachable)
                ==> forall|ord: Seq<usize>, rk: Seq<usize>|
                    !#[trigger] topological(builder.layers@.len(), builder.edges@, builder.root->Some_0, ord, rk),
            r is Ok <==> builder_valid(builder),
    {
        let root = match builder.root {
            Some(root) => root,
            None => {
                return Err(GraphError::MissingRoot);
            },
        };
        if root >= builder.layers.len() {
            return Err(GraphError::MissingRoot);
        }
        if check_names(&builder.layers) {
            return Err(GraphError::DuplicateLayer);
        }
        if !check_keys(&builder.layers) {
            return Err(GraphError::DuplicatePromotionKey);
        }
        match check_edges(&builder.layers, &builder.edges) {
            Some(e) => {
                return Err(e);
            },
            None => {},
        }
        match check_pairs(&builder.edges) {
            Some(e) => {
                return Err(e);
            },
            None => {},
        }
        let n = builder.layers.len();
        assert forall|k: int| 0 <= k < builder.edges@.len() implies (#[trigger] builder.edges@[k]).from < n && builder.edges@[k].to < n by {
            assert(edge_ok(builder.layers@, builder.edges@[k]));
        }
        match order_layers(n, &builder.edges, root) {
            Ok((order, rank)) => Ok(PromotionGraph { layers: builder.layers, edges: builder.edges, root, order, rank }),
            Err(e) => Err(e),
        }
    }
}

impl PromotionGraph {
    /// A stack of pass-through layers, each feeding the next, the first being
    /// the root; an empty stack has no root and a split layer has no place in it.
    pub fn linear(layers: Vec<Layer>) -> (r: Result<PromotionGraph, GraphError>)
        ensures
            layers@.len() == 0 ==> r == Err::<PromotionGraph, GraphError>(GraphError::MissingRoot),
            r is Ok ==> r->Ok_0.wf() && r->Ok_0.spec_layers() == layers@ && r->Ok_0.spec_root() == 0
                && r->Ok_0.spec_edges().len() + 1 == layers@.len()
                && forall|k: int| 0 <= k < r->Ok_0.spec_edges().len() ==> (#[trigger] r->Ok_0.spec_edges()[k]).from == k
                    && r->Ok_0.spec_edges()[k].to == k + 1 && r->Ok_0.spec_edges()[k].kind is PassThrough,
            (exists|k: int| 0 <= k < layers@.len() && (#[trigger] layers@[k]).output_mode == OutputMode::Split)
                ==> r is Err,
            layers@.len() > 0 && keys_unique(layers@) && (forall|k: int| 0 <= k < layers@.len() ==> (#[trigger] layers@[k]).output_mode
                == OutputMode::PassThrough) ==> r is Ok,
            !keys_unique(layers@) ==> r is Err,
    {
        let n = layers.len();
        if n == 0 {
            return Err(GraphError::MissingRoot);
        }
        if !check_keys(&layers) {
            return Err(GraphError::DuplicatePromotionKey);
        }
        let mut edges: Vec<Edge> = Vec::new();
        let mut k: usize = 0;
        while k < n
            invariant
                n == layers@.len(),
                k <= n,
                edges@.len() == if k == 0 { 0 } else { k - 1 },
                forall|j: int| 0 <= j < k ==> (#[trigger] layers@[j]).output_mode == OutputMode::PassThrough,
                forall|j: int| 0 <= j < edges@.len() ==> (#[trigger] edges@[j]).from == j && edges@[j].to == j + 1
                    && edges@[j].kind is PassThrough,
            decreases n - k,
        {
            if layers[k].output_mode == OutputMode::Split {
                return Err(GraphError::EdgeModeMismatch);
            }
            if k > 0 {
                edges.push(Edge { from: k - 1, to: k, kind: EdgeKind::PassThrough });
            }
            k += 1;
        }
        let mut order: Vec<usize> = Vec::new();
        let mut rank: Vec<usize> = Vec::new();
        let mut v: usize = 0;
        while v < n
            invariant
                v <= n,
                order@.len() == v,
                rank@.len() == v,
                forall|j: int| 0 <= j < v ==> #[trigger] order@[j] == j && rank@[j] == j,
            decreases n - v,
        {
            order.push(v);
            rank.push(v);
            v += 1;
        }
        let g = PromotionGraph { layers, edges, root: 0, order, rank };
        assert forall|j: int| 0 <= j < g.edges@.len() implies edge_ok(g.layers@, #[trigger] g.edges@[j]) by {
            assert(g.layers@[j].output_mode == OutputMode::PassThrough);
        }
        assert(g.order@[0] == 0);
        assert forall|k: int| 0 <= k < g.order@.len() implies (#[trigger] g.order@[k]) < n && g.rank@[g.order@[k] as int] == k by {}
        assert forall|u: int| 0 <= u < n implies (#[trigger] g.rank@[u]) < g.order@.len() && g.order@[g.rank@[u] as int] == u by {
            assert(g.order@[u] == u);
        }
        assert forall|k: int| 0 <= k < g.edges@.len() implies g.rank@[(#[trigger] g.edges@[k]).from as int] < g.rank@[g.edges@[k].to as int] by {
            assert(g.edges@[k].from == k && g.edges@[k].to == k + 1);
        }
        assert forall|u: int| 0 <= u < n && u != 0 implies #[trigger] has_entry(g.edges@, u) by {
            assert(g.edges@[u - 1].to == u);
        }
        assert(topological(n as nat, g.edges@, 0, g.order@, g.rank@));
        Ok(g)
    }
}

} // verus!
