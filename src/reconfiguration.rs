use vstd::prelude::*;
use crate::world::{CellView, VoxelWorld};

verus! {

pub type WorldView = Seq<CellView>;

/// Why no reconfiguration path was returned.
#[derive(Debug, Clone, Copy, PartialEq, Eq, Structural)]
pub enum Error {
    /// The start and the goal hold different numbers of rigid bodies.
    BodiesCountDoesNotMatch,
    /// The goal cannot be reached from the start.
    PathNotFound,
}

impl Error {
    pub fn as_str(&self) -> (r: &'static str)
        ensures
            *self == Error::BodiesCountDoesNotMatch ==> r@ == "Bodies count doesn't match"@,
            *self == Error::PathNotFound ==> r@ == "Reconfiguration path not found"@,
    {
        match self {
            Error::BodiesCountDoesNotMatch => "Bodies count doesn't match",
            Error::PathNotFound => "Reconfiguration path not found",
        }
    }
}

/// A world reached by one move from the world being expanded, with what the
/// world container reports of it: its count of rigid bodies, its canonical
/// representative, and every symmetry-equivalent variant of that
/// representative, the representative included.
pub struct NextWorld {
    pub world: VoxelWorld,
    pub bodies_count: usize,
    pub canonical: VoxelWorld,
    pub variants: Vec<VoxelWorld>,
}

/// Diagnostic counters of a search; they never steer it.
#[derive(Debug, Clone, Copy, PartialEq, Eq, Structural)]
pub struct Stats {
    pub true_cuts: u64,
    pub false_cuts: u64,
    pub all_worlds: u64,
    pub added_worlds: u64,
    pub next_worlds_before_add: u64,
    pub collided_worlds: u64,
    pub steps_computed: u64,
}

/// Adds one to a counter, wrapping at the end of its range.
pub open spec fn bump(c: u64) -> u64 {
    if c == u64::MAX { 0 } else { (c + 1) as u64 }
}

fn bumped(c: u64) -> (r: u64)
    ensures
        r == bump(c),
{
    if c == u64::MAX { 0 } else { c + 1 }
}

/// The report of the counters, one named value per line: all cuts (true
/// and false together, wrapping), true cuts, false cuts, all worlds,
/// collided worlds, steps computed, next worlds before adding, added worlds.
pub open spec fn counter_report(s: Stats) -> Seq<(Seq<char>, u64)> {
    seq![
        ("ALL_CUTS"@, ((s.true_cuts + s.false_cuts) % 0x1_0000_0000_0000_0000) as u64),
        ("TRUE_CUTS"@, s.true_cuts),
        ("FALSE_CUTS"@, s.false_cuts),
        ("ALL_WORLDS"@, s.all_worlds),
        ("COLLIDED_WORLDS"@, s.collided_worlds),
        ("STEPS_COMPUTED"@, s.steps_computed),
        ("NEXT_WORLDS_BEFORE_ADD"@, s.next_worlds_before_add),
        ("ADDED_WORLDS"@, s.added_worlds),
    ]
}

/// The counters of `stats`, named, in the order they are reported.
pub fn log_counters(stats: &Stats) -> (r: Vec<(&'static str, u64)>)
    ensures
        r@.map_values(|e: (&'static str, u64)| (e.0@, e.1)) == counter_report(*stats),
{
    let all_cuts = stats.true_cuts.wrapping_add(stats.false_cuts);
    let r = vec![
        ("ALL_CUTS", all_cuts),
        ("TRUE_CUTS", stats.true_cuts),
        ("FALSE_CUTS", stats.false_cuts),
        ("ALL_WORLDS", stats.all_worlds),
        ("COLLIDED_WORLDS", stats.collided_worlds),
        ("STEPS_COMPUTED", stats.steps_computed),
        ("NEXT_WORLDS_BEFORE_ADD", stats.next_worlds_before_add),
        ("ADDED_WORLDS", stats.added_worlds),
    ];
    proof {
        reveal_strlit("ALL_CUTS");
        assert(r@.map_values(|e: (&'static str, u64)| (e.0@, e.1)) =~= counter_report(*stats));
    }
    r
}

/// The worlds of `next` whose rigid-body count equals the goal's: the others
/// collided while moving.
pub open spec fn kept(next: Seq<NextWorld>, goal_bodies_count: usize) -> Seq<NextWorld> {
    next.filter(|n: NextWorld| n.bodies_count == goal_bodies_count)
}

proof fn lemma_map_push<A, B>(s: Seq<A>, x: A, f: spec_fn(A) -> B)
    ensures
        s.push(x).map_values(f) == s.map_values(f).push(f(x)),
{
    assert(s.push(x).map_values(f) =~= s.map_values(f).push(f(x)));
}

/// The world of `n` as it came from the move, or its canonical form.
pub open spec fn picked(n: NextWorld, canonical: bool) -> WorldView {
    if canonical {
        n.canonical@
    } else {
        n.world@
    }
}

/// The worlds of `next` that did not collide, as they came or canonical.
fn kept_worlds(next: &Vec<NextWorld>, goal_bodies_count: usize, canonical: bool) -> (r: Vec<VoxelWorld>)
    ensures
        r@.map_values(|w: VoxelWorld| w@) == kept(next@, goal_bodies_count).map_values(|n: NextWorld| picked(n, canonical)),
{
    let mut r: Vec<VoxelWorld> = Vec::new();
    let mut i: usize = 0;
    while i < next.len()
        invariant
            i <= next@.len(),
            r@.map_values(|w: VoxelWorld| w@) == kept(next@.take(i as int), goal_bodies_count).map_values(
                |n: NextWorld| picked(n, canonical),
            ),
        decreases next@.len() - i,
    {
        proof {
            assert(next@.take(i + 1) =~= next@.take(i as int).push(next@[i as int]));
            next@.take(i as int).lemma_filter_push(next@[i as int], |n: NextWorld| n.bodies_count == goal_bodies_count);
        }
        if next[i].bodies_count == goal_bodies_count {
            let w = if canonical {
                next[i].canonical.copy()
            } else {
                next[i].world.copy()
            };
            let ghost old_r = r@;
            r.push(w);
            proof {
                lemma_map_push(old_r, w, |w: VoxelWorld| w@);
                lemma_map_push(
                    kept(next@.take(i as int), goal_bodies_count),
                    next@[i as int],
                    |n: NextWorld| picked(n, canonical),
                );
            }
        } else {
            assert(kept(next@.take(i + 1), goal_bodies_count) == kept(next@.take(i as int), goal_bodies_count));
        }
        i = i + 1;
    }
    assert(next@.take(next@.len() as int) =~= next@);
    r
}

/// The moved worlds, as they came, that did not collide.
pub fn all_possible_next_worlds_not_norm(next: &Vec<NextWorld>, goal_bodies_count: usize) -> (r: Vec<VoxelWorld>)
    ensures
        r@.map_values(|w: VoxelWorld| w@) == kept(next@, goal_bodies_count).map_values(|n: NextWorld| n.world@),
{
    let r = kept_worlds(next, goal_bodies_count, false);
    assert(kept(next@, goal_bodies_count).map_values(|n: NextWorld| picked(n, false))
        =~= kept(next@, goal_bodies_count).map_values(|n: NextWorld| n.world@));
    r
}

/// The canonical representatives of the moved worlds that did not collide.
pub fn all_possible_next_worlds(next: &Vec<NextWorld>, goal_bodies_count: usize) -> (r: Vec<VoxelWorld>)
    ensures
        r@.map_values(|w: VoxelWorld| w@) == kept(next@, goal_bodies_count).map_values(|n: NextWorld| n.canonical@),
{
    let r = kept_worlds(next, goal_bodies_count, true);
    assert(kept(next@, goal_bodies_count).map_values(|n: NextWorld| picked(n, true))
        =~= kept(next@, goal_bodies_count).map_values(|n: NextWorld| n.canonical@));
    r
}


/// A visited world and the world it was reached from (none for the start).
struct Node {
    world: VoxelWorld,
    parent: Option<usize>,
}

/// The state of a breadth-first search over canonical worlds. Visited worlds
/// live in an arena; each records the handle of its parent. The caller runs
/// the loop: it takes the next world to expand, enumerates the worlds one
/// move away, and hands them back.
pub struct Planner {
    nodes: Vec<Node>,
    queue: Vec<usize>,
    head: usize,
    goal: VoxelWorld,
    goal_bodies_count: usize,
    goal_node: Option<usize>,
    stats: Stats,
    roots: Ghost<Set<WorldView>>,
    depths: Ghost<Seq<nat>>,
    level: Ghost<nat>,
    moves: Ghost<Set<(usize, usize)>>,
    queued: Ghost<Set<usize>>,
    taken: Ghost<Set<usize>>,
    expanded: Ghost<Set<usize>>,
}

/// `ws` is a chain of visited worlds: it starts at a world without a parent
/// and each world's parent is the one before it.
pub open spec fn is_chain(nodes: Seq<(WorldView, Option<usize>)>, ws: Seq<WorldView>) -> bool {
    exists|idx: Seq<usize>| is_chain_by(nodes, ws, idx)
}

pub open spec fn is_chain_by(nodes: Seq<(WorldView, Option<usize>)>, ws: Seq<WorldView>, idx: Seq<usize>) -> bool {
    &&& ws.len() > 0
    &&& idx.len() == ws.len()
    &&& forall|k: int| 0 <= k < idx.len() ==> #[trigger] idx[k] < nodes.len()
    &&& forall|k: int| 0 <= k < idx.len() ==> nodes[#[trigger] idx[k] as int].0 == ws[k]
    &&& nodes[idx[0] as int].1 is None
    &&& forall|k: int| 0 <= k < idx.len() - 1 ==> nodes[#[trigger] idx[k + 1] as int].1 == Some(idx[k])
}

/// Some node of `nodes` holds `w`.
pub open spec fn has_world(nodes: Seq<(WorldView, Option<usize>)>, w: WorldView) -> bool {
    exists|i: int| 0 <= i < nodes.len() && (#[trigger] nodes[i]).0 == w
}

/// `nodes` with `w` recorded under `parent`, unless some node holds it.
pub open spec fn with_world(nodes: Seq<(WorldView, Option<usize>)>, w: WorldView, parent: Option<usize>) -> Seq<
    (WorldView, Option<usize>),
> {
    if has_world(nodes, w) {
        nodes
    } else {
        nodes.push((w, parent))
    }
}

/// `nodes` with each of `ws` recorded in turn under `parent`.
pub open spec fn with_worlds(nodes: Seq<(WorldView, Option<usize>)>, ws: Seq<WorldView>, parent: Option<usize>) -> Seq<
    (WorldView, Option<usize>),
>
    decreases ws.len(),
{
    if ws.len() == 0 {
        nodes
    } else {
        with_world(with_worlds(nodes, ws.drop_last(), parent), ws.last(), parent)
    }
}

proof fn lemma_has_world_push(nodes: Seq<(WorldView, Option<usize>)>, x: (WorldView, Option<usize>), w: WorldView)
    ensures
        has_world(nodes.push(x), w) <==> has_world(nodes, w) || x.0 == w,
{
    let np = nodes.push(x);
    if has_world(np, w) {
        let i = choose|i: int| 0 <= i < np.len() && (#[trigger] np[i]).0 == w;
        if i < nodes.len() {
            assert(nodes[i].0 == w);
        }
    }
    if has_world(nodes, w) {
        let i = choose|i: int| 0 <= i < nodes.len() && (#[trigger] nodes[i]).0 == w;
        assert(np[i].0 == w);
    }
    if x.0 == w {
        assert(np[nodes.len() as int].0 == w);
    }
}

proof fn lemma_contains_push<A>(s: Seq<A>, x: A, w: A)
    ensures
        s.push(x).contains(w) <==> s.contains(w) || x == w,
{
    let sp = s.push(x);
    if sp.contains(w) {
        let i = choose|i: int| 0 <= i < sp.len() && sp[i] == w;
        if i < s.len() {
            assert(s[i] == w);
        }
    }
    if s.contains(w) {
        let i = choose|i: int| 0 <= i < s.len() && s[i] == w;
        assert(sp[i] == w);
    }
    if x == w {
        assert(sp[s.len() as int] == w);
    }
}

impl Planner {
    pub closed spec fn spec_nodes(&self) -> Seq<(WorldView, Option<usize>)> {
        self.nodes@.map_values(|n: Node| (n.world@, n.parent))
    }

    /// Handles waiting to be expanded, in order.
    pub closed spec fn spec_pending(&self) -> Seq<usize> {
        self.queue@.skip(self.head as int)
    }

    pub closed spec fn spec_goal(&self) -> WorldView {
        self.goal@
    }

    pub closed spec fn spec_goal_bodies_count(&self) -> usize {
        self.goal_bodies_count
    }

    pub closed spec fn spec_stats(&self) -> Stats {
        self.stats
    }

    /// The start worlds: the symmetry variants the search was seeded with.
    pub closed spec fn spec_roots(&self) -> Set<WorldView> {
        self.roots@
    }

    pub open spec fn visited(&self, w: WorldView) -> bool {
        has_world(self.spec_nodes(), w)
    }

    pub open spec fn found(&self) -> bool {
        self.visited(self.spec_goal())
    }

    pub closed spec fn wf(&self) -> bool {
        let nodes = self.spec_nodes();
        &&& self.head <= self.queue@.len()
        &&& forall|k: int| 0 <= k < self.queue@.len() ==> #[trigger] self.queue@[k] < nodes.len()
        &&& forall|i: int| 0 <= i < nodes.len() ==> match (#[trigger] nodes[i]).1 {
            Some(p) => p < i,
            None => self.roots@.contains(nodes[i].0),
        }
        &&& forall|i: int, j: int| 0 <= i < j < nodes.len() ==> nodes[i].0 != nodes[j].0
        &&& match self.goal_node {
            Some(g) => g < nodes.len() && nodes[g as int].0 == self.goal@,
            None => !self.found(),
        }
        &&& self.layered()
        &&& self.accounted()
    }

    /// The breadth-first layering: each visited world's depth is one more
    /// than its parent's (zero for a start world); no world lies more than
    /// one layer below the last expanded one; the pending worlds are in
    /// order of depth, none above that layer; and a recorded move never
    /// leads more than one layer down.
    closed spec fn layered(&self) -> bool {
        let nodes = self.spec_nodes();
        let d = self.depths@;
        let pend = self.spec_pending();
        &&& d.len() == nodes.len()
        &&& forall|i: int| 0 <= i < nodes.len() ==> match (#[trigger] nodes[i]).1 {
            Some(p) => d[i] == d[p as int] + 1,
            None => d[i] == 0,
        }
        &&& forall|i: int| 0 <= i < d.len() ==> #[trigger] d[i] <= self.level@ + 1
        &&& forall|k: int| 0 <= k < pend.len() ==> self.level@ <= d[#[trigger] pend[k] as int]
        &&& forall|j: int, k: int| 0 <= j < k < pend.len() ==> d[#[trigger] pend[j] as int] <= d[#[trigger] pend[k] as int]
        &&& forall|c: usize, h: usize| #[trigger] self.moves@.contains((c, h))
            ==> c < nodes.len() && h < nodes.len() && d[h as int] <= d[c as int] + 1
    }

    proof fn lemma_moves_kept(a: Planner, b: Planner)
        requires
            b.spec_nodes().len() >= a.spec_nodes().len(),
            forall|i: int| 0 <= i < a.spec_nodes().len() ==> b.spec_nodes()[i] == a.spec_nodes()[i],
            a.moves@.subset_of(b.moves@),
        ensures
            forall|u: WorldView, v: WorldView| a.has_move(u, v) ==> b.has_move(u, v),
    {
        assert forall|u: WorldView, v: WorldView| a.has_move(u, v) implies b.has_move(u, v) by {
            let (c, h) = choose|c: usize, h: usize|
                #[trigger] a.moves@.contains((c, h)) && c < a.spec_nodes().len() && h < a.spec_nodes().len()
                    && a.spec_nodes()[c as int].0 == u && a.spec_nodes()[h as int].0 == v;
            assert(b.moves@.contains((c, h)));
            assert(b.spec_nodes()[c as int] == a.spec_nodes()[c as int]);
            assert(b.spec_nodes()[h as int] == a.spec_nodes()[h as int]);
        }
    }

    proof fn lemma_wf_stats(a: Planner, b: Planner)
        requires
            a.wf(),
            b.nodes@ == a.nodes@,
            b.queue@ == a.queue@,
            b.head == a.head,
            b.goal@ == a.goal@,
            b.goal_node == a.goal_node,
            b.roots == a.roots,
            b.depths == a.depths,
            b.level == a.level,
            b.moves == a.moves,
            b.queued == a.queued,
            b.taken == a.taken,
        ensures
            b.wf(),
            b.spec_nodes() == a.spec_nodes(),
            b.spec_pending() == a.spec_pending(),
            forall|h: usize| a.is_current(h) ==> b.is_current(h),
    {
        assert(b.spec_nodes() == a.spec_nodes());
        assert(b.spec_pending() == a.spec_pending());
        assert(forall|w: WorldView| b.visited(w) == a.visited(w));
    }

    /// Every world ever queued is still pending or was taken for expansion.
    closed spec fn accounted(&self) -> bool {
        forall|q: usize| #[trigger] self.queued@.contains(q) ==> q < self.spec_nodes().len() && (
            self.spec_pending().contains(q) || self.taken@.contains(q))
    }

    /// The world with handle `h` was queued for expansion.
    pub closed spec fn was_queued(&self, h: usize) -> bool {
        self.queued@.contains(h)
    }

    /// The world with handle `h` was taken by `next_to_expand`.
    pub closed spec fn was_taken(&self, h: usize) -> bool {
        self.taken@.contains(h)
    }

    /// Every world one move from the world with handle `h` was handed to
    /// `expand` in a call that ran to the end.
    pub closed spec fn was_expanded(&self, h: usize) -> bool {
        self.expanded@.contains(h)
    }

    /// The number of moves on the parent chain from a start world to `h`.
    pub closed spec fn depth(&self, h: usize) -> nat {
        self.depths@[h as int]
    }

    /// The depth of the world taken last (zero before any).
    pub closed spec fn level(&self) -> nat {
        self.level@
    }

    /// `h` is a world of the layer being expanded.
    pub closed spec fn is_current(&self, h: usize) -> bool {
        h < self.nodes@.len() && self.depths@[h as int] == self.level@
    }

    /// A move from `u` to `v` was recorded: `v` was handed over as the
    /// canonical form of a world one move from `u`, without collision.
    pub closed spec fn has_move(&self, u: WorldView, v: WorldView) -> bool {
        exists|c: usize, h: usize|
            #[trigger] self.moves@.contains((c, h)) && c < self.spec_nodes().len() && h < self.spec_nodes().len()
                && self.spec_nodes()[c as int].0 == u && self.spec_nodes()[h as int].0 == v
    }

    /// `w` is a visited start world.
    pub open spec fn is_start(&self, w: WorldView) -> bool {
        exists|i: int| 0 <= i < self.spec_nodes().len() && (#[trigger] self.spec_nodes()[i]).0 == w
            && self.spec_nodes()[i].1 is None
    }

    proof fn lemma_nodes_index(&self, i: int)
        requires
            0 <= i < self.nodes@.len(),
        ensures
            self.spec_nodes()[i] == (self.nodes@[i].world@, self.nodes@[i].parent),
            self.spec_nodes().len() == self.nodes@.len(),
    {
    }

    /// Handle of the visited world equal to `w`, if any.
    fn find(&self, w: &VoxelWorld) -> (r: Option<usize>)
        ensures
            r matches Some(i) ==> i < self.spec_nodes().len() && self.spec_nodes()[i as int].0 == w@,
            r is None ==> !self.visited(w@),
    {
        let mut i: usize = 0;
        while i < self.nodes.len()
            invariant
                i <= self.nodes@.len(),
                self.spec_nodes().len() == self.nodes@.len(),
                forall|k: int| 0 <= k < i ==> self.spec_nodes()[k].0 != w@,
            decreases self.nodes@.len() - i,
        {
            proof { self.lemma_nodes_index(i as int); }
            if self.nodes[i].world.same_as(w) {
                return Some(i);
            }
            i = i + 1;
        }
        None
    }

    /// Records `w` with `parent` unless it was visited already; returns its handle.
    fn insert(&mut self, w: &VoxelWorld, parent: Option<usize>) -> (r: usize)
        requires
            old(self).wf(),
            parent matches Some(p) ==> old(self).is_current(p),
            parent is None ==> old(self).spec_roots().contains(w@),
        ensures
            final(self).wf(),
            r < final(self).spec_nodes().len(),
            final(self).spec_nodes()[r as int].0 == w@,
            final(self).spec_nodes() == with_world(old(self).spec_nodes(), w@, parent),
            final(self).spec_pending() == old(self).spec_pending(),
            final(self).queue@ == old(self).queue@,
            final(self).head == old(self).head,
            final(self).spec_goal() == old(self).spec_goal(),
            final(self).spec_goal_bodies_count() == old(self).spec_goal_bodies_count(),
            final(self).spec_roots() == old(self).spec_roots(),
            final(self).spec_stats() == old(self).spec_stats(),
            final(self).level == old(self).level,
            final(self).moves == old(self).moves,
            final(self).queued == old(self).queued,
            final(self).taken == old(self).taken,
            final(self).expanded == old(self).expanded,
            final(self).depths@.len() >= old(self).depths@.len(),
            forall|i: int| 0 <= i < old(self).depths@.len() ==> final(self).depths@[i] == old(self).depths@[i],
            !old(self).visited(w@) ==> r == old(self).spec_nodes().len(),
            forall|h: usize| old(self).is_current(h) ==> final(self).is_current(h),
    {
        match self.find(w) {
            Some(i) => i,
            None => {
                let ghost old_nodes = self.spec_nodes();
                let n = self.nodes.len();
                let is_goal = w.same_as(&self.goal);
                self.nodes.push(Node { world: w.copy(), parent });
                proof {
                    let dep: nat = match parent {
                        Some(p) => self.depths@[p as int] + 1,
                        None => 0,
                    };
                    let old_d = self.depths@;
                    self.depths = Ghost(self.depths@.push(dep));
                    lemma_map_push(old(self).nodes@, self.nodes@[n as int], |n: Node| (n.world@, n.parent));
                    assert(self.spec_nodes() == old_nodes.push((w@, parent)));
                    assert forall|i: int| 0 <= i < old_nodes.len() implies self.spec_nodes()[i] == old_nodes[i] by {}
                    let nodes = self.spec_nodes();
                    let d = self.depths@;
                    assert forall|i: int| 0 <= i < nodes.len() implies match (#[trigger] nodes[i]).1 {
                        Some(p) => d[i] == d[p as int] + 1,
                        None => d[i] == 0,
                    } by {
                        if i < old_nodes.len() {
                            assert(nodes[i] == old_nodes[i]);
                            assert(d[i] == old_d[i]);
                        }
                    }
                    assert forall|i: int| 0 <= i < d.len() implies #[trigger] d[i] <= self.level@ + 1 by {
                        if i < old_d.len() {
                            assert(d[i] == old_d[i]);
                        }
                    }
                    let pend = self.spec_pending();
                    assert forall|k: int| 0 <= k < pend.len() implies self.level@ <= d[#[trigger] pend[k] as int] by {
                        let op = old(self).spec_pending();
                        assert(pend[k] == op[k]);
                        assert(old(self).level@ <= old_d[op[k] as int]);
                        assert(d[pend[k] as int] == old_d[pend[k] as int]);
                    }
                    assert forall|j: int, k: int| 0 <= j < k < pend.len() implies d[#[trigger] pend[j] as int]
                        <= d[#[trigger] pend[k] as int] by {
                        let op = old(self).spec_pending();
                        assert(pend[k] == op[k]);
                        assert(pend[j] == op[j]);
                        assert(old_d[op[j] as int] <= old_d[op[k] as int]);
                        assert(d[pend[k] as int] == old_d[pend[k] as int]);
                        assert(d[pend[j] as int] == old_d[pend[j] as int]);
                    }
                    assert forall|c: usize, h: usize| #[trigger] self.moves@.contains((c, h))
                        implies c < nodes.len() && h < nodes.len() && d[h as int] <= d[c as int] + 1 by {
                        assert(d[h as int] == old_d[h as int]);
                        assert(d[c as int] == old_d[c as int]);
                    }
                }
                if is_goal {
                    self.goal_node = Some(n);
                } else if self.goal_node.is_none() {
                    assert(!self.found()) by {
                        if self.found() {
                            let i = choose|i: int| 0 <= i < self.spec_nodes().len() && (#[trigger] self.spec_nodes()[i]).0 == self.goal@;
                            assert(self.spec_nodes()[old_nodes.len() as int].0 == w@);
                            assert(i < old_nodes.len());
                            assert(old_nodes[i].0 == self.goal@);
                            assert(old(self).visited(self.goal@));
                        }
                    }
                }
                n
            }
        }
    }
}


impl Planner {
    /// Seeds a search from every symmetry variant of the start world (the
    /// start's representative first) towards the canonical `goal`. Fails at
    /// once when the rigid-body counts differ.
    pub fn start(init_variants: Vec<VoxelWorld>, init_bodies_count: usize, goal: VoxelWorld, goal_bodies_count: usize) -> (r: Result<Planner, Error>)
        requires
            init_variants@.len() > 0,
        ensures
            r is Err <==> init_bodies_count != goal_bodies_count,
            r matches Err(e) ==> e == Error::BodiesCountDoesNotMatch,
            r matches Ok(p) ==> {
                &&& p.wf()
                &&& p.spec_goal() == goal@
                &&& p.spec_goal_bodies_count() == goal_bodies_count
                &&& p.spec_roots() == init_variants@.map_values(|w: VoxelWorld| w@).to_set()
                &&& p.spec_nodes() == with_worlds(Seq::empty(), init_variants@.map_values(|w: VoxelWorld| w@), None)
                &&& forall|w: WorldView| p.visited(w) <==> p.spec_roots().contains(w)
                &&& forall|i: int| 0 <= i < p.spec_nodes().len() ==> (#[trigger] p.spec_nodes()[i]).1 is None
                &&& p.spec_pending().len() == 1
                &&& p.spec_nodes()[p.spec_pending()[0] as int].0 == init_variants@[0]@
                &&& p.spec_stats() == Stats::default_spec()
                &&& forall|u: WorldView, v: WorldView| !p.has_move(u, v)
                &&& forall|h: usize| p.was_queued(h) <==> h == p.spec_pending()[0]
                &&& forall|h: usize| !p.was_taken(h) && !p.was_expanded(h)
            },
    {
        if init_bodies_count != goal_bodies_count {
            return Err(Error::BodiesCountDoesNotMatch);
        }
        let ghost views = init_variants@.map_values(|w: VoxelWorld| w@);
        let mut p = Planner {
            nodes: Vec::new(),
            queue: Vec::new(),
            head: 0,
            goal,
            goal_bodies_count,
            goal_node: None,
            stats: Stats::new(),
            roots: Ghost(views.to_set()),
            depths: Ghost(Seq::empty()),
            level: Ghost(0),
            moves: Ghost(Set::empty()),
            queued: Ghost(Set::empty()),
            taken: Ghost(Set::empty()),
            expanded: Ghost(Set::empty()),
        };
        assert(p.spec_nodes() =~= Seq::empty());
        assert(views.take(0) =~= Seq::<WorldView>::empty());
        let mut first: usize = 0;
        let mut i: usize = 0;
        while i < init_variants.len()
            invariant
                i <= init_variants@.len(),
                init_variants@.len() > 0,
                views == init_variants@.map_values(|w: VoxelWorld| w@),
                p.wf(),
                p.spec_goal() == goal@,
                p.spec_goal_bodies_count() == goal_bodies_count,
                p.spec_roots() == views.to_set(),
                p.queue@.len() == 0,
                p.head == 0,
                p.level@ == 0,
                p.moves@ == Set::<(usize, usize)>::empty(),
                p.queued@ == Set::<usize>::empty(),
                p.taken@ == Set::<usize>::empty(),
                p.expanded@ == Set::<usize>::empty(),
                p.spec_stats() == Stats::default_spec(),
                forall|w: WorldView| #[trigger] has_world(p.spec_nodes(), w) <==> views.take(i as int).contains(w),
                p.spec_nodes() == with_worlds(Seq::empty(), views.take(i as int), None),
                forall|j: int| 0 <= j < p.spec_nodes().len() ==> (#[trigger] p.spec_nodes()[j]).1 is None,
                i > 0 ==> first < p.spec_nodes().len() && p.spec_nodes()[first as int].0 == views[0],
            decreases init_variants@.len() - i,
        {
            let ghost before = p.spec_nodes();
            proof {
                assert(forall|w: WorldView| has_world(before, w) <==> views.take(i as int).contains(w));
                assert(views[i as int] == init_variants@[i as int]@);
                assert(views.contains(views[i as int]));
            }
            let h = p.insert(&init_variants[i], None);
            if i == 0 {
                first = h;
            }
            proof {
                assert(views.take(i + 1) =~= views.take(i as int).push(views[i as int]));
                assert(views.take(i + 1).drop_last() =~= views.take(i as int));
                assert forall|w: WorldView| #[trigger] has_world(p.spec_nodes(), w) <==> views.take(i + 1).contains(w) by {
                    lemma_has_world_push(before, (views[i as int], None), w);
                    lemma_contains_push(views.take(i as int), views[i as int], w);
                    if has_world(before, views[i as int]) {
                        assert(p.spec_nodes() == before);
                    }
                }
            }
            i = i + 1;
        }
        p.queue.push(first);
        p.queued = Ghost(Set::empty().insert(first));
        proof {
            assert(p.spec_pending() =~= seq![first]);
            assert(p.spec_pending()[0] == first);
            assert(views.take(views.len() as int) =~= views);
            assert(forall|w: WorldView| p.spec_roots().contains(w) <==> views.contains(w));
            assert(p.spec_nodes()[first as int].0 == init_variants@[0]@);
            assert(p.spec_pending()[0] == first);
            assert(p.wf());
            assert(p.spec_roots() == init_variants@.map_values(|w: VoxelWorld| w@).to_set());
            assert(forall|w: WorldView| p.visited(w) <==> p.spec_roots().contains(w));
            assert(p.spec_pending().len() == 1);
            assert(p.spec_pending() =~= seq![first]);
        }
        Ok(p)
    }

    /// Takes the next world to expand: none once the goal is visited or
    /// nothing is left to expand.
    pub fn next_to_expand(&mut self) -> (r: Option<usize>)
        requires
            old(self).wf(),
        ensures
            final(self).wf(),
            final(self).spec_nodes() == old(self).spec_nodes(),
            final(self).spec_goal() == old(self).spec_goal(),
            final(self).spec_goal_bodies_count() == old(self).spec_goal_bodies_count(),
            final(self).spec_roots() == old(self).spec_roots(),
            old(self).found() || old(self).spec_pending().len() == 0 ==> r is None
                && final(self).spec_pending() == old(self).spec_pending()
                && final(self).spec_stats() == old(self).spec_stats(),
            !old(self).found() && old(self).spec_pending().len() > 0 ==> r == Some(old(self).spec_pending()[0])
                && final(self).spec_pending() == old(self).spec_pending().skip(1)
                && final(self).spec_stats() == (Stats {
                    steps_computed: bump(old(self).spec_stats().steps_computed),
                    ..old(self).spec_stats()
                }),
            r matches Some(h) ==> h < final(self).spec_nodes().len() && final(self).is_current(h),
            forall|u: WorldView, v: WorldView| old(self).has_move(u, v) <==> final(self).has_move(u, v),
            forall|h: usize| final(self).was_taken(h) <==> old(self).was_taken(h) || r == Some(h),
            forall|h: usize| final(self).was_queued(h) == old(self).was_queued(h),
            forall|h: usize| final(self).was_expanded(h) == old(self).was_expanded(h),
            r matches Some(h) ==> final(self).level() == final(self).depth(h),
    {
        if self.goal_node.is_some() || self.head >= self.queue.len() {
            return None;
        }
        let h = self.queue[self.head];
        proof {
            assert(self.spec_pending()[0] == h);
        }
        self.head = self.head + 1;
        self.stats.steps_computed = bumped(self.stats.steps_computed);
        proof {
            self.taken = Ghost(self.taken@.insert(h));
            let op0 = old(self).spec_pending();
            assert forall|q: usize| #[trigger] self.queued@.contains(q) implies q < self.spec_nodes().len() && (
                self.spec_pending().contains(q) || self.taken@.contains(q)) by {
                if op0.contains(q) && q != h {
                    let k = choose|k: int| 0 <= k < op0.len() && op0[k] == q;
                    assert(k != 0);
                    assert(self.spec_pending()[k - 1] == q);
                }
            }
            let op = old(self).spec_pending();
            let d = self.depths@;
            assert(old(self).level@ <= d[op[0] as int]);
            self.level = Ghost(d[h as int]);
            let pend = self.spec_pending();
            assert forall|k: int| 0 <= k < pend.len() implies self.level@ <= d[#[trigger] pend[k] as int] by {
                assert(pend[k] == op[k + 1]);
                assert(d[op[0] as int] <= d[op[k + 1] as int]);
            }
            assert forall|j: int, k: int| 0 <= j < k < pend.len() implies d[#[trigger] pend[j] as int]
                <= d[#[trigger] pend[k] as int] by {
                assert(pend[k] == op[k + 1]);
                assert(pend[j] == op[j + 1]);
            }
            assert forall|i: int| 0 <= i < d.len() implies #[trigger] d[i] <= self.level@ + 1 by {
                assert(d[i] <= old(self).level@ + 1);
            }
            assert(self.layered());
            assert(self.spec_nodes() == old(self).spec_nodes());
            Planner::lemma_moves_kept(*old(self), *self);
            Planner::lemma_moves_kept(*self, *old(self));
        }
        assert(self.spec_pending() =~= old(self).spec_pending().skip(1));
        Some(h)
    }

    /// The visited world with handle `h`.
    pub fn world(&self, h: usize) -> (r: &VoxelWorld)
        requires
            self.wf(),
            h < self.spec_nodes().len(),
        ensures
            r@ == self.spec_nodes()[h as int].0,
    {
        &self.nodes[h].world
    }

    /// Whether the goal has been visited.
    pub fn is_goal_found(&self) -> (r: bool)
        requires
            self.wf(),
        ensures
            r == self.found(),
    {
        self.goal_node.is_some()
    }

    pub fn stats(&self) -> (r: Stats)
        ensures
            r == self.spec_stats(),
    {
        self.stats
    }
}

/// What `next` must satisfy to be handed to the planner: the symmetry
/// variants of each world include its canonical representative.
pub open spec fn well_formed_next(nw: NextWorld) -> bool {
    variant_views(nw).contains(nw.canonical@)
}

/// The handle of the node holding `w`.
pub open spec fn index_of(nodes: Seq<(WorldView, Option<usize>)>, w: WorldView) -> int {
    choose|i: int| 0 <= i < nodes.len() && (#[trigger] nodes[i]).0 == w
}

pub open spec fn variant_views(nw: NextWorld) -> Seq<WorldView> {
    nw.variants@.map_values(|w: VoxelWorld| w@)
}

/// What one search step changes: the visited worlds, the pending handles
/// and the counters.
pub type StepView = (Seq<(WorldView, Option<usize>)>, Seq<usize>, Stats);

/// The step state after handing over `nw`, reached from `current` by one
/// move: a collided world only counts; a world whose canonical form was
/// visited only counts; otherwise every variant is recorded under `current`
/// and the canonical form is queued.
pub open spec fn after_next_world(s: StepView, nw: NextWorld, goal_bodies_count: usize, current: usize) -> StepView {
    let (nodes, pending, st) = s;
    if nw.bodies_count != goal_bodies_count {
        (nodes, pending, Stats { all_worlds: bump(st.all_worlds), collided_worlds: bump(st.collided_worlds), ..st })
    } else if has_world(nodes, nw.canonical@) {
        (
            nodes,
            pending,
            Stats {
                all_worlds: bump(st.all_worlds),
                next_worlds_before_add: bump(st.next_worlds_before_add),
                ..st
            },
        )
    } else {
        (
            with_worlds(nodes, variant_views(nw), Some(current)),
            pending.push(index_of(with_worlds(nodes, variant_views(nw), Some(current)), nw.canonical@) as usize),
            Stats {
                all_worlds: bump(st.all_worlds),
                next_worlds_before_add: bump(st.next_worlds_before_add),
                added_worlds: bump(st.added_worlds),
                ..st
            },
        )
    }
}

/// The step state after handing over each of `next` in turn.
pub open spec fn after_next_worlds(s: StepView, next: Seq<NextWorld>, goal_bodies_count: usize, current: usize) -> StepView
    decreases next.len(),
{
    if next.len() == 0 {
        s
    } else {
        after_next_world(after_next_worlds(s, next.drop_last(), goal_bodies_count, current), next.last(), goal_bodies_count, current)
    }
}

impl Planner {
    pub open spec fn step_view(&self) -> StepView {
        (self.spec_nodes(), self.spec_pending(), self.spec_stats())
    }

    /// Handles one world reached from the world `current` by one move. A world
    /// with another rigid-body count than the goal's collided and is dropped;
    /// so is one whose canonical representative was visited. Otherwise every
    /// variant is recorded with `current` as parent, and the representative is
    /// queued for expansion. Returns whether the goal is now visited.
    pub fn add_next_world(&mut self, current: usize, nw: &NextWorld) -> (r: bool)
        requires
            old(self).wf(),
            old(self).is_current(current),
            well_formed_next(*nw),
        ensures
            final(self).wf(),
            final(self).is_current(current),
            forall|u: WorldView, v: WorldView| old(self).has_move(u, v) ==> final(self).has_move(u, v),
            nw.bodies_count == old(self).spec_goal_bodies_count() ==> final(self).has_move(
                old(self).spec_nodes()[current as int].0,
                nw.canonical@,
            ),
            final(self).spec_goal() == old(self).spec_goal(),
            final(self).spec_goal_bodies_count() == old(self).spec_goal_bodies_count(),
            final(self).spec_roots() == old(self).spec_roots(),
            final(self).spec_nodes().len() >= old(self).spec_nodes().len(),
            forall|i: int| 0 <= i < old(self).spec_nodes().len() ==> final(self).spec_nodes()[i] == old(self).spec_nodes()[i],
            forall|i: int| old(self).spec_nodes().len() <= i < final(self).spec_nodes().len()
                ==> (#[trigger] final(self).spec_nodes()[i]).1 == Some(current),
            nw.bodies_count != old(self).spec_goal_bodies_count() ==> {
                &&& final(self).spec_nodes() == old(self).spec_nodes()
                &&& final(self).spec_pending() == old(self).spec_pending()
                &&& final(self).spec_stats() == (Stats {
                    all_worlds: bump(old(self).spec_stats().all_worlds),
                    collided_worlds: bump(old(self).spec_stats().collided_worlds),
                    ..old(self).spec_stats()
                })
            },
            nw.bodies_count == old(self).spec_goal_bodies_count() && old(self).visited(nw.canonical@) ==> {
                &&& final(self).spec_nodes() == old(self).spec_nodes()
                &&& final(self).spec_pending() == old(self).spec_pending()
                &&& final(self).spec_stats() == (Stats {
                    all_worlds: bump(old(self).spec_stats().all_worlds),
                    next_worlds_before_add: bump(old(self).spec_stats().next_worlds_before_add),
                    ..old(self).spec_stats()
                })
            },
            nw.bodies_count == old(self).spec_goal_bodies_count() && !old(self).visited(nw.canonical@) ==> {
                &&& final(self).spec_nodes() == with_worlds(old(self).spec_nodes(), variant_views(*nw), Some(current))
                &&& forall|w: WorldView| #[trigger] final(self).visited(w)
                    <==> old(self).visited(w) || variant_views(*nw).contains(w)
                &&& final(self).spec_pending().len() == old(self).spec_pending().len() + 1
                &&& final(self).spec_pending().drop_last() == old(self).spec_pending()
                &&& final(self).spec_nodes()[final(self).spec_pending().last() as int].0 == nw.canonical@
                &&& final(self).spec_stats() == (Stats {
                    all_worlds: bump(old(self).spec_stats().all_worlds),
                    next_worlds_before_add: bump(old(self).spec_stats().next_worlds_before_add),
                    added_worlds: bump(old(self).spec_stats().added_worlds),
                    ..old(self).spec_stats()
                })
            },
            final(self).visited(nw.canonical@) || nw.bodies_count != old(self).spec_goal_bodies_count(),
            final(self).step_view() == after_next_world(old(self).step_view(), *nw, old(self).spec_goal_bodies_count(), current),
            forall|h: usize| final(self).was_taken(h) == old(self).was_taken(h),
            forall|h: usize| final(self).was_expanded(h) == old(self).was_expanded(h),
            forall|h: usize| #[trigger] final(self).was_queued(h) <==> old(self).was_queued(h) || (
                final(self).spec_pending().len() > old(self).spec_pending().len() && h == final(self).spec_pending().last()),
            r == final(self).found(),
    {
        self.stats.all_worlds = bumped(self.stats.all_worlds);
        if nw.bodies_count != self.goal_bodies_count {
            self.stats.collided_worlds = bumped(self.stats.collided_worlds);
            proof {
                Planner::lemma_wf_stats(*old(self), *self);
            }
            return self.goal_node.is_some();
        }
        self.stats.next_worlds_before_add = bumped(self.stats.next_worlds_before_add);
        proof {
            Planner::lemma_wf_stats(*old(self), *self);
        }
        if let Some(k) = self.find(&nw.canonical) {
            proof {
                self.moves = Ghost(self.moves@.insert((current, k)));
                assert(self.layered()) by {
                    assert(self.depths@[k as int] <= self.level@ + 1);
                }
                assert(self.moves@.contains((current, k)));
                Planner::lemma_moves_kept(*old(self), *self);
            }
            return self.goal_node.is_some();
        }
        let ghost old_nodes = self.spec_nodes();
        let ghost views = variant_views(*nw);
        assert(views.take(0) =~= Seq::<WorldView>::empty());
        let mut h: usize = 0;
        let mut found_h = false;
        let mut i: usize = 0;
        while i < nw.variants.len()
            invariant
                self.wf(),
                i <= nw.variants@.len(),
                well_formed_next(*nw),
                views == variant_views(*nw),
                current < old_nodes.len(),
                self.spec_goal() == old(self).spec_goal(),
                self.spec_goal_bodies_count() == old(self).spec_goal_bodies_count(),
                self.spec_roots() == old(self).spec_roots(),
                self.spec_stats() == (Stats {
                    all_worlds: bump(old(self).spec_stats().all_worlds),
                    next_worlds_before_add: bump(old(self).spec_stats().next_worlds_before_add),
                    ..old(self).spec_stats()
                }),
                self.queue@ == old(self).queue@,
                self.head == old(self).head,
                old_nodes == old(self).spec_nodes(),
                self.spec_nodes().len() >= old_nodes.len(),
                forall|k: int| 0 <= k < old_nodes.len() ==> self.spec_nodes()[k] == old_nodes[k],
                forall|k: int| old_nodes.len() <= k < self.spec_nodes().len()
                    ==> (#[trigger] self.spec_nodes()[k]).1 == Some(current),
                forall|w: WorldView| #[trigger] has_world(self.spec_nodes(), w)
                    <==> has_world(old_nodes, w) || views.take(i as int).contains(w),
                self.spec_nodes() == with_worlds(old_nodes, views.take(i as int), Some(current)),
                found_h <==> views.take(i as int).contains(nw.canonical@),
                found_h ==> h < self.spec_nodes().len() && self.spec_nodes()[h as int].0 == nw.canonical@,
                found_h ==> self.depths@[h as int] == self.level@ + 1,
                self.level == old(self).level,
                self.moves == old(self).moves,
                self.queued == old(self).queued,
                self.taken == old(self).taken,
                self.expanded == old(self).expanded,
                self.is_current(current),
                !has_world(old_nodes, nw.canonical@),
            decreases nw.variants@.len() - i,
        {
            let ghost before = self.spec_nodes();
            proof {
                assert(forall|w: WorldView| has_world(before, w) <==> has_world(old_nodes, w) || views.take(i as int).contains(w));
                assert(views[i as int] == nw.variants@[i as int]@);
            }
            let ghost before_d = self.depths@;
            let ghost was_found = found_h;
            let k = self.insert(&nw.variants[i], Some(current));
            if !found_h && nw.variants[i].same_as(&nw.canonical) {
                h = k;
                found_h = true;
            }
            proof {
                if !was_found && views[i as int] == nw.canonical@ {
                    assert(!has_world(before, views[i as int]));
                    assert(k == before.len());
                    lemma_map_push_index(before, (views[i as int], Some(current)));
                    assert(self.spec_nodes()[k as int].1 == Some(current));
                    assert(self.depths@[current as int] == before_d[current as int]);
                } else if was_found {
                    assert(self.depths@[h as int] == before_d[h as int]);
                }
                lemma_contains_push(views.take(i as int), views[i as int], nw.canonical@);
                assert(views.take(i + 1) =~= views.take(i as int).push(views[i as int]));
                assert(views.take(i + 1).drop_last() =~= views.take(i as int));
                assert forall|w: WorldView| #[trigger] has_world(self.spec_nodes(), w)
                    <==> has_world(old_nodes, w) || views.take(i + 1).contains(w) by {
                    lemma_has_world_push(before, (views[i as int], Some(current)), w);
                    lemma_contains_push(views.take(i as int), views[i as int], w);
                    if has_world(before, views[i as int]) {
                        assert(self.spec_nodes() == before);
                    }
                }
                assert forall|k: int| old_nodes.len() <= k < self.spec_nodes().len()
                    implies (#[trigger] self.spec_nodes()[k]).1 == Some(current) by {
                    if k < before.len() {
                        assert(before[k].1 == Some(current));
                    }
                }
            }
            i = i + 1;
        }
        proof {
            assert(views.take(views.len() as int) =~= views);
            assert(found_h);
            let ix = index_of(self.spec_nodes(), nw.canonical@);
            assert(0 <= ix < self.spec_nodes().len() && self.spec_nodes()[ix].0 == nw.canonical@);
            self.lemma_same_world_same_index(ix, h as int);
            let op = old(self).spec_pending();
            assert(self.spec_pending() == op);
            assert(forall|k: int| 0 <= k < op.len() ==> self.level@ <= self.depths@[#[trigger] op[k] as int]);
            assert(forall|j: int, k: int| 0 <= j < k < op.len() ==> self.depths@[#[trigger] op[j] as int]
                <= self.depths@[#[trigger] op[k] as int]);
        }
        self.queue.push(h);
        self.stats.added_worlds = bumped(self.stats.added_worlds);
        proof {
            let op = old(self).spec_pending();
            let pend = self.spec_pending();
            assert(pend =~= op.push(h));
            self.moves = Ghost(self.moves@.insert((current, h)));
            self.queued = Ghost(self.queued@.insert(h));
            assert forall|q: usize| #[trigger] self.queued@.contains(q) implies q < self.spec_nodes().len() && (
                pend.contains(q) || self.taken@.contains(q)) by {
                if q == h {
                    assert(pend[pend.len() - 1] == h);
                } else if op.contains(q) {
                    let k = choose|k: int| 0 <= k < op.len() && op[k] == q;
                    assert(pend[k] == q);
                }
            }
            let d = self.depths@;
            assert forall|k: int| 0 <= k < pend.len() implies self.level@ <= d[#[trigger] pend[k] as int] by {
                if k < op.len() {
                    assert(pend[k] == op[k]);
                    assert(self.queue@[self.head + k] == pend[k]);
                }
            }
            assert forall|j: int, k: int| 0 <= j < k < pend.len() implies d[#[trigger] pend[j] as int]
                <= d[#[trigger] pend[k] as int] by {
                assert(pend[j] == op[j]);
                assert(self.queue@[self.head + j] == pend[j]);
                if k < op.len() {
                    assert(pend[k] == op[k]);
                    assert(self.queue@[self.head + k] == pend[k]);
                }
            }
            assert(self.layered());
            assert(self.moves@.contains((current, h)));
            Planner::lemma_moves_kept(*old(self), *self);
            assert(views.take(views.len() as int) =~= views);
            assert(self.spec_pending() =~= old(self).spec_pending().push(h));
            assert(self.spec_pending().drop_last() =~= old(self).spec_pending());
            assert(forall|w: WorldView| #[trigger] self.visited(w) <==> has_world(self.spec_nodes(), w));
            assert(forall|w: WorldView| #[trigger] old(self).visited(w) <==> has_world(old_nodes, w));
            assert(self.spec_nodes()[h as int].0 == nw.canonical@);
        }
        self.goal_node.is_some()
    }
}

proof fn lemma_map_push_index(s: Seq<(WorldView, Option<usize>)>, x: (WorldView, Option<usize>))
    ensures
        s.push(x)[s.len() as int] == x,
{
}

proof fn lemma_has_world_grows(a: Seq<(WorldView, Option<usize>)>, b: Seq<(WorldView, Option<usize>)>, w: WorldView)
    requires
        b.len() >= a.len(),
        forall|i: int| 0 <= i < a.len() ==> b[i] == a[i],
        has_world(a, w),
    ensures
        has_world(b, w),
{
    let i = choose|i: int| 0 <= i < a.len() && (#[trigger] a[i]).0 == w;
    assert(b[i].0 == w);
}

impl Planner {
    /// Hands over, in order, the worlds reached from `current` by one move,
    /// stopping once the goal is visited. Returns whether it is.
    pub fn expand(&mut self, current: usize, next: &Vec<NextWorld>) -> (r: bool)
        requires
            old(self).wf(),
            old(self).is_current(current),
            forall|k: int| 0 <= k < next@.len() ==> well_formed_next(#[trigger] next@[k]),
        ensures
            final(self).wf(),
            final(self).is_current(current),
            forall|u: WorldView, v: WorldView| old(self).has_move(u, v) ==> final(self).has_move(u, v),
            final(self).spec_goal() == old(self).spec_goal(),
            final(self).spec_goal_bodies_count() == old(self).spec_goal_bodies_count(),
            final(self).spec_roots() == old(self).spec_roots(),
            final(self).spec_nodes().len() >= old(self).spec_nodes().len(),
            forall|i: int| 0 <= i < old(self).spec_nodes().len() ==> final(self).spec_nodes()[i] == old(self).spec_nodes()[i],
            forall|i: int| old(self).spec_nodes().len() <= i < final(self).spec_nodes().len()
                ==> (#[trigger] final(self).spec_nodes()[i]).1 == Some(current),
            r == final(self).found(),
            !r ==> forall|k: int| 0 <= k < next@.len() && (#[trigger] next@[k]).bodies_count
                == old(self).spec_goal_bodies_count() ==> final(self).visited(next@[k].canonical@),
            forall|h: usize| final(self).was_taken(h) == old(self).was_taken(h),
            forall|h: usize| old(self).was_queued(h) ==> final(self).was_queued(h),
            forall|h: usize| final(self).was_expanded(h) <==> old(self).was_expanded(h) || (!r && h == current),
            exists|n: int|
                0 <= n <= next@.len() && (n == next@.len() || r) && final(self).step_view() == after_next_worlds(
                    old(self).step_view(),
                    #[trigger] next@.take(n),
                    old(self).spec_goal_bodies_count(),
                    current,
                ) && forall|k: int| 0 <= k < n && (#[trigger] next@[k]).bodies_count
                    == old(self).spec_goal_bodies_count() ==> final(self).has_move(
                    old(self).spec_nodes()[current as int].0,
                    next@[k].canonical@,
                ),
    {
        assert(next@.take(0) =~= Seq::<NextWorld>::empty());
        if self.goal_node.is_some() {
            return true;
        }
        let mut i: usize = 0;
        while i < next.len()
            invariant
                self.wf(),
                !self.found(),
                forall|h: usize| #[trigger] self.was_taken(h) == old(self).was_taken(h),
                forall|h: usize| #[trigger] self.was_expanded(h) == old(self).was_expanded(h),
                forall|h: usize| old(self).was_queued(h) ==> #[trigger] self.was_queued(h),
                self.step_view() == after_next_worlds(
                    old(self).step_view(),
                    next@.take(i as int),
                    old(self).spec_goal_bodies_count(),
                    current,
                ),
                forall|k: int| 0 <= k < i && (#[trigger] next@[k]).bodies_count
                    == old(self).spec_goal_bodies_count() ==> self.has_move(
                    old(self).spec_nodes()[current as int].0,
                    next@[k].canonical@,
                ),
                i <= next@.len(),
                forall|k: int| 0 <= k < next@.len() ==> well_formed_next(#[trigger] next@[k]),
                self.spec_goal() == old(self).spec_goal(),
                self.spec_goal_bodies_count() == old(self).spec_goal_bodies_count(),
                self.spec_roots() == old(self).spec_roots(),
                self.is_current(current),
                current < old(self).spec_nodes().len(),
                forall|u: WorldView, v: WorldView| old(self).has_move(u, v) ==> self.has_move(u, v),
                self.spec_nodes().len() >= old(self).spec_nodes().len(),
                forall|k: int| 0 <= k < old(self).spec_nodes().len() ==> self.spec_nodes()[k] == old(self).spec_nodes()[k],
                forall|k: int| old(self).spec_nodes().len() <= k < self.spec_nodes().len()
                    ==> (#[trigger] self.spec_nodes()[k]).1 == Some(current),
                forall|k: int| 0 <= k < i && (#[trigger] next@[k]).bodies_count
                    == old(self).spec_goal_bodies_count() ==> self.visited(next@[k].canonical@),
            decreases next@.len() - i,
        {
            let ghost before = self.spec_nodes();
            let found = self.add_next_world(current, &next[i]);
            proof {
                assert(next@.take(i + 1).drop_last() =~= next@.take(i as int));
                assert(next@.take(i + 1).last() == next@[i as int]);
                assert(self.step_view() == after_next_worlds(
                    old(self).step_view(),
                    next@.take(i + 1),
                    old(self).spec_goal_bodies_count(),
                    current,
                ));
                assert forall|k: int| 0 <= k < i + 1 && (#[trigger] next@[k]).bodies_count
                    == old(self).spec_goal_bodies_count() implies self.visited(next@[k].canonical@) by {
                    if k < i {
                        lemma_has_world_grows(before, self.spec_nodes(), next@[k].canonical@);
                    }
                }
            }
            if found {
                return true;
            }
            i = i + 1;
        }
        assert(next@.take(next@.len() as int) =~= next@);
        let ghost pre = self.step_view();
        let ghost pre_self = *self;
        proof {
            self.expanded = Ghost(self.expanded@.insert(current));
            assert(self.spec_nodes() == pre_self.spec_nodes());
            assert(self.spec_pending() == pre_self.spec_pending());
            assert(self.step_view() == pre);
            Planner::lemma_moves_kept(pre_self, *self);
            assert(self.taken == pre_self.taken && self.queued == pre_self.queued);
            assert(forall|h: usize| #[trigger] self.was_taken(h) == pre_self.was_taken(h));
            assert(forall|h: usize| #[trigger] self.was_queued(h) == pre_self.was_queued(h));
            assert forall|h: usize| #[trigger] self.was_expanded(h) <==> old(self).was_expanded(h) || h == current by {
                assert(pre_self.was_expanded(h) == old(self).was_expanded(h));
            }
            assert(next@.len() == next@.len() && self.step_view() == after_next_worlds(
                old(self).step_view(),
                next@.take(next@.len() as int),
                old(self).spec_goal_bodies_count(),
                current,
            ));
        }
        false
    }

    /// The path found: from a start variant to the goal, each world the
    /// parent of the next. Fails with `PathNotFound` while the goal is not
    /// visited.
    pub fn path_to_goal(&self) -> (r: Result<Vec<VoxelWorld>, Error>)
        requires
            self.wf(),
        ensures
            r is Ok <==> self.found(),
            r matches Err(e) ==> e == Error::PathNotFound,
            r matches Ok(p) ==> {
                let ws = p@.map_values(|w: VoxelWorld| w@);
                &&& is_chain(self.spec_nodes(), ws)
                &&& ws.last() == self.spec_goal()
                &&& self.spec_roots().contains(ws[0])
            },
    {
        match self.goal_node {
            None => Err(Error::PathNotFound),
            Some(g) => {
                let ghost nodes = self.spec_nodes();
                let mut path: Vec<VoxelWorld> = Vec::new();
                proof { self.lemma_nodes_index(g as int); }
                path.push(self.nodes[g].world.copy());
                let ghost mut idx: Seq<usize> = seq![g];
                let mut cur: usize = g;
                proof {
                    assert(path@.map_values(|w: VoxelWorld| w@) =~= seq![nodes[g as int].0]);
                }
                while self.nodes[cur].parent.is_some()
                    invariant
                        self.wf(),
                        nodes == self.spec_nodes(),
                        nodes.len() == self.nodes@.len(),
                        cur < nodes.len(),
                        idx.len() == path@.len(),
                        idx.len() > 0,
                        idx[0] == cur,
                        idx.last() == g,
                        nodes[g as int].0 == self.spec_goal(),
                        forall|k: int| 0 <= k < idx.len() ==> #[trigger] idx[k] < nodes.len(),
                        forall|k: int| 0 <= k < idx.len() ==> nodes[#[trigger] idx[k] as int].0 == path@[k]@,
                        forall|k: int| 0 <= k < idx.len() - 1 ==> nodes[#[trigger] idx[k + 1] as int].1 == Some(idx[k]),
                    decreases cur,
                {
                    proof { self.lemma_nodes_index(cur as int); }
                    let p = self.nodes[cur].parent.unwrap();
                    assert(p < cur);
                    proof { self.lemma_nodes_index(p as int); }
                    let w = self.nodes[p].world.copy();
                    let ghost old_path = path@;
                    let ghost old_idx = idx;
                    path.insert(0, w);
                    proof {
                        assert(nodes[cur as int].1 == Some(p));
                        idx = seq![p].add(idx);
                        assert(path@ =~= seq![w].add(old_path));
                        assert forall|k: int| 0 <= k < idx.len() - 1 implies nodes[#[trigger] idx[k + 1] as int].1 == Some(idx[k]) by {
                            if k > 0 {
                                assert(idx[k + 1] == old_idx[k]);
                                assert(idx[k] == old_idx[k - 1]);
                                assert(nodes[old_idx[(k - 1) + 1] as int].1 == Some(old_idx[k - 1]));
                            } else {
                                assert(idx[1] == old_idx[0]);
                                assert(idx[0] == p);
                            }
                        }
                        assert forall|k: int| 0 <= k < idx.len() implies nodes[#[trigger] idx[k] as int].0 == path@[k]@ by {
                            if k > 0 {
                                assert(idx[k] == old_idx[k - 1]);
                                assert(path@[k] == old_path[k - 1]);
                            }
                        }
                    }
                    cur = p;
                }
                proof {
                    self.lemma_nodes_index(cur as int);
                    let ws = path@.map_values(|w: VoxelWorld| w@);
                    assert(is_chain_by(nodes, ws, idx));
                    assert(ws.last() == path@[path@.len() - 1]@);
                }
                Ok(path)
            }
        }
    }
}

proof fn lemma_chain_suffix(
    nodes: Seq<(WorldView, Option<usize>)>,
    a: Seq<WorldView>,
    b: Seq<WorldView>,
    ia: Seq<usize>,
    ib: Seq<usize>,
    k: int,
)
    requires
        is_chain_by(nodes, a, ia),
        is_chain_by(nodes, b, ib),
        ia.last() == ib.last(),
        0 <= k < ia.len(),
        k < ib.len(),
    ensures
        ia[ia.len() - 1 - k] == ib[ib.len() - 1 - k],
    decreases k,
{
    if k > 0 {
        lemma_chain_suffix(nodes, a, b, ia, ib, k - 1);
        let x = ia.len() - 1 - k;
        let y = ib.len() - 1 - k;
        assert(nodes[ia[x + 1] as int].1 == Some(ia[x]));
        assert(nodes[ib[y + 1] as int].1 == Some(ib[y]));
    }
}

impl Planner {
    /// The path to a visited world is determined by the planner's state: two
    /// chains of visited worlds ending at the same world are equal.
    pub proof fn lemma_path_determined(&self, a: Seq<WorldView>, b: Seq<WorldView>)
        requires
            self.wf(),
            is_chain(self.spec_nodes(), a),
            is_chain(self.spec_nodes(), b),
            a.last() == b.last(),
        ensures
            a == b,
    {
        let nodes = self.spec_nodes();
        let ia = choose|ia: Seq<usize>| is_chain_by(nodes, a, ia);
        let ib = choose|ib: Seq<usize>| is_chain_by(nodes, b, ib);
        assert(nodes[ia.last() as int].0 == a.last());
        assert(nodes[ib.last() as int].0 == b.last());
        assert(ia.last() == ib.last()) by {
            if ia.last() != ib.last() {
                if ia.last() < ib.last() {
                    assert(nodes[ia.last() as int].0 != nodes[ib.last() as int].0);
                } else {
                    assert(nodes[ib.last() as int].0 != nodes[ia.last() as int].0);
                }
            }
        }
        if ia.len() < ib.len() {
            lemma_chain_suffix(nodes, a, b, ia, ib, ia.len() - 1);
            let y = ib.len() - ia.len();
            assert(nodes[ib[(y - 1) + 1] as int].1 == Some(ib[y - 1]));
            assert(false);
        } else if ib.len() < ia.len() {
            lemma_chain_suffix(nodes, a, b, ia, ib, ib.len() - 1);
            let x = ia.len() - ib.len();
            assert(nodes[ia[(x - 1) + 1] as int].1 == Some(ia[x - 1]));
            assert(false);
        }
        assert forall|k: int| 0 <= k < a.len() implies a[k] == b[k] by {
            lemma_chain_suffix(nodes, a, b, ia, ib, a.len() - 1 - k);
        }
        assert(a =~= b);
    }
}

impl Planner {
    proof fn lemma_same_world_same_index(&self, a: int, b: int)
        requires
            self.wf(),
            0 <= a < self.spec_nodes().len(),
            0 <= b < self.spec_nodes().len(),
            self.spec_nodes()[a].0 == self.spec_nodes()[b].0,
        ensures
            a == b,
    {
        if a < b {
            assert(self.spec_nodes()[a].0 != self.spec_nodes()[b].0);
        } else if b < a {
            assert(self.spec_nodes()[b].0 != self.spec_nodes()[a].0);
        }
    }

    /// Every queued world below the layer of the world taken last was taken
    /// for expansion: breadth-first order leaves none behind.
    pub proof fn lemma_lower_layers_taken(&self, h: usize)
        requires
            self.wf(),
            self.was_queued(h),
            self.depth(h) < self.level(),
        ensures
            self.was_taken(h),
    {
        if self.spec_pending().contains(h) {
            let k = choose|k: int| 0 <= k < self.spec_pending().len() && self.spec_pending()[k] == h;
            assert(self.level@ <= self.depths@[self.spec_pending()[k] as int]);
        }
    }

    /// Once nothing is pending, every world ever queued was taken for
    /// expansion: the search has run through the reachable canonical worlds.
    pub proof fn lemma_exhausted(&self)
        requires
            self.wf(),
            self.spec_pending().len() == 0,
        ensures
            forall|h: usize| self.was_queued(h) ==> self.was_taken(h),
    {
    }

    /// Along a chain of visited worlds, the depth of the world at position
    /// `k` is `k`: depth counts the moves from a start world.
    pub proof fn lemma_chain_depth(&self, path: Seq<WorldView>, idx: Seq<usize>, k: int)
        requires
            self.wf(),
            is_chain_by(self.spec_nodes(), path, idx),
            0 <= k < idx.len(),
        ensures
            self.depth(idx[k]) == k,
        decreases k,
    {
        let nodes = self.spec_nodes();
        assert(idx[k] < nodes.len());
        if k > 0 {
            self.lemma_chain_depth(path, idx, k - 1);
            assert(nodes[idx[(k - 1) + 1] as int].1 == Some(idx[k - 1]));
        } else {
            assert(nodes[idx[0] as int].1 is None);
        }
    }

    proof fn lemma_moves_depth(&self, ws: Seq<WorldView>, i: int) -> (j: int)
        requires
            self.wf(),
            ws.len() > 0,
            self.is_start(ws[0]),
            forall|k: int| 0 <= k < ws.len() - 1 ==> #[trigger] self.has_move(ws[k], ws[k + 1]),
            0 <= i < ws.len(),
        ensures
            0 <= j < self.spec_nodes().len(),
            self.spec_nodes()[j].0 == ws[i],
            self.depths@[j] <= i,
        decreases i,
    {
        let nodes = self.spec_nodes();
        if i == 0 {
            let j = choose|j: int| 0 <= j < nodes.len() && (#[trigger] nodes[j]).0 == ws[0] && nodes[j].1 is None;
            j
        } else {
            let j0 = self.lemma_moves_depth(ws, i - 1);
            assert(self.has_move(ws[i - 1], ws[(i - 1) + 1]));
            let (c, h) = choose|c: usize, h: usize|
                #[trigger] self.moves@.contains((c, h)) && c < nodes.len() && h < nodes.len()
                    && nodes[c as int].0 == ws[i - 1] && nodes[h as int].0 == ws[i];
            self.lemma_same_world_same_index(c as int, j0);
            h as int
        }
    }

    /// Breadth-first order: the path that leads to a visited world is never
    /// longer than a sequence of recorded moves from a start world to it.
    /// A move is recorded for each non-colliding world handed to `expand` or
    /// `add_next_world`.
    pub proof fn lemma_path_is_shortest(&self, ws: Seq<WorldView>, path: Seq<WorldView>)
        requires
            self.wf(),
            ws.len() > 0,
            self.is_start(ws[0]),
            forall|k: int| 0 <= k < ws.len() - 1 ==> #[trigger] self.has_move(ws[k], ws[k + 1]),
            is_chain(self.spec_nodes(), path),
            path.last() == ws.last(),
        ensures
            path.len() <= ws.len(),
    {
        let nodes = self.spec_nodes();
        let idx = choose|idx: Seq<usize>| is_chain_by(nodes, path, idx);
        let j = self.lemma_moves_depth(ws, ws.len() - 1);
        let last = idx.len() - 1;
        self.lemma_chain_depth(path, idx, last);
        assert(idx[last] < nodes.len());
        assert(nodes[idx[last] as int].0 == path[last]);
        self.lemma_same_world_same_index(idx[last] as int, j);
    }
}

impl Stats {
    pub open spec fn default_spec() -> Stats {
        Stats {
            true_cuts: 0,
            false_cuts: 0,
            all_worlds: 0,
            added_worlds: 0,
            next_worlds_before_add: 0,
            collided_worlds: 0,
            steps_computed: 0,
        }
    }

    /// All counters at zero.
    pub fn new() -> (r: Stats)
        ensures
            r == Stats::default_spec(),
    {
        Stats {
            true_cuts: 0,
            false_cuts: 0,
            all_worlds: 0,
            added_worlds: 0,
            next_worlds_before_add: 0,
            collided_worlds: 0,
            steps_computed: 0,
        }
    }
}

} // verus!
