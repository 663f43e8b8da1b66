//! What runs once per tick: the rebuild of the tree from the rectangles that
//! the tracked objects have now, and what a drawing of the tree needs.
use std::collections::HashMap;
use vstd::prelude::*;

pub mod laws;

use laws::{lemma_rebuilt_keeps, lemma_rebuilt_only_living, lemma_rebuilt_shape};

use crate::rect::Rect;
use crate::tree::laws::{regular, within_capacity};
use crate::tree::node::{
    names, EntityHandle, Member, NodeState, NodeView, QuadTreeConfig, QuadTreeNode,
};
use crate::tree::QuadTree;

verus! {

broadcast use vstd::std_specs::hash::group_hash_axioms;

/// The rectangle that each living object has at this tick, by the object's
/// handle. An object that was destroyed has no entry.
pub struct EntityStore {
    rects: HashMap<u64, Rect>,
}

impl View for EntityStore {
    type V = Map<u64, Rect>;

    closed spec fn view(&self) -> Map<u64, Rect> {
        self.rects@
    }
}

impl EntityStore {
    /// A store without objects.
    pub fn new() -> (store: EntityStore)
        ensures
            store@ == Map::<u64, Rect>::empty(),
    {
        EntityStore { rects: HashMap::new() }
    }

    /// Records `rect` as the rectangle of `entity`, in place of an earlier
    /// one.
    pub fn insert(&mut self, entity: EntityHandle, rect: Rect)
        ensures
            final(self)@ == old(self)@.insert(entity.id, rect),
    {
        self.rects.insert(entity.id, rect);
    }

    /// Forgets `entity`: from now on it counts as destroyed.
    pub fn remove(&mut self, entity: &EntityHandle)
        ensures
            final(self)@ == old(self)@.remove(entity.id),
    {
        self.rects.remove(&entity.id);
    }

    /// The rectangle of `entity` at this tick, or nothing where the object
    /// was destroyed or never recorded.
    pub fn get(&self, entity: &EntityHandle) -> (found: Option<Rect>)
        ensures
            found == if self@.contains_key(entity.id) {
                Some(self@[entity.id])
            } else {
                None
            },
    {
        match self.rects.get(&entity.id) {
            Some(rect) => Some(*rect),
            None => None,
        }
    }
}

/// `displaced` with `m` at its end, unless it names `m.entity` already.
pub open spec fn noted(displaced: Seq<Member>, m: Member) -> Seq<Member> {
    if names(displaced, m.entity) {
        displaced
    } else {
        displaced.push(m)
    }
}

/// The members that stay in a leaf over `bound`: those whose object lives
/// and whose rectangle of this tick `bound` contains, each with that
/// rectangle.
pub open spec fn kept(bound: Rect, members: Seq<Member>, store: Map<u64, Rect>) -> Seq<Member>
    decreases members.len(),
{
    if members.len() == 0 {
        Seq::empty()
    } else {
        let m = members.last();
        let rest = kept(bound, members.drop_last(), store);
        if store.contains_key(m.entity.id) && bound.contains(&store[m.entity.id]) {
            rest.push(Member { entity: m.entity, rect: store[m.entity.id] })
        } else {
            rest
        }
    }
}

/// `displaced` after a leaf over `bound` was swept: each member whose object
/// lives and has left `bound` is noted with its rectangle of this tick.
pub open spec fn evicted(
    bound: Rect,
    members: Seq<Member>,
    store: Map<u64, Rect>,
    displaced: Seq<Member>,
) -> Seq<Member>
    decreases members.len(),
{
    if members.len() == 0 {
        displaced
    } else {
        let m = members.last();
        let before = evicted(bound, members.drop_last(), store, displaced);
        if store.contains_key(m.entity.id) && !bound.contains(&store[m.entity.id]) {
            noted(before, Member { entity: m.entity, rect: store[m.entity.id] })
        } else {
            before
        }
    }
}

/// The tree after the removal traversal: every leaf keeps what `kept` says.
pub open spec fn pruned(node: NodeView, store: Map<u64, Rect>) -> NodeView
    decreases node,
{
    match node {
        NodeView::Leaf { bound, depth, members } => NodeView::Leaf {
            bound,
            depth,
            members: kept(bound, members, store),
        },
        NodeView::Branch { bound, depth, top_right, top_left, bottom_left, bottom_right } => {
            NodeView::Branch {
                bound,
                depth,
                top_right: Box::new(pruned(*top_right, store)),
                top_left: Box::new(pruned(*top_left, store)),
                bottom_left: Box::new(pruned(*bottom_left, store)),
                bottom_right: Box::new(pruned(*bottom_right, store)),
            }
        },
    }
}

/// `displaced` after the removal traversal of `node`, which sweeps the
/// leaves in the order of the quadrants.
pub open spec fn pruned_out(node: NodeView, store: Map<u64, Rect>, displaced: Seq<Member>) -> Seq<
    Member,
>
    decreases node,
{
    match node {
        NodeView::Leaf { bound, members, .. } => evicted(bound, members, store, displaced),
        NodeView::Branch { top_right, top_left, bottom_left, bottom_right, .. } => {
            pruned_out(
                *bottom_right,
                store,
                pruned_out(
                    *bottom_left,
                    store,
                    pruned_out(*top_left, store, pruned_out(*top_right, store, displaced)),
                ),
            )
        },
    }
}

/// `displaced` after the handles `entities` were released from a collapsed
/// subtree: each whose object lives is noted with its rectangle of this tick.
pub open spec fn released(
    entities: Seq<EntityHandle>,
    store: Map<u64, Rect>,
    displaced: Seq<Member>,
) -> Seq<Member>
    decreases entities.len(),
{
    if entities.len() == 0 {
        displaced
    } else {
        let e = entities.last();
        let before = released(entities.drop_last(), store, displaced);
        if store.contains_key(e.id) {
            noted(before, Member { entity: e, rect: store[e.id] })
        } else {
            before
        }
    }
}

/// The tree after the merge traversal: from the root down, the first branch
/// on each path that holds at most `config.max_entities` handles, counted as
/// `entities` lists them, has become an empty leaf.
pub open spec fn merged(node: NodeView, config: QuadTreeConfig) -> NodeView
    decreases node,
{
    match node {
        NodeView::Leaf { .. } => node,
        NodeView::Branch { bound, depth, top_right, top_left, bottom_left, bottom_right } => {
            if node.entities().len() <= config.max_entities {
                node.clear()
            } else {
                NodeView::Branch {
                    bound,
                    depth,
                    top_right: Box::new(merged(*top_right, config)),
                    top_left: Box::new(merged(*top_left, config)),
                    bottom_left: Box::new(merged(*bottom_left, config)),
                    bottom_right: Box::new(merged(*bottom_right, config)),
                }
            }
        },
    }
}

/// `displaced` after the merge traversal of `node`.
pub open spec fn merged_out(
    node: NodeView,
    config: QuadTreeConfig,
    store: Map<u64, Rect>,
    displaced: Seq<Member>,
) -> Seq<Member>
    decreases node,
{
    match node {
        NodeView::Leaf { .. } => displaced,
        NodeView::Branch { top_right, top_left, bottom_left, bottom_right, .. } => {
            if node.entities().len() <= config.max_entities {
                released(node.entities(), store, displaced)
            } else {
                merged_out(
                    *bottom_right,
                    config,
                    store,
                    merged_out(
                        *bottom_left,
                        config,
                        store,
                        merged_out(
                            *top_left,
                            config,
                            store,
                            merged_out(*top_right, config, store, displaced),
                        ),
                    ),
                )
            }
        },
    }
}

/// The tree after the members of `displaced` were inserted, last first.
pub open spec fn reinserted(node: NodeView, displaced: Seq<Member>, config: QuadTreeConfig)
    -> NodeView
    decreases displaced.len(),
{
    if displaced.len() == 0 {
        node
    } else {
        reinserted(node.insert(displaced.last(), config), displaced.drop_last(), config)
    }
}

/// The members that one rebuild takes out of `node` and inserts again.
pub open spec fn displaced_by(node: NodeView, store: Map<u64, Rect>, config: QuadTreeConfig)
    -> Seq<Member> {
    merged_out(pruned(node, store), config, store, pruned_out(node, store, Seq::empty()))
}

/// The tree after one rebuild: removal, merge and reinsertion.
pub open spec fn rebuilt(node: NodeView, store: Map<u64, Rect>, config: QuadTreeConfig)
    -> NodeView {
    reinserted(merged(pruned(node, store), config), displaced_by(node, store, config), config)
}

/// Notes `m` in `displaced` unless its handle is there already.
pub fn note(displaced: &mut Vec<Member>, m: Member)
    ensures
        final(displaced)@ == noted(old(displaced)@, m),
{
    let mut i: usize = 0;
    while i < displaced.len()
        invariant
            i <= displaced.len(),
            forall|j: int| 0 <= j < i ==> (#[trigger] displaced@[j]).entity != m.entity,
        decreases displaced.len() - i,
    {
        if displaced[i].entity.id == m.entity.id {
            return ;
        }
        i += 1;
    }
    displaced.push(m);
}

/// Sweeps one leaf over `bound`: a member whose object is gone is dropped, one
/// whose rectangle has left `bound` is dropped and noted in `re_insert`, and
/// one that stays takes its rectangle of this tick.
pub fn sweep_leaf(
    bound: &Rect,
    members: &mut Vec<Member>,
    store: &EntityStore,
    re_insert: &mut Vec<Member>,
)
    ensures
        final(members)@ == kept(*bound, old(members)@, store@),
        final(re_insert)@ == evicted(*bound, old(members)@, store@, old(re_insert)@),
{
    let ghost initial = members@;
    let ghost before = re_insert@;
    let ghost mut done: int = 0;
    let mut i: usize = 0;
    proof {
        assert(initial.take(0) =~= Seq::<Member>::empty());
        assert(initial.skip(0) =~= initial);
    }
    while i < members.len()
        invariant
            0 <= done <= initial.len(),
            i == kept(*bound, initial.take(done), store@).len(),
            members@ == kept(*bound, initial.take(done), store@) + initial.skip(done),
            re_insert@ == evicted(*bound, initial.take(done), store@, before),
        decreases initial.len() - done,
    {
        let member = members[i];
        proof {
            assert(member == initial[done]);
            assert(initial.take(done + 1).drop_last() =~= initial.take(done));
            assert(initial.take(done + 1).last() == initial[done]);
        }
        match store.get(&member.entity) {
            Some(rect) => {
                if !bound.contains(&rect) {
                    note(re_insert, Member { entity: member.entity, rect });
                    members.remove(i);
                } else {
                    members.set(i, Member { entity: member.entity, rect });
                    i += 1;
                }
            },
            None => {
                members.remove(i);
            },
        }
        proof {
            done = done + 1;
            assert(members@ =~= kept(*bound, initial.take(done), store@) + initial.skip(done));
        }
    }
    proof {
        assert(initial.take(done) =~= initial);
    }
}

/// The removal traversal: sweeps every leaf under `node`.
pub fn update_node(node: &mut QuadTreeNode, store: &EntityStore, re_insert: &mut Vec<Member>)
    ensures
        final(node)@ == pruned(old(node)@, store@),
        final(re_insert)@ == pruned_out(old(node)@, store@, old(re_insert)@),
    decreases *old(node),
{
    let bound = node.bound;
    match &mut node.state {
        NodeState::Leaf(members) => {
            sweep_leaf(&bound, members, store, re_insert);
        },
        NodeState::Branch(children) => {
            update_node(&mut children.top_right, store, re_insert);
            update_node(&mut children.top_left, store, re_insert);
            update_node(&mut children.bottom_left, store, re_insert);
            update_node(&mut children.bottom_right, store, re_insert);
        },
    }
}

/// Notes in `re_insert` each of `entities` whose object lives.
pub fn release(entities: &Vec<EntityHandle>, store: &EntityStore, re_insert: &mut Vec<Member>)
    ensures
        final(re_insert)@ == released(entities@, store@, old(re_insert)@),
{
    let ghost before = re_insert@;
    let mut i: usize = 0;
    proof {
        assert(entities@.take(0) =~= Seq::<EntityHandle>::empty());
    }
    while i < entities.len()
        invariant
            i <= entities.len(),
            re_insert@ == released(entities@.take(i as int), store@, before),
        decreases entities.len() - i,
    {
        let entity = entities[i];
        proof {
            assert(entities@.take(i + 1).drop_last() =~= entities@.take(i as int));
            assert(entities@.take(i + 1).last() == entity);
        }
        match store.get(&entity) {
            Some(rect) => {
                note(re_insert, Member { entity, rect });
            },
            None => {},
        }
        i += 1;
    }
    proof {
        assert(entities@.take(i as int) =~= entities@);
    }
}

/// The merge traversal: a branch that holds no more handles than a leaf may
/// becomes an empty leaf and its handles are noted in `re_insert`; below
/// any other branch the traversal goes on.
pub fn merge_nodes(
    node: &mut QuadTreeNode,
    config: &QuadTreeConfig,
    store: &EntityStore,
    re_insert: &mut Vec<Member>,
)
    ensures
        final(node)@ == merged(old(node)@, *config),
        final(re_insert)@ == merged_out(old(node)@, *config, store@, old(re_insert)@),
    decreases *old(node),
{
    let entities = node.get_all_entities();
    if node.is_leaf() {
        return ;
    }
    if entities.len() <= config.max_entities as usize {
        node.clear();
        release(&entities, store, re_insert);
    } else {
        match &mut node.state {
            NodeState::Leaf(_) => {},
            NodeState::Branch(children) => {
                merge_nodes(&mut children.top_right, config, store, re_insert);
                merge_nodes(&mut children.top_left, config, store, re_insert);
                merge_nodes(&mut children.bottom_left, config, store, re_insert);
                merge_nodes(&mut children.bottom_right, config, store, re_insert);
            },
        }
    }
}

/// Rebuilds the tree for this tick: removes what left its leaf or was
/// destroyed, collapses the branches that hold too little, and inserts from
/// the root, last first, what the first two steps displaced.
pub fn update_quadtree(quad_tree: &mut QuadTree, store: &EntityStore)
    ensures
        final(quad_tree).config == old(quad_tree).config,
        final(quad_tree).root@ == rebuilt(old(quad_tree).root@, store@, old(quad_tree).config),
        within_capacity(old(quad_tree).root@, old(quad_tree).config) ==> within_capacity(
            final(quad_tree).root@,
            old(quad_tree).config,
        ),
        regular(old(quad_tree).root@, old(quad_tree).config) ==> regular(
            final(quad_tree).root@,
            old(quad_tree).config,
        ),
        forall|e: EntityHandle| #[trigger]
            final(quad_tree).root@.entities().contains(e) ==> store@.contains_key(e.id) && old(
                quad_tree,
            ).root@.entities().contains(e),
        regular(old(quad_tree).root@, old(quad_tree).config) ==> forall|e: EntityHandle|
            {
                &&& #[trigger] old(quad_tree).root@.entities().contains(e)
                &&& store@.contains_key(e.id)
                &&& old(quad_tree).root.bound.intersects(&store@[e.id])
            } ==> final(quad_tree).root@.entities().contains(e),
{
    proof {
        let before = quad_tree.root@;
        lemma_rebuilt_shape(before, store@, quad_tree.config);
        assert forall|e: EntityHandle| #[trigger]
            rebuilt(before, store@, quad_tree.config).entities().contains(
                e,
            ) implies store@.contains_key(e.id) && before.entities().contains(e) by {
            lemma_rebuilt_only_living(before, store@, quad_tree.config, e);
        }
        if regular(before, quad_tree.config) {
            assert forall|e: EntityHandle|
                {
                    &&& #[trigger] before.entities().contains(e)
                    &&& store@.contains_key(e.id)
                    &&& before.bound().intersects(&store@[e.id])
                } implies rebuilt(before, store@, quad_tree.config).entities().contains(e) by {
                lemma_rebuilt_keeps(before, store@, quad_tree.config, e);
            }
        }
    }
    let mut re_insert: Vec<Member> = Vec::new();
    let config = quad_tree.config;

    update_node(&mut quad_tree.root, store, &mut re_insert);
    merge_nodes(&mut quad_tree.root, &config, store, &mut re_insert);

    let ghost all = re_insert@;
    let ghost start = quad_tree.root@;
    let mut i: usize = re_insert.len();
    proof {
        assert(all.take(i as int) =~= all);
    }
    while i > 0
        invariant
            i <= re_insert.len(),
            all == re_insert@,
            quad_tree.config == config,
            reinserted(quad_tree.root@, all.take(i as int), config) == reinserted(
                start,
                all,
                config,
            ),
        decreases i,
    {
        i -= 1;
        let member = re_insert[i];
        proof {
            assert(all.take(i + 1).drop_last() =~= all.take(i as int));
            assert(all.take(i + 1).last() == member);
        }
        quad_tree.root.insert(&member.entity, &member.rect, &config);
    }
}

/// What an object that moves along one axis must do to stay inside.
#[derive(Clone, Copy, Debug, PartialEq, Eq, Structural)]
pub enum Heading {
    /// Go on as it does.
    Keep,
    /// Head towards greater coordinates.
    Forward,
    /// Head towards lesser coordinates.
    Backward,
}

/// What an object must do along each axis.
#[derive(Clone, Copy, Debug, PartialEq, Eq, Structural)]
pub struct Bounce {
    pub x: Heading,
    pub y: Heading,
}

/// The heading along one axis of an object that reaches from `low` to
/// `high` inside a root that reaches from `root_low` to `root_high`: forward
/// where it sticks out below, backward where it sticks out above only.
pub open spec fn heading_of(low: int, high: int, root_low: int, root_high: int) -> Heading {
    if low < root_low {
        Heading::Forward
    } else if high > root_high {
        Heading::Backward
    } else {
        Heading::Keep
    }
}

/// Tells an object with the rectangle `rect` how to head so that it comes
/// back into `root`; it keeps its way on both axes exactly when `root`
/// contains it.
pub fn check_collision_with_root(rect: &Rect, root: &Rect) -> (bounce: Bounce)
    ensures
        bounce.x == heading_of(rect.min_x(), rect.max_x(), root.min_x(), root.max_x()),
        bounce.y == heading_of(rect.min_y(), rect.max_y(), root.min_y(), root.max_y()),
        (bounce.x == Heading::Keep && bounce.y == Heading::Keep) == root.contains(rect),
{
    let low = rect.min();
    let high = rect.max();
    let root_low = root.min();
    let root_high = root.max();
    let x = if low.x < root_low.x {
        Heading::Forward
    } else if high.x > root_high.x {
        Heading::Backward
    } else {
        Heading::Keep
    };
    let y = if low.y < root_low.y {
        Heading::Forward
    } else if high.y > root_high.y {
        Heading::Backward
    } else {
        Heading::Keep
    };
    Bounce { x, y }
}

/// The bounds of `node` and of every node below it are added to `bounds`,
/// each parent before its children.
pub fn draw_node(node: &QuadTreeNode, bounds: &mut Vec<Rect>)
    ensures
        final(bounds)@ == old(bounds)@ + node@.bounds(),
    decreases node,
{
    bounds.push(node.bound);
    match &node.state {
        NodeState::Leaf(_) => {},
        NodeState::Branch(children) => {
            draw_node(&children.top_right, bounds);
            draw_node(&children.top_left, bounds);
            draw_node(&children.bottom_left, bounds);
            draw_node(&children.bottom_right, bounds);
        },
    }
}

/// The bound of every node of the tree, in the order in which a drawing
/// visits them: the root first, each parent before its children.
pub fn draw_quadtree_nodes(quad_tree: &QuadTree) -> (bounds: Vec<Rect>)
    ensures
        bounds@ == quad_tree.root@.bounds(),
{
    let mut bounds: Vec<Rect> = Vec::new();
    draw_node(&quad_tree.root, &mut bounds);
    bounds
}

} // verus!
