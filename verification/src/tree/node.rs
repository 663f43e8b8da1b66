//! Nodes of the tree: a leaf holds members, a branch holds four children.
use vstd::prelude::*;

use super::laws::{
    divisible, lemma_fan_out_regular, lemma_fan_out_within_capacity, lemma_insert_adds_only,
    lemma_insert_keeps, lemma_insert_regular, lemma_insert_within_capacity, regular,
    within_capacity,
};
use crate::rect::{Quadrant, Rect};

verus! {

/// The bit that stands for the top right quadrant in an index.
pub const TOP_RIGHT: u8 = 0b0001;

/// The bit that stands for the top left quadrant in an index.
pub const TOP_LEFT: u8 = 0b0010;

/// The bit that stands for the bottom left quadrant in an index.
pub const BOTTOM_LEFT: u8 = 0b0100;

/// The bit that stands for the bottom right quadrant in an index.
pub const BOTTOM_RIGHT: u8 = 0b1000;

/// The identifier under which the outside world knows a tracked object. The
/// tree compares handles and never looks inside one.
#[derive(Clone, Copy, Debug, PartialEq, Eq, Hash, Structural)]
pub struct EntityHandle {
    pub id: u64,
}

/// A handle together with the rectangle it was last seen with. The rectangle
/// decides where the handle goes when its leaf is split.
#[derive(Clone, Copy, Debug, PartialEq, Eq, Structural)]
pub struct Member {
    pub entity: EntityHandle,
    pub rect: Rect,
}

/// The four children of a branch, each named by its quadrant.
#[derive(Debug, PartialEq)]
pub struct Quadrants {
    pub top_right: Box<QuadTreeNode>,
    pub top_left: Box<QuadTreeNode>,
    pub bottom_left: Box<QuadTreeNode>,
    pub bottom_right: Box<QuadTreeNode>,
}

/// What a node holds: a leaf its members, a branch its four children.
#[derive(Debug, PartialEq)]
pub enum NodeState {
    Leaf(Vec<Member>),
    Branch(Quadrants),
}

/// A node: the part of the plane it stands for, how deep it lies below the
/// root, and what it holds.
#[derive(Debug, PartialEq)]
pub struct QuadTreeNode {
    pub bound: Rect,
    pub state: NodeState,
    pub depth: u8,
}

/// What a tree is made with: the bound of its root, the depth below which
/// no leaf is split, and the number of members above which a leaf is split.
#[derive(Clone, Copy, Debug)]
pub struct QuadTreeConfig {
    pub rect: Rect,
    pub max_depth: u8,
    pub max_entities: u8,
}

/// What a node is, as a mathematical value.
pub enum NodeView {
    Leaf { bound: Rect, depth: u8, members: Seq<Member> },
    Branch {
        bound: Rect,
        depth: u8,
        top_right: Box<NodeView>,
        top_left: Box<NodeView>,
        bottom_left: Box<NodeView>,
        bottom_right: Box<NodeView>,
    },
}

/// The handles of `members`, in their order.
pub open spec fn handles(members: Seq<Member>) -> Seq<EntityHandle> {
    members.map_values(|m: Member| m.entity)
}

/// Whether `members` holds a member with the handle `entity`.
pub open spec fn names(members: Seq<Member>, entity: EntityHandle) -> bool {
    exists|i: int| 0 <= i < members.len() && #[trigger] members[i].entity == entity
}

/// Whether `rect` belongs to the quadrant `q` of `bound`: it intersects
/// `bound` and reaches the side of the center on which `q` lies, where
/// touching the center line counts for both sides.
pub open spec fn routes_to(bound: Rect, rect: Rect, q: Quadrant) -> bool {
    &&& bound.intersects(&rect)
    &&& match q {
        Quadrant::TopRight => rect.max_x() >= bound.center.x && rect.max_y() >= bound.center.y,
        Quadrant::TopLeft => rect.min_x() <= bound.center.x && rect.max_y() >= bound.center.y,
        Quadrant::BottomLeft => rect.min_x() <= bound.center.x && rect.min_y() <= bound.center.y,
        Quadrant::BottomRight => rect.max_x() >= bound.center.x && rect.min_y() <= bound.center.y,
    }
}

/// The quadrants of `bound` that `rect` belongs to, one bit for each.
pub open spec fn index_of(bound: Rect, rect: Rect) -> u8 {
    ((if routes_to(bound, rect, Quadrant::TopRight) {
        TOP_RIGHT
    } else {
        0u8
    }) + (if routes_to(bound, rect, Quadrant::TopLeft) {
        TOP_LEFT
    } else {
        0u8
    }) + (if routes_to(bound, rect, Quadrant::BottomLeft) {
        BOTTOM_LEFT
    } else {
        0u8
    }) + (if routes_to(bound, rect, Quadrant::BottomRight) {
        BOTTOM_RIGHT
    } else {
        0u8
    })) as u8
}

/// Those of `members` that belong to the quadrant `q` of `bound`, in their
/// order.
pub open spec fn route(bound: Rect, members: Seq<Member>, q: Quadrant) -> Seq<Member>
    decreases members.len(),
{
    if members.len() == 0 {
        Seq::empty()
    } else if routes_to(bound, members.last().rect, q) {
        route(bound, members.drop_last(), q).push(members.last())
    } else {
        route(bound, members.drop_last(), q)
    }
}

/// How many levels may still be added below a node of depth `depth`.
pub open spec fn room(depth: u8, config: QuadTreeConfig) -> nat {
    if depth < config.max_depth {
        (config.max_depth - depth) as nat
    } else {
        0
    }
}

/// The order in which the members inserted into an empty leaf have reached
/// its children once it was split: the split hands on those that filled the
/// leaf, last first, and then each later one as it came.
pub open spec fn arrival(members: Seq<Member>, config: QuadTreeConfig) -> Seq<Member> {
    members.take(config.max_entities as int).reverse() + members.skip(config.max_entities as int)
}

/// The node that an empty leaf over `bound` at `depth` becomes when
/// `members` are inserted into it one after another.
pub open spec fn grow(bound: Rect, depth: u8, members: Seq<Member>, config: QuadTreeConfig)
    -> NodeView
    decreases room(depth, config), 0nat,
{
    if members.len() <= config.max_entities || depth >= config.max_depth {
        NodeView::Leaf { bound, depth, members }
    } else {
        fan_out(bound, depth, arrival(members, config), config)
    }
}

/// A branch over `bound` at `depth` into whose four fresh children
/// `members` were inserted one after another.
pub open spec fn fan_out(bound: Rect, depth: u8, members: Seq<Member>, config: QuadTreeConfig)
    -> NodeView
    decreases room((depth + 1) as u8, config), 1nat,
{
    NodeView::Branch {
        bound,
        depth,
        top_right: Box::new(
            grow(
                bound.quadrant(Quadrant::TopRight),
                (depth + 1) as u8,
                route(bound, members, Quadrant::TopRight),
                config,
            ),
        ),
        top_left: Box::new(
            grow(
                bound.quadrant(Quadrant::TopLeft),
                (depth + 1) as u8,
                route(bound, members, Quadrant::TopLeft),
                config,
            ),
        ),
        bottom_left: Box::new(
            grow(
                bound.quadrant(Quadrant::BottomLeft),
                (depth + 1) as u8,
                route(bound, members, Quadrant::BottomLeft),
                config,
            ),
        ),
        bottom_right: Box::new(
            grow(
                bound.quadrant(Quadrant::BottomRight),
                (depth + 1) as u8,
                route(bound, members, Quadrant::BottomRight),
                config,
            ),
        ),
    }
}


impl NodeView {
    /// A leaf without members.
    pub open spec fn empty_leaf(bound: Rect, depth: u8) -> NodeView {
        NodeView::Leaf { bound, depth, members: Seq::empty() }
    }

    /// The part of the plane that the node stands for.
    pub open spec fn bound(self) -> Rect {
        match self {
            NodeView::Leaf { bound, .. } => bound,
            NodeView::Branch { bound, .. } => bound,
        }
    }

    /// How many levels the node lies below the root.
    pub open spec fn depth(self) -> u8 {
        match self {
            NodeView::Leaf { depth, .. } => depth,
            NodeView::Branch { depth, .. } => depth,
        }
    }

    /// The members that the node itself holds: those of a leaf, none for a
    /// branch.
    pub open spec fn members(self) -> Seq<Member> {
        match self {
            NodeView::Leaf { members, .. } => members,
            NodeView::Branch { .. } => Seq::empty(),
        }
    }

    /// The child in quadrant `q`; of a leaf, the leaf itself.
    pub open spec fn child(self, q: Quadrant) -> NodeView {
        match self {
            NodeView::Leaf { .. } => self,
            NodeView::Branch { top_right, top_left, bottom_left, bottom_right, .. } => match q {
                Quadrant::TopRight => *top_right,
                Quadrant::TopLeft => *top_left,
                Quadrant::BottomLeft => *bottom_left,
                Quadrant::BottomRight => *bottom_right,
            },
        }
    }

    /// Every handle under the node: a leaf's own, a branch's children's one
    /// after another. A handle held by several leaves occurs as often.
    pub open spec fn entities(self) -> Seq<EntityHandle>
        decreases self,
    {
        match self {
            NodeView::Leaf { members, .. } => handles(members),
            NodeView::Branch { top_right, top_left, bottom_left, bottom_right, .. } => {
                top_right.entities() + top_left.entities() + bottom_left.entities()
                    + bottom_right.entities()
            },
        }
    }

    /// The handles of every leaf that a search for `rect` reaches: it
    /// descends into the quadrants that `rect` belongs to and takes a leaf
    /// whole.
    pub open spec fn around(self, rect: Rect) -> Seq<EntityHandle>
        decreases self,
    {
        match self {
            NodeView::Leaf { members, .. } => handles(members),
            NodeView::Branch { bound, top_right, top_left, bottom_left, bottom_right, .. } => {
                (if routes_to(bound, rect, Quadrant::TopRight) {
                    top_right.around(rect)
                } else {
                    Seq::empty()
                }) + (if routes_to(bound, rect, Quadrant::TopLeft) {
                    top_left.around(rect)
                } else {
                    Seq::empty()
                }) + (if routes_to(bound, rect, Quadrant::BottomLeft) {
                    bottom_left.around(rect)
                } else {
                    Seq::empty()
                }) + (if routes_to(bound, rect, Quadrant::BottomRight) {
                    bottom_right.around(rect)
                } else {
                    Seq::empty()
                })
            },
        }
    }

    /// The node after `m` was inserted. A leaf takes `m` unless it is full
    /// and may still be split; a branch hands `m` to each child whose
    /// quadrant `m.rect` belongs to.
    pub open spec fn insert(self, m: Member, config: QuadTreeConfig) -> NodeView
        decreases self,
    {
        match self {
            NodeView::Leaf { bound, depth, members } => {
                if members.len() + 1 > config.max_entities && depth < config.max_depth {
                    self.split(m, config)
                } else {
                    NodeView::Leaf { bound, depth, members: members.push(m) }
                }
            },
            NodeView::Branch { bound, depth, top_right, top_left, bottom_left, bottom_right } => {
                NodeView::Branch {
                    bound,
                    depth,
                    top_right: Box::new(
                        if routes_to(bound, m.rect, Quadrant::TopRight) {
                            top_right.insert(m, config)
                        } else {
                            *top_right
                        },
                    ),
                    top_left: Box::new(
                        if routes_to(bound, m.rect, Quadrant::TopLeft) {
                            top_left.insert(m, config)
                        } else {
                            *top_left
                        },
                    ),
                    bottom_left: Box::new(
                        if routes_to(bound, m.rect, Quadrant::BottomLeft) {
                            bottom_left.insert(m, config)
                        } else {
                            *bottom_left
                        },
                    ),
                    bottom_right: Box::new(
                        if routes_to(bound, m.rect, Quadrant::BottomRight) {
                            bottom_right.insert(m, config)
                        } else {
                            *bottom_right
                        },
                    ),
                }
            },
        }
    }

    /// The node turned into a branch: its own members, last first, and then
    /// `m` are inserted into four fresh children.
    pub open spec fn split(self, m: Member, config: QuadTreeConfig) -> NodeView {
        fan_out(self.bound(), self.depth(), self.members().reverse().push(m), config)
    }

    /// A branch becomes an empty leaf; a leaf stays as it is.
    pub open spec fn clear(self) -> NodeView {
        match self {
            NodeView::Leaf { .. } => self,
            NodeView::Branch { bound, depth, .. } => NodeView::empty_leaf(bound, depth),
        }
    }

    /// The bounds of the node and of all nodes below it, each parent before
    /// its children.
    pub open spec fn bounds(self) -> Seq<Rect>
        decreases self,
    {
        match self {
            NodeView::Leaf { bound, .. } => seq![bound],
            NodeView::Branch { bound, top_right, top_left, bottom_left, bottom_right, .. } => {
                seq![bound] + top_right.bounds() + top_left.bounds() + bottom_left.bounds()
                    + bottom_right.bounds()
            },
        }
    }

    /// A bound on the calls that an insertion into the node can nest.
    pub open spec fn rank(self, config: QuadTreeConfig) -> nat
        decreases self,
    {
        match self {
            NodeView::Leaf { depth, .. } => 2 * room(depth, config),
            NodeView::Branch { top_right, top_left, bottom_left, bottom_right, .. } => {
                1 + largest(
                    largest(top_right.rank(config), top_left.rank(config)),
                    largest(bottom_left.rank(config), bottom_right.rank(config)),
                )
            },
        }
    }
}

/// The greater of two numbers.
pub open spec fn largest(a: nat, b: nat) -> nat {
    if a >= b {
        a
    } else {
        b
    }
}

impl View for QuadTreeNode {
    type V = NodeView;

    open spec fn view(&self) -> NodeView {
        self.model()
    }
}

/// What the quadrant bits of an index say, bit by bit.
proof fn lemma_quadrant_bits()
    by (bit_vector)
    ensures
        forall|x: u8| #![auto] x < 16 && x & 1 == 0 ==> x | 1 == x + 1,
        forall|x: u8| #![auto] x < 16 && x & 2 == 0 ==> x | 2 == x + 2,
        forall|x: u8| #![auto] x < 16 && x & 4 == 0 ==> x | 4 == x + 4,
        forall|x: u8| #![auto] x < 16 && x & 8 == 0 ==> x | 8 == x + 8,
        forall|x: u8| #![auto] x < 16 ==> (x & 1 != 0 <==> x % 2 == 1),
        forall|x: u8| #![auto] x < 16 ==> (x & 2 != 0 <==> (x / 2) % 2 == 1),
        forall|x: u8| #![auto] x < 16 ==> (x & 4 != 0 <==> (x / 4) % 2 == 1),
        forall|x: u8| #![auto] x < 16 ==> (x & 8 != 0 <==> (x / 8) % 2 == 1),
{
}

/// Routing a sequence with one more member at its end.
pub proof fn lemma_route_push(bound: Rect, members: Seq<Member>, m: Member, q: Quadrant)
    ensures
        route(bound, members.push(m), q) == if routes_to(bound, m.rect, q) {
            route(bound, members, q).push(m)
        } else {
            route(bound, members, q)
        },
{
    assert(members.push(m).drop_last() =~= members);
    assert(members.push(m).last() == m);
}

/// Inserting into a grown node gives the node grown from one more member, so
/// `grow` is what repeated insertion into an empty leaf builds.
pub proof fn lemma_grow_insert(
    bound: Rect,
    depth: u8,
    members: Seq<Member>,
    m: Member,
    config: QuadTreeConfig,
)
    ensures
        grow(bound, depth, members, config).insert(m, config) == grow(
            bound,
            depth,
            members.push(m),
            config,
        ),
    decreases room(depth, config), 0nat,
{
    let max = config.max_entities as int;
    let more = members.push(m);
    if members.len() <= max || depth >= config.max_depth {
        if members.len() + 1 > max && depth < config.max_depth {
            assert(more.take(max) =~= members);
            assert(more.skip(max) =~= seq![m]);
            assert(arrival(more, config) =~= members.reverse().push(m));
        }
    } else {
        assert(more.take(max) =~= members.take(max));
        assert(more.skip(max) =~= members.skip(max).push(m));
        assert(arrival(more, config) =~= arrival(members, config).push(m));
        lemma_fan_out_insert(bound, depth, arrival(members, config), m, config);
    }
}

/// Inserting into a branch that was fanned out gives the branch fanned out
/// from one more member.
pub proof fn lemma_fan_out_insert(
    bound: Rect,
    depth: u8,
    members: Seq<Member>,
    m: Member,
    config: QuadTreeConfig,
)
    ensures
        fan_out(bound, depth, members, config).insert(m, config) == fan_out(
            bound,
            depth,
            members.push(m),
            config,
        ),
    decreases room((depth + 1) as u8, config), 1nat,
{
    let below = (depth + 1) as u8;
    lemma_route_push(bound, members, m, Quadrant::TopRight);
    lemma_route_push(bound, members, m, Quadrant::TopLeft);
    lemma_route_push(bound, members, m, Quadrant::BottomLeft);
    lemma_route_push(bound, members, m, Quadrant::BottomRight);
    lemma_grow_insert(
        bound.quadrant(Quadrant::TopRight),
        below,
        route(bound, members, Quadrant::TopRight),
        m,
        config,
    );
    lemma_grow_insert(
        bound.quadrant(Quadrant::TopLeft),
        below,
        route(bound, members, Quadrant::TopLeft),
        m,
        config,
    );
    lemma_grow_insert(
        bound.quadrant(Quadrant::BottomLeft),
        below,
        route(bound, members, Quadrant::BottomLeft),
        m,
        config,
    );
    lemma_grow_insert(
        bound.quadrant(Quadrant::BottomRight),
        below,
        route(bound, members, Quadrant::BottomRight),
        m,
        config,
    );
}

/// A grown node nests no more calls than an empty leaf at its depth.
pub proof fn lemma_grow_rank(bound: Rect, depth: u8, members: Seq<Member>, config: QuadTreeConfig)
    ensures
        grow(bound, depth, members, config).rank(config) <= 2 * room(depth, config),
    decreases room(depth, config), 0nat,
{
    if !(members.len() <= config.max_entities || depth >= config.max_depth) {
        lemma_fan_out_rank(bound, depth, arrival(members, config), config);
    }
}

/// A branch that was fanned out nests one call more than its children.
pub proof fn lemma_fan_out_rank(
    bound: Rect,
    depth: u8,
    members: Seq<Member>,
    config: QuadTreeConfig,
)
    ensures
        fan_out(bound, depth, members, config).rank(config) <= 1 + 2 * room(
            (depth + 1) as u8,
            config,
        ),
    decreases room((depth + 1) as u8, config), 1nat,
{
    let below = (depth + 1) as u8;
    lemma_grow_rank(
        bound.quadrant(Quadrant::TopRight),
        below,
        route(bound, members, Quadrant::TopRight),
        config,
    );
    lemma_grow_rank(
        bound.quadrant(Quadrant::TopLeft),
        below,
        route(bound, members, Quadrant::TopLeft),
        config,
    );
    lemma_grow_rank(
        bound.quadrant(Quadrant::BottomLeft),
        below,
        route(bound, members, Quadrant::BottomLeft),
        config,
    );
    lemma_grow_rank(
        bound.quadrant(Quadrant::BottomRight),
        below,
        route(bound, members, Quadrant::BottomRight),
        config,
    );
}

impl QuadTreeNode {
    /// The node as a mathematical value: each list of members as a
    /// sequence.
    pub open spec fn model(&self) -> NodeView
        decreases self,
    {
        match self.state {
            NodeState::Leaf(members) => NodeView::Leaf {
                bound: self.bound,
                depth: self.depth,
                members: members@,
            },
            NodeState::Branch(children) => NodeView::Branch {
                bound: self.bound,
                depth: self.depth,
                top_right: Box::new(children.top_right.model()),
                top_left: Box::new(children.top_left.model()),
                bottom_left: Box::new(children.bottom_left.model()),
                bottom_right: Box::new(children.bottom_right.model()),
            },
        }
    }

    /// An empty leaf over `rect` at depth 0.
    pub fn root(rect: Rect) -> (node: QuadTreeNode)
        ensures
            node@ == NodeView::empty_leaf(rect, 0),
            forall|config: QuadTreeConfig| within_capacity(node@, config),
    {
        QuadTreeNode { depth: 0, state: NodeState::Leaf(Vec::new()), bound: rect }
    }

    /// Whether the node holds members rather than children.
    pub fn is_leaf(&self) -> (r: bool)
        ensures
            r == (self@ is Leaf),
    {
        match self.state {
            NodeState::Leaf(_) => true,
            NodeState::Branch(_) => false,
        }
    }

    /// The quadrants of this node that `rect` belongs to, as a bit mask; 0
    /// where `rect` does not intersect the node's bound.
    pub fn get_index(&self, rect: &Rect) -> (idx: u8)
        ensures
            idx == index_of(self.bound, *rect),
            (idx & TOP_RIGHT != 0) == routes_to(self.bound, *rect, Quadrant::TopRight),
            (idx & TOP_LEFT != 0) == routes_to(self.bound, *rect, Quadrant::TopLeft),
            (idx & BOTTOM_LEFT != 0) == routes_to(self.bound, *rect, Quadrant::BottomLeft),
            (idx & BOTTOM_RIGHT != 0) == routes_to(self.bound, *rect, Quadrant::BottomRight),
    {
        proof {
            lemma_quadrant_bits();
        }
        if !self.bound.intersects(rect) {
            return 0;
        }
        let min = rect.min();
        let max = rect.max();
        let center_x: i64 = self.bound.center.x as i64;
        let center_y: i64 = self.bound.center.y as i64;

        let mut idx: u8 = 0;
        let is_left = min.x <= center_x;
        let is_right = max.x >= center_x;
        let is_top = max.y >= center_y;
        let is_bottom = min.y <= center_y;

        if is_left {
            if is_top {
                idx |= TOP_LEFT;
            }
            if is_bottom {
                idx |= BOTTOM_LEFT;
            }
        }
        if is_right {
            if is_top {
                idx |= TOP_RIGHT;
            }
            if is_bottom {
                idx |= BOTTOM_RIGHT;
            }
        }

        idx
    }

    /// Inserts `entity` with its rectangle. A leaf that is full and lies above
    /// the greatest depth is split; any other leaf takes one member more. A
    /// branch hands the member to every child whose quadrant the rectangle
    /// belongs to, which is none where the rectangle misses the bound.
    pub fn insert(&mut self, entity: &EntityHandle, rect: &Rect, config: &QuadTreeConfig)
        ensures
            final(self)@ == old(self)@.insert((Member { entity: *entity, rect: *rect }), *config),
            within_capacity(old(self)@, *config) ==> within_capacity(final(self)@, *config),
            regular(old(self)@, *config) ==> regular(final(self)@, *config),
            forall|e: EntityHandle| #[trigger]
                final(self)@.entities().contains(e) ==> old(self)@.entities().contains(e) || e
                    == *entity,
            regular(old(self)@, *config) && old(self).bound.intersects(rect)
                ==> final(self)@.entities().contains(*entity),
        decreases old(self)@.rank(*config), 1nat,
    {
        proof {
            let m = Member { entity: *entity, rect: *rect };
            assert forall|e: EntityHandle| #[trigger]
                self@.insert(m, *config).entities().contains(e) implies self@.entities().contains(
                e,
            ) || e == *entity by {
                lemma_insert_adds_only(self@, m, *config, e);
            }
            if regular(self@, *config) && self.bound.intersects(rect) {
                lemma_insert_keeps(self@, m, *config, m);
            }
            if within_capacity(self@, *config) {
                lemma_insert_within_capacity(self@, m, *config);
            }
            if regular(self@, *config) {
                lemma_insert_regular(self@, m, *config);
            }
        }
        let full = match &self.state {
            NodeState::Leaf(members) => members.len() >= config.max_entities as usize
                && self.depth < config.max_depth,
            NodeState::Branch(_) => false,
        };
        if full {
            self.split(entity, rect, config);
            return ;
        }
        let idx = self.get_index(rect);
        match &mut self.state {
            NodeState::Leaf(members) => {
                members.push(Member { entity: *entity, rect: *rect });
            },
            NodeState::Branch(children) => {
                if idx & TOP_RIGHT != 0 {
                    children.top_right.insert(entity, rect, config);
                }
                if idx & TOP_LEFT != 0 {
                    children.top_left.insert(entity, rect, config);
                }
                if idx & BOTTOM_LEFT != 0 {
                    children.bottom_left.insert(entity, rect, config);
                }
                if idx & BOTTOM_RIGHT != 0 {
                    children.bottom_right.insert(entity, rect, config);
                }
            },
        }
    }

    /// Turns the node into a branch of four fresh leaves, hands its former
    /// members to them, last first, and then inserts `entity`.
    pub fn split(&mut self, entity: &EntityHandle, rect: &Rect, config: &QuadTreeConfig)
        requires
            old(self).depth < u8::MAX,
        ensures
            final(self)@ == old(self)@.split((Member { entity: *entity, rect: *rect }), *config),
            old(self).depth < config.max_depth ==> within_capacity(final(self)@, *config),
            old(self).depth < config.max_depth && divisible(
                old(self).bound,
                old(self).depth,
                *config,
            ) ==> regular(final(self)@, *config),
        decreases 2 * room((old(self).depth + 1) as u8, *config) + 2, 0nat,
    {
        proof {
            let arrived = self@.members().reverse().push(Member { entity: *entity, rect: *rect });
            if self.depth < config.max_depth {
                lemma_fan_out_within_capacity(self.bound, self.depth, arrived, *config);
                if divisible(self.bound, self.depth, *config) {
                    lemma_fan_out_regular(self.bound, self.depth, arrived, *config);
                }
            }
        }
        let depth: u8 = self.depth + 1;
        let children = Quadrants {
            top_right: Box::new(
                QuadTreeNode {
                    bound: self.bound.quadrant(Quadrant::TopRight),
                    state: NodeState::Leaf(Vec::new()),
                    depth,
                },
            ),
            top_left: Box::new(
                QuadTreeNode {
                    bound: self.bound.quadrant(Quadrant::TopLeft),
                    state: NodeState::Leaf(Vec::new()),
                    depth,
                },
            ),
            bottom_left: Box::new(
                QuadTreeNode {
                    bound: self.bound.quadrant(Quadrant::BottomLeft),
                    state: NodeState::Leaf(Vec::new()),
                    depth,
                },
            ),
            bottom_right: Box::new(
                QuadTreeNode {
                    bound: self.bound.quadrant(Quadrant::BottomRight),
                    state: NodeState::Leaf(Vec::new()),
                    depth,
                },
            ),
        };
        let ghost bound = self.bound;
        let ghost above = self.depth;
        let ghost order = old(self)@.members().reverse();
        let mut previous = NodeState::Branch(children);
        core::mem::swap(&mut self.state, &mut previous);
        proof {
            let none = Seq::<Member>::empty();
            assert(order.take(0) =~= none);
            assert(route(bound, none, Quadrant::TopRight) == none);
            assert(route(bound, none, Quadrant::TopLeft) == none);
            assert(route(bound, none, Quadrant::BottomLeft) == none);
            assert(route(bound, none, Quadrant::BottomRight) == none);
            assert(forall|b: Rect| #[trigger]
                grow(b, depth, none, *config) == NodeView::empty_leaf(b, depth));
            reveal_with_fuel(QuadTreeNode::model, 2);
            assert(self@ == fan_out(bound, above, none, *config));
        }
        match previous {
            NodeState::Leaf(members) => {
                let mut i: usize = members.len();
                while i > 0
                    invariant
                        i <= members.len(),
                        order == members@.reverse(),
                        above == old(self).depth,
                        above < u8::MAX,
                        self@ == fan_out(bound, above, order.take(members.len() - i), *config),
                    decreases i,
                {
                    i -= 1;
                    let member = members[i];
                    proof {
                        lemma_fan_out_rank(bound, above, order.take(members.len() - i - 1), *config);
                        lemma_fan_out_insert(
                            bound,
                            above,
                            order.take(members.len() - i - 1),
                            member,
                            *config,
                        );
                        assert(order.take(members.len() - i - 1).push(member) =~= order.take(
                            members.len() - i,
                        ));
                    }
                    self.insert(&member.entity, &member.rect, config);
                }
                assert(order.take(members.len() as int) =~= order);
            },
            NodeState::Branch(_) => {},
        }
        proof {
            lemma_fan_out_rank(bound, above, order, *config);
            lemma_fan_out_insert(
                bound,
                above,
                order,
                (Member { entity: *entity, rect: *rect }),
                *config,
            );
        }
        self.insert(entity, rect, config);
    }

    /// Every handle under the node, duplicates included.
    pub fn get_all_entities(&self) -> (entities: Vec<EntityHandle>)
        ensures
            entities@ == self@.entities(),
        decreases self,
    {
        match &self.state {
            NodeState::Leaf(members) => leaf_handles(members),
            NodeState::Branch(children) => {
                let mut entities = children.top_right.get_all_entities();
                let mut more = children.top_left.get_all_entities();
                entities.append(&mut more);
                let mut more = children.bottom_left.get_all_entities();
                entities.append(&mut more);
                let mut more = children.bottom_right.get_all_entities();
                entities.append(&mut more);
                entities
            },
        }
    }

    /// The handles near `rect`: those of every leaf that a descent by the
    /// quadrants of `rect` reaches. Nothing is filtered inside a leaf.
    pub fn get_around_entity(&self, rect: &Rect) -> (entities: Vec<EntityHandle>)
        ensures
            entities@ == self@.around(*rect),
        decreases self,
    {
        match &self.state {
            NodeState::Leaf(members) => leaf_handles(members),
            NodeState::Branch(children) => {
                let idx = self.get_index(rect);
                let mut entities: Vec<EntityHandle> = Vec::new();
                if idx & TOP_RIGHT != 0 {
                    let mut more = children.top_right.get_around_entity(rect);
                    entities.append(&mut more);
                }
                if idx & TOP_LEFT != 0 {
                    let mut more = children.top_left.get_around_entity(rect);
                    entities.append(&mut more);
                }
                if idx & BOTTOM_LEFT != 0 {
                    let mut more = children.bottom_left.get_around_entity(rect);
                    entities.append(&mut more);
                }
                if idx & BOTTOM_RIGHT != 0 {
                    let mut more = children.bottom_right.get_around_entity(rect);
                    entities.append(&mut more);
                }
                entities
            },
        }
    }

    /// Makes a branch an empty leaf, dropping everything below it.
    pub fn clear(&mut self)
        ensures
            final(self)@ == old(self)@.clear(),
    {
        let branch = match &self.state {
            NodeState::Leaf(_) => false,
            NodeState::Branch(_) => true,
        };
        if branch {
            self.state = NodeState::Leaf(Vec::new());
        }
    }
}

impl Clone for QuadTreeNode {
    fn clone(&self) -> (copy: Self)
        ensures
            copy@ == self@,
        decreases self,
    {
        let state = match &self.state {
            NodeState::Leaf(members) => {
                let mut copied: Vec<Member> = Vec::new();
                let mut i: usize = 0;
                while i < members.len()
                    invariant
                        i <= members.len(),
                        copied@ == members@.take(i as int),
                    decreases members.len() - i,
                {
                    copied.push(members[i]);
                    i += 1;
                    assert(members@.take(i as int) =~= members@.take(i - 1).push(members[i - 1]));
                }
                assert(members@.take(i as int) =~= members@);
                NodeState::Leaf(copied)
            },
            NodeState::Branch(children) => NodeState::Branch(
                Quadrants {
                    top_right: Box::new((*children.top_right).clone()),
                    top_left: Box::new((*children.top_left).clone()),
                    bottom_left: Box::new((*children.bottom_left).clone()),
                    bottom_right: Box::new((*children.bottom_right).clone()),
                },
            ),
        };
        QuadTreeNode { bound: self.bound, state, depth: self.depth }
    }
}

fn leaf_handles(members: &Vec<Member>) -> (entities: Vec<EntityHandle>)
    ensures
        entities@ == handles(members@),
{
    let mut entities: Vec<EntityHandle> = Vec::new();
    let mut i: usize = 0;
    while i < members.len()
        invariant
            i <= members.len(),
            entities@ == handles(members@.take(i as int)),
        decreases members.len() - i,
    {
        entities.push(members[i].entity);
        i += 1;
        assert(members@.take(i as int) =~= members@.take(i - 1).push(members[i - 1]));
    }
    assert(members@.take(i as int) =~= members@);
    entities
}

} // verus!
