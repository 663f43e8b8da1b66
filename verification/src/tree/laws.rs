//! What holds of every tree that insertion builds: the shape it keeps, the
//! capacity of its leaves, and that it loses no member.
use vstd::prelude::*;

use super::node::{
    arrival, fan_out, grow, names, room, route, routes_to, EntityHandle, Member, NodeView,
    QuadTreeConfig,
};
use crate::rect::{lemma_quadrant_inside, Quadrant, Rect};

verus! {

/// No leaf holds more than `config.max_entities` members unless it lies at
/// `config.max_depth`, and no node lies deeper than that.
pub open spec fn within_capacity(node: NodeView, config: QuadTreeConfig) -> bool
    decreases node,
{
    match node {
        NodeView::Leaf { depth, members, .. } => {
            &&& depth <= config.max_depth
            &&& (members.len() <= config.max_entities || depth == config.max_depth)
        },
        NodeView::Branch { depth, top_right, top_left, bottom_left, bottom_right, .. } => {
            &&& depth < config.max_depth
            &&& top_right.depth() == depth + 1
            &&& top_left.depth() == depth + 1
            &&& bottom_left.depth() == depth + 1
            &&& bottom_right.depth() == depth + 1
            &&& within_capacity(*top_right, config)
            &&& within_capacity(*top_left, config)
            &&& within_capacity(*bottom_left, config)
            &&& within_capacity(*bottom_right, config)
        },
    }
}

/// Whether a node over `bound` at `depth` can be split down to
/// `config.max_depth` without rounding and without leaving the range of
/// coordinates.
pub open spec fn divisible(bound: Rect, depth: u8, config: QuadTreeConfig) -> bool {
    bound.in_range() && bound.splits_evenly_for(room(depth, config))
}

/// The shape of a tree: every child of a branch lies one level deeper than
/// the branch over the quadrant of its bound that the child is named for,
/// and every bound is divisible.
pub open spec fn regular(node: NodeView, config: QuadTreeConfig) -> bool
    decreases node,
{
    &&& divisible(node.bound(), node.depth(), config)
    &&& match node {
        NodeView::Leaf { .. } => true,
        NodeView::Branch { bound, depth, top_right, top_left, bottom_left, bottom_right } => {
            &&& depth < config.max_depth
            &&& top_right.bound() == bound.quadrant(Quadrant::TopRight)
            &&& top_left.bound() == bound.quadrant(Quadrant::TopLeft)
            &&& bottom_left.bound() == bound.quadrant(Quadrant::BottomLeft)
            &&& bottom_right.bound() == bound.quadrant(Quadrant::BottomRight)
            &&& top_right.depth() == depth + 1
            &&& top_left.depth() == depth + 1
            &&& bottom_left.depth() == depth + 1
            &&& bottom_right.depth() == depth + 1
            &&& regular(*top_right, config)
            &&& regular(*top_left, config)
            &&& regular(*bottom_left, config)
            &&& regular(*bottom_right, config)
        },
    }
}

/// Whether some leaf under `node` holds the handle `e`.
pub open spec fn holds(node: NodeView, e: EntityHandle) -> bool
    decreases node,
{
    match node {
        NodeView::Leaf { members, .. } => names(members, e),
        NodeView::Branch { top_right, top_left, bottom_left, bottom_right, .. } => {
            ||| holds(*top_right, e)
            ||| holds(*top_left, e)
            ||| holds(*bottom_left, e)
            ||| holds(*bottom_right, e)
        },
    }
}

/// Whether some leaf under `node` holds the member `m` and has a bound that
/// `m.rect` intersects. Such a member survives every split of its leaf.
pub open spec fn anchors(node: NodeView, m: Member) -> bool
    decreases node,
{
    match node {
        NodeView::Leaf { bound, members, .. } => members.contains(m) && bound.intersects(&m.rect),
        NodeView::Branch { top_right, top_left, bottom_left, bottom_right, .. } => {
            ||| anchors(*top_right, m)
            ||| anchors(*top_left, m)
            ||| anchors(*bottom_left, m)
            ||| anchors(*bottom_right, m)
        },
    }
}

/// What a sequence contains once one more item stands at its end.
pub proof fn lemma_push_contains<A>(s: Seq<A>, a: A, x: A)
    ensures
        s.push(a).contains(x) <==> s.contains(x) || a == x,
{
    if s.contains(x) {
        let i = choose|i: int| 0 <= i < s.len() && s[i] == x;
        assert(s.push(a)[i] == x);
    }
    if a == x {
        assert(s.push(a)[s.len() as int] == x);
    }
}

/// What two sequences contain when one follows the other.
pub proof fn lemma_concat_contains<A>(s: Seq<A>, t: Seq<A>, x: A)
    ensures
        (s + t).contains(x) <==> s.contains(x) || t.contains(x),
{
    if s.contains(x) {
        let i = choose|i: int| 0 <= i < s.len() && s[i] == x;
        assert((s + t)[i] == x);
    }
    if t.contains(x) {
        let i = choose|i: int| 0 <= i < t.len() && t[i] == x;
        assert((s + t)[s.len() + i] == x);
    }
    if (s + t).contains(x) {
        let i = choose|i: int| 0 <= i < (s + t).len() && (s + t)[i] == x;
        if i < s.len() {
            assert(s[i] == x);
        } else {
            assert(t[i - s.len()] == x);
        }
    }
}

/// What a sequence names once one more member stands at its end.
pub proof fn lemma_push_names(s: Seq<Member>, a: Member, e: EntityHandle)
    ensures
        names(s.push(a), e) <==> names(s, e) || a.entity == e,
{
    if names(s, e) {
        let i = choose|i: int| 0 <= i < s.len() && #[trigger] s[i].entity == e;
        assert(s.push(a)[i].entity == e);
    }
    if a.entity == e {
        assert(s.push(a)[s.len() as int].entity == e);
    }
}

/// A sequence names the handle of each member it contains, and contains a
/// member for each handle it names.
pub proof fn lemma_names_contains(s: Seq<Member>, e: EntityHandle)
    ensures
        names(s, e) <==> exists|m: Member| #[trigger] s.contains(m) && m.entity == e,
{
    if names(s, e) {
        let i = choose|i: int| 0 <= i < s.len() && #[trigger] s[i].entity == e;
        assert(s.contains(s[i]) && s[i].entity == e);
    }
    if exists|m: Member| #[trigger] s.contains(m) && m.entity == e {
        let m = choose|m: Member| #[trigger] s.contains(m) && m.entity == e;
        let i = choose|i: int| 0 <= i < s.len() && s[i] == m;
        assert(s[i].entity == e);
    }
}

/// With a bound that splits evenly, a rectangle belongs to a quadrant
/// exactly when it intersects the bound of that quadrant.
pub proof fn lemma_routes_to_quadrant(bound: Rect, rect: Rect, q: Quadrant)
    requires
        bound.in_range(),
        bound.splits_evenly(),
    ensures
        routes_to(bound, rect, q) <==> bound.quadrant(q).intersects(&rect),
{
}

/// A rectangle that intersects a bound belongs to at least one quadrant of
/// it, and one that does not belongs to none.
pub proof fn lemma_routes_somewhere(bound: Rect, rect: Rect)
    ensures
        bound.intersects(&rect) <==> {
            ||| routes_to(bound, rect, Quadrant::TopRight)
            ||| routes_to(bound, rect, Quadrant::TopLeft)
            ||| routes_to(bound, rect, Quadrant::BottomLeft)
            ||| routes_to(bound, rect, Quadrant::BottomRight)
        },
{
}

/// Routing keeps exactly the members that belong to the quadrant.
pub proof fn lemma_route_contains(bound: Rect, members: Seq<Member>, q: Quadrant, m: Member)
    ensures
        route(bound, members, q).contains(m) <==> members.contains(m) && routes_to(
            bound,
            m.rect,
            q,
        ),
    decreases members.len(),
{
    if members.len() > 0 {
        let front = members.drop_last();
        lemma_route_contains(bound, front, q, m);
        assert(front.push(members.last()) =~= members);
        lemma_push_contains(front, members.last(), m);
        lemma_push_contains(route(bound, front, q), members.last(), m);
    }
}

/// The order of arrival holds the same members as the order of insertion.
pub proof fn lemma_arrival_contains(members: Seq<Member>, config: QuadTreeConfig, m: Member)
    requires
        members.len() >= config.max_entities,
    ensures
        arrival(members, config).contains(m) <==> members.contains(m),
{
    let k = config.max_entities as int;
    let first = members.take(k);
    let rest = members.skip(k);
    lemma_concat_contains(first.reverse(), rest, m);
    if first.reverse().contains(m) {
        let i = choose|i: int| 0 <= i < first.reverse().len() && first.reverse()[i] == m;
        assert(members[k - 1 - i] == m);
    }
    if rest.contains(m) {
        let i = choose|i: int| 0 <= i < rest.len() && rest[i] == m;
        assert(members[k + i] == m);
    }
    if members.contains(m) {
        let i = choose|i: int| 0 <= i < members.len() && members[i] == m;
        if i < k {
            assert(first.reverse()[k - 1 - i] == m);
        } else {
            assert(rest[i - k] == m);
        }
    }
}

/// The quarters of a divisible bound are divisible one level deeper.
pub proof fn lemma_quadrant_divisible(bound: Rect, depth: u8, config: QuadTreeConfig, q: Quadrant)
    requires
        divisible(bound, depth, config),
        depth < config.max_depth,
    ensures
        bound.splits_evenly(),
        divisible(bound.quadrant(q), (depth + 1) as u8, config),
{
    lemma_quadrant_inside(bound, q);
    assert(room(depth, config) == room((depth + 1) as u8, config) + 1);
}


/// A sequence read backwards contains what it contained.
pub proof fn lemma_reverse_contains<A>(s: Seq<A>, x: A)
    ensures
        s.reverse().contains(x) <==> s.contains(x),
{
    if s.contains(x) {
        let i = choose|i: int| 0 <= i < s.len() && s[i] == x;
        assert(s.reverse()[s.len() - 1 - i] == x);
    }
    if s.reverse().contains(x) {
        let i = choose|i: int| 0 <= i < s.reverse().len() && s.reverse()[i] == x;
        assert(s[s.len() - 1 - i] == x);
    }
}

/// Routing names no handle that the routed members did not name.
pub proof fn lemma_route_names(bound: Rect, members: Seq<Member>, q: Quadrant, e: EntityHandle)
    ensures
        names(route(bound, members, q), e) ==> names(members, e),
{
    let routed = route(bound, members, q);
    lemma_names_contains(routed, e);
    lemma_names_contains(members, e);
    if names(routed, e) {
        let m = choose|m: Member| #[trigger] routed.contains(m) && m.entity == e;
        lemma_route_contains(bound, members, q, m);
        assert(members.contains(m) && m.entity == e);
    }
}

/// The order of arrival names the same handles as the order of insertion.
pub proof fn lemma_arrival_names(members: Seq<Member>, config: QuadTreeConfig, e: EntityHandle)
    requires
        members.len() >= config.max_entities,
    ensures
        names(arrival(members, config), e) <==> names(members, e),
{
    let arrived = arrival(members, config);
    lemma_names_contains(arrived, e);
    lemma_names_contains(members, e);
    if names(arrived, e) {
        let m = choose|m: Member| #[trigger] arrived.contains(m) && m.entity == e;
        lemma_arrival_contains(members, config, m);
        assert(members.contains(m) && m.entity == e);
    }
    if names(members, e) {
        let m = choose|m: Member| #[trigger] members.contains(m) && m.entity == e;
        lemma_arrival_contains(members, config, m);
        assert(arrived.contains(m) && m.entity == e);
    }
}

/// A grown node lies where it was grown.
pub proof fn lemma_grow_shape(bound: Rect, depth: u8, members: Seq<Member>, config: QuadTreeConfig)
    ensures
        grow(bound, depth, members, config).bound() == bound,
        grow(bound, depth, members, config).depth() == depth,
{
}

/// A node grown at or above the greatest depth is within capacity.
pub proof fn lemma_grow_within_capacity(
    bound: Rect,
    depth: u8,
    members: Seq<Member>,
    config: QuadTreeConfig,
)
    requires
        depth <= config.max_depth,
    ensures
        within_capacity(grow(bound, depth, members, config), config),
    decreases room(depth, config), 0nat,
{
    if !(members.len() <= config.max_entities || depth >= config.max_depth) {
        lemma_fan_out_within_capacity(bound, depth, arrival(members, config), config);
    }
}

/// A branch fanned out above the greatest depth is within capacity.
pub proof fn lemma_fan_out_within_capacity(
    bound: Rect,
    depth: u8,
    members: Seq<Member>,
    config: QuadTreeConfig,
)
    requires
        depth < config.max_depth,
    ensures
        within_capacity(fan_out(bound, depth, members, config), config),
    decreases room((depth + 1) as u8, config), 1nat,
{
    let below = (depth + 1) as u8;
    lemma_grow_within_capacity(
        bound.quadrant(Quadrant::TopRight),
        below,
        route(bound, members, Quadrant::TopRight),
        config,
    );
    lemma_grow_shape(
        bound.quadrant(Quadrant::TopRight),
        below,
        route(bound, members, Quadrant::TopRight),
        config,
    );
    lemma_grow_within_capacity(
        bound.quadrant(Quadrant::TopLeft),
        below,
        route(bound, members, Quadrant::TopLeft),
        config,
    );
    lemma_grow_shape(
        bound.quadrant(Quadrant::TopLeft),
        below,
        route(bound, members, Quadrant::TopLeft),
        config,
    );
    lemma_grow_within_capacity(
        bound.quadrant(Quadrant::BottomLeft),
        below,
        route(bound, members, Quadrant::BottomLeft),
        config,
    );
    lemma_grow_shape(
        bound.quadrant(Quadrant::BottomLeft),
        below,
        route(bound, members, Quadrant::BottomLeft),
        config,
    );
    lemma_grow_within_capacity(
        bound.quadrant(Quadrant::BottomRight),
        below,
        route(bound, members, Quadrant::BottomRight),
        config,
    );
    lemma_grow_shape(
        bound.quadrant(Quadrant::BottomRight),
        below,
        route(bound, members, Quadrant::BottomRight),
        config,
    );
}

/// A node grown over a divisible bound is regular.
pub proof fn lemma_grow_regular(
    bound: Rect,
    depth: u8,
    members: Seq<Member>,
    config: QuadTreeConfig,
)
    requires
        divisible(bound, depth, config),
    ensures
        regular(grow(bound, depth, members, config), config),
    decreases room(depth, config), 0nat,
{
    if !(members.len() <= config.max_entities || depth >= config.max_depth) {
        lemma_fan_out_regular(bound, depth, arrival(members, config), config);
    }
}

/// A branch fanned out over a divisible bound is regular.
pub proof fn lemma_fan_out_regular(
    bound: Rect,
    depth: u8,
    members: Seq<Member>,
    config: QuadTreeConfig,
)
    requires
        divisible(bound, depth, config),
        depth < config.max_depth,
    ensures
        regular(fan_out(bound, depth, members, config), config),
    decreases room((depth + 1) as u8, config), 1nat,
{
    let below = (depth + 1) as u8;
    lemma_quadrant_divisible(bound, depth, config, Quadrant::TopRight);
    lemma_grow_regular(
        bound.quadrant(Quadrant::TopRight),
        below,
        route(bound, members, Quadrant::TopRight),
        config,
    );
    lemma_grow_shape(
        bound.quadrant(Quadrant::TopRight),
        below,
        route(bound, members, Quadrant::TopRight),
        config,
    );
    lemma_quadrant_divisible(bound, depth, config, Quadrant::TopLeft);
    lemma_grow_regular(
        bound.quadrant(Quadrant::TopLeft),
        below,
        route(bound, members, Quadrant::TopLeft),
        config,
    );
    lemma_grow_shape(
        bound.quadrant(Quadrant::TopLeft),
        below,
        route(bound, members, Quadrant::TopLeft),
        config,
    );
    lemma_quadrant_divisible(bound, depth, config, Quadrant::BottomLeft);
    lemma_grow_regular(
        bound.quadrant(Quadrant::BottomLeft),
        below,
        route(bound, members, Quadrant::BottomLeft),
        config,
    );
    lemma_grow_shape(
        bound.quadrant(Quadrant::BottomLeft),
        below,
        route(bound, members, Quadrant::BottomLeft),
        config,
    );
    lemma_quadrant_divisible(bound, depth, config, Quadrant::BottomRight);
    lemma_grow_regular(
        bound.quadrant(Quadrant::BottomRight),
        below,
        route(bound, members, Quadrant::BottomRight),
        config,
    );
    lemma_grow_shape(
        bound.quadrant(Quadrant::BottomRight),
        below,
        route(bound, members, Quadrant::BottomRight),
        config,
    );
}

/// A grown node holds no handle but those of the members it was grown from.
pub proof fn lemma_grow_holds(
    bound: Rect,
    depth: u8,
    members: Seq<Member>,
    config: QuadTreeConfig,
    e: EntityHandle,
)
    ensures
        holds(grow(bound, depth, members, config), e) ==> names(members, e),
    decreases room(depth, config), 0nat,
{
    if !(members.len() <= config.max_entities || depth >= config.max_depth) {
        lemma_fan_out_holds(bound, depth, arrival(members, config), config, e);
        lemma_arrival_names(members, config, e);
    }
}

/// A branch that was fanned out holds no handle but those handed to it.
pub proof fn lemma_fan_out_holds(
    bound: Rect,
    depth: u8,
    members: Seq<Member>,
    config: QuadTreeConfig,
    e: EntityHandle,
)
    ensures
        holds(fan_out(bound, depth, members, config), e) ==> names(members, e),
    decreases room((depth + 1) as u8, config), 1nat,
{
    let below = (depth + 1) as u8;
    lemma_grow_holds(
        bound.quadrant(Quadrant::TopRight),
        below,
        route(bound, members, Quadrant::TopRight),
        config,
        e,
    );
    lemma_route_names(bound, members, Quadrant::TopRight, e);
    lemma_grow_holds(
        bound.quadrant(Quadrant::TopLeft),
        below,
        route(bound, members, Quadrant::TopLeft),
        config,
        e,
    );
    lemma_route_names(bound, members, Quadrant::TopLeft, e);
    lemma_grow_holds(
        bound.quadrant(Quadrant::BottomLeft),
        below,
        route(bound, members, Quadrant::BottomLeft),
        config,
        e,
    );
    lemma_route_names(bound, members, Quadrant::BottomLeft, e);
    lemma_grow_holds(
        bound.quadrant(Quadrant::BottomRight),
        below,
        route(bound, members, Quadrant::BottomRight),
        config,
        e,
    );
    lemma_route_names(bound, members, Quadrant::BottomRight, e);
}

/// A node grown over a divisible bound anchors exactly those of its members
/// whose rectangle intersects the bound.
pub proof fn lemma_grow_anchors(
    bound: Rect,
    depth: u8,
    members: Seq<Member>,
    config: QuadTreeConfig,
    m: Member,
)
    requires
        divisible(bound, depth, config),
    ensures
        anchors(grow(bound, depth, members, config), m) <==> members.contains(m)
            && bound.intersects(&m.rect),
    decreases room(depth, config), 0nat,
{
    if !(members.len() <= config.max_entities || depth >= config.max_depth) {
        lemma_fan_out_anchors(bound, depth, arrival(members, config), config, m);
        lemma_arrival_contains(members, config, m);
    }
}

/// A branch fanned out over a divisible bound anchors exactly those of the
/// members handed to it whose rectangle intersects the bound.
pub proof fn lemma_fan_out_anchors(
    bound: Rect,
    depth: u8,
    members: Seq<Member>,
    config: QuadTreeConfig,
    m: Member,
)
    requires
        divisible(bound, depth, config),
        depth < config.max_depth,
    ensures
        anchors(fan_out(bound, depth, members, config), m) <==> members.contains(m)
            && bound.intersects(&m.rect),
    decreases room((depth + 1) as u8, config), 1nat,
{
    let below = (depth + 1) as u8;
    lemma_routes_somewhere(bound, m.rect);
    lemma_quadrant_divisible(bound, depth, config, Quadrant::TopRight);
    lemma_grow_anchors(
        bound.quadrant(Quadrant::TopRight),
        below,
        route(bound, members, Quadrant::TopRight),
        config,
        m,
    );
    lemma_route_contains(bound, members, Quadrant::TopRight, m);
    lemma_routes_to_quadrant(bound, m.rect, Quadrant::TopRight);
    lemma_quadrant_divisible(bound, depth, config, Quadrant::TopLeft);
    lemma_grow_anchors(
        bound.quadrant(Quadrant::TopLeft),
        below,
        route(bound, members, Quadrant::TopLeft),
        config,
        m,
    );
    lemma_route_contains(bound, members, Quadrant::TopLeft, m);
    lemma_routes_to_quadrant(bound, m.rect, Quadrant::TopLeft);
    lemma_quadrant_divisible(bound, depth, config, Quadrant::BottomLeft);
    lemma_grow_anchors(
        bound.quadrant(Quadrant::BottomLeft),
        below,
        route(bound, members, Quadrant::BottomLeft),
        config,
        m,
    );
    lemma_route_contains(bound, members, Quadrant::BottomLeft, m);
    lemma_routes_to_quadrant(bound, m.rect, Quadrant::BottomLeft);
    lemma_quadrant_divisible(bound, depth, config, Quadrant::BottomRight);
    lemma_grow_anchors(
        bound.quadrant(Quadrant::BottomRight),
        below,
        route(bound, members, Quadrant::BottomRight),
        config,
        m,
    );
    lemma_route_contains(bound, members, Quadrant::BottomRight, m);
    lemma_routes_to_quadrant(bound, m.rect, Quadrant::BottomRight);
}

/// Insertion leaves a node where it is.
pub proof fn lemma_insert_shape(node: NodeView, m: Member, config: QuadTreeConfig)
    ensures
        node.insert(m, config).bound() == node.bound(),
        node.insert(m, config).depth() == node.depth(),
{
}

/// Insertion keeps a tree within capacity: a full leaf above the greatest
/// depth is split, never overfilled.
pub proof fn lemma_insert_within_capacity(node: NodeView, m: Member, config: QuadTreeConfig)
    requires
        within_capacity(node, config),
    ensures
        within_capacity(node.insert(m, config), config),
    decreases node,
{
    match node {
        NodeView::Leaf { bound, depth, members } => {
            if members.len() + 1 > config.max_entities && depth < config.max_depth {
                lemma_fan_out_within_capacity(bound, depth, members.reverse().push(m), config);
            }
        },
        NodeView::Branch { top_right, top_left, bottom_left, bottom_right, .. } => {
            lemma_insert_within_capacity(*top_right, m, config);
            lemma_insert_within_capacity(*top_left, m, config);
            lemma_insert_within_capacity(*bottom_left, m, config);
            lemma_insert_within_capacity(*bottom_right, m, config);
            lemma_insert_shape(*top_right, m, config);
            lemma_insert_shape(*top_left, m, config);
            lemma_insert_shape(*bottom_left, m, config);
            lemma_insert_shape(*bottom_right, m, config);
        },
    }
}

/// Insertion keeps a tree regular.
pub proof fn lemma_insert_regular(node: NodeView, m: Member, config: QuadTreeConfig)
    requires
        regular(node, config),
    ensures
        regular(node.insert(m, config), config),
    decreases node,
{
    match node {
        NodeView::Leaf { bound, depth, members } => {
            if members.len() + 1 > config.max_entities && depth < config.max_depth {
                lemma_fan_out_regular(bound, depth, members.reverse().push(m), config);
            }
        },
        NodeView::Branch { top_right, top_left, bottom_left, bottom_right, .. } => {
            lemma_insert_regular(*top_right, m, config);
            lemma_insert_regular(*top_left, m, config);
            lemma_insert_regular(*bottom_left, m, config);
            lemma_insert_regular(*bottom_right, m, config);
            lemma_insert_shape(*top_right, m, config);
            lemma_insert_shape(*top_left, m, config);
            lemma_insert_shape(*bottom_left, m, config);
            lemma_insert_shape(*bottom_right, m, config);
        },
    }
}

/// Insertion into a regular tree loses nothing: afterwards the tree anchors
/// what it anchored before, and the new member if its rectangle intersects
/// the bound of the tree, and nothing else.
pub proof fn lemma_insert_anchors(node: NodeView, m: Member, config: QuadTreeConfig, k: Member)
    requires
        regular(node, config),
    ensures
        anchors(node.insert(m, config), k) <==> anchors(node, k) || (k == m
            && node.bound().intersects(&m.rect)),
    decreases node,
{
    match node {
        NodeView::Leaf { bound, depth, members } => {
            lemma_push_contains(members, m, k);
            if members.len() + 1 > config.max_entities && depth < config.max_depth {
                lemma_fan_out_anchors(bound, depth, members.reverse().push(m), config, k);
                lemma_push_contains(members.reverse(), m, k);
                lemma_reverse_contains(members, k);
            }
        },
        NodeView::Branch { bound, top_right, top_left, bottom_left, bottom_right, .. } => {
            lemma_insert_anchors(*top_right, m, config, k);
            lemma_insert_anchors(*top_left, m, config, k);
            lemma_insert_anchors(*bottom_left, m, config, k);
            lemma_insert_anchors(*bottom_right, m, config, k);
            lemma_routes_somewhere(bound, m.rect);
            lemma_routes_to_quadrant(bound, m.rect, Quadrant::TopRight);
            lemma_routes_to_quadrant(bound, m.rect, Quadrant::TopLeft);
            lemma_routes_to_quadrant(bound, m.rect, Quadrant::BottomLeft);
            lemma_routes_to_quadrant(bound, m.rect, Quadrant::BottomRight);
        },
    }
}

/// Insertion adds no handle but the one inserted.
pub proof fn lemma_insert_holds(node: NodeView, m: Member, config: QuadTreeConfig, e: EntityHandle)
    ensures
        holds(node.insert(m, config), e) ==> holds(node, e) || e == m.entity,
    decreases node,
{
    match node {
        NodeView::Leaf { bound, depth, members } => {
            lemma_push_names(members, m, e);
            if members.len() + 1 > config.max_entities && depth < config.max_depth {
                lemma_fan_out_holds(bound, depth, members.reverse().push(m), config, e);
                lemma_push_names(members.reverse(), m, e);
                lemma_names_contains(members.reverse(), e);
                lemma_names_contains(members, e);
                if names(members.reverse(), e) {
                    let x = choose|x: Member| #[trigger]
                        members.reverse().contains(x) && x.entity == e;
                    lemma_reverse_contains(members, x);
                    assert(members.contains(x) && x.entity == e);
                }
            }
        },
        NodeView::Branch { top_right, top_left, bottom_left, bottom_right, .. } => {
            lemma_insert_holds(*top_right, m, config, e);
            lemma_insert_holds(*top_left, m, config, e);
            lemma_insert_holds(*bottom_left, m, config, e);
            lemma_insert_holds(*bottom_right, m, config, e);
        },
    }
}

/// The handles that `entities` lists are those that the leaves hold.
pub proof fn lemma_entities_holds(node: NodeView, e: EntityHandle)
    ensures
        node.entities().contains(e) <==> holds(node, e),
    decreases node,
{
    match node {
        NodeView::Leaf { members, .. } => {
            let listed = node.entities();
            if names(members, e) {
                let i = choose|i: int| 0 <= i < members.len() && #[trigger] members[i].entity == e;
                assert(listed[i] == e);
            }
            if listed.contains(e) {
                let i = choose|i: int| 0 <= i < listed.len() && listed[i] == e;
                assert(members[i].entity == e);
            }
        },
        NodeView::Branch { top_right, top_left, bottom_left, bottom_right, .. } => {
            lemma_entities_holds(*top_right, e);
            lemma_entities_holds(*top_left, e);
            lemma_entities_holds(*bottom_left, e);
            lemma_entities_holds(*bottom_right, e);
            let a = top_right.entities();
            let b = top_left.entities();
            let c = bottom_left.entities();
            let d = bottom_right.entities();
            lemma_concat_contains(a, b, e);
            lemma_concat_contains(a + b, c, e);
            lemma_concat_contains(a + b + c, d, e);
        },
    }
}

/// An anchored member is held: its handle is among those of the tree.
pub proof fn lemma_anchors_holds(node: NodeView, m: Member)
    ensures
        anchors(node, m) ==> holds(node, m.entity) && node.entities().contains(m.entity),
    decreases node,
{
    lemma_entities_holds(node, m.entity);
    match node {
        NodeView::Leaf { members, .. } => {
            lemma_names_contains(members, m.entity);
        },
        NodeView::Branch { top_right, top_left, bottom_left, bottom_right, .. } => {
            lemma_anchors_holds(*top_right, m);
            lemma_anchors_holds(*top_left, m);
            lemma_anchors_holds(*bottom_left, m);
            lemma_anchors_holds(*bottom_right, m);
        },
    }
}

/// After an insertion the tree lists no handle that it did not list before,
/// but for the one inserted.
pub proof fn lemma_insert_adds_only(
    node: NodeView,
    m: Member,
    config: QuadTreeConfig,
    e: EntityHandle,
)
    ensures
        node.insert(m, config).entities().contains(e) ==> node.entities().contains(e) || e
            == m.entity,
{
    lemma_entities_holds(node, e);
    lemma_entities_holds(node.insert(m, config), e);
    lemma_insert_holds(node, m, config, e);
}

/// After an insertion into a regular tree whose bound the new rectangle
/// intersects, the tree lists the new handle, and every handle that was
/// anchored before is listed still.
pub proof fn lemma_insert_keeps(node: NodeView, m: Member, config: QuadTreeConfig, k: Member)
    requires
        regular(node, config),
        anchors(node, k) || (k == m && node.bound().intersects(&m.rect)),
    ensures
        anchors(node.insert(m, config), k),
        node.insert(m, config).entities().contains(k.entity),
{
    lemma_insert_anchors(node, m, config, k);
    lemma_anchors_holds(node.insert(m, config), k);
}


/// Whether every leaf under `node` has a bound that the rectangle of each
/// of its members intersects, so that every member is anchored.
pub open spec fn anchored(node: NodeView) -> bool
    decreases node,
{
    match node {
        NodeView::Leaf { bound, members, .. } => forall|i: int|
            0 <= i < members.len() ==> bound.intersects(&(#[trigger] members[i]).rect),
        NodeView::Branch { top_right, top_left, bottom_left, bottom_right, .. } => {
            &&& anchored(*top_right)
            &&& anchored(*top_left)
            &&& anchored(*bottom_left)
            &&& anchored(*bottom_right)
        },
    }
}

/// In an anchored tree every handle that is held belongs to an anchored
/// member.
pub proof fn lemma_anchored_holds(node: NodeView, e: EntityHandle)
    requires
        anchored(node),
        holds(node, e),
    ensures
        exists|k: Member| #[trigger] anchors(node, k) && k.entity == e,
    decreases node,
{
    match node {
        NodeView::Leaf { members, .. } => {
            let i = choose|i: int| 0 <= i < members.len() && #[trigger] members[i].entity == e;
            assert(members.contains(members[i]));
            assert(anchors(node, members[i]) && members[i].entity == e);
        },
        NodeView::Branch { top_right, top_left, bottom_left, bottom_right, .. } => {
            let child = if holds(*top_right, e) {
                *top_right
            } else if holds(*top_left, e) {
                *top_left
            } else if holds(*bottom_left, e) {
                *bottom_left
            } else {
                *bottom_right
            };
            lemma_anchored_holds(child, e);
            let k = choose|k: Member| #[trigger] anchors(child, k) && k.entity == e;
            assert(anchors(node, k) && k.entity == e);
        },
    }
}

/// A node grown over a divisible bound from members that intersect the
/// bound is anchored.
pub proof fn lemma_grow_anchored(
    bound: Rect,
    depth: u8,
    members: Seq<Member>,
    config: QuadTreeConfig,
)
    requires
        divisible(bound, depth, config),
        forall|i: int| 0 <= i < members.len() ==> bound.intersects(&(#[trigger] members[i]).rect),
    ensures
        anchored(grow(bound, depth, members, config)),
    decreases room(depth, config), 0nat,
{
    if !(members.len() <= config.max_entities || depth >= config.max_depth) {
        lemma_fan_out_anchored(bound, depth, arrival(members, config), config);
    }
}

/// A branch fanned out over a divisible bound is anchored, whatever was
/// handed to it: its children take only what intersects their bounds.
pub proof fn lemma_fan_out_anchored(
    bound: Rect,
    depth: u8,
    members: Seq<Member>,
    config: QuadTreeConfig,
)
    requires
        divisible(bound, depth, config),
        depth < config.max_depth,
    ensures
        anchored(fan_out(bound, depth, members, config)),
    decreases room((depth + 1) as u8, config), 1nat,
{
    let below = (depth + 1) as u8;
    lemma_quadrant_divisible(bound, depth, config, Quadrant::TopRight);
    lemma_route_intersects(bound, members, Quadrant::TopRight);
    lemma_grow_anchored(
        bound.quadrant(Quadrant::TopRight),
        below,
        route(bound, members, Quadrant::TopRight),
        config,
    );
    lemma_quadrant_divisible(bound, depth, config, Quadrant::TopLeft);
    lemma_route_intersects(bound, members, Quadrant::TopLeft);
    lemma_grow_anchored(
        bound.quadrant(Quadrant::TopLeft),
        below,
        route(bound, members, Quadrant::TopLeft),
        config,
    );
    lemma_quadrant_divisible(bound, depth, config, Quadrant::BottomLeft);
    lemma_route_intersects(bound, members, Quadrant::BottomLeft);
    lemma_grow_anchored(
        bound.quadrant(Quadrant::BottomLeft),
        below,
        route(bound, members, Quadrant::BottomLeft),
        config,
    );
    lemma_quadrant_divisible(bound, depth, config, Quadrant::BottomRight);
    lemma_route_intersects(bound, members, Quadrant::BottomRight);
    lemma_grow_anchored(
        bound.quadrant(Quadrant::BottomRight),
        below,
        route(bound, members, Quadrant::BottomRight),
        config,
    );
}

/// With a bound that splits evenly, what is routed to a quadrant intersects
/// the bound of that quadrant.
pub proof fn lemma_route_intersects(bound: Rect, members: Seq<Member>, q: Quadrant)
    requires
        bound.in_range(),
        bound.splits_evenly(),
    ensures
        forall|i: int|
            0 <= i < route(bound, members, q).len() ==> bound.quadrant(q).intersects(
                &(#[trigger] route(bound, members, q)[i]).rect,
            ),
{
    let routed = route(bound, members, q);
    assert forall|i: int| 0 <= i < routed.len() implies bound.quadrant(q).intersects(
        &(#[trigger] routed[i]).rect,
    ) by {
        assert(routed.contains(routed[i]));
        lemma_route_contains(bound, members, q, routed[i]);
        lemma_routes_to_quadrant(bound, routed[i].rect, q);
    }
}

/// Insertion keeps a regular tree anchored, where the new rectangle
/// intersects the bound of the tree.
pub proof fn lemma_insert_anchored(node: NodeView, m: Member, config: QuadTreeConfig)
    requires
        regular(node, config),
        anchored(node),
        node.bound().intersects(&m.rect),
    ensures
        anchored(node.insert(m, config)),
    decreases node,
{
    match node {
        NodeView::Leaf { bound, depth, members } => {
            if members.len() + 1 > config.max_entities && depth < config.max_depth {
                lemma_fan_out_anchored(bound, depth, members.reverse().push(m), config);
            }
        },
        NodeView::Branch { bound, top_right, top_left, bottom_left, bottom_right, .. } => {
            lemma_routes_to_quadrant(bound, m.rect, Quadrant::TopRight);
            lemma_routes_to_quadrant(bound, m.rect, Quadrant::TopLeft);
            lemma_routes_to_quadrant(bound, m.rect, Quadrant::BottomLeft);
            lemma_routes_to_quadrant(bound, m.rect, Quadrant::BottomRight);
            if routes_to(bound, m.rect, Quadrant::TopRight) {
                lemma_insert_anchored(*top_right, m, config);
            }
            if routes_to(bound, m.rect, Quadrant::TopLeft) {
                lemma_insert_anchored(*top_left, m, config);
            }
            if routes_to(bound, m.rect, Quadrant::BottomLeft) {
                lemma_insert_anchored(*bottom_left, m, config);
            }
            if routes_to(bound, m.rect, Quadrant::BottomRight) {
                lemma_insert_anchored(*bottom_right, m, config);
            }
        },
    }
}

/// After an insertion into a regular, anchored tree whose bound the new
/// rectangle intersects, the tree lists exactly the handles that it listed
/// before and the new one: nothing is lost, whatever was split.
pub proof fn lemma_insert_entities(
    node: NodeView,
    m: Member,
    config: QuadTreeConfig,
    e: EntityHandle,
)
    requires
        regular(node, config),
        anchored(node),
        node.bound().intersects(&m.rect),
    ensures
        node.insert(m, config).entities().contains(e) <==> node.entities().contains(e) || e
            == m.entity,
{
    lemma_insert_adds_only(node, m, config, e);
    if e == m.entity {
        lemma_insert_keeps(node, m, config, m);
    } else if node.entities().contains(e) {
        lemma_entities_holds(node, e);
        lemma_anchored_holds(node, e);
        let k = choose|k: Member| #[trigger] anchors(node, k) && k.entity == e;
        lemma_insert_keeps(node, m, config, k);
    }
}

/// A search lists no handle that the tree does not list.
pub proof fn lemma_around_entities(node: NodeView, rect: Rect, e: EntityHandle)
    ensures
        node.around(rect).contains(e) ==> node.entities().contains(e),
    decreases node,
{
    match node {
        NodeView::Leaf { .. } => {},
        NodeView::Branch { bound, top_right, top_left, bottom_left, bottom_right, .. } => {
            lemma_around_entities(*top_right, rect, e);
            lemma_around_entities(*top_left, rect, e);
            lemma_around_entities(*bottom_left, rect, e);
            lemma_around_entities(*bottom_right, rect, e);
            let none = Seq::<EntityHandle>::empty();
            let a = if routes_to(bound, rect, Quadrant::TopRight) {
                top_right.around(rect)
            } else {
                none
            };
            let b = if routes_to(bound, rect, Quadrant::TopLeft) {
                top_left.around(rect)
            } else {
                none
            };
            let c = if routes_to(bound, rect, Quadrant::BottomLeft) {
                bottom_left.around(rect)
            } else {
                none
            };
            let d = if routes_to(bound, rect, Quadrant::BottomRight) {
                bottom_right.around(rect)
            } else {
                none
            };
            lemma_concat_contains(a, b, e);
            lemma_concat_contains(a + b, c, e);
            lemma_concat_contains(a + b + c, d, e);
            let w = top_right.entities();
            let x = top_left.entities();
            let y = bottom_left.entities();
            let z = bottom_right.entities();
            lemma_concat_contains(w, x, e);
            lemma_concat_contains(w + x, y, e);
            lemma_concat_contains(w + x + y, z, e);
        },
    }
}

/// A search for a rectangle that a regular, anchored tree anchors a member
/// for, by that member's own rectangle, finds the member's handle: an object
/// is always among its own neighbours.
pub proof fn lemma_around_finds(node: NodeView, config: QuadTreeConfig, k: Member)
    requires
        regular(node, config),
        anchors(node, k),
    ensures
        node.around(k.rect).contains(k.entity),
    decreases node,
{
    match node {
        NodeView::Leaf { members, .. } => {
            lemma_names_contains(members, k.entity);
            lemma_entities_holds(node, k.entity);
        },
        NodeView::Branch { bound, top_right, top_left, bottom_left, bottom_right, .. } => {
            let none = Seq::<EntityHandle>::empty();
            let a = if routes_to(bound, k.rect, Quadrant::TopRight) {
                top_right.around(k.rect)
            } else {
                none
            };
            let b = if routes_to(bound, k.rect, Quadrant::TopLeft) {
                top_left.around(k.rect)
            } else {
                none
            };
            let c = if routes_to(bound, k.rect, Quadrant::BottomLeft) {
                bottom_left.around(k.rect)
            } else {
                none
            };
            let d = if routes_to(bound, k.rect, Quadrant::BottomRight) {
                bottom_right.around(k.rect)
            } else {
                none
            };
            lemma_concat_contains(a, b, k.entity);
            lemma_concat_contains(a + b, c, k.entity);
            lemma_concat_contains(a + b + c, d, k.entity);
            lemma_routes_to_quadrant(bound, k.rect, Quadrant::TopRight);
            lemma_routes_to_quadrant(bound, k.rect, Quadrant::TopLeft);
            lemma_routes_to_quadrant(bound, k.rect, Quadrant::BottomLeft);
            lemma_routes_to_quadrant(bound, k.rect, Quadrant::BottomRight);
            if anchors(*top_right, k) {
                lemma_anchors_intersects(*top_right, config, k);
                lemma_around_finds(*top_right, config, k);
            } else if anchors(*top_left, k) {
                lemma_anchors_intersects(*top_left, config, k);
                lemma_around_finds(*top_left, config, k);
            } else if anchors(*bottom_left, k) {
                lemma_anchors_intersects(*bottom_left, config, k);
                lemma_around_finds(*bottom_left, config, k);
            } else {
                lemma_anchors_intersects(*bottom_right, config, k);
                lemma_around_finds(*bottom_right, config, k);
            }
        },
    }
}

/// In a regular tree, the rectangle of an anchored member intersects the
/// bound of the tree.
pub proof fn lemma_anchors_intersects(node: NodeView, config: QuadTreeConfig, k: Member)
    requires
        regular(node, config),
        anchors(node, k),
    ensures
        node.bound().intersects(&k.rect),
    decreases node,
{
    match node {
        NodeView::Leaf { .. } => {},
        NodeView::Branch { bound, depth, top_right, top_left, bottom_left, bottom_right } => {
            let q = if anchors(*top_right, k) {
                Quadrant::TopRight
            } else if anchors(*top_left, k) {
                Quadrant::TopLeft
            } else if anchors(*bottom_left, k) {
                Quadrant::BottomLeft
            } else {
                Quadrant::BottomRight
            };
            lemma_anchors_intersects(node.child(q), config, k);
            lemma_quadrant_inside(bound, q);
        },
    }
}

} // verus!
