//! What holds of a rebuild: which handles it keeps, which it drops, and the
//! shape in which it leaves the tree.
use vstd::prelude::*;

use super::{
    displaced_by, evicted, kept, merged, merged_out, noted, pruned, pruned_out, rebuilt,
    reinserted, released,
};
use crate::rect::{lemma_contains_and_intersects, Rect};
use crate::tree::laws::{
    anchors, holds, lemma_anchors_holds, lemma_entities_holds, lemma_insert_anchors,
    lemma_insert_holds, lemma_insert_regular, lemma_insert_shape, lemma_insert_within_capacity,
    lemma_names_contains, lemma_push_contains, lemma_push_names, regular, within_capacity,
};
use crate::tree::node::{names, EntityHandle, Member, NodeView, QuadTreeConfig};

verus! {

/// Whether every member of `displaced` stands for a living object and
/// carries its rectangle of this tick.
pub open spec fn accurate(displaced: Seq<Member>, store: Map<u64, Rect>) -> bool {
    forall|i: int|
        0 <= i < displaced.len() ==> store.contains_key((#[trigger] displaced[i]).entity.id)
            && displaced[i].rect == store[displaced[i].entity.id]
}

/// The member that stands for the living object `e` at this tick.
pub open spec fn current(e: EntityHandle, store: Map<u64, Rect>) -> Member {
    Member { entity: e, rect: store[e.id] }
}

/// What a list names once a member was noted in it.
pub proof fn lemma_noted_names(displaced: Seq<Member>, m: Member, e: EntityHandle)
    ensures
        names(noted(displaced, m), e) <==> names(displaced, e) || e == m.entity,
{
    lemma_push_names(displaced, m, e);
}

/// Noting an accurate member keeps a list accurate.
pub proof fn lemma_noted_accurate(displaced: Seq<Member>, m: Member, store: Map<u64, Rect>)
    requires
        accurate(displaced, store),
        store.contains_key(m.entity.id),
        m.rect == store[m.entity.id],
    ensures
        accurate(noted(displaced, m), store),
{
}

/// An accurate list that names a handle contains the member that stands for
/// it at this tick.
pub proof fn lemma_accurate_contains(displaced: Seq<Member>, store: Map<u64, Rect>, e: EntityHandle)
    requires
        accurate(displaced, store),
        names(displaced, e),
    ensures
        displaced.contains(current(e, store)),
        store.contains_key(e.id),
{
    let i = choose|i: int| 0 <= i < displaced.len() && #[trigger] displaced[i].entity == e;
    assert(displaced[i] == current(e, store));
}

/// A swept leaf keeps no more members than it had.
pub proof fn lemma_kept_len(bound: Rect, members: Seq<Member>, store: Map<u64, Rect>)
    ensures
        kept(bound, members, store).len() <= members.len(),
    decreases members.len(),
{
    if members.len() > 0 {
        lemma_kept_len(bound, members.drop_last(), store);
    }
}

/// What a swept leaf keeps: living members only, each with its rectangle of
/// this tick, which the bound contains.
pub proof fn lemma_kept_contains(bound: Rect, members: Seq<Member>, store: Map<u64, Rect>, k: Member)
    ensures
        kept(bound, members, store).contains(k) <==> {
            &&& names(members, k.entity)
            &&& store.contains_key(k.entity.id)
            &&& k.rect == store[k.entity.id]
            &&& bound.contains(&k.rect)
        },
    decreases members.len(),
{
    if members.len() > 0 {
        let front = members.drop_last();
        let m = members.last();
        lemma_kept_contains(bound, front, store, k);
        assert(front.push(m) =~= members);
        lemma_push_names(front, m, k.entity);
        lemma_push_contains(kept(bound, front, store), current(m.entity, store), k);
    }
}

/// The handles that a swept leaf keeps: the living ones whose rectangle of
/// this tick the bound contains.
pub proof fn lemma_kept_names(bound: Rect, members: Seq<Member>, store: Map<u64, Rect>, e: EntityHandle)
    ensures
        names(kept(bound, members, store), e) <==> {
            &&& names(members, e)
            &&& store.contains_key(e.id)
            &&& bound.contains(&store[e.id])
        },
{
    let stay = kept(bound, members, store);
    lemma_names_contains(stay, e);
    if names(stay, e) {
        let k = choose|k: Member| #[trigger] stay.contains(k) && k.entity == e;
        lemma_kept_contains(bound, members, store, k);
    }
    lemma_kept_contains(bound, members, store, current(e, store));
}

/// What a sweep notes: the living members whose rectangle has left the
/// bound, besides what was noted before.
pub proof fn lemma_evicted_names(
    bound: Rect,
    members: Seq<Member>,
    store: Map<u64, Rect>,
    displaced: Seq<Member>,
    e: EntityHandle,
)
    ensures
        names(evicted(bound, members, store, displaced), e) <==> names(displaced, e) || {
            &&& names(members, e)
            &&& store.contains_key(e.id)
            &&& !bound.contains(&store[e.id])
        },
    decreases members.len(),
{
    if members.len() > 0 {
        let front = members.drop_last();
        let m = members.last();
        lemma_evicted_names(bound, front, store, displaced, e);
        assert(front.push(m) =~= members);
        lemma_push_names(front, m, e);
        lemma_noted_names(evicted(bound, front, store, displaced), current(m.entity, store), e);
    }
}

/// A sweep keeps the list of the displaced accurate.
pub proof fn lemma_evicted_accurate(
    bound: Rect,
    members: Seq<Member>,
    store: Map<u64, Rect>,
    displaced: Seq<Member>,
)
    requires
        accurate(displaced, store),
    ensures
        accurate(evicted(bound, members, store, displaced), store),
    decreases members.len(),
{
    if members.len() > 0 {
        let front = members.drop_last();
        let m = members.last();
        lemma_evicted_accurate(bound, front, store, displaced);
        if store.contains_key(m.entity.id) {
            lemma_noted_accurate(
                evicted(bound, front, store, displaced),
                current(m.entity, store),
                store,
            );
        }
    }
}

/// The removal traversal moves no node.
pub proof fn lemma_pruned_shape(node: NodeView, store: Map<u64, Rect>)
    ensures
        pruned(node, store).bound() == node.bound(),
        pruned(node, store).depth() == node.depth(),
{
}

/// The removal traversal keeps a tree regular.
pub proof fn lemma_pruned_regular(node: NodeView, store: Map<u64, Rect>, config: QuadTreeConfig)
    requires
        regular(node, config),
    ensures
        regular(pruned(node, store), config),
    decreases node,
{
    match node {
        NodeView::Leaf { .. } => {},
        NodeView::Branch { top_right, top_left, bottom_left, bottom_right, .. } => {
            lemma_pruned_regular(*top_right, store, config);
            lemma_pruned_shape(*top_right, store);
            lemma_pruned_regular(*top_left, store, config);
            lemma_pruned_shape(*top_left, store);
            lemma_pruned_regular(*bottom_left, store, config);
            lemma_pruned_shape(*bottom_left, store);
            lemma_pruned_regular(*bottom_right, store, config);
            lemma_pruned_shape(*bottom_right, store);
        },
    }
}

/// The removal traversal keeps a tree within capacity.
pub proof fn lemma_pruned_within_capacity(
    node: NodeView,
    store: Map<u64, Rect>,
    config: QuadTreeConfig,
)
    requires
        within_capacity(node, config),
    ensures
        within_capacity(pruned(node, store), config),
    decreases node,
{
    match node {
        NodeView::Leaf { bound, members, .. } => {
            lemma_kept_len(bound, members, store);
        },
        NodeView::Branch { top_right, top_left, bottom_left, bottom_right, .. } => {
            lemma_pruned_within_capacity(*top_right, store, config);
            lemma_pruned_shape(*top_right, store);
            lemma_pruned_within_capacity(*top_left, store, config);
            lemma_pruned_shape(*top_left, store);
            lemma_pruned_within_capacity(*bottom_left, store, config);
            lemma_pruned_shape(*bottom_left, store);
            lemma_pruned_within_capacity(*bottom_right, store, config);
            lemma_pruned_shape(*bottom_right, store);
        },
    }
}

/// After the removal traversal the tree holds living handles only, and none
/// that it did not hold.
pub proof fn lemma_pruned_holds(node: NodeView, store: Map<u64, Rect>, e: EntityHandle)
    ensures
        holds(pruned(node, store), e) ==> holds(node, e) && store.contains_key(e.id),
    decreases node,
{
    match node {
        NodeView::Leaf { bound, members, .. } => {
            lemma_kept_names(bound, members, store, e);
        },
        NodeView::Branch { top_right, top_left, bottom_left, bottom_right, .. } => {
            lemma_pruned_holds(*top_right, store, e);
            lemma_pruned_holds(*top_left, store, e);
            lemma_pruned_holds(*bottom_left, store, e);
            lemma_pruned_holds(*bottom_right, store, e);
        },
    }
}

/// The removal traversal notes living handles of the tree only, and keeps
/// what was noted before.
pub proof fn lemma_pruned_out_names(
    node: NodeView,
    store: Map<u64, Rect>,
    displaced: Seq<Member>,
    e: EntityHandle,
)
    ensures
        names(displaced, e) ==> names(pruned_out(node, store, displaced), e),
        names(pruned_out(node, store, displaced), e) ==> names(displaced, e) || (holds(node, e)
            && store.contains_key(e.id)),
    decreases node,
{
    match node {
        NodeView::Leaf { bound, members, .. } => {
            lemma_evicted_names(bound, members, store, displaced, e);
        },
        NodeView::Branch { top_right, top_left, bottom_left, bottom_right, .. } => {
            let d1 = pruned_out(*top_right, store, displaced);
            let d2 = pruned_out(*top_left, store, d1);
            let d3 = pruned_out(*bottom_left, store, d2);
            lemma_pruned_out_names(*top_right, store, displaced, e);
            lemma_pruned_out_names(*top_left, store, d1, e);
            lemma_pruned_out_names(*bottom_left, store, d2, e);
            lemma_pruned_out_names(*bottom_right, store, d3, e);
        },
    }
}

/// The removal traversal keeps the list of the displaced accurate.
pub proof fn lemma_pruned_out_accurate(
    node: NodeView,
    store: Map<u64, Rect>,
    displaced: Seq<Member>,
)
    requires
        accurate(displaced, store),
    ensures
        accurate(pruned_out(node, store, displaced), store),
    decreases node,
{
    match node {
        NodeView::Leaf { bound, members, .. } => {
            lemma_evicted_accurate(bound, members, store, displaced);
        },
        NodeView::Branch { top_right, top_left, bottom_left, bottom_right, .. } => {
            let d1 = pruned_out(*top_right, store, displaced);
            let d2 = pruned_out(*top_left, store, d1);
            let d3 = pruned_out(*bottom_left, store, d2);
            lemma_pruned_out_accurate(*top_right, store, displaced);
            lemma_pruned_out_accurate(*top_left, store, d1);
            lemma_pruned_out_accurate(*bottom_left, store, d2);
            lemma_pruned_out_accurate(*bottom_right, store, d3);
        },
    }
}

/// The removal traversal loses no living handle: each stays anchored in its
/// leaf, with its rectangle of this tick, or is noted.
pub proof fn lemma_pruned_keeps(
    node: NodeView,
    store: Map<u64, Rect>,
    displaced: Seq<Member>,
    e: EntityHandle,
)
    requires
        holds(node, e),
        store.contains_key(e.id),
    ensures
        anchors(pruned(node, store), current(e, store)) || names(
            pruned_out(node, store, displaced),
            e,
        ),
    decreases node,
{
    match node {
        NodeView::Leaf { bound, members, .. } => {
            lemma_kept_contains(bound, members, store, current(e, store));
            lemma_evicted_names(bound, members, store, displaced, e);
            lemma_contains_and_intersects(bound, store[e.id]);
        },
        NodeView::Branch { top_right, top_left, bottom_left, bottom_right, .. } => {
            let d1 = pruned_out(*top_right, store, displaced);
            let d2 = pruned_out(*top_left, store, d1);
            let d3 = pruned_out(*bottom_left, store, d2);
            lemma_pruned_out_names(*top_left, store, d1, e);
            lemma_pruned_out_names(*bottom_left, store, d2, e);
            lemma_pruned_out_names(*bottom_right, store, d3, e);
            if holds(*top_right, e) {
                lemma_pruned_keeps(*top_right, store, displaced, e);
            } else if holds(*top_left, e) {
                lemma_pruned_keeps(*top_left, store, d1, e);
            } else if holds(*bottom_left, e) {
                lemma_pruned_keeps(*bottom_left, store, d2, e);
            } else {
                lemma_pruned_keeps(*bottom_right, store, d3, e);
            }
        },
    }
}


/// What a collapse notes: the living handles among those released, besides
/// what was noted before.
pub proof fn lemma_released_names(
    entities: Seq<EntityHandle>,
    store: Map<u64, Rect>,
    displaced: Seq<Member>,
    e: EntityHandle,
)
    ensures
        names(released(entities, store, displaced), e) <==> names(displaced, e) || (
        entities.contains(e) && store.contains_key(e.id)),
    decreases entities.len(),
{
    if entities.len() > 0 {
        let front = entities.drop_last();
        let last = entities.last();
        lemma_released_names(front, store, displaced, e);
        assert(front.push(last) =~= entities);
        lemma_push_contains(front, last, e);
        lemma_noted_names(released(front, store, displaced), current(last, store), e);
    }
}

/// A collapse keeps the list of the displaced accurate.
pub proof fn lemma_released_accurate(
    entities: Seq<EntityHandle>,
    store: Map<u64, Rect>,
    displaced: Seq<Member>,
)
    requires
        accurate(displaced, store),
    ensures
        accurate(released(entities, store, displaced), store),
    decreases entities.len(),
{
    if entities.len() > 0 {
        let front = entities.drop_last();
        let last = entities.last();
        lemma_released_accurate(front, store, displaced);
        if store.contains_key(last.id) {
            lemma_noted_accurate(released(front, store, displaced), current(last, store), store);
        }
    }
}

/// The merge traversal moves no node.
pub proof fn lemma_merged_shape(node: NodeView, config: QuadTreeConfig)
    ensures
        merged(node, config).bound() == node.bound(),
        merged(node, config).depth() == node.depth(),
{
}

/// The merge traversal keeps a tree regular.
pub proof fn lemma_merged_regular(node: NodeView, config: QuadTreeConfig)
    requires
        regular(node, config),
    ensures
        regular(merged(node, config), config),
    decreases node,
{
    match node {
        NodeView::Leaf { .. } => {},
        NodeView::Branch { top_right, top_left, bottom_left, bottom_right, .. } => {
            lemma_merged_regular(*top_right, config);
            lemma_merged_shape(*top_right, config);
            lemma_merged_regular(*top_left, config);
            lemma_merged_shape(*top_left, config);
            lemma_merged_regular(*bottom_left, config);
            lemma_merged_shape(*bottom_left, config);
            lemma_merged_regular(*bottom_right, config);
            lemma_merged_shape(*bottom_right, config);
        },
    }
}

/// The merge traversal keeps a tree within capacity.
pub proof fn lemma_merged_within_capacity(node: NodeView, config: QuadTreeConfig)
    requires
        within_capacity(node, config),
    ensures
        within_capacity(merged(node, config), config),
    decreases node,
{
    match node {
        NodeView::Leaf { .. } => {},
        NodeView::Branch { top_right, top_left, bottom_left, bottom_right, .. } => {
            lemma_merged_within_capacity(*top_right, config);
            lemma_merged_shape(*top_right, config);
            lemma_merged_within_capacity(*top_left, config);
            lemma_merged_shape(*top_left, config);
            lemma_merged_within_capacity(*bottom_left, config);
            lemma_merged_shape(*bottom_left, config);
            lemma_merged_within_capacity(*bottom_right, config);
            lemma_merged_shape(*bottom_right, config);
        },
    }
}

/// After the merge traversal the tree holds no handle that it did not hold.
pub proof fn lemma_merged_holds(node: NodeView, config: QuadTreeConfig, e: EntityHandle)
    ensures
        holds(merged(node, config), e) ==> holds(node, e),
    decreases node,
{
    match node {
        NodeView::Leaf { .. } => {},
        NodeView::Branch { top_right, top_left, bottom_left, bottom_right, .. } => {
            assert(!names(Seq::<Member>::empty(), e));
            lemma_merged_holds(*top_right, config, e);
            lemma_merged_holds(*top_left, config, e);
            lemma_merged_holds(*bottom_left, config, e);
            lemma_merged_holds(*bottom_right, config, e);
        },
    }
}

/// The merge traversal notes living handles of the tree only, and keeps what
/// was noted before.
pub proof fn lemma_merged_out_names(
    node: NodeView,
    config: QuadTreeConfig,
    store: Map<u64, Rect>,
    displaced: Seq<Member>,
    e: EntityHandle,
)
    ensures
        names(displaced, e) ==> names(merged_out(node, config, store, displaced), e),
        names(merged_out(node, config, store, displaced), e) ==> names(displaced, e) || (holds(
            node,
            e,
        ) && store.contains_key(e.id)),
    decreases node,
{
    match node {
        NodeView::Leaf { .. } => {},
        NodeView::Branch { top_right, top_left, bottom_left, bottom_right, .. } => {
            if node.entities().len() <= config.max_entities {
                lemma_released_names(node.entities(), store, displaced, e);
                lemma_entities_holds(node, e);
            } else {
                let d1 = merged_out(*top_right, config, store, displaced);
                let d2 = merged_out(*top_left, config, store, d1);
                let d3 = merged_out(*bottom_left, config, store, d2);
                lemma_merged_out_names(*top_right, config, store, displaced, e);
                lemma_merged_out_names(*top_left, config, store, d1, e);
                lemma_merged_out_names(*bottom_left, config, store, d2, e);
                lemma_merged_out_names(*bottom_right, config, store, d3, e);
            }
        },
    }
}

/// The merge traversal keeps the list of the displaced accurate.
pub proof fn lemma_merged_out_accurate(
    node: NodeView,
    config: QuadTreeConfig,
    store: Map<u64, Rect>,
    displaced: Seq<Member>,
)
    requires
        accurate(displaced, store),
    ensures
        accurate(merged_out(node, config, store, displaced), store),
    decreases node,
{
    match node {
        NodeView::Leaf { .. } => {},
        NodeView::Branch { top_right, top_left, bottom_left, bottom_right, .. } => {
            if node.entities().len() <= config.max_entities {
                lemma_released_accurate(node.entities(), store, displaced);
            } else {
                let d1 = merged_out(*top_right, config, store, displaced);
                let d2 = merged_out(*top_left, config, store, d1);
                let d3 = merged_out(*bottom_left, config, store, d2);
                lemma_merged_out_accurate(*top_right, config, store, displaced);
                lemma_merged_out_accurate(*top_left, config, store, d1);
                lemma_merged_out_accurate(*bottom_left, config, store, d2);
                lemma_merged_out_accurate(*bottom_right, config, store, d3);
            }
        },
    }
}

/// The merge traversal loses no living member: each that was anchored stays
/// so, or its handle is noted.
pub proof fn lemma_merged_keeps(
    node: NodeView,
    config: QuadTreeConfig,
    store: Map<u64, Rect>,
    displaced: Seq<Member>,
    k: Member,
)
    requires
        anchors(node, k),
        store.contains_key(k.entity.id),
    ensures
        anchors(merged(node, config), k) || names(
            merged_out(node, config, store, displaced),
            k.entity,
        ),
    decreases node,
{
    match node {
        NodeView::Leaf { .. } => {},
        NodeView::Branch { top_right, top_left, bottom_left, bottom_right, .. } => {
            if node.entities().len() <= config.max_entities {
                lemma_released_names(node.entities(), store, displaced, k.entity);
                lemma_anchors_holds(node, k);
            } else {
                let d1 = merged_out(*top_right, config, store, displaced);
                let d2 = merged_out(*top_left, config, store, d1);
                let d3 = merged_out(*bottom_left, config, store, d2);
                lemma_merged_out_names(*top_left, config, store, d1, k.entity);
                lemma_merged_out_names(*bottom_left, config, store, d2, k.entity);
                lemma_merged_out_names(*bottom_right, config, store, d3, k.entity);
                if anchors(*top_right, k) {
                    lemma_merged_keeps(*top_right, config, store, displaced, k);
                } else if anchors(*top_left, k) {
                    lemma_merged_keeps(*top_left, config, store, d1, k);
                } else if anchors(*bottom_left, k) {
                    lemma_merged_keeps(*bottom_left, config, store, d2, k);
                } else {
                    lemma_merged_keeps(*bottom_right, config, store, d3, k);
                }
            }
        },
    }
}

/// Reinsertion moves no node and keeps the tree regular and within capacity.
pub proof fn lemma_reinserted_shape(node: NodeView, displaced: Seq<Member>, config: QuadTreeConfig)
    ensures
        reinserted(node, displaced, config).bound() == node.bound(),
        reinserted(node, displaced, config).depth() == node.depth(),
        regular(node, config) ==> regular(reinserted(node, displaced, config), config),
        within_capacity(node, config) ==> within_capacity(
            reinserted(node, displaced, config),
            config,
        ),
    decreases displaced.len(),
{
    if displaced.len() > 0 {
        let next = node.insert(displaced.last(), config);
        lemma_insert_shape(node, displaced.last(), config);
        if regular(node, config) {
            lemma_insert_regular(node, displaced.last(), config);
        }
        if within_capacity(node, config) {
            lemma_insert_within_capacity(node, displaced.last(), config);
        }
        lemma_reinserted_shape(next, displaced.drop_last(), config);
    }
}

/// Reinsertion adds no handle but those that were displaced.
pub proof fn lemma_reinserted_holds(
    node: NodeView,
    displaced: Seq<Member>,
    config: QuadTreeConfig,
    e: EntityHandle,
)
    ensures
        holds(reinserted(node, displaced, config), e) ==> holds(node, e) || names(displaced, e),
    decreases displaced.len(),
{
    if displaced.len() > 0 {
        let front = displaced.drop_last();
        let next = node.insert(displaced.last(), config);
        lemma_reinserted_holds(next, front, config, e);
        lemma_insert_holds(node, displaced.last(), config, e);
        assert(front.push(displaced.last()) =~= displaced);
        lemma_push_names(front, displaced.last(), e);
    }
}

/// Reinsertion into a regular tree loses nothing: it anchors what the tree
/// anchored, and each displaced member whose rectangle intersects the bound
/// of the tree, and nothing else.
pub proof fn lemma_reinserted_anchors(
    node: NodeView,
    displaced: Seq<Member>,
    config: QuadTreeConfig,
    k: Member,
)
    requires
        regular(node, config),
    ensures
        anchors(reinserted(node, displaced, config), k) <==> anchors(node, k) || (
        displaced.contains(k) && node.bound().intersects(&k.rect)),
    decreases displaced.len(),
{
    if displaced.len() > 0 {
        let front = displaced.drop_last();
        let next = node.insert(displaced.last(), config);
        lemma_insert_regular(node, displaced.last(), config);
        lemma_insert_shape(node, displaced.last(), config);
        lemma_insert_anchors(node, displaced.last(), config, k);
        lemma_reinserted_anchors(next, front, config, k);
        assert(front.push(displaced.last()) =~= displaced);
        lemma_push_contains(front, displaced.last(), k);
    }
}

/// A rebuild leaves a regular tree regular and a tree within capacity
/// within capacity, and moves no node.
pub proof fn lemma_rebuilt_shape(node: NodeView, store: Map<u64, Rect>, config: QuadTreeConfig)
    ensures
        rebuilt(node, store, config).bound() == node.bound(),
        rebuilt(node, store, config).depth() == node.depth(),
        regular(node, config) ==> regular(rebuilt(node, store, config), config),
        within_capacity(node, config) ==> within_capacity(rebuilt(node, store, config), config),
{
    let swept = pruned(node, store);
    lemma_pruned_shape(node, store);
    lemma_merged_shape(swept, config);
    if regular(node, config) {
        lemma_pruned_regular(node, store, config);
        lemma_merged_regular(swept, config);
    }
    if within_capacity(node, config) {
        lemma_pruned_within_capacity(node, store, config);
        lemma_merged_within_capacity(swept, config);
    }
    lemma_reinserted_shape(merged(swept, config), displaced_by(node, store, config), config);
}

/// After a rebuild the tree lists living handles only, and none that it did
/// not list before: a destroyed object is in no leaf.
pub proof fn lemma_rebuilt_only_living(
    node: NodeView,
    store: Map<u64, Rect>,
    config: QuadTreeConfig,
    e: EntityHandle,
)
    ensures
        rebuilt(node, store, config).entities().contains(e) ==> node.entities().contains(e)
            && store.contains_key(e.id),
{
    let none = Seq::<Member>::empty();
    let swept = pruned(node, store);
    let first = pruned_out(node, store, none);
    lemma_entities_holds(rebuilt(node, store, config), e);
    lemma_entities_holds(node, e);
    lemma_reinserted_holds(merged(swept, config), displaced_by(node, store, config), config, e);
    lemma_merged_holds(swept, config, e);
    lemma_merged_out_names(swept, config, store, first, e);
    lemma_pruned_holds(node, store, e);
    lemma_pruned_out_names(node, store, none, e);
    assert(!names(none, e));
}

/// A rebuild of a regular tree loses no living handle whose rectangle of
/// this tick intersects the bound of the tree: it is anchored afterwards,
/// with that rectangle.
pub proof fn lemma_rebuilt_keeps(
    node: NodeView,
    store: Map<u64, Rect>,
    config: QuadTreeConfig,
    e: EntityHandle,
)
    requires
        regular(node, config),
        node.entities().contains(e),
        store.contains_key(e.id),
        node.bound().intersects(&store[e.id]),
    ensures
        anchors(rebuilt(node, store, config), current(e, store)),
        rebuilt(node, store, config).entities().contains(e),
{
    let none = Seq::<Member>::empty();
    let k = current(e, store);
    let swept = pruned(node, store);
    let first = pruned_out(node, store, none);
    let joined = merged(swept, config);
    let all = displaced_by(node, store, config);
    lemma_entities_holds(node, e);
    lemma_pruned_keeps(node, store, none, e);
    lemma_pruned_out_accurate(node, store, none);
    lemma_merged_out_accurate(swept, config, store, first);
    lemma_merged_out_names(swept, config, store, first, e);
    if anchors(swept, k) {
        lemma_merged_keeps(swept, config, store, first, k);
    }
    if names(all, e) {
        lemma_accurate_contains(all, store, e);
    }
    lemma_pruned_regular(node, store, config);
    lemma_merged_regular(swept, config);
    lemma_pruned_shape(node, store);
    lemma_merged_shape(swept, config);
    lemma_reinserted_anchors(joined, all, config, k);
    lemma_anchors_holds(rebuilt(node, store, config), k);
}


/// The merge traversal turns a branch into a leaf exactly when the branch
/// lists at most `config.max_entities` handles; where no handle is listed
/// twice, that is when it holds at most so many different handles. The leaf
/// is empty, and the living handles of the branch are what was noted for it.
pub proof fn lemma_merge_collapses(
    node: NodeView,
    config: QuadTreeConfig,
    store: Map<u64, Rect>,
    displaced: Seq<Member>,
    e: EntityHandle,
)
    requires
        node is Branch,
    ensures
        merged(node, config) is Leaf <==> node.entities().len() <= config.max_entities,
        node.entities().no_duplicates() ==> (merged(node, config) is Leaf
            <==> node.entities().to_set().len() <= config.max_entities),
        merged(node, config) is Leaf ==> {
            &&& merged(node, config) == NodeView::empty_leaf(node.bound(), node.depth())
            &&& names(merged_out(node, config, store, displaced), e) <==> names(displaced, e) || (
            node.entities().contains(e) && store.contains_key(e.id))
        },
{
    if node.entities().no_duplicates() {
        node.entities().unique_seq_to_set();
    }
    lemma_released_names(node.entities(), store, displaced, e);
}

/// Whether the tree is at rest for this tick: every member is alive, carries
/// its rectangle of this tick and lies wholly in the bound of its leaf, and
/// every branch lists more handles than a leaf may hold.
pub open spec fn settled(node: NodeView, store: Map<u64, Rect>, config: QuadTreeConfig) -> bool
    decreases node,
{
    match node {
        NodeView::Leaf { bound, members, .. } => forall|i: int|
            0 <= i < members.len() ==> {
                &&& store.contains_key((#[trigger] members[i]).entity.id)
                &&& members[i].rect == store[members[i].entity.id]
                &&& bound.contains(&members[i].rect)
            },
        NodeView::Branch { top_right, top_left, bottom_left, bottom_right, .. } => {
            &&& node.entities().len() > config.max_entities
            &&& settled(*top_right, store, config)
            &&& settled(*top_left, store, config)
            &&& settled(*bottom_left, store, config)
            &&& settled(*bottom_right, store, config)
        },
    }
}

/// A sweep changes nothing in a leaf whose members are all alive, up to
/// date and inside its bound.
pub proof fn lemma_sweep_settled(
    bound: Rect,
    members: Seq<Member>,
    store: Map<u64, Rect>,
    displaced: Seq<Member>,
)
    requires
        forall|i: int|
            0 <= i < members.len() ==> {
                &&& store.contains_key((#[trigger] members[i]).entity.id)
                &&& members[i].rect == store[members[i].entity.id]
                &&& bound.contains(&members[i].rect)
            },
    ensures
        kept(bound, members, store) == members,
        evicted(bound, members, store, displaced) == displaced,
    decreases members.len(),
{
    if members.len() > 0 {
        let front = members.drop_last();
        assert(members.last() == members[members.len() - 1]);
        assert forall|i: int| 0 <= i < front.len() implies {
            &&& store.contains_key((#[trigger] front[i]).entity.id)
            &&& front[i].rect == store[front[i].entity.id]
            &&& bound.contains(&front[i].rect)
        } by {
            assert(front[i] == members[i]);
        }
        lemma_sweep_settled(bound, front, store, displaced);
        assert(front.push(members.last()) =~= members);
    } else {
        assert(members =~= Seq::<Member>::empty());
    }
}

/// Neither traversal changes a settled tree or notes anything for it.
pub proof fn lemma_settled_untouched(
    node: NodeView,
    store: Map<u64, Rect>,
    config: QuadTreeConfig,
    displaced: Seq<Member>,
)
    requires
        settled(node, store, config),
    ensures
        pruned(node, store) == node,
        pruned_out(node, store, displaced) == displaced,
        merged(node, config) == node,
        merged_out(node, config, store, displaced) == displaced,
    decreases node,
{
    match node {
        NodeView::Leaf { bound, members, .. } => {
            lemma_sweep_settled(bound, members, store, displaced);
        },
        NodeView::Branch { top_right, top_left, bottom_left, bottom_right, .. } => {
            lemma_settled_untouched(*top_right, store, config, displaced);
            lemma_settled_untouched(*top_left, store, config, displaced);
            lemma_settled_untouched(*bottom_left, store, config, displaced);
            lemma_settled_untouched(*bottom_right, store, config, displaced);
        },
    }
}

/// A rebuild changes nothing in a settled tree, so that a second rebuild
/// with no motion in between changes nothing either.
pub proof fn lemma_rebuilt_settled(node: NodeView, store: Map<u64, Rect>, config: QuadTreeConfig)
    requires
        settled(node, store, config),
    ensures
        rebuilt(node, store, config) == node,
        rebuilt(rebuilt(node, store, config), store, config) == rebuilt(node, store, config),
{
    let none = Seq::<Member>::empty();
    lemma_settled_untouched(node, store, config, none);
}


/// After a rebuild of a regular tree, the tree lists exactly the living
/// handles that it listed before, as long as the rectangle of this tick of
/// each of them intersects the bound of the tree.
pub proof fn lemma_rebuilt_entities(
    node: NodeView,
    store: Map<u64, Rect>,
    config: QuadTreeConfig,
    e: EntityHandle,
)
    requires
        regular(node, config),
        store.contains_key(e.id) ==> node.bound().intersects(&store[e.id]),
    ensures
        rebuilt(node, store, config).entities().contains(e) <==> node.entities().contains(e)
            && store.contains_key(e.id),
{
    lemma_rebuilt_only_living(node, store, config, e);
    if node.entities().contains(e) && store.contains_key(e.id) {
        lemma_rebuilt_keeps(node, store, config, e);
    }
}


/// A second rebuild with no motion in between keeps the handles of the
/// first: what a regular tree lists after one rebuild it lists after two, as
/// long as the rectangles of this tick intersect the bound of the tree.
pub proof fn lemma_rebuilt_twice_entities(
    node: NodeView,
    store: Map<u64, Rect>,
    config: QuadTreeConfig,
    e: EntityHandle,
)
    requires
        regular(node, config),
        store.contains_key(e.id) ==> node.bound().intersects(&store[e.id]),
    ensures
        rebuilt(rebuilt(node, store, config), store, config).entities().contains(e) <==> rebuilt(
            node,
            store,
            config,
        ).entities().contains(e),
{
    lemma_rebuilt_entities(node, store, config, e);
    lemma_rebuilt_shape(node, store, config);
    lemma_rebuilt_entities(rebuilt(node, store, config), store, config, e);
}

} // verus!
