//! What the tree of a file holds.

use vstd::prelude::*;

use super::selection::is_root;
use super::{lemma_positions_push, lemma_positions_skip};
use crate::commands::file::tree;
use crate::commands::file::tree::{FaultView, NodeView};
use crate::commands::file::Components;
use crate::component_path::PathView;
use crate::model::{Pptr, SceneFile};
use crate::{laws, model, resolve};

verus! {

/// Whether a pointer leads to a MonoBehaviour.
pub open spec fn is_script(file: SceneFile, pptr: Pptr) -> bool {
    model::object_at(file, pptr) matches Ok(object) && object.class_id == 114
}

proof fn lemma_labels(file: SceneFile, components: Seq<Pptr>, scripts: bool, n: int) -> (at: Seq<
    int,
>)
    requires
        0 <= n <= components.len(),
        tree::shown_labels(file, components.take(n), scripts) is Ok,
    ensures
        laws::are_positions(at, n, |i: int| scripts ==> is_script(file, components[i])),
        !scripts ==> at.len() == n && forall|k: int| 0 <= k < n ==> #[trigger] at[k] == k,
        ({
            let labels = tree::shown_labels(file, components.take(n), scripts)->Ok_0;
            &&& labels.len() == at.len()
            &&& forall|j: int|
                0 <= j < at.len() ==> model::label_at(file, components[at[j]]) == Ok::<
                    Seq<char>,
                    Seq<char>,
                >(#[trigger] labels[j])
        }),
    decreases n,
{
    let wanted = |i: int| scripts ==> is_script(file, components[i]);
    if n == 0 {
        Seq::empty()
    } else {
        let part = components.take(n);
        assert(part.drop_last() =~= components.take(n - 1));
        assert(part.last() == components[n - 1]);
        let before = lemma_labels(file, components, scripts, n - 1);
        if wanted(n - 1) {
            lemma_positions_push(before, n - 1, wanted);
            before.push(n - 1)
        } else {
            lemma_positions_skip(before, n - 1, wanted);
            before
        }
    }
}

/// Whether `at` are the positions of the components to show: of all, or of all
/// MonoBehaviours.
pub open spec fn are_shown(at: Seq<int>, file: SceneFile, components: Seq<Pptr>, scripts: bool) -> bool {
    laws::are_positions(
        at,
        components.len() as int,
        |i: int| scripts ==> is_script(file, components[i]),
    )
}

/// The labels shown of components are those of all of them, or of all MonoBehaviours
/// among them, in order.
pub proof fn labels_are_shown_of_every_component(
    file: SceneFile,
    components: Seq<Pptr>,
    scripts: bool,
) -> (at: Seq<int>)
    requires
        tree::shown_labels(file, components, scripts) is Ok,
    ensures
        are_shown(at, file, components, scripts),
        !scripts ==> at.len() == components.len() && forall|k: int|
            0 <= k < at.len() ==> #[trigger] at[k] == k,
        ({
            let labels = tree::shown_labels(file, components, scripts)->Ok_0;
            &&& labels.len() == at.len()
            &&& forall|j: int|
                0 <= j < at.len() ==> model::label_at(file, components[at[j]]) == Ok::<
                    Seq<char>,
                    Seq<char>,
                >(#[trigger] labels[j])
        }),
{
    assert(components.take(components.len() as int) =~= components);
    lemma_labels(file, components, scripts, components.len() as int)
}

/// Whether the node of the Transform that a pointer leads to is not pruned.
pub open spec fn is_kept(file: SceneFile, node: Pptr, components: Components, fuel: nat) -> bool {
    tree::built(file, node, components, fuel) matches Ok(Some(_))
}

/// Whether `at` are the positions of those Transforms whose nodes are not pruned.
pub open spec fn are_kept(
    at: Seq<int>,
    file: SceneFile,
    nodes: Seq<Pptr>,
    components: Components,
    fuel: nat,
) -> bool {
    laws::are_positions(
        at,
        nodes.len() as int,
        |i: int| is_kept(file, nodes[i], components, (fuel - 1) as nat),
    )
}

proof fn lemma_children(
    file: SceneFile,
    nodes: Seq<Pptr>,
    n: nat,
    components: Components,
    fuel: nat,
) -> (at: Seq<int>)
    requires
        n <= nodes.len(),
        tree::built_among(file, nodes, n, components, fuel) is Ok,
    ensures
        n > 0 ==> fuel > 0,
        laws::are_positions(
            at,
            n as int,
            |i: int| is_kept(file, nodes[i], components, (fuel - 1) as nat),
        ),
        ({
            let out = tree::built_among(file, nodes, n, components, fuel)->Ok_0;
            &&& out.len() == at.len()
            &&& forall|j: int|
                0 <= j < at.len() ==> tree::built(file, nodes[at[j]], components, (fuel - 1) as nat)
                    == Ok::<Option<NodeView>, FaultView>(Some(#[trigger] out[j]))
        }),
        forall|i: int|
            0 <= i < n ==> tree::built(
                file,
                #[trigger] nodes[i],
                components,
                (fuel - 1) as nat,
            ) is Ok,
    decreases n,
{
    let wanted = |i: int| is_kept(file, nodes[i], components, (fuel - 1) as nat);
    if n == 0 {
        Seq::empty()
    } else {
        let before = lemma_children(file, nodes, (n - 1) as nat, components, fuel);
        if wanted(n - 1) {
            lemma_positions_push(before, n - 1, wanted);
            before.push(n - 1)
        } else {
            lemma_positions_skip(before, n - 1, wanted);
            before
        }
    }
}

/// With components hidden or all shown, nothing is pruned.
proof fn lemma_full_is_kept(file: SceneFile, node: Pptr, components: Components, fuel: nat)
    requires
        components != Components::Scripts,
        tree::built(file, node, components, fuel) is Ok,
    ensures
        is_kept(file, node, components, fuel),
{
}

proof fn lemma_all_positions(at: Seq<int>, n: int, wanted: spec_fn(int) -> bool)
    requires
        n >= 0,
        laws::are_positions(at, n, wanted),
        forall|i: int| 0 <= i < n ==> #[trigger] wanted(i),
    ensures
        at == Seq::new(n as nat, |i: int| i),
    decreases n,
{
    if n == 0 {
        if at.len() > 0 {
            assert(wanted(at[0]));
        }
        assert(at =~= Seq::new(0, |i: int| i));
    } else {
        assert(wanted(n - 1));
        assert(at.contains(n - 1));
        let j = choose|j: int| 0 <= j < at.len() && at[j] == n - 1;
        if j < at.len() - 1 {
            assert(at[j] < at[at.len() - 1]);
        }
        let before = at.drop_last();
        assert(laws::are_positions(before, n - 1, wanted)) by {
            assert forall|i: int| 0 <= i < n - 1 && #[trigger] wanted(i) implies before.contains(
                i,
            ) by {
                assert(at.contains(i));
                let k = choose|k: int| 0 <= k < at.len() && at[k] == i;
                assert(before[k] == i);
            }
            assert forall|k: int| 0 <= k < before.len() implies 0 <= #[trigger] before[k] < n - 1
                && wanted(before[k]) by {
                assert(at[k] < at[at.len() - 1]);
            }
        }
        lemma_all_positions(before, n - 1, wanted);
        assert(at =~= before.push(n - 1));
        assert(at =~= Seq::new(n as nat, |i: int| i));
    }
}

/// With components hidden or all shown, a tree leaves nothing out: a node has the name
/// and the path id of the GameObject that its Transform places, as many children as the
/// Transform, each the node of the child in its place, and a label for every component
/// where they are shown.
pub proof fn a_full_tree_leaves_nothing_out(
    file: SceneFile,
    node: Pptr,
    components: Components,
    fuel: nat,
)
    requires
        components != Components::Scripts,
        tree::built(file, node, components, fuel) is Ok,
    ensures
        ({
            &&& tree::built(file, node, components, fuel) matches Ok(Some(out))
            &&& model::transform_at(file, node) matches Ok(transform)
            &&& model::game_object_at(file, transform.game_object) matches Ok(game_object)
            &&& out.name == game_object.name@
            &&& out.path_id == transform.game_object.path_id
            &&& out.children.len() == transform.children@.len()
            &&& out.children.len() > 0 ==> fuel > 0
            &&& forall|k: int|
                0 <= k < out.children.len() ==> tree::built(
                    file,
                    transform.children@[k],
                    components,
                    (fuel - 1) as nat,
                ) == Ok::<Option<NodeView>, FaultView>(Some(#[trigger] out.children[k]))
            &&& components == Components::Hidden ==> out.components.len() == 0
            &&& components == Components::All ==> out.components.len()
                == game_object.components@.len() && forall|k: int|
                0 <= k < out.components.len() ==> model::label_at(file, game_object.components@[k])
                    == Ok::<Seq<char>, Seq<char>>(#[trigger] out.components[k])
        }),
{
    let out = tree::built(file, node, components, fuel)->Ok_0->0;
    let transform = model::transform_at(file, node)->Ok_0;
    let game_object = model::game_object_at(file, transform.game_object)->Ok_0;
    let nodes = transform.children@;
    let at = lemma_children(file, nodes, nodes.len(), components, fuel);
    let wanted = |i: int| is_kept(file, nodes[i], components, (fuel - 1) as nat);
    assert forall|i: int| 0 <= i < nodes.len() implies #[trigger] wanted(i) by {
        assert(tree::built(file, nodes[i], components, (fuel - 1) as nat) is Ok);
        lemma_full_is_kept(file, nodes[i], components, (fuel - 1) as nat);
    }
    lemma_all_positions(at, nodes.len() as int, wanted);
    assert forall|k: int| 0 <= k < out.children.len() implies tree::built(
        file,
        nodes[k],
        components,
        (fuel - 1) as nat,
    ) == Ok::<Option<NodeView>, FaultView>(Some(#[trigger] out.children[k])) by {
        assert(at[k] == k);
    }
    if components == Components::All {
        let held = game_object.components@;
        let places = labels_are_shown_of_every_component(file, held, false);
        assert forall|k: int| 0 <= k < out.components.len() implies model::label_at(file, held[k])
            == Ok::<Seq<char>, Seq<char>>(#[trigger] out.components[k]) by {
            assert(places[k] == k);
        }
    }
}

/// In a tree of scripts a node shows the MonoBehaviours of its GameObject and has, as
/// children, the nodes of exactly those children that are not pruned; it is pruned
/// itself only if there are neither.
pub proof fn a_tree_of_scripts_shows_every_script(file: SceneFile, node: Pptr, fuel: nat) -> (r: (
    Seq<int>,
    Seq<int>,
))
    requires
        tree::built(file, node, Components::Scripts, fuel) is Ok,
    ensures
        ({
            &&& model::transform_at(file, node) matches Ok(transform)
            &&& model::game_object_at(file, transform.game_object) matches Ok(game_object)
            &&& are_shown(r.0, file, game_object.components@, true)
            &&& are_kept(r.1, file, transform.children@, Components::Scripts, fuel)
            &&& match tree::built(file, node, Components::Scripts, fuel)->Ok_0 {
                None => r.0.len() == 0 && r.1.len() == 0,
                Some(out) => {
                    &&& r.0.len() > 0 || r.1.len() > 0
                    &&& out.name == game_object.name@
                    &&& out.path_id == transform.game_object.path_id
                    &&& out.components.len() == r.0.len()
                    &&& forall|j: int|
                        0 <= j < r.0.len() ==> model::label_at(
                            file,
                            game_object.components@[r.0[j]],
                        ) == Ok::<Seq<char>, Seq<char>>(#[trigger] out.components[j])
                    &&& out.children.len() == r.1.len()
                    &&& forall|j: int|
                        0 <= j < r.1.len() ==> tree::built(
                            file,
                            transform.children@[r.1[j]],
                            Components::Scripts,
                            (fuel - 1) as nat,
                        ) == Ok::<Option<NodeView>, FaultView>(Some(#[trigger] out.children[j]))
                },
            }
        }),
{
    let transform = model::transform_at(file, node)->Ok_0;
    let game_object = model::game_object_at(file, transform.game_object)->Ok_0;
    let held = game_object.components@;
    let places = labels_are_shown_of_every_component(file, held, true);
    let nodes = transform.children@;
    let at = lemma_children(file, nodes, nodes.len(), Components::Scripts, fuel);
    (places, at)
}

/// How deep a hierarchy is followed: no deeper than there are objects.
pub open spec fn depth(file: SceneFile) -> nat {
    file.objects@.len() + file.linked@.len()
}

/// Whether a Transform is a root whose node is not pruned.
pub open spec fn is_kept_root(file: SceneFile, id: i64, components: Components) -> bool {
    is_root(file, id) && is_kept(
        file,
        Pptr { file_id: 0, path_id: id },
        components,
        depth(file),
    )
}

proof fn lemma_built_roots(file: SceneFile, ids: Seq<i64>, components: Components, n: int) -> (at:
    Seq<int>)
    requires
        0 <= n <= ids.len(),
        tree::built_roots(file, ids.take(n), components) is Ok,
    ensures
        laws::are_positions(at, n, |i: int| is_kept_root(file, ids[i], components)),
        ({
            let out = tree::built_roots(file, ids.take(n), components)->Ok_0;
            &&& out.len() == at.len()
            &&& forall|j: int|
                0 <= j < at.len() ==> tree::built(
                    file,
                    Pptr { file_id: 0, path_id: ids[at[j]] },
                    components,
                    depth(file),
                ) == Ok::<Option<NodeView>, FaultView>(Some(#[trigger] out[j]))
        }),
        forall|i: int|
            0 <= i < n && is_root(file, #[trigger] ids[i]) ==> tree::built(
                file,
                Pptr { file_id: 0, path_id: ids[i] },
                components,
                depth(file),
            ) is Ok,
    decreases n,
{
    let wanted = |i: int| is_kept_root(file, ids[i], components);
    if n == 0 {
        Seq::empty()
    } else {
        let part = ids.take(n);
        assert(part.drop_last() =~= ids.take(n - 1));
        assert(part.last() == ids[n - 1]);
        let before = lemma_built_roots(file, ids, components, n - 1);
        if wanted(n - 1) {
            lemma_positions_push(before, n - 1, wanted);
            before.push(n - 1)
        } else {
            lemma_positions_skip(before, n - 1, wanted);
            before
        }
    }
}

/// The tree of a file has the nodes of exactly those Transforms at its top that have no
/// father and are not pruned, in file order.
pub proof fn a_tree_stands_on_the_roots(file: SceneFile, components: Components) -> (at: Seq<int>)
    requires
        tree::tree_of(file, None, components) is Ok,
    ensures
        laws::are_positions(
            at,
            file.transforms@.len() as int,
            |i: int| is_kept_root(file, file.transforms@[i], components),
        ),
        ({
            let out = tree::tree_of(file, None, components)->Ok_0.roots;
            &&& out.len() == at.len()
            &&& forall|j: int|
                0 <= j < at.len() ==> tree::built(
                    file,
                    Pptr { file_id: 0, path_id: file.transforms@[at[j]] },
                    components,
                    depth(file),
                ) == Ok::<Option<NodeView>, FaultView>(Some(#[trigger] out[j]))
        }),
        forall|i: int|
            0 <= i < file.transforms@.len() && is_root(file, #[trigger] file.transforms@[i])
                ==> tree::built(
                file,
                Pptr { file_id: 0, path_id: file.transforms@[i] },
                components,
                depth(file),
            ) is Ok,
{
    let ids = file.transforms@;
    assert(ids.take(ids.len() as int) =~= ids);
    lemma_built_roots(file, ids, components, ids.len() as int)
}

/// The node at a position of a tree: the children that the numbers count, from the
/// top down.
pub open spec fn node_at(nodes: Seq<NodeView>, position: Seq<int>) -> Option<NodeView>
    decreases position.len(),
{
    if position.len() == 0 || !(0 <= position[0] < nodes.len()) {
        None
    } else if position.len() == 1 {
        Some(nodes[position[0]])
    } else {
        node_at(nodes[position[0]].children, position.skip(1))
    }
}

/// Whether the `i`-th Transform of a way can be read and has the next one as a child.
pub open spec fn is_parent_of_next(file: SceneFile, way: Seq<Pptr>, i: int) -> bool {
    model::transform_at(file, way[i]) matches Ok(transform) && transform.children@.contains(
        way[i + 1],
    )
}

/// Whether a way leads from one Transform to the next along child pointers.
pub open spec fn leads_down(file: SceneFile, way: Seq<Pptr>) -> bool {
    way.len() >= 1 && forall|i: int|
        0 <= i < way.len() - 1 ==> #[trigger] is_parent_of_next(file, way, i)
}

proof fn lemma_node_below(
    file: SceneFile,
    nodes: Seq<NodeView>,
    j: int,
    way: Seq<Pptr>,
    components: Components,
    fuel: nat,
) -> (position: Seq<int>)
    requires
        components != Components::Scripts,
        leads_down(file, way),
        0 <= j < nodes.len(),
        tree::built(file, way[0], components, fuel) == Ok::<Option<NodeView>, FaultView>(
            Some(nodes[j]),
        ),
    ensures
        position.len() == way.len(),
        position[0] == j,
        ({
            &&& node_at(nodes, position) matches Some(out)
            &&& model::transform_at(file, way.last()) matches Ok(transform)
            &&& model::game_object_at(file, transform.game_object) matches Ok(game_object)
            &&& out.path_id == transform.game_object.path_id
            &&& out.name == game_object.name@
        }),
    decreases way.len(),
{
    a_full_tree_leaves_nothing_out(file, way[0], components, fuel);
    if way.len() == 1 {
        seq![j]
    } else {
        assert(is_parent_of_next(file, way, 0));
        let transform = model::transform_at(file, way[0])->Ok_0;
        let k = choose|k: int|
            0 <= k < transform.children@.len() && transform.children@[k] == way[1];
        let below = way.skip(1);
        assert forall|i: int| 0 <= i < below.len() - 1 implies #[trigger] is_parent_of_next(
            file,
            below,
            i,
        ) by {
            assert(is_parent_of_next(file, way, i + 1));
        }
        assert(tree::built(file, below[0], components, (fuel - 1) as nat) == Ok::<
            Option<NodeView>,
            FaultView,
        >(Some(nodes[j].children[k])));
        let rest = lemma_node_below(
            file,
            nodes[j].children,
            k,
            below,
            components,
            (fuel - 1) as nat,
        );
        let position = seq![j] + rest;
        assert(position.skip(1) =~= rest);
        assert(way.last() == below.last());
        position
    }
}

/// Every Transform that can be reached from a root along child pointers has its node in
/// the tree, as deep as it lies, with the name and the path id of its GameObject.
pub proof fn every_reachable_transform_is_in_the_tree(
    file: SceneFile,
    way: Seq<Pptr>,
    components: Components,
) -> (position: Seq<int>)
    requires
        components != Components::Scripts,
        tree::tree_of(file, None, components) is Ok,
        leads_down(file, way),
        way[0].file_id == 0,
        file.transforms@.contains(way[0].path_id),
        is_root(file, way[0].path_id),
    ensures
        position.len() == way.len(),
        ({
            &&& node_at(tree::tree_of(file, None, components)->Ok_0.roots, position) matches Some(
                out,
            )
            &&& model::transform_at(file, way.last()) matches Ok(transform)
            &&& model::game_object_at(file, transform.game_object) matches Ok(game_object)
            &&& out.path_id == transform.game_object.path_id
            &&& out.name == game_object.name@
        }),
{
    let roots = tree::tree_of(file, None, components)->Ok_0.roots;
    let at = a_tree_stands_on_the_roots(file, components);
    let ids = file.transforms@;
    let i = choose|i: int| 0 <= i < ids.len() && ids[i] == way[0].path_id;
    let wanted = |i: int| is_kept_root(file, ids[i], components);
    assert(is_root(file, ids[i]));
    lemma_full_is_kept(file, way[0], components, depth(file));
    assert(wanted(i));
    assert(at.contains(i));
    let j = choose|j: int| 0 <= j < at.len() && at[j] == i;
    assert(tree::built(file, way[0], components, depth(file)) == Ok::<
        Option<NodeView>,
        FaultView,
    >(Some(roots[j])));
    lemma_node_below(file, roots, j, way, components, depth(file))
}

/// The tree of one GameObject is that of the Transform that the path leads to, with
/// nothing counted outside of it; a path to a component has none.
pub proof fn a_scoped_tree_is_that_of_its_root(
    file: SceneFile,
    path: PathView,
    components: Components,
)
    ensures
        path.component is Some ==> tree::tree_of(file, Some(path), components) is Err,
        tree::tree_of(file, Some(path), components) matches Ok(out) ==> {
            &&& resolve::transform_for(file, path.segments) matches Ok(node)
            &&& tree::built(file, node, components, depth(file)) matches Ok(top)
            &&& out.outside_hierarchy == 0
            &&& match top {
                Some(top) => out.roots.len() == 1 && out.roots[0] == top,
                None => out.roots.len() == 0,
            }
        },
{
}

/// Whether the Transform with the given path id covers an object: its own, its
/// GameObject, or one of that GameObject's components.
pub open spec fn covers(file: SceneFile, id: i64, object: i64) -> bool {
    model::transform_at(file, Pptr { file_id: 0, path_id: id }) matches Ok(transform) && {
        ||| object == id
        ||| object == transform.game_object.path_id
        ||| model::game_object_at(file, transform.game_object) matches Ok(game_object) && exists|
            k: int,
        |
            0 <= k < game_object.components@.len() && (
            #[trigger] game_object.components@[k]).path_id == object
    }
}

proof fn lemma_covered(file: SceneFile, ids: Seq<i64>, object: i64)
    requires
        tree::covered(file, ids) is Ok,
    ensures
        tree::covered(file, ids)->Ok_0.contains(object) <==> exists|i: int|
            0 <= i < ids.len() && covers(file, #[trigger] ids[i], object),
    decreases ids.len(),
{
    if ids.len() > 0 {
        let rest = ids.drop_last();
        lemma_covered(file, rest, object);
        let last = ids.len() - 1;
        let transform = model::transform_at(file, model::local(ids[last]))->Ok_0;
        if let Ok(game_object) = model::game_object_at(file, transform.game_object) {
            let held = game_object.components@.map_values(|c: Pptr| c.path_id);
            if held.to_set().contains(object) {
                let k = choose|k: int| 0 <= k < held.len() && held[k] == object;
                assert(game_object.components@[k].path_id == object);
            }
            if exists|k: int|
                0 <= k < game_object.components@.len() && (
                #[trigger] game_object.components@[k]).path_id == object {
                let k = choose|k: int|
                    0 <= k < game_object.components@.len() && (
                    #[trigger] game_object.components@[k]).path_id == object;
                assert(held[k] == object);
            }
        }
        if tree::covered(file, ids)->Ok_0.contains(object) {
            if tree::covered(file, rest)->Ok_0.contains(object) {
                let i = choose|i: int|
                    0 <= i < rest.len() && covers(file, #[trigger] rest[i], object);
                assert(covers(file, ids[i], object));
            } else {
                assert(covers(file, ids[last], object));
            }
        }
        if exists|i: int| 0 <= i < ids.len() && covers(file, #[trigger] ids[i], object) {
            let i = choose|i: int| 0 <= i < ids.len() && covers(file, #[trigger] ids[i], object);
            if i < last {
                assert(covers(file, rest[i], object));
            }
        }
    }
}

/// The objects outside the hierarchy are those that no Transform covers: what the tree
/// of a file counts is the number of its objects less the number of covered ids.
pub proof fn covered_objects_are_not_outside(file: SceneFile, components: Components, object: i64)
    -> (ids: Set<i64>)
    requires
        tree::tree_of(file, None, components) is Ok,
    ensures
        ids.contains(object) <==> exists|i: int|
            0 <= i < file.transforms@.len() && covers(
                file,
                #[trigger] file.transforms@[i],
                object,
            ),
        ids == tree::covered(file, file.transforms@)->Ok_0,
        tree::tree_of(file, None, components)->Ok_0.outside_hierarchy == (if ids.len()
            <= file.objects@.len() {
            file.objects@.len() - ids.len()
        } else {
            0
        }),
{
    lemma_covered(file, file.transforms@, object);
    tree::covered(file, file.transforms@)->Ok_0
}

} // verus!
