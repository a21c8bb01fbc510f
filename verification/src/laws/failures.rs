//! When an operation fails, and with what.

use vstd::prelude::*;

use super::hierarchy::{is_parent_of_next, leads_down};
use super::selection::{are_labelled, is_meant};
use crate::commands::file::tree;
use crate::commands::file::tree::{FaultView, NodeView};
use crate::commands::file::Components;
use crate::component_path::{FieldView, PathView};
use crate::model::{GameObject, Pptr, SceneFile, Transform};
use crate::{laws, model, number, qualify, resolve};

verus! {

/// The roots can be told exactly if every Transform can be read; if not, the reason is
/// that of the first that cannot.
pub proof fn roots_fail_at_the_first_unreadable_transform(file: SceneFile, ids: Seq<i64>, i: int)
    requires
        0 <= i <= ids.len(),
        forall|j: int|
            0 <= j < i ==> model::transform_at(
                file,
                Pptr { file_id: 0, path_id: #[trigger] ids[j] },
            ) is Ok,
        i < ids.len() ==> model::transform_at(file, Pptr { file_id: 0, path_id: ids[i] }) is Err,
    ensures
        i == ids.len() ==> resolve::roots_of(file, ids) is Ok && tree::covered(file, ids) is Ok,
        i < ids.len() ==> ({
            let reason = model::transform_at(file, Pptr { file_id: 0, path_id: ids[i] })->Err_0;
            &&& resolve::roots_of(file, ids) == Err::<Seq<Pptr>, Seq<char>>(reason)
            &&& tree::covered(file, ids) == Err::<Set<i64>, Seq<char>>(reason)
        }),
    decreases ids.len(),
{
    if ids.len() > 0 {
        let rest = ids.drop_last();
        let n = ids.len() - 1;
        assert forall|j: int| 0 <= j < i && j < n implies model::transform_at(
            file,
            Pptr { file_id: 0, path_id: #[trigger] rest[j] },
        ) is Ok by {
            assert(rest[j] == ids[j]);
        }
        if i < n {
            assert(rest[i] == ids[i]);
            roots_fail_at_the_first_unreadable_transform(file, rest, i);
        } else {
            roots_fail_at_the_first_unreadable_transform(file, rest, n);
            if i > n {
                assert(model::transform_at(file, Pptr { file_id: 0, path_id: ids[n] }) is Ok);
            }
        }
    }
}

/// The nodes of a name can be told exactly if every name can be read; if not, the reason
/// is that of the first that cannot.
pub proof fn nodes_fail_at_the_first_unreadable_name(
    file: SceneFile,
    nodes: Seq<Pptr>,
    name: Seq<char>,
    i: int,
)
    requires
        0 <= i <= nodes.len(),
        forall|j: int| 0 <= j < i ==> resolve::node_name(file, #[trigger] nodes[j]) is Ok,
        i < nodes.len() ==> resolve::node_name(file, nodes[i]) is Err,
    ensures
        i == nodes.len() ==> resolve::nodes_named(file, nodes, name) is Ok,
        i < nodes.len() ==> resolve::nodes_named(file, nodes, name) == Err::<Seq<Pptr>, Seq<char>>(
            resolve::node_name(file, nodes[i])->Err_0,
        ),
    decreases nodes.len(),
{
    if nodes.len() > 0 {
        let rest = nodes.drop_last();
        let n = nodes.len() - 1;
        assert forall|j: int| 0 <= j < i && j < n implies resolve::node_name(
            file,
            #[trigger] rest[j],
        ) is Ok by {
            assert(rest[j] == nodes[j]);
        }
        if i < n {
            assert(rest[i] == nodes[i]);
            nodes_fail_at_the_first_unreadable_name(file, rest, name, i);
        } else {
            nodes_fail_at_the_first_unreadable_name(file, rest, name, n);
            if i > n {
                assert(resolve::node_name(file, nodes[n]) is Ok);
            }
        }
    }
}

/// Components can be told by their labels exactly if every label can be read; if not, the
/// reason is that of the first that cannot.
pub proof fn components_fail_at_the_first_unreadable_label(
    file: SceneFile,
    components: Seq<Pptr>,
    label: Seq<char>,
    scripts_only: bool,
    i: int,
)
    requires
        0 <= i <= components.len(),
        forall|j: int| 0 <= j < i ==> model::label_at(file, #[trigger] components[j]) is Ok,
        i < components.len() ==> model::label_at(file, components[i]) is Err,
    ensures
        i == components.len() ==> resolve::components_labelled(file, components, label) is Ok
            && tree::shown_labels(file, components, scripts_only) is Ok,
        i < components.len() ==> ({
            let reason = model::label_at(file, components[i])->Err_0;
            &&& resolve::components_labelled(file, components, label) == Err::<
                Seq<i64>,
                Seq<char>,
            >(reason)
            &&& tree::shown_labels(file, components, scripts_only) == Err::<
                Seq<Seq<char>>,
                Seq<char>,
            >(reason)
        }),
    decreases components.len(),
{
    if components.len() > 0 {
        let rest = components.drop_last();
        let n = components.len() - 1;
        assert forall|j: int| 0 <= j < i && j < n implies model::label_at(
            file,
            #[trigger] rest[j],
        ) is Ok by {
            assert(rest[j] == components[j]);
        }
        if i < n {
            assert(rest[i] == components[i]);
            components_fail_at_the_first_unreadable_label(file, rest, label, scripts_only, i);
        } else {
            components_fail_at_the_first_unreadable_label(file, rest, label, scripts_only, n);
            if i > n {
                assert(model::label_at(file, components[n]) is Ok);
            }
        }
    }
}

/// Whether the labels of all components can be told.
pub open spec fn can_be_told(file: SceneFile, components: Seq<Pptr>) -> bool {
    forall|c: int|
        0 <= c < components.len() ==> model::label_at(file, #[trigger] components[c]) is Ok
}

proof fn lemma_first_untold(file: SceneFile, components: Seq<Pptr>, n: int) -> (i: int)
    requires
        0 <= n <= components.len(),
    ensures
        0 <= i <= n,
        forall|j: int| 0 <= j < i ==> model::label_at(file, #[trigger] components[j]) is Ok,
        i < n ==> model::label_at(file, components[i]) is Err,
    decreases n,
{
    if n == 0 {
        0
    } else {
        let i = lemma_first_untold(file, components, n - 1);
        if i < n - 1 {
            i
        } else if model::label_at(file, components[n - 1]) is Ok {
            n
        } else {
            n - 1
        }
    }
}

proof fn lemma_told(file: SceneFile, components: Seq<Pptr>, scripts_only: bool)
    ensures
        tree::shown_labels(file, components, scripts_only) is Ok <==> can_be_told(file, components),
        tree::shown_labels(file, components, scripts_only) matches Err(e) ==> exists|c: int|
            0 <= c < components.len() && model::label_at(file, #[trigger] components[c]) == Err::<
                Seq<char>,
                Seq<char>,
            >(e),
{
    let i = lemma_first_untold(file, components, components.len() as int);
    components_fail_at_the_first_unreadable_label(
        file,
        components,
        Seq::empty(),
        scripts_only,
        i,
    );
    if i < components.len() {
        assert(model::label_at(file, components[i]) is Err);
    }
}

/// A path with a component selects the one that is meant among those of that label, and
/// if none is meant, it says that there is none, that there are several, or that there
/// are not so many.
pub proof fn a_component_is_selected_or_refused(
    file: SceneFile,
    path: PathView,
    selector: FieldView,
    node: Pptr,
    transform: Transform,
    game_object: GameObject,
) -> (at: Seq<int>)
    requires
        path.component == Some(selector),
        selector.index matches Some(index) ==> 0 <= index,
        resolve::transform_for(file, path.segments) == Ok::<Pptr, Seq<char>>(node),
        model::transform_at(file, node) == Ok::<Transform, Seq<char>>(transform),
        model::game_object_at(file, transform.game_object) == Ok::<GameObject, Seq<char>>(
            game_object,
        ),
        can_be_told(file, game_object.components@),
    ensures
        are_labelled(at, file, game_object.components@, selector.name),
        forall|k: int| #[trigger]
            is_meant(selector, k, at.len()) ==> resolve::path_target(file, path) == Ok::<
                i64,
                Seq<char>,
            >(game_object.components@[at[k]].path_id),
        selector.index is None && at.len() == 0 ==> resolve::path_target(file, path) == Err::<
            i64,
            Seq<char>,
        >("no "@ + "component"@ + " matching '"@ + selector.name + "'"@),
        selector.index is None && at.len() > 1 ==> resolve::path_target(file, path) == Err::<
            i64,
            Seq<char>,
        >(
            "component"@ + " '"@ + selector.name + "' is ambiguous ("@ + number::decimal(at.len())
                + " matches); add ':<index>' (0.."@ + number::decimal((at.len() - 1) as nat)
                + ")"@,
        ),
        selector.index matches Some(index) ==> (index >= at.len() ==> resolve::path_target(
            file,
            path,
        ) == Err::<i64, Seq<char>>(
            "component"@ + " '"@ + selector.name + "': index "@ + number::decimal(index as nat)
                + " out of range ("@ + number::decimal(at.len()) + " match(es))"@,
        )),
{
    let components = game_object.components@;
    components_fail_at_the_first_unreadable_label(
        file,
        components,
        selector.name,
        false,
        components.len() as int,
    );
    let at = laws::selection::components_of_a_label_are_found(file, components, selector.name);
    let found = resolve::components_labelled(file, components, selector.name)->Ok_0;
    laws::selection::an_index_selects_among_matches(found, selector, "component"@);
    assert forall|k: int| #[trigger] is_meant(selector, k, at.len()) implies resolve::path_target(
        file,
        path,
    ) == Ok::<i64, Seq<char>>(components[at[k]].path_id) by {
        assert(found[k] == components[at[k]].path_id);
    }
    let index: nat = match selector.index {
        Some(index) => index as nat,
        None => 0,
    };
    let n = if at.len() > 0 {
        at.len()
    } else {
        1
    };
    laws::documents::a_refused_selection_says_why(
        "component"@,
        selector.name,
        index,
        n,
        0,
        Seq::empty(),
    );
    assert(Seq::<char>::empty() + "component"@ =~= "component"@);
    at
}

/// Whether a Transform can be shown in a tree: it and its GameObject can be read, and so
/// can the labels of the components, unless they are hidden.
pub open spec fn is_shown(file: SceneFile, node: Pptr, components: Components) -> bool {
    model::transform_at(file, node) matches Ok(transform) && (model::game_object_at(
        file,
        transform.game_object,
    ) matches Ok(game_object) && (components == Components::Hidden || can_be_told(
        file,
        game_object.components@,
    )))
}

/// Whether all ways down from a Transform end after so many, and all that they lead to can
/// be shown.
pub open spec fn all_ways_end(
    file: SceneFile,
    node: Pptr,
    components: Components,
    depth: nat,
) -> bool {
    forall|way: Seq<Pptr>| #[trigger]
        leads_down(file, way) && way[0] == node ==> way.len() <= depth && is_shown(
            file,
            way.last(),
            components,
        )
}

proof fn lemma_way_above(file: SceneFile, node: Pptr, way: Seq<Pptr>)
    requires
        leads_down(file, way),
        model::transform_at(file, node) matches Ok(transform) && transform.children@.contains(
            way[0],
        ),
    ensures
        leads_down(file, seq![node] + way),
        (seq![node] + way)[0] == node,
        (seq![node] + way).last() == way.last(),
{
    let longer = seq![node] + way;
    assert forall|i: int| 0 <= i < longer.len() - 1 implies #[trigger] is_parent_of_next(
        file,
        longer,
        i,
    ) by {
        if i == 0 {
            assert(longer[1] == way[0]);
        } else {
            assert(is_parent_of_next(file, way, i - 1));
            assert(longer[i] == way[i - 1]);
            assert(longer[i + 1] == way[i]);
        }
    }
}

proof fn lemma_built_ends(file: SceneFile, node: Pptr, components: Components, fuel: nat)
    requires
        all_ways_end(file, node, components, fuel + 1),
    ensures
        tree::built(file, node, components, fuel) is Ok,
    decreases fuel, 1nat, 0nat,
{
    let own = seq![node];
    assert(leads_down(file, own));
    assert(own.last() == node);
    assert(is_shown(file, node, components));
    let transform = model::transform_at(file, node)->Ok_0;
    let game_object = model::game_object_at(file, transform.game_object)->Ok_0;
    lemma_told(file, game_object.components@, components == Components::Scripts);
    let children = transform.children@;
    assert forall|c: int| 0 <= c < children.len() implies all_ways_end(
        file,
        #[trigger] children[c],
        components,
        fuel,
    ) by {
        assert forall|way: Seq<Pptr>| #[trigger]
            leads_down(file, way) && way[0] == children[c] implies way.len() <= fuel && is_shown(
            file,
            way.last(),
            components,
        ) by {
            lemma_way_above(file, node, way);
            assert((seq![node] + way).len() <= fuel + 1);
        }
    }
    lemma_all_built(file, children, children.len(), components, fuel);
}

proof fn lemma_all_built(
    file: SceneFile,
    nodes: Seq<Pptr>,
    n: nat,
    components: Components,
    fuel: nat,
)
    requires
        n <= nodes.len(),
        forall|c: int|
            0 <= c < nodes.len() ==> all_ways_end(file, #[trigger] nodes[c], components, fuel),
    ensures
        tree::built_among(file, nodes, n, components, fuel) is Ok,
    decreases fuel, 0nat, n,
{
    if n > 0 {
        assert(all_ways_end(file, nodes[n - 1], components, fuel));
        assert(leads_down(file, seq![nodes[n - 1]]));
        assert(seq![nodes[n - 1]].len() <= fuel);
        lemma_all_built(file, nodes, (n - 1) as nat, components, fuel);
        lemma_built_ends(file, nodes[n - 1], components, (fuel - 1) as nat);
    }
}

proof fn lemma_each_built(
    file: SceneFile,
    nodes: Seq<Pptr>,
    n: nat,
    components: Components,
    fuel: nat,
    c: int,
)
    requires
        0 <= c < n <= nodes.len(),
        tree::built_among(file, nodes, n, components, fuel) is Ok,
    ensures
        fuel > 0,
        tree::built(file, nodes[c], components, (fuel - 1) as nat) is Ok,
    decreases n,
{
    if c < n - 1 {
        lemma_each_built(file, nodes, (n - 1) as nat, components, fuel, c);
    }
}

proof fn lemma_way_ends(file: SceneFile, way: Seq<Pptr>, components: Components, fuel: nat)
    requires
        leads_down(file, way),
        tree::built(file, way[0], components, fuel) is Ok,
    ensures
        way.len() <= fuel + 1,
        is_shown(file, way.last(), components),
    decreases way.len(),
{
    let transform = model::transform_at(file, way[0])->Ok_0;
    let game_object = model::game_object_at(file, transform.game_object)->Ok_0;
    if way.len() == 1 {
        lemma_told(file, game_object.components@, components == Components::Scripts);
    } else {
        assert(is_parent_of_next(file, way, 0));
        let children = transform.children@;
        let c = choose|c: int| 0 <= c < children.len() && children[c] == way[1];
        lemma_each_built(file, children, children.len(), components, fuel, c);
        let rest = way.skip(1);
        assert forall|i: int| 0 <= i < rest.len() - 1 implies #[trigger] is_parent_of_next(
            file,
            rest,
            i,
        ) by {
            assert(is_parent_of_next(file, way, i + 1));
        }
        lemma_way_ends(file, rest, components, (fuel - 1) as nat);
    }
}

/// The tree below a Transform can be built exactly if everything below it can be shown,
/// and no way down is longer than there are levels.
pub proof fn a_tree_is_built_where_all_can_be_shown(
    file: SceneFile,
    node: Pptr,
    components: Components,
    fuel: nat,
)
    ensures
        tree::built(file, node, components, fuel) is Ok <==> all_ways_end(
            file,
            node,
            components,
            fuel + 1,
        ),
{
    if all_ways_end(file, node, components, fuel + 1) {
        lemma_built_ends(file, node, components, fuel);
    }
    if tree::built(file, node, components, fuel) is Ok {
        assert forall|way: Seq<Pptr>| #[trigger]
            leads_down(file, way) && way[0] == node implies way.len() <= fuel + 1 && is_shown(
            file,
            way.last(),
            components,
        ) by {
            lemma_way_ends(file, way, components, fuel);
        }
    }
}

/// Whether a Transform cannot be shown for the given reason.
pub open spec fn is_not_shown(
    file: SceneFile,
    node: Pptr,
    components: Components,
    reason: Seq<char>,
) -> bool {
    match model::transform_at(file, node) {
        Err(e) => e == reason,
        Ok(transform) => match model::game_object_at(file, transform.game_object) {
            Err(e) => e == reason,
            Ok(game_object) => components != Components::Hidden && exists|c: int|
                0 <= c < game_object.components@.len() && model::label_at(
                    file,
                    #[trigger] game_object.components@[c],
                ) == Err::<Seq<char>, Seq<char>>(reason),
        },
    }
}

proof fn lemma_first_fault(
    file: SceneFile,
    nodes: Seq<Pptr>,
    n: nat,
    components: Components,
    fuel: nat,
) -> (c: int)
    requires
        n <= nodes.len(),
        fuel > 0,
        tree::built_among(file, nodes, n, components, fuel) is Err,
    ensures
        0 <= c < n,
        tree::built(file, nodes[c], components, (fuel - 1) as nat) == Err::<
            Option<NodeView>,
            FaultView,
        >(tree::built_among(file, nodes, n, components, fuel)->Err_0),
    decreases n,
{
    if tree::built_among(file, nodes, (n - 1) as nat, components, fuel) is Err {
        lemma_first_fault(file, nodes, (n - 1) as nat, components, fuel)
    } else {
        n - 1
    }
}

/// A tree that cannot be built fails for what some way down comes to: a Transform that
/// cannot be shown, with the reason, or more levels than there can be.
pub proof fn a_failed_tree_has_a_reason(
    file: SceneFile,
    node: Pptr,
    components: Components,
    fuel: nat,
) -> (way: Seq<Pptr>)
    requires
        tree::built(file, node, components, fuel) is Err,
    ensures
        leads_down(file, way),
        way[0] == node,
        match tree::built(file, node, components, fuel)->Err_0 {
            FaultView::Unreadable(reason) => is_not_shown(file, way.last(), components, reason),
            FaultView::Circular => way.len() > fuel + 1,
        },
    decreases fuel,
{
    let own = seq![node];
    assert(leads_down(file, own));
    if !(model::transform_at(file, node) is Ok) {
        own
    } else {
        let transform = model::transform_at(file, node)->Ok_0;
        let children = transform.children@;
        if !(model::game_object_at(file, transform.game_object) is Ok) {
            own
        } else {
            let game_object = model::game_object_at(file, transform.game_object)->Ok_0;
            lemma_told(file, game_object.components@, components == Components::Scripts);
            if components != Components::Hidden && !can_be_told(file, game_object.components@) {
                own
            } else if fuel == 0 {
                let way = own + seq![children[0]];
                assert(children.contains(children[0]));
                assert(leads_down(file, seq![children[0]]));
                lemma_way_above(file, node, seq![children[0]]);
                way
            } else {
                let c = lemma_first_fault(file, children, children.len(), components, fuel);
                let below = a_failed_tree_has_a_reason(
                    file,
                    children[c],
                    components,
                    (fuel - 1) as nat,
                );
                assert(children.contains(children[c]));
                lemma_way_above(file, node, below);
                own + below
            }
        }
    }
}

proof fn lemma_roots_built(file: SceneFile, ids: Seq<i64>, components: Components)
    ensures
        tree::built_roots(file, ids, components) is Ok <==> forall|i: int|
            0 <= i < ids.len() ==> is_built(file, #[trigger] ids[i], components),
    decreases ids.len(),
{
    if ids.len() > 0 {
        let rest = ids.drop_last();
        let n = ids.len() - 1;
        lemma_roots_built(file, rest, components);
        let node = Pptr { file_id: 0, path_id: ids[n] };
        a_tree_is_built_where_all_can_be_shown(
            file,
            node,
            components,
            file.objects@.len() + file.linked@.len(),
        );
        if forall|i: int| 0 <= i < ids.len() ==> is_built(file, #[trigger] ids[i], components) {
            assert forall|i: int| 0 <= i < rest.len() implies is_built(
                file,
                #[trigger] rest[i],
                components,
            ) by {
                assert(rest[i] == ids[i]);
            }
            assert(is_built(file, ids[n], components));
        }
        if tree::built_roots(file, ids, components) is Ok {
            assert forall|i: int| 0 <= i < ids.len() implies is_built(
                file,
                #[trigger] ids[i],
                components,
            ) by {
                if i < n {
                    assert(rest[i] == ids[i]);
                }
            }
        }
    }
}

/// Whether a Transform can be read and, if it has no father, everything below it can be
/// shown on no more levels than there are objects.
pub open spec fn is_built(file: SceneFile, id: i64, components: Components) -> bool {
    model::transform_at(file, Pptr { file_id: 0, path_id: id }) matches Ok(transform) && (
    transform.father.path_id == 0 ==> all_ways_end(
        file,
        Pptr { file_id: 0, path_id: id },
        components,
        file.objects@.len() + file.linked@.len() + 1,
    ))
}

/// The tree of a file can be built exactly if every Transform can be read, and everything
/// below the roots can be shown on no more levels than there are objects.
pub proof fn the_tree_of_a_file_is_built_where_all_can_be_shown(
    file: SceneFile,
    components: Components,
)
    ensures
        tree::tree_of(file, None, components) is Ok <==> forall|i: int|
            0 <= i < file.transforms@.len() ==> is_built(
                file,
                #[trigger] file.transforms@[i],
                components,
            ),
{
    let ids = file.transforms@;
    lemma_roots_built(file, ids, components);
    if forall|i: int| 0 <= i < ids.len() ==> is_built(file, #[trigger] ids[i], components) {
        assert forall|j: int| 0 <= j < ids.len() implies model::transform_at(
            file,
            Pptr { file_id: 0, path_id: #[trigger] ids[j] },
        ) is Ok by {
            assert(is_built(file, ids[j], components));
        }
        roots_fail_at_the_first_unreadable_transform(file, ids, ids.len() as int);
    }
}

/// Whether all ways down from a Transform along names that can be read end after so many.
pub open spec fn named_ways_end(file: SceneFile, node: Pptr, depth: nat) -> bool {
    forall|way: Seq<Pptr>| #[trigger]
        leads_down(file, way) && way[0] == node && are_all_named(file, way) ==> way.len() <= depth
}

/// Whether the names of all nodes can be read.
pub open spec fn are_all_named(file: SceneFile, nodes: Seq<Pptr>) -> bool {
    forall|i: int| 0 <= i < nodes.len() ==> resolve::node_name(file, #[trigger] nodes[i]) is Ok
}

proof fn lemma_kept(file: SceneFile, nodes: Seq<Pptr>)
    ensures
        are_all_named(file, qualify::readable_nodes(file, nodes)),
        forall|i: int|
            0 <= i < qualify::readable_nodes(file, nodes).len() ==> nodes.contains(
                #[trigger] qualify::readable_nodes(file, nodes)[i],
            ),
    decreases nodes.len(),
{
    if nodes.len() > 0 {
        let rest = nodes.drop_last();
        lemma_kept(file, rest);
        let kept = qualify::readable_nodes(file, nodes);
        let before = qualify::readable_nodes(file, rest);
        assert forall|i: int| 0 <= i < kept.len() implies nodes.contains(#[trigger] kept[i])
            && resolve::node_name(file, kept[i]) is Ok by {
            if i < before.len() {
                assert(kept[i] == before[i]);
                let j = choose|j: int| 0 <= j < rest.len() && rest[j] == before[i];
                assert(nodes[j] == kept[i]);
            } else {
                assert(nodes[nodes.len() - 1] == kept[i]);
            }
        }
    }
}

proof fn lemma_paths_end(
    file: SceneFile,
    prefix: Seq<FieldView>,
    nodes: Seq<Pptr>,
    n: nat,
    fuel: nat,
)
    requires
        n <= nodes.len(),
        are_all_named(file, nodes),
        forall|c: int| 0 <= c < nodes.len() ==> named_ways_end(file, #[trigger] nodes[c], fuel),
    ensures
        qualify::paths_below(file, prefix, nodes, n, fuel) is Some,
    decreases fuel, n,
{
    if n > 0 {
        let node = nodes[n - 1];
        assert(named_ways_end(file, node, fuel));
        let own = seq![node];
        assert(leads_down(file, own));
        assert(are_all_named(file, own));
        assert(own.len() <= fuel);
        lemma_paths_end(file, prefix, nodes, (n - 1) as nat, fuel);
        let children = qualify::readable_children(file, node);
        let below = (fuel - 1) as nat;
        if let Ok(transform) = model::transform_at(file, node) {
            lemma_kept(file, transform.children@);
            assert forall|c: int| 0 <= c < children.len() implies named_ways_end(
                file,
                #[trigger] children[c],
                below,
            ) by {
                assert forall|way: Seq<Pptr>| #[trigger]
                    leads_down(file, way) && way[0] == children[c] && are_all_named(
                        file,
                        way,
                    ) implies way.len() <= below by {
                    lemma_way_above(file, node, way);
                    let longer = seq![node] + way;
                    assert forall|i: int| 0 <= i < longer.len() implies resolve::node_name(
                        file,
                        #[trigger] longer[i],
                    ) is Ok by {
                        if i > 0 {
                            assert(longer[i] == way[i - 1]);
                        }
                    }
                    assert(longer.len() <= fuel);
                }
            }
        }
        let segments = prefix.push(qualify::numbered(qualify::names_of(file, nodes), n - 1));
        lemma_paths_end(file, segments, children, children.len(), below);
    }
}

proof fn lemma_roots_named(file: SceneFile, ids: Seq<i64>)
    ensures
        are_all_named(file, qualify::readable_roots(file, ids)),
        forall|i: int|
            0 <= i < qualify::readable_roots(file, ids).len() ==> laws::selection::is_root(
                file,
                (#[trigger] qualify::readable_roots(file, ids)[i]).path_id,
            ) && qualify::readable_roots(file, ids)[i].file_id == 0,
    decreases ids.len(),
{
    if ids.len() > 0 {
        let rest = ids.drop_last();
        lemma_roots_named(file, rest);
        let kept = qualify::readable_roots(file, ids);
        let before = qualify::readable_roots(file, rest);
        assert forall|i: int| 0 <= i < kept.len() implies resolve::node_name(
            file,
            #[trigger] kept[i],
        ) is Ok && laws::selection::is_root(file, kept[i].path_id) && kept[i].file_id == 0 by {
            if i < before.len() {
                assert(kept[i] == before[i]);
            }
        }
    }
}

/// The paths of a file can be listed wherever no way down from a root, along names that
/// can be read, has more levels than there are objects, whatever else cannot be read.
pub proof fn paths_are_listed_where_ways_end(file: SceneFile)
    requires
        forall|id: i64| #[trigger]
            laws::selection::is_root(file, id) ==> named_ways_end(
                file,
                Pptr { file_id: 0, path_id: id },
                file.objects@.len() + file.linked@.len(),
            ),
    ensures
        qualify::paths_of(file) is Some,
{
    let nodes = qualify::readable_roots(file, file.transforms@);
    lemma_roots_named(file, file.transforms@);
    let fuel = file.objects@.len() + file.linked@.len();
    assert forall|c: int| 0 <= c < nodes.len() implies named_ways_end(
        file,
        #[trigger] nodes[c],
        fuel,
    ) by {
        assert(laws::selection::is_root(file, nodes[c].path_id));
        assert(nodes[c] == (Pptr { file_id: 0, path_id: nodes[c].path_id }));
    }
    lemma_paths_end(file, Seq::empty(), nodes, nodes.len(), fuel);
}

/// Children can be told apart only if every one of them can be read; the reason if not is
/// that of the first that cannot.
pub proof fn children_fail_at_the_first_unreadable_one(file: SceneFile, nodes: Seq<Pptr>, i: int)
    requires
        0 <= i <= nodes.len(),
        forall|j: int| 0 <= j < i ==> model::transform_at(file, #[trigger] nodes[j]) is Ok,
        i < nodes.len() ==> model::transform_at(file, nodes[i]) is Err,
    ensures
        i == nodes.len() ==> resolve::unreadable(file, nodes) is None,
        i < nodes.len() ==> resolve::unreadable(file, nodes) == Some(
            model::transform_at(file, nodes[i])->Err_0,
        ),
    decreases nodes.len(),
{
    if nodes.len() > 0 {
        let rest = nodes.drop_last();
        let n = nodes.len() - 1;
        assert forall|j: int| 0 <= j < i && j < n implies model::transform_at(
            file,
            #[trigger] rest[j],
        ) is Ok by {
            assert(rest[j] == nodes[j]);
        }
        if i < n {
            assert(rest[i] == nodes[i]);
            children_fail_at_the_first_unreadable_one(file, rest, i);
        } else {
            children_fail_at_the_first_unreadable_one(file, rest, n);
            if i > n {
                assert(model::transform_at(file, nodes[n]) is Ok);
            }
        }
    }
}

/// Where no root, and where no child of a node, has the name of a segment, that is said of
/// the segment.
pub proof fn a_missing_node_is_said(
    file: SceneFile,
    segments: Seq<FieldView>,
    node: Pptr,
    transform: Transform,
)
    requires
        segments.len() >= 1,
        segments[0].index is None,
        model::transform_at(file, node) == Ok::<Transform, Seq<char>>(transform),
        are_all_named(file, transform.children@),
        forall|c: int|
            0 <= c < transform.children@.len() ==> resolve::node_name(
                file,
                #[trigger] transform.children@[c],
            )->Ok_0 != segments[0].name,
    ensures
        resolve::descended(file, node, segments) == Err::<Pptr, Seq<char>>(
            "no "@ + "child object"@ + " matching '"@ + segments[0].name + "'"@,
        ),
        resolve::roots_of(file, file.transforms@) matches Ok(roots) ==> (
        resolve::nodes_named(file, roots, segments[0].name) matches Ok(found) ==> (found.len() == 0
            ==> resolve::transform_for(file, segments) == Err::<Pptr, Seq<char>>(
            "no "@ + "root object"@ + " matching '"@ + segments[0].name + "'"@,
        ))),
{
    let children = transform.children@;
    let name = segments[0].name;
    nodes_fail_at_the_first_unreadable_name(file, children, name, children.len() as int);
    assert forall|j: int| 0 <= j < children.len() implies model::transform_at(
        file,
        #[trigger] children[j],
    ) is Ok by {
        assert(resolve::node_name(file, children[j]) is Ok);
    }
    children_fail_at_the_first_unreadable_one(file, children, children.len() as int);
    let at = laws::selection::nodes_of_a_name_are_found(file, children, name);
    if at.len() > 0 {
        assert(0 <= at[0] < children.len());
        assert(resolve::node_name(file, children[at[0]])->Ok_0 == name);
        assert(false);
    }
    laws::documents::a_refused_selection_says_why("child object"@, name, 0, 1, 0, Seq::empty());
    laws::documents::a_refused_selection_says_why("root object"@, name, 0, 1, 0, Seq::empty());
}

} // verus!
