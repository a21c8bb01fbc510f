//! Which objects have a path, and how it reads.

use vstd::prelude::*;

use super::listings::spell;
use super::selection::all_readable;
use crate::model::{Pptr, SceneFile};
use crate::{addressing, model, qualify, resolve};

verus! {

/// Whether the `k`-th of the components is the (Rect)Transform that places their
/// GameObject: the first of them, with nothing unreadable before it.
pub open spec fn is_placing(file: SceneFile, components: Seq<Pptr>, k: int) -> bool {
    &&& 0 <= k < components.len()
    &&& model::object_at(file, components[k]) matches Ok(object) && (object.class_id == 4
        || object.class_id == 224)
    &&& forall|j: int|
        0 <= j < k ==> (model::object_at(file, #[trigger] components[j]) matches Ok(object)
            && object.class_id != 4 && object.class_id != 224)
}

/// A GameObject is placed by the first (Rect)Transform among its components, and by
/// none only if there is none, or something unreadable before it.
pub proof fn an_object_is_placed_by_its_first_transform(
    file: SceneFile,
    components: Seq<Pptr>,
    k: int,
)
    ensures
        is_placing(file, components, k) ==> qualify::transform_among(file, components) == Some(
            components[k].path_id,
        ),
        (forall|j: int| !#[trigger] is_placing(file, components, j)) ==> qualify::transform_among(
            file,
            components,
        ) is None,
    decreases components.len(),
{
    if components.len() > 0 {
        let rest = components.skip(1);
        an_object_is_placed_by_its_first_transform(file, rest, k - 1);
        let here = is_placing(file, components, 0);
        if is_placing(file, components, k) && k > 0 {
            assert(rest[k - 1] == components[k]);
            assert(model::object_at(file, components[0]) is Ok);
            assert forall|j: int| 0 <= j < k - 1 implies (model::object_at(
                file,
                #[trigger] rest[j],
            ) matches Ok(object) && object.class_id != 4 && object.class_id != 224) by {
                assert(rest[j] == components[j + 1]);
            }
            assert(is_placing(file, rest, k - 1));
        }
        if forall|j: int| !#[trigger] is_placing(file, components, j) {
            assert(!here);
            if model::object_at(file, components[0]) is Ok {
                assert forall|j: int| !#[trigger] is_placing(file, rest, j) by {
                    if is_placing(file, rest, j) {
                        assert(components[j + 1] == rest[j]);
                        assert forall|i: int| 0 <= i < j + 1 implies (model::object_at(
                            file,
                            #[trigger] components[i],
                        ) matches Ok(object) && object.class_id != 4 && object.class_id
                            != 224) by {
                            if i > 0 {
                                assert(rest[i - 1] == components[i]);
                            }
                        }
                        assert(is_placing(file, components, j + 1));
                    }
                }
            }
        }
    }
}

/// Whether a chain of path ids leads from a root down to a Transform, each being the
/// father of the next.
pub open spec fn is_chain_of_fathers(file: SceneFile, chain: Seq<i64>) -> bool {
    &&& chain.len() >= 1
    &&& forall|i: int| 0 <= i < chain.len() ==> #[trigger] is_fathered(file, chain, i)
}

/// Whether the `i`-th Transform of a chain has the one before it as its father, or none
/// if it is the first.
pub open spec fn is_fathered(file: SceneFile, chain: Seq<i64>, i: int) -> bool {
    model::transform_at(file, Pptr { file_id: 0, path_id: chain[i] }) matches Ok(transform) && (
    if i == 0 {
        transform.father.path_id == 0
    } else {
        transform.father.path_id == chain[i - 1] && chain[i - 1] != 0
    })
}

/// The pointers to the Transforms of a chain.
pub open spec fn pointers_along(chain: Seq<i64>) -> Seq<Pptr> {
    Seq::new(chain.len(), |i: int| Pptr { file_id: 0, path_id: chain[i] })
}

proof fn lemma_level_has_segment(file: SceneFile, level: Seq<Pptr>, node: Pptr)
    requires
        all_readable(file, level),
        resolve::node_name(file, node) is Ok,
    ensures
        qualify::segment_for(file, level, node) matches Some(segment) && resolve::node_name(
            file,
            node,
        ) == Ok::<Seq<char>, Seq<char>>(segment.name),
{
    lemma_names_found(file, level, resolve::node_name(file, node)->Ok_0);
}

proof fn lemma_names_found(file: SceneFile, level: Seq<Pptr>, name: Seq<char>)
    requires
        all_readable(file, level),
    ensures
        resolve::nodes_named(file, level, name) is Ok,
    decreases level.len(),
{
    if level.len() > 0 {
        let rest = level.drop_last();
        assert forall|i: int| 0 <= i < rest.len() implies resolve::node_name(
            file,
            #[trigger] rest[i],
        ) is Ok by {
            assert(rest[i] == level[i]);
        }
        lemma_names_found(file, rest, name);
        assert(resolve::node_name(file, level[level.len() - 1]) is Ok);
    }
}

proof fn lemma_segments_along(file: SceneFile, chain: Seq<i64>, n: nat)
    requires
        n <= chain.len(),
        forall|i: int|
            0 <= i < chain.len() ==> all_readable(
                file,
                #[trigger] qualify::level_of(file, chain, i),
            ),
        forall|i: int|
            0 <= i < chain.len() ==> resolve::node_name(
                file,
                Pptr { file_id: 0, path_id: #[trigger] chain[i] },
            ) is Ok,
    ensures
        qualify::segments_along(file, chain, n) matches Some(segments) && segments.len() == n
            && forall|i: int|
            0 <= i < n ==> resolve::node_name(file, Pptr { file_id: 0, path_id: chain[i] })
                == Ok::<Seq<char>, Seq<char>>((#[trigger] segments[i]).name),
    decreases n,
{
    if n > 0 {
        lemma_segments_along(file, chain, (n - 1) as nat);
        let level = qualify::level_of(file, chain, n - 1);
        assert(all_readable(file, level));
        assert(resolve::node_name(file, Pptr { file_id: 0, path_id: chain[n - 1] }) is Ok);
        lemma_level_has_segment(file, level, Pptr { file_id: 0, path_id: chain[n - 1] });
    }
}

/// Whether a GameObject hangs in the hierarchy at the end of a chain of Transforms, and
/// all the names that a path to it has to tell apart can be read.
pub open spec fn hangs_at(file: SceneFile, id: i64, chain: Seq<i64>) -> bool {
    &&& is_chain_of_fathers(file, chain)
    &&& model::game_object_at(file, Pptr { file_id: 0, path_id: id }) matches Ok(game_object)
        && exists|k: int| #[trigger]
        is_placing(file, game_object.components@, k) && game_object.components@[k].path_id
            == chain.last()
    &&& forall|i: int|
        0 <= i < chain.len() ==> all_readable(file, #[trigger] qualify::level_of(file, chain, i))
    &&& forall|i: int|
        0 <= i < chain.len() ==> resolve::node_name(
            file,
            Pptr { file_id: 0, path_id: #[trigger] chain[i] },
        ) is Ok
}

proof fn lemma_segments_to(file: SceneFile, id: i64, chain: Seq<i64>)
    requires
        hangs_at(file, id, chain),
    ensures
        qualify::segments_to(file, id) matches Some(segments) && spell(
            file,
            segments,
            pointers_along(chain),
        ),
{
    let game_object = model::game_object_at(file, Pptr { file_id: 0, path_id: id })->Ok_0;
    let k = choose|k: int| #[trigger]
        is_placing(file, game_object.components@, k) && game_object.components@[k].path_id
            == chain.last();
    an_object_is_placed_by_its_first_transform(file, game_object.components@, k);
    assert(addressing::is_chain(file, chain)) by {
        assert forall|i: int| 0 <= i < chain.len() implies #[trigger] addressing::hangs_on(
            file,
            chain,
            i,
        ) by {
            assert(is_fathered(file, chain, i));
        }
    }
    addressing::every_chain_is_found(file, chain);
    lemma_segments_along(file, chain, chain.len());
    let segments = qualify::segments_to(file, id)->0;
    let way = pointers_along(chain);
    assert forall|i: int| 0 <= i < way.len() implies resolve::node_name(file, way[i]) == Ok::<
        Seq<char>,
        Seq<char>,
    >((#[trigger] segments[i]).name) by {
        assert(way[i] == (Pptr { file_id: 0, path_id: chain[i] }));
    }
}

/// Every GameObject of the hierarchy has a path, as deep as it hangs: it spells the
/// names of its ancestors from the root down, and selects no component.
pub proof fn every_object_of_the_hierarchy_has_a_path(file: SceneFile, id: i64, chain: Seq<i64>)
    requires
        hangs_at(file, id, chain),
        model::object_at(file, Pptr { file_id: 0, path_id: id }) matches Ok(object)
            && object.class_id == 1,
    ensures
        qualify::path_to(file, id) matches Some(path) && path.component is None && spell(
            file,
            path.segments,
            pointers_along(chain),
        ),
{
    lemma_segments_to(file, id, chain);
}

/// Every component on a GameObject of the hierarchy has a path: that of the GameObject,
/// with the component's label behind it.
pub proof fn every_component_of_the_hierarchy_has_a_path(
    file: SceneFile,
    id: i64,
    owner: i64,
    chain: Seq<i64>,
)
    requires
        hangs_at(file, owner, chain),
        owner != 0,
        model::object_at(file, Pptr { file_id: 0, path_id: id }) matches Ok(object)
            && object.class_id != 1 && (object.owner matches Ok(pptr) && pptr.path_id == owner)
            && model::label_of(object) is Ok,
        model::game_object_at(file, Pptr { file_id: 0, path_id: owner }) matches Ok(game_object)
            && forall|c: int|
            0 <= c < game_object.components@.len() ==> model::label_at(
                file,
                #[trigger] game_object.components@[c],
            ) is Ok,
    ensures
        qualify::path_to(file, id) matches Some(path) && spell(
            file,
            path.segments,
            pointers_along(chain),
        ) && (path.component matches Some(component) && model::label_at(
            file,
            Pptr { file_id: 0, path_id: id },
        ) == Ok::<Seq<char>, Seq<char>>(component.name)),
{
    lemma_segments_to(file, owner, chain);
    let game_object = model::game_object_at(file, Pptr { file_id: 0, path_id: owner })->Ok_0;
    let label = model::label_at(file, Pptr { file_id: 0, path_id: id })->Ok_0;
    lemma_labels_found(file, game_object.components@, label);
}

proof fn lemma_labels_found(file: SceneFile, components: Seq<Pptr>, label: Seq<char>)
    requires
        forall|c: int|
            0 <= c < components.len() ==> model::label_at(file, #[trigger] components[c]) is Ok,
    ensures
        resolve::components_labelled(file, components, label) is Ok,
    decreases components.len(),
{
    if components.len() > 0 {
        let rest = components.drop_last();
        assert forall|c: int| 0 <= c < rest.len() implies model::label_at(
            file,
            #[trigger] rest[c],
        ) is Ok by {
            assert(rest[c] == components[c]);
        }
        lemma_labels_found(file, rest, label);
        assert(model::label_at(file, components[components.len() - 1]) is Ok);
    }
}

/// What has a path is a GameObject, which its path leads to without a component, or
/// something that sits on one, which its path names by its label.
pub proof fn only_objects_of_the_hierarchy_have_a_path(file: SceneFile, id: i64)
    requires
        qualify::path_to(file, id) is Some,
    ensures
        ({
            let path = qualify::path_to(file, id)->0;
            &&& model::object_at(file, Pptr { file_id: 0, path_id: id }) matches Ok(object)
            &&& object.class_id == 1 <==> path.component is None
            &&& object.class_id == 1 ==> qualify::segments_to(file, id) == Some(path.segments)
            &&& object.class_id != 1 ==> {
                &&& object.owner matches Ok(owner)
                &&& owner.path_id != 0
                &&& qualify::segments_to(file, owner.path_id) == Some(path.segments)
                &&& model::label_of(object) == Ok::<Seq<char>, Seq<char>>(path.component->0.name)
            }
        }),
{
}

/// Of several matches the index of one is its position among them; the only match
/// needs none.
pub proof fn an_index_is_the_position_among_matches(ids: Seq<i64>, target: i64)
    requires
        ids.contains(target),
    ensures
        match qualify::disambiguated(ids, target) {
            None => ids.len() == 1,
            Some(p) => ids.len() > 1 && 0 <= p < ids.len() && ids[p] == target && forall|j: int|
                0 <= j < p ==> #[trigger] ids[j] != target,
        },
{
    let at = choose|at: int| 0 <= at < ids.len() && ids[at] == target;
    lemma_first_position(ids, target, 0, at);
}

proof fn lemma_first_position(ids: Seq<i64>, target: i64, from: int, at: int)
    requires
        0 <= from <= at < ids.len(),
        ids[at] == target,
    ensures
        qualify::position_from(ids, target, from) matches Some(p) && from <= p <= at && ids[p]
            == target && forall|j: int| from <= j < p ==> #[trigger] ids[j] != target,
    decreases at - from,
{
    if ids[from] != target {
        lemma_first_position(ids, target, from + 1, at);
    }
}

} // verus!
