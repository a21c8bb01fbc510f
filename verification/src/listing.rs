//! Every path that is listed for a file is the path of the object that it leads to, so
//! no two listed paths lead to one object.

use vstd::prelude::*;

use crate::component_path::{FieldView, PathView};
use crate::model::{Pptr, SceneFile};
use crate::{addressing, classes, model, qualify, resolve};

verus! {

/// Whether every Transform is listed once, by the file and by its father, and every
/// component once, by the GameObject that it sits on.
pub open spec fn orderly(file: SceneFile) -> bool {
    &&& file.transforms@.no_duplicates()
    &&& forall|id: i64| #[trigger] fathers_children(file, id)
    &&& forall|id: i64| #[trigger] places_its_owner(file, id)
    &&& forall|id: i64| #[trigger] carries_its_components(file, id)
}

/// The children of a Transform are in the file, each listed once, and it is their
/// father.
pub open spec fn fathers_children(file: SceneFile, id: i64) -> bool {
    match model::transform_at(file, model::local(id)) {
        Ok(transform) => transform.children@.no_duplicates() && forall|i: int|
            0 <= i < transform.children@.len() ==> {
                let child = #[trigger] transform.children@[i];
                &&& child.file_id == 0
                &&& id != 0
                &&& model::transform_at(file, child) matches Ok(below) && below.father.path_id
                    == id
            },
        Err(_) => true,
    }
}

/// The GameObject that a Transform places is in the file and has it as its Transform.
pub open spec fn places_its_owner(file: SceneFile, id: i64) -> bool {
    match model::transform_at(file, model::local(id)) {
        Ok(transform) => {
            &&& transform.game_object.file_id == 0
            &&& transform.game_object.path_id != 0
            &&& model::object_at(file, transform.game_object) matches Ok(object)
                && object.class_id == classes::GAME_OBJECT
            &&& model::game_object_at(file, transform.game_object) matches Ok(game_object)
                && qualify::transform_among(file, game_object.components@) == Some(id)
        },
        Err(_) => true,
    }
}

/// The components of a GameObject are in the file, each listed once, and sit on it.
pub open spec fn carries_its_components(file: SceneFile, id: i64) -> bool {
    match model::game_object_at(file, model::local(id)) {
        Ok(game_object) => game_object.components@.no_duplicates() && forall|i: int|
            0 <= i < game_object.components@.len() ==> {
                let component = #[trigger] game_object.components@[i];
                &&& component.file_id == 0
                &&& model::object_at(file, component) matches Ok(object) && object.class_id
                    != classes::GAME_OBJECT && (object.owner matches Ok(owner) && owner.path_id
                    == id)
            },
        Err(_) => true,
    }
}

/// The roots that are kept of distinct Transforms are distinct, without a father, and
/// among them.
proof fn lemma_roots_distinct(file: SceneFile, ids: Seq<i64>)
    requires
        ids.no_duplicates(),
    ensures
        qualify::readable_roots(file, ids).no_duplicates(),
        forall|i: int|
            0 <= i < qualify::readable_roots(file, ids).len() ==> {
                let root = #[trigger] qualify::readable_roots(file, ids)[i];
                &&& root.file_id == 0
                &&& ids.contains(root.path_id)
                &&& model::transform_at(file, root) matches Ok(transform)
                    && transform.father.path_id == 0
            },
    decreases ids.len(),
{
    if ids.len() > 0 {
        let rest = ids.drop_last();
        let before = qualify::readable_roots(file, rest);
        let roots = qualify::readable_roots(file, ids);
        lemma_roots_distinct(file, rest);
        assert forall|i: int| 0 <= i < roots.len() implies {
            let root = #[trigger] roots[i];
            &&& root.file_id == 0
            &&& ids.contains(root.path_id)
            &&& model::transform_at(file, root) matches Ok(transform) && transform.father.path_id
                == 0
        } by {
            if i < before.len() {
                assert(roots[i] == before[i]);
                let k = choose|k: int| 0 <= k < rest.len() && rest[k] == before[i].path_id;
                assert(ids[k] == before[i].path_id);
            } else {
                assert(ids[ids.len() - 1] == roots[i].path_id);
            }
        }
        if roots.len() > before.len() {
            let last = roots[before.len() as int];
            assert forall|i: int| 0 <= i < before.len() implies #[trigger] roots[i] != last by {
                assert(before[i] == roots[i]);
                assert(rest.contains(before[i].path_id));
                let k = choose|k: int| 0 <= k < rest.len() && rest[k] == before[i].path_id;
                assert(ids[k] != ids[ids.len() - 1]);
            }
        }
    }
}

/// The segments along a chain are told by the chain up to there.
proof fn lemma_segments_of_prefix(file: SceneFile, chain: Seq<i64>, id: i64, n: nat)
    requires
        n <= chain.len(),
    ensures
        qualify::segments_along(file, chain.push(id), n) == qualify::segments_along(
            file,
            chain,
            n,
        ),
    decreases n,
{
    if n > 0 {
        lemma_segments_of_prefix(file, chain, id, (n - 1) as nat);
        assert(chain.push(id)[n - 1] == chain[n - 1]);
        if n > 1 {
            assert(chain.push(id)[n - 2] == chain[n - 2]);
        }
    }
}

/// Whether `level` is what hangs below a chain: the roots, or the children of its last.
spec fn hangs_below(file: SceneFile, chain: Seq<i64>, level: Seq<Pptr>) -> bool {
    &&& level == qualify::level_of(file, chain, chain.len() as int)
    &&& chain.len() > 0 ==> addressing::is_chain(file, chain)
    &&& level.no_duplicates()
    &&& forall|i: int|
        0 <= i < level.len() ==> (#[trigger] level[i]).file_id == 0 && resolve::node_name(
            file,
            level[i],
        ) is Ok
}

/// One more node of the level makes the chain longer, with the segment that is listed
/// for it.
proof fn lemma_chain_grows(
    file: SceneFile,
    chain: Seq<i64>,
    prefix: Seq<FieldView>,
    level: Seq<Pptr>,
    j: int,
)
    requires
        orderly(file),
        hangs_below(file, chain, level),
        qualify::segments_along(file, chain, chain.len()) == Some(prefix),
        0 <= j < level.len(),
    ensures
        addressing::is_chain(file, chain.push(level[j].path_id)),
        qualify::segments_along(file, chain.push(level[j].path_id), chain.len() + 1) == Some(
            prefix.push(qualify::numbered(qualify::names_of(file, level), j)),
        ),
{
    let id = level[j].path_id;
    let longer = chain.push(id);
    assert(level[j] == model::local(id));
    assert(resolve::node_name(file, level[j]) is Ok);
    assert forall|i: int| 0 <= i < longer.len() implies #[trigger] addressing::hangs_on(
        file,
        longer,
        i,
    ) by {
        if i < chain.len() {
            assert(addressing::hangs_on(file, chain, i));
            assert(longer[i] == chain[i]);
            if i > 0 {
                assert(longer[i - 1] == chain[i - 1]);
            }
        } else if chain.len() == 0 {
            lemma_roots_distinct(file, file.transforms@);
            assert(level[j] == qualify::readable_roots(file, file.transforms@)[j]);
        } else {
            let up = chain[chain.len() - 1];
            assert(addressing::hangs_on(file, chain, chain.len() - 1));
            assert(fathers_children(file, up));
            assert(model::transform_at(file, model::local(up))->Ok_0.children@[j] == level[j]);
            assert(longer[i - 1] == up);
        }
    }
    lemma_segments_of_prefix(file, chain, id, chain.len());
    assert(level.contains(level[j]));
    let at = addressing::lemma_segment_is_listed(file, level, id);
    assert(level[at] == level[j]);
    assert(at == j);
    if chain.len() > 0 {
        assert(longer[chain.len() - 1] == chain[chain.len() - 1]);
    }
    assert(qualify::level_of(file, longer, chain.len() as int) == level);
    assert(longer[chain.len() as int] == id);
}

/// The place of a component among those of its label is the one that is listed.
proof fn lemma_selector_is_listed(file: SceneFile, components: Seq<Pptr>, j: int)
    requires
        components.no_duplicates(),
        forall|i: int| 0 <= i < components.len() ==> (#[trigger] components[i]).file_id == 0,
        forall|i: int|
            0 <= i < components.len() ==> model::label_at(file, #[trigger] components[i]) is Ok,
        0 <= j < components.len(),
    ensures
        ({
            let labels = qualify::readable_labels(file, components);
            let matches = resolve::components_labelled(file, components, labels[j])->Ok_0;
            &&& labels.len() == components.len()
            &&& model::label_at(file, components[j]) == Ok::<Seq<char>, Seq<char>>(labels[j])
            &&& resolve::components_labelled(file, components, labels[j]) is Ok
            &&& qualify::numbered(labels, j) == (FieldView {
                name: labels[j],
                index: qualify::disambiguated(matches, components[j].path_id),
            })
            &&& resolve::picked(matches, qualify::numbered(labels, j), "component"@) == Ok::<
                i64,
                Seq<char>,
            >(components[j].path_id)
        }),
{
    let labels = qualify::readable_labels(file, components);
    addressing::lemma_labels_kept(file, components);
    assert(model::label_at(file, components[j]) is Ok);
    addressing::lemma_labelled_count(file, components, labels[j]);
    addressing::lemma_labelled_at(file, components, j);
    let matches = resolve::components_labelled(file, components, labels[j])->Ok_0;
    let q = qualify::occurrences(labels.take(j), labels[j]) as int;
    let id = components[j].path_id;
    if matches.len() > 1 {
        addressing::lemma_position(matches, id, 0, q);
        let p = qualify::position_from(matches, id, 0)->0;
        let at = addressing::lemma_labelled_stands(file, components, labels[j], p);
        assert(components[at].file_id == 0 && components[j].file_id == 0);
        assert(components[at] == components[j]);
        assert(at == j);
    }
}

/// Whether a path leads to an object whose path it is.
pub open spec fn names_its_target(file: SceneFile, path: PathView) -> bool {
    resolve::path_target(file, path) matches Ok(id) && qualify::path_to(file, id) == Some(path)
}

/// The paths of a node are those of its GameObject and its components.
proof fn lemma_own_paths_are_built(
    file: SceneFile,
    chain: Seq<i64>,
    segments: Seq<FieldView>,
    k: int,
)
    requires
        orderly(file),
        forall|node: Pptr| #[trigger] addressing::surroundings_readable(file, node),
        addressing::is_chain(file, chain),
        resolve::node_name(file, model::local(chain.last())) is Ok,
        qualify::segments_along(file, chain, chain.len()) == Some(segments),
        resolve::transform_for(file, segments) == Ok::<Pptr, Seq<char>>(
            model::local(chain.last()),
        ),
        0 <= k < qualify::own_paths(file, segments, model::local(chain.last())).len(),
    ensures
        names_its_target(
            file,
            qualify::own_paths(file, segments, model::local(chain.last()))[k],
        ),
{
    let node = model::local(chain.last());
    let path = qualify::own_paths(file, segments, node)[k];
    let transform = model::transform_at(file, node)->Ok_0;
    let owner = transform.game_object;
    let game_object = model::game_object_at(file, owner)->Ok_0;
    let components = game_object.components@;
    assert(places_its_owner(file, chain.last()));
    assert(owner == model::local(owner.path_id));
    addressing::every_chain_is_found(file, chain);
    assert(qualify::segments_to(file, owner.path_id) == Some(segments));
    assert(addressing::surroundings_readable(file, node));
    assert(carries_its_components(file, owner.path_id));
    if k > 0 {
        let j = k - 1;
        addressing::lemma_labels_kept(file, components);
        let labels = qualify::readable_labels(file, components);
        assert(path == qualify::component_paths(segments, labels, labels.len())[j]);
        lemma_selector_is_listed(file, components, j);
        assert(components[j] == model::local(components[j].path_id));
    }
}

proof fn lemma_listed_are_built(
    file: SceneFile,
    chain: Seq<i64>,
    prefix: Seq<FieldView>,
    level: Seq<Pptr>,
    n: nat,
    fuel: nat,
    k: int,
)
    requires
        orderly(file),
        forall|node: Pptr| #[trigger] addressing::surroundings_readable(file, node),
        hangs_below(file, chain, level),
        qualify::segments_along(file, chain, chain.len()) == Some(prefix),
        addressing::leads_to_level(file, prefix, level),
        n <= level.len(),
        qualify::paths_below(file, prefix, level, n, fuel) matches Some(paths) && 0 <= k
            < paths.len(),
    ensures
        names_its_target(file, qualify::paths_below(file, prefix, level, n, fuel)->0[k]),
    decreases fuel, n,
{
    let paths = qualify::paths_below(file, prefix, level, n, fuel)->0;
    let node = level[n - 1];
    let segments = prefix.push(qualify::numbered(qualify::names_of(file, level), n - 1));
    let children = qualify::readable_children(file, node);
    let before = qualify::paths_below(file, prefix, level, (n - 1) as nat, fuel)->0;
    let own = qualify::own_paths(file, segments, node);
    let below = qualify::paths_below(
        file,
        segments,
        children,
        children.len(),
        (fuel - 1) as nat,
    )->0;
    assert(node.file_id == 0);
    let longer = chain.push(node.path_id);
    assert(node == model::local(longer.last()));
    lemma_chain_grows(file, chain, prefix, level, n - 1);
    addressing::lemma_segment_leads_on(file, prefix, level, n - 1);
    if k < before.len() {
        assert(paths[k] == before[k]);
        lemma_listed_are_built(file, chain, prefix, level, (n - 1) as nat, fuel, k);
    } else if k < before.len() + own.len() {
        assert(paths[k] == own[k - before.len()]);
        lemma_own_paths_are_built(file, longer, segments, k - before.len());
    } else {
        assert(paths[k] == below[k - before.len() - own.len()]);
        let transform = model::transform_at(file, node)->Ok_0;
        assert(addressing::surroundings_readable(file, node));
        assert(fathers_children(file, node.path_id));
        addressing::lemma_all_kept(file, transform.children@);
        assert(children == transform.children@);
        assert(qualify::level_of(file, longer, longer.len() as int) == children);
        lemma_listed_are_built(
            file,
            longer,
            segments,
            children,
            children.len(),
            (fuel - 1) as nat,
            k - before.len() - own.len(),
        );
    }
}

/// Every path that is listed for a file leads to an object, and is the path that is
/// built for that object, where every Transform and component is listed once and
/// nothing of the hierarchy is unreadable.
pub proof fn listed_path_is_the_built_one(file: SceneFile, k: int)
    requires
        orderly(file),
        addressing::names_readable(file),
        forall|node: Pptr| #[trigger] addressing::surroundings_readable(file, node),
        qualify::paths_of(file) matches Some(paths) && 0 <= k < paths.len(),
    ensures
        names_its_target(file, qualify::paths_of(file)->0[k]),
{
    let nodes = qualify::readable_roots(file, file.transforms@);
    addressing::lemma_roots_agree(file, file.transforms@);
    qualify::lemma_readable_roots(file, file.transforms@);
    lemma_roots_distinct(file, file.transforms@);
    lemma_listed_are_built(
        file,
        Seq::empty(),
        Seq::empty(),
        nodes,
        nodes.len(),
        file.objects@.len() + file.linked@.len(),
        k,
    );
}

/// Two different paths that are listed for a file lead to different objects.
pub proof fn listed_paths_differ(file: SceneFile, j: int, k: int)
    requires
        orderly(file),
        addressing::names_readable(file),
        forall|node: Pptr| #[trigger] addressing::surroundings_readable(file, node),
        qualify::paths_of(file) matches Some(paths) && 0 <= j < paths.len() && 0 <= k
            < paths.len() && paths[j] != paths[k],
    ensures
        ({
            let paths = qualify::paths_of(file)->0;
            &&& resolve::path_target(file, paths[j]) matches Ok(a)
            &&& resolve::path_target(file, paths[k]) matches Ok(b)
            &&& a != b
        }),
{
    listed_path_is_the_built_one(file, j);
    listed_path_is_the_built_one(file, k);
}

} // verus!
