//! What the listings of a file hold: its objects, its paths, and the components that a
//! search finds.

use vstd::prelude::*;

use super::hierarchy::{is_parent_of_next, leads_down};
use super::selection::is_root;
use super::{lemma_positions_push, lemma_positions_skip};
use crate::commands::file;
use crate::commands::file::MatchView;
use crate::component_path::{FieldView, PathView};
use crate::model::{Object, Pptr, SceneFile};
use crate::{classes, component_path, laws, model, qualify, resolve};

verus! {

/// Whether an object is of the given type: its class has that name, or it is a
/// MonoBehaviour whose script has.
pub open spec fn has_type(file: SceneFile, object: Object, filter: Seq<char>) -> bool {
    classes::class_text(object.class_id) == filter || (object.class_id == 114 && model::label_at(
        file,
        Pptr { file_id: 0, path_id: object.path_id },
    ) == Ok::<Seq<char>, Seq<char>>(filter))
}

/// Whether an object is to be listed.
pub open spec fn is_wanted(file: SceneFile, object: Object, filter: Option<Seq<char>>) -> bool {
    filter matches Some(filter) ==> has_type(file, object, filter)
}

proof fn lemma_listing(file: SceneFile, filter: Option<Seq<char>>, names: bool, n: int) -> (at: Seq<
    int,
>)
    requires
        0 <= n <= file.objects@.len(),
    ensures
        laws::are_positions(at, n, |i: int| is_wanted(file, file.objects@[i], filter)),
        ({
            let listed = file::listing(file, file.objects@.take(n), filter, names);
            &&& listed.len() == at.len()
            &&& forall|j: int|
                0 <= j < at.len() ==> ({
                    let entry = #[trigger] listed[j];
                    let object = file.objects@[at[j]];
                    &&& entry.path_id == object.path_id
                    &&& entry.class == classes::class_text(object.class_id)
                    &&& names ==> entry.name == Some(
                        match model::name_at(file, object.path_id) {
                            Some(name) => name,
                            None => Seq::empty(),
                        },
                    )
                    &&& !names ==> entry.name is None && entry.script is None
                    &&& entry.script matches Some(script) ==> object.class_id == 114
                        && model::label_at(file, Pptr { file_id: 0, path_id: object.path_id })
                        == Ok::<Seq<char>, Seq<char>>(script)
                    &&& names && object.class_id == 114 && model::label_at(
                        file,
                        Pptr { file_id: 0, path_id: object.path_id },
                    ) is Ok && entry.script is None ==> model::label_at(
                        file,
                        Pptr { file_id: 0, path_id: object.path_id },
                    )->Ok_0 == classes::class_text(114)
                })
        }),
    decreases n,
{
    let objects = file.objects@;
    let wanted = |i: int| is_wanted(file, file.objects@[i], filter);
    if n == 0 {
        Seq::empty()
    } else {
        let part = objects.take(n);
        assert(part.drop_last() =~= objects.take(n - 1));
        assert(part.last() == objects[n - 1]);
        let before = lemma_listing(file, filter, names, n - 1);
        if wanted(n - 1) {
            lemma_positions_push(before, n - 1, wanted);
            before.push(n - 1)
        } else {
            lemma_positions_skip(before, n - 1, wanted);
            before
        }
    }
}

/// The listing of a file's objects holds exactly those of the type that is asked for,
/// or all of them, in file order, each with its path id and class; with names, also
/// with its `m_Name`, blank if it has none, and its script if it is a MonoBehaviour.
pub proof fn objects_are_listed_by_type(
    file: SceneFile,
    filter: Option<Seq<char>>,
    names: bool,
) -> (at: Seq<int>)
    ensures
        laws::are_positions(
            at,
            file.objects@.len() as int,
            |i: int| is_wanted(file, file.objects@[i], filter),
        ),
        ({
            let listed = file::listing(file, file.objects@, filter, names);
            &&& listed.len() == at.len()
            &&& forall|j: int|
                0 <= j < at.len() ==> ({
                    let entry = #[trigger] listed[j];
                    let object = file.objects@[at[j]];
                    &&& entry.path_id == object.path_id
                    &&& entry.class == classes::class_text(object.class_id)
                    &&& names ==> entry.name == Some(
                        match model::name_at(file, object.path_id) {
                            Some(name) => name,
                            None => Seq::empty(),
                        },
                    )
                    &&& !names ==> entry.name is None && entry.script is None
                    &&& entry.script matches Some(script) ==> object.class_id == 114
                        && model::label_at(file, Pptr { file_id: 0, path_id: object.path_id })
                        == Ok::<Seq<char>, Seq<char>>(script)
                    &&& names && object.class_id == 114 && model::label_at(
                        file,
                        Pptr { file_id: 0, path_id: object.path_id },
                    ) is Ok && entry.script is None ==> model::label_at(
                        file,
                        Pptr { file_id: 0, path_id: object.path_id },
                    )->Ok_0 == classes::class_text(114)
                })
        }),
{
    let objects = file.objects@;
    assert(objects.take(objects.len() as int) =~= objects);
    lemma_listing(file, filter, names, objects.len() as int)
}

/// Whether a path selects a component with the given label.
pub open spec fn selects_label(path: PathView, label: Seq<char>) -> bool {
    path.component matches Some(component) && component.name == label
}

proof fn lemma_matches(file: SceneFile, paths: Seq<PathView>, label: Seq<char>, n: int) -> (at: Seq<
    int,
>)
    requires
        0 <= n <= paths.len(),
        file::matches_among(file, paths.take(n), label) is Ok,
    ensures
        laws::are_positions(at, n, |i: int| selects_label(paths[i], label)),
        ({
            let found = file::matches_among(file, paths.take(n), label)->Ok_0;
            &&& found.len() == at.len()
            &&& forall|j: int|
                0 <= j < at.len() ==> is_match_of(file, #[trigger] found[j], paths[at[j]])
        }),
    decreases n,
{
    let wanted = |i: int| selects_label(paths[i], label);
    if n == 0 {
        Seq::empty()
    } else {
        let part = paths.take(n);
        assert(part.drop_last() =~= paths.take(n - 1));
        assert(part.last() == paths[n - 1]);
        let before = lemma_matches(file, paths, label, n - 1);
        if wanted(n - 1) {
            lemma_positions_push(before, n - 1, wanted);
            before.push(n - 1)
        } else {
            lemma_positions_skip(before, n - 1, wanted);
            before
        }
    }
}

/// Whether a match reports what a path leads to: its text, the component that it
/// selects, and the GameObject that carries the component, with the name that the path
/// ends in.
pub open spec fn is_match_of(file: SceneFile, found: MatchView, path: PathView) -> bool {
    &&& found.path == component_path::path_text(path)
    &&& resolve::path_target(file, path) == Ok::<i64, Seq<char>>(found.component_path_id)
    &&& resolve::path_target(file, PathView { segments: path.segments, component: None }) == Ok::<
        i64,
        Seq<char>,
    >(found.gameobject_path_id)
    &&& found.gameobject == path.segments.last().name
}

/// A search for components finds every listed path that selects a component of the
/// label, at whatever depth, and no other, in the order of the listing; each match
/// reports what its path leads to.
pub proof fn a_search_finds_every_component_of_the_label(file: SceneFile, label: Seq<char>) -> (at:
    Seq<int>)
    requires
        file::matches_in(file, label) is Ok,
    ensures
        qualify::paths_of(file) is Some,
        laws::are_positions(
            at,
            qualify::paths_of(file)->0.len() as int,
            |i: int| selects_label(qualify::paths_of(file)->0[i], label),
        ),
        ({
            let found = file::matches_in(file, label)->Ok_0;
            &&& found.len() == at.len()
            &&& forall|j: int|
                0 <= j < at.len() ==> is_match_of(
                    file,
                    #[trigger] found[j],
                    qualify::paths_of(file)->0[at[j]],
                )
        }),
{
    let paths = qualify::paths_of(file)->0;
    assert(paths.take(paths.len() as int) =~= paths);
    lemma_matches(file, paths, label, paths.len() as int)
}

/// A search for components fails only if the hierarchy runs in a circle, or if what a
/// listed path with the label leads to cannot be read.
pub proof fn a_search_fails_only_at_a_path_of_the_label(
    file: SceneFile,
    paths: Seq<PathView>,
    label: Seq<char>,
) -> (i: int)
    requires
        file::matches_among(file, paths, label) is Err,
    ensures
        0 <= i < paths.len(),
        selects_label(paths[i], label),
        resolve::path_target(file, paths[i]) is Err || resolve::path_target(
            file,
            PathView { segments: paths[i].segments, component: None },
        ) is Err,
    decreases paths.len(),
{
    let rest = paths.drop_last();
    if file::matches_among(file, rest, label) is Err {
        let i = a_search_fails_only_at_a_path_of_the_label(file, rest, label);
        assert(rest[i] == paths[i]);
        i
    } else {
        paths.len() - 1
    }
}

/// Whether `name` stands at position `i` of `names`.
pub open spec fn stands_at(names: Seq<Seq<char>>, name: Seq<char>, i: int) -> bool {
    names[i] == name
}

/// Whether `at` are the positions at which `name` stands in `names`.
pub open spec fn are_equal_to(at: Seq<int>, names: Seq<Seq<char>>, name: Seq<char>) -> bool {
    laws::are_positions(at, names.len() as int, |i: int| stands_at(names, name, i))
}

proof fn lemma_occurrences(names: Seq<Seq<char>>, name: Seq<char>, n: int) -> (at: Seq<int>)
    requires
        0 <= n <= names.len(),
    ensures
        laws::are_positions(at, n, |i: int| stands_at(names, name, i)),
        at.len() == qualify::occurrences(names.take(n), name),
        forall|m: int|
            0 <= m < n && names[m] == name ==> 0 <= qualify::occurrences(
                #[trigger] names.take(m),
                name,
            ) < at.len() && at[qualify::occurrences(names.take(m), name) as int] == m,
    decreases n,
{
    let wanted = |i: int| stands_at(names, name, i);
    if n == 0 {
        assert(names.take(0).len() == 0);
        Seq::empty()
    } else {
        let part = names.take(n);
        assert(part.drop_last() =~= names.take(n - 1));
        assert(part.last() == names[n - 1]);
        let before = lemma_occurrences(names, name, n - 1);
        if wanted(n - 1) {
            lemma_positions_push(before, n - 1, wanted);
            before.push(n - 1)
        } else {
            lemma_positions_skip(before, n - 1, wanted);
            before
        }
    }
}

proof fn lemma_all_occurrences(names: Seq<Seq<char>>, name: Seq<char>) -> (at: Seq<int>)
    ensures
        are_equal_to(at, names, name),
        at.len() == qualify::occurrences(names, name),
        forall|m: int|
            0 <= m < names.len() && names[m] == name ==> 0 <= qualify::occurrences(
                #[trigger] names.take(m),
                name,
            ) < at.len() && at[qualify::occurrences(names.take(m), name) as int] == m,
{
    assert(names.take(names.len() as int) =~= names);
    lemma_occurrences(names, name, names.len() as int)
}

/// A name among others keeps its text, and gains an index exactly if it is there more
/// than once: the number of equal names before it.
pub proof fn a_repeated_name_is_numbered(names: Seq<Seq<char>>, j: int) -> (at: Seq<int>)
    requires
        0 <= j < names.len(),
    ensures
        are_equal_to(at, names, names[j]),
        qualify::numbered(names, j).name == names[j],
        match qualify::numbered(names, j).index {
            None => at.len() == 1 && at[0] == j,
            Some(index) => at.len() > 1 && 0 <= index < at.len() && at[index] == j,
        },
{
    let at = lemma_all_occurrences(names, names[j]);
    let prefix = names.take(j);
    assert(at[qualify::occurrences(prefix, names[j]) as int] == j);
    at
}

/// Whether the Transform with the given path id is a root whose name can be read.
pub open spec fn is_named_root(file: SceneFile, id: i64) -> bool {
    is_root(file, id) && resolve::node_name(file, Pptr { file_id: 0, path_id: id }) is Ok
}

proof fn lemma_named_roots(file: SceneFile, ids: Seq<i64>, n: int) -> (at: Seq<int>)
    requires
        0 <= n <= ids.len(),
    ensures
        laws::are_positions(at, n, |i: int| is_named_root(file, ids[i])),
        ({
            let roots = qualify::readable_roots(file, ids.take(n));
            &&& roots.len() == at.len()
            &&& forall|j: int|
                0 <= j < at.len() ==> #[trigger] roots[j] == (Pptr {
                    file_id: 0,
                    path_id: ids[at[j]],
                })
        }),
    decreases n,
{
    let wanted = |i: int| is_named_root(file, ids[i]);
    if n == 0 {
        Seq::empty()
    } else {
        let part = ids.take(n);
        assert(part.drop_last() =~= ids.take(n - 1));
        assert(part.last() == ids[n - 1]);
        let before = lemma_named_roots(file, ids, n - 1);
        if wanted(n - 1) {
            lemma_positions_push(before, n - 1, wanted);
            before.push(n - 1)
        } else {
            lemma_positions_skip(before, n - 1, wanted);
            before
        }
    }
}

/// The roots that paths begin at are exactly those whose name can be read, in order.
pub proof fn paths_begin_at_every_named_root(file: SceneFile) -> (at: Seq<int>)
    ensures
        laws::are_positions(
            at,
            file.transforms@.len() as int,
            |i: int| is_named_root(file, file.transforms@[i]),
        ),
        ({
            let roots = qualify::readable_roots(file, file.transforms@);
            &&& roots.len() == at.len()
            &&& forall|j: int|
                0 <= j < at.len() ==> #[trigger] roots[j] == (Pptr {
                    file_id: 0,
                    path_id: file.transforms@[at[j]],
                })
        }),
{
    let ids = file.transforms@;
    assert(ids.take(ids.len() as int) =~= ids);
    lemma_named_roots(file, ids, ids.len() as int)
}

proof fn lemma_kept_nodes(file: SceneFile, nodes: Seq<Pptr>, n: int) -> (at: Seq<int>)
    requires
        0 <= n <= nodes.len(),
    ensures
        laws::are_positions(at, n, |i: int| resolve::node_name(file, nodes[i]) is Ok),
        ({
            let kept = qualify::readable_nodes(file, nodes.take(n));
            &&& kept.len() == at.len()
            &&& forall|j: int| 0 <= j < at.len() ==> #[trigger] kept[j] == nodes[at[j]]
        }),
    decreases n,
{
    let wanted = |i: int| resolve::node_name(file, nodes[i]) is Ok;
    if n == 0 {
        Seq::empty()
    } else {
        let part = nodes.take(n);
        assert(part.drop_last() =~= nodes.take(n - 1));
        assert(part.last() == nodes[n - 1]);
        let before = lemma_kept_nodes(file, nodes, n - 1);
        if wanted(n - 1) {
            lemma_positions_push(before, n - 1, wanted);
            before.push(n - 1)
        } else {
            lemma_positions_skip(before, n - 1, wanted);
            before
        }
    }
}

proof fn lemma_kept_labels(file: SceneFile, components: Seq<Pptr>, n: int) -> (at: Seq<int>)
    requires
        0 <= n <= components.len(),
    ensures
        laws::are_positions(at, n, |i: int| model::label_at(file, components[i]) is Ok),
        ({
            let kept = qualify::readable_labels(file, components.take(n));
            &&& kept.len() == at.len()
            &&& forall|j: int|
                0 <= j < at.len() ==> model::label_at(file, components[at[j]]) == Ok::<
                    Seq<char>,
                    Seq<char>,
                >(#[trigger] kept[j])
        }),
    decreases n,
{
    let wanted = |i: int| model::label_at(file, components[i]) is Ok;
    if n == 0 {
        Seq::empty()
    } else {
        let part = components.take(n);
        assert(part.drop_last() =~= components.take(n - 1));
        assert(part.last() == components[n - 1]);
        let before = lemma_kept_labels(file, components, n - 1);
        if wanted(n - 1) {
            lemma_positions_push(before, n - 1, wanted);
            before.push(n - 1)
        } else {
            lemma_positions_skip(before, n - 1, wanted);
            before
        }
    }
}

proof fn lemma_subtree_is_listed(
    file: SceneFile,
    prefix: Seq<FieldView>,
    nodes: Seq<Pptr>,
    n: nat,
    fuel: nat,
    k: int,
)
    requires
        n <= nodes.len(),
        0 <= k < n,
        qualify::paths_below(file, prefix, nodes, n, fuel) is Some,
    ensures
        fuel > 0,
        ({
            let paths = qualify::paths_below(file, prefix, nodes, n, fuel)->0;
            let segments = prefix.push(qualify::numbered(qualify::names_of(file, nodes), k));
            let children = qualify::readable_children(file, nodes[k]);
            &&& qualify::paths_below(
                file,
                segments,
                children,
                children.len(),
                (fuel - 1) as nat,
            ) matches Some(below)
            &&& forall|x: int| 0 <= x < below.len() ==> paths.contains(#[trigger] below[x])
            &&& forall|x: int|
                0 <= x < qualify::own_paths(file, segments, nodes[k]).len() ==> paths.contains(
                    #[trigger] qualify::own_paths(file, segments, nodes[k])[x],
                )
        }),
    decreases n,
{
    let paths = qualify::paths_below(file, prefix, nodes, n, fuel)->0;
    let before = qualify::paths_below(file, prefix, nodes, (n - 1) as nat, fuel)->0;
    let last = prefix.push(qualify::numbered(qualify::names_of(file, nodes), n - 1));
    let own = qualify::own_paths(file, last, nodes[n - 1]);
    let under = qualify::readable_children(file, nodes[n - 1]);
    let rest = qualify::paths_below(file, last, under, under.len(), (fuel - 1) as nat)->0;
    assert(paths == before + own + rest);
    if k == n - 1 {
        assert forall|x: int| 0 <= x < own.len() implies paths.contains(#[trigger] own[x]) by {
            assert(paths[before.len() + x] == own[x]);
        }
        assert forall|x: int| 0 <= x < rest.len() implies paths.contains(#[trigger] rest[x]) by {
            assert(paths[before.len() + own.len() + x] == rest[x]);
        }
    } else {
        lemma_subtree_is_listed(file, prefix, nodes, (n - 1) as nat, fuel, k);
        assert forall|p: PathView| before.contains(p) implies paths.contains(p) by {
            let x = choose|x: int| 0 <= x < before.len() && before[x] == p;
            assert(paths[x] == p);
        }
    }
}

/// Whether a path has the given segments and selects a component with the given label,
/// or none.
pub open spec fn is_path(path: PathView, segments: Seq<FieldView>, label: Option<Seq<char>>) -> bool {
    &&& path.segments == segments
    &&& match label {
        None => path.component is None,
        Some(label) => selects_label(path, label),
    }
}

/// Whether the names of segments are those of the GameObjects on a way.
pub open spec fn spell(file: SceneFile, segments: Seq<FieldView>, way: Seq<Pptr>) -> bool {
    &&& segments.len() == way.len()
    &&& forall|i: int|
        0 <= i < way.len() ==> resolve::node_name(file, way[i]) == Ok::<Seq<char>, Seq<char>>(
            (#[trigger] segments[i]).name,
        )
}

/// Whether the paths of a node are all listed: that of its GameObject, and one for every
/// component whose label can be told.
pub open spec fn is_listed(
    file: SceneFile,
    paths: Seq<PathView>,
    segments: Seq<FieldView>,
    node: Pptr,
) -> bool {
    &&& paths.contains(PathView { segments, component: None })
    &&& model::transform_at(file, node) matches Ok(transform) ==> model::game_object_at(
        file,
        transform.game_object,
    ) matches Ok(game_object) ==> forall|c: int|
        0 <= c < game_object.components@.len() && model::label_at(
            file,
            #[trigger] game_object.components@[c],
        ) is Ok ==> exists|x: int|
            0 <= x < paths.len() && is_path(
                #[trigger] paths[x],
                segments,
                Some(model::label_at(file, game_object.components@[c])->Ok_0),
            )
}

proof fn lemma_own_paths(
    file: SceneFile,
    paths: Seq<PathView>,
    segments: Seq<FieldView>,
    node: Pptr,
)
    requires
        forall|x: int|
            0 <= x < qualify::own_paths(file, segments, node).len() ==> paths.contains(
                #[trigger] qualify::own_paths(file, segments, node)[x],
            ),
    ensures
        is_listed(file, paths, segments, node),
{
    let own = qualify::own_paths(file, segments, node);
    assert(own[0] == (PathView { segments, component: None }));
    if let Ok(transform) = model::transform_at(file, node) {
        if let Ok(game_object) = model::game_object_at(file, transform.game_object) {
            let held = game_object.components@;
            let labels = qualify::readable_labels(file, held);
            assert(held.take(held.len() as int) =~= held);
            let at = lemma_kept_labels(file, held, held.len() as int);
            let wanted = |i: int| model::label_at(file, held[i]) is Ok;
            assert forall|c: int|
                0 <= c < held.len() && model::label_at(file, #[trigger] held[c]) is Ok implies exists|
                x: int,
            |
                0 <= x < paths.len() && is_path(
                    #[trigger] paths[x],
                    segments,
                    Some(model::label_at(file, held[c])->Ok_0),
                ) by {
                assert(wanted(c));
                assert(at.contains(c));
                let j = choose|j: int| 0 <= j < at.len() && at[j] == c;
                assert(labels[j] == model::label_at(file, held[c])->Ok_0);
                let path = own[1 + j];
                assert(path == (PathView {
                    segments,
                    component: Some(qualify::numbered(labels, j)),
                }));
                assert(paths.contains(own[1 + j]));
                let x = choose|x: int| 0 <= x < paths.len() && paths[x] == path;
                assert(is_path(
                    paths[x],
                    segments,
                    Some(model::label_at(file, held[c])->Ok_0),
                ));
            }
        }
    }
}

proof fn lemma_spell_on(
    file: SceneFile,
    prefix: Seq<FieldView>,
    next: FieldView,
    way: Seq<Pptr>,
    segments: Seq<FieldView>,
)
    requires
        way.len() >= 1,
        resolve::node_name(file, way[0]) == Ok::<Seq<char>, Seq<char>>(next.name),
        segments.len() == prefix.len() + way.len(),
        segments.take(prefix.len() as int + 1) == prefix.push(next),
        spell(file, segments.skip(prefix.len() as int + 1), way.skip(1)),
    ensures
        segments.take(prefix.len() as int) == prefix,
        spell(file, segments.skip(prefix.len() as int), way),
{
    let n = prefix.len() as int;
    let own = segments.skip(n);
    let rest = segments.skip(n + 1);
    assert(segments.take(n + 1)[n] == next);
    assert(segments.take(n) =~= prefix) by {
        assert forall|i: int| 0 <= i < n implies segments[i] == prefix[i] by {
            assert(segments.take(n + 1)[i] == prefix.push(next)[i]);
        }
    }
    assert forall|i: int| 0 <= i < way.len() implies resolve::node_name(file, way[i]) == Ok::<
        Seq<char>,
        Seq<char>,
    >((#[trigger] own[i]).name) by {
        if i > 0 {
            assert(own[i] == rest[i - 1]);
            assert(way.skip(1)[i - 1] == way[i]);
        }
    }
}

/// A child whose name can be read is kept.
proof fn lemma_child_is_kept(file: SceneFile, way: Seq<Pptr>)
    requires
        way.len() >= 2,
        leads_down(file, way),
        resolve::node_name(file, way[1]) is Ok,
    ensures
        qualify::readable_children(file, way[0]).contains(way[1]),
        leads_down(file, way.skip(1)),
{
    assert(is_parent_of_next(file, way, 0));
    let children = model::transform_at(file, way[0])->Ok_0.children@;
    let kept = qualify::readable_children(file, way[0]);
    assert(children.take(children.len() as int) =~= children);
    let at = lemma_kept_nodes(file, children, children.len() as int);
    let wanted = |i: int| resolve::node_name(file, children[i]) is Ok;
    let c = choose|c: int| 0 <= c < children.len() && children[c] == way[1];
    assert(wanted(c));
    assert(at.contains(c));
    let j = choose|j: int| 0 <= j < at.len() && at[j] == c;
    assert(kept[j] == way[1]);
    let below = way.skip(1);
    assert forall|i: int| 0 <= i < below.len() - 1 implies #[trigger] is_parent_of_next(
        file,
        below,
        i,
    ) by {
        assert(is_parent_of_next(file, way, i + 1));
    }
}

proof fn lemma_way_is_listed(
    file: SceneFile,
    prefix: Seq<FieldView>,
    nodes: Seq<Pptr>,
    fuel: nat,
    way: Seq<Pptr>,
) -> (segments: Seq<FieldView>)
    requires
        qualify::paths_below(file, prefix, nodes, nodes.len(), fuel) is Some,
        leads_down(file, way),
        nodes.contains(way[0]),
        forall|i: int| 0 <= i < way.len() ==> resolve::node_name(file, #[trigger] way[i]) is Ok,
    ensures
        segments.len() == prefix.len() + way.len(),
        segments.take(prefix.len() as int) == prefix,
        spell(file, segments.skip(prefix.len() as int), way),
        is_listed(
            file,
            qualify::paths_below(file, prefix, nodes, nodes.len(), fuel)->0,
            segments,
            way.last(),
        ),
    decreases way.len(),
{
    let paths = qualify::paths_below(file, prefix, nodes, nodes.len(), fuel)->0;
    let k = choose|k: int| 0 <= k < nodes.len() && nodes[k] == way[0];
    lemma_subtree_is_listed(file, prefix, nodes, nodes.len(), fuel, k);
    let names = qualify::names_of(file, nodes);
    let first = prefix.push(qualify::numbered(names, k));
    assert(names[k] == resolve::node_name(file, way[0])->Ok_0);
    if way.len() == 1 {
        lemma_own_paths(file, paths, first, way[0]);
        assert(first.skip(prefix.len() as int) =~= seq![qualify::numbered(names, k)]);
        assert(first.take(prefix.len() as int) =~= prefix);
        first
    } else {
        let kept = qualify::readable_children(file, way[0]);
        let below = way.skip(1);
        assert(resolve::node_name(file, way[1]) is Ok);
        lemma_child_is_kept(file, way);
        assert forall|i: int| 0 <= i < below.len() implies resolve::node_name(
            file,
            #[trigger] below[i],
        ) is Ok by {
            assert(below[i] == way[i + 1]);
        }
        assert(kept.contains(below[0]));
        let segments = lemma_way_is_listed(file, first, kept, (fuel - 1) as nat, below);
        let deeper = qualify::paths_below(file, first, kept, kept.len(), (fuel - 1) as nat)->0;
        lemma_listed_further(file, deeper, paths, segments, below.last());
        assert(way.last() == below.last());
        lemma_spell_on(file, prefix, qualify::numbered(names, k), way, segments);
        segments
    }
}

proof fn lemma_listed_further(
    file: SceneFile,
    inner: Seq<PathView>,
    outer: Seq<PathView>,
    segments: Seq<FieldView>,
    node: Pptr,
)
    requires
        is_listed(file, inner, segments, node),
        forall|x: int| 0 <= x < inner.len() ==> outer.contains(#[trigger] inner[x]),
    ensures
        is_listed(file, outer, segments, node),
{
    let own = PathView { segments, component: None };
    let x = choose|x: int| 0 <= x < inner.len() && inner[x] == own;
    assert(outer.contains(inner[x]));
    if let Ok(transform) = model::transform_at(file, node) {
        if let Ok(game_object) = model::game_object_at(file, transform.game_object) {
            let held = game_object.components@;
            assert forall|c: int|
                0 <= c < held.len() && model::label_at(file, #[trigger] held[c]) is Ok implies exists|
                x: int,
            |
                0 <= x < outer.len() && is_path(
                    #[trigger] outer[x],
                    segments,
                    Some(model::label_at(file, held[c])->Ok_0),
                ) by {
                let label = model::label_at(file, held[c])->Ok_0;
                let y = choose|y: int|
                    0 <= y < inner.len() && is_path(#[trigger] inner[y], segments, Some(label));
                assert(outer.contains(inner[y]));
                let x = choose|x: int| 0 <= x < outer.len() && outer[x] == inner[y];
                assert(is_path(outer[x], segments, Some(label)));
            }
        }
    }
}

/// Every GameObject that can be reached from a root along child pointers is listed, and
/// so is every component that it carries, as deep as it lies: by a path that spells the
/// names on the way, as far as these can be read.
pub proof fn every_named_object_is_listed(file: SceneFile, way: Seq<Pptr>) -> (segments: Seq<
    FieldView,
>)
    requires
        qualify::paths_of(file) is Some,
        leads_down(file, way),
        way[0].file_id == 0,
        file.transforms@.contains(way[0].path_id),
        is_root(file, way[0].path_id),
        forall|i: int| 0 <= i < way.len() ==> resolve::node_name(file, #[trigger] way[i]) is Ok,
    ensures
        spell(file, segments, way),
        is_listed(file, qualify::paths_of(file)->0, segments, way.last()),
{
    let ids = file.transforms@;
    let at = paths_begin_at_every_named_root(file);
    let wanted = |i: int| is_named_root(file, ids[i]);
    let i = choose|i: int| 0 <= i < ids.len() && ids[i] == way[0].path_id;
    assert(resolve::node_name(file, way[0]) is Ok);
    assert(wanted(i));
    assert(at.contains(i));
    let j = choose|j: int| 0 <= j < at.len() && at[j] == i;
    let roots = qualify::readable_roots(file, ids);
    assert(roots[j] == way[0]);
    let segments = lemma_way_is_listed(
        file,
        Seq::empty(),
        roots,
        file.objects@.len() + file.linked@.len(),
        way,
    );
    assert(segments.skip(0) =~= segments);
    segments
}

/// Whether a listed path leads along a way: its segments spell the names on it, and its
/// component is one that the GameObject at the end carries.
pub open spec fn follows(file: SceneFile, path: PathView, way: Seq<Pptr>) -> bool {
    &&& leads_down(file, way)
    &&& spell(file, path.segments, way)
    &&& path.component matches Some(component) ==> {
        &&& model::transform_at(file, way.last()) matches Ok(transform)
        &&& model::game_object_at(file, transform.game_object) matches Ok(game_object)
        &&& exists|c: int|
            0 <= c < game_object.components@.len() && model::label_at(
                file,
                #[trigger] game_object.components@[c],
            ) == Ok::<Seq<char>, Seq<char>>(component.name)
    }
}

proof fn lemma_own_path_follows(
    file: SceneFile,
    segments: Seq<FieldView>,
    way: Seq<Pptr>,
    x: int,
)
    requires
        leads_down(file, way),
        spell(file, segments, way),
        0 <= x < qualify::own_paths(file, segments, way.last()).len(),
    ensures
        follows(file, qualify::own_paths(file, segments, way.last())[x], way),
{
    let node = way.last();
    let own = qualify::own_paths(file, segments, node);
    if x > 0 {
        let transform = model::transform_at(file, node)->Ok_0;
        let game_object = model::game_object_at(file, transform.game_object)->Ok_0;
        let held = game_object.components@;
        let labels = qualify::readable_labels(file, held);
        assert(held.take(held.len() as int) =~= held);
        let at = lemma_kept_labels(file, held, held.len() as int);
        assert(own[x] == qualify::component_paths(segments, labels, labels.len())[x - 1]);
        assert(model::label_at(file, held[at[x - 1]]) == Ok::<Seq<char>, Seq<char>>(
            labels[x - 1],
        ));
    }
}

proof fn lemma_listed_path_follows(
    file: SceneFile,
    prefix: Seq<FieldView>,
    above: Seq<Pptr>,
    nodes: Seq<Pptr>,
    n: nat,
    fuel: nat,
    x: int,
) -> (way: Seq<Pptr>)
    requires
        n <= nodes.len(),
        spell(file, prefix, above),
        above.len() > 0 ==> leads_down(file, above) && (model::transform_at(
            file,
            above.last(),
        ) matches Ok(transform) && forall|i: int|
            0 <= i < nodes.len() ==> transform.children@.contains(#[trigger] nodes[i])),
        forall|i: int| 0 <= i < nodes.len() ==> resolve::node_name(file, #[trigger] nodes[i]) is Ok,
        qualify::paths_below(file, prefix, nodes, n, fuel) matches Some(paths) && 0 <= x
            < paths.len(),
    ensures
        follows(file, qualify::paths_below(file, prefix, nodes, n, fuel)->0[x], way),
        way.len() > above.len(),
        way.take(above.len() as int) == above,
        nodes.contains(way[above.len() as int]),
    decreases fuel, n,
{
    let paths = qualify::paths_below(file, prefix, nodes, n, fuel)->0;
    let before = qualify::paths_below(file, prefix, nodes, (n - 1) as nat, fuel)->0;
    let node = nodes[n - 1];
    let segments = prefix.push(qualify::numbered(qualify::names_of(file, nodes), n - 1));
    let own = qualify::own_paths(file, segments, node);
    let children = qualify::readable_children(file, node);
    let below = qualify::paths_below(file, segments, children, children.len(), (fuel - 1) as nat)->0;
    assert(paths == before + own + below);
    if x < before.len() {
        assert(paths[x] == before[x]);
        lemma_listed_path_follows(file, prefix, above, nodes, (n - 1) as nat, fuel, x)
    } else {
        let here = above.push(node);
        assert(resolve::node_name(file, nodes[n - 1]) is Ok);
        assert(spell(file, segments, here)) by {
            assert forall|i: int| 0 <= i < here.len() implies resolve::node_name(file, here[i])
                == Ok::<Seq<char>, Seq<char>>((#[trigger] segments[i]).name) by {
                if i < above.len() {
                    assert(segments[i] == prefix[i]);
                }
            }
        }
        assert(leads_down(file, here)) by {
            assert forall|i: int| 0 <= i < here.len() - 1 implies #[trigger] is_parent_of_next(
                file,
                here,
                i,
            ) by {
                if i < above.len() - 1 {
                    assert(is_parent_of_next(file, above, i));
                } else {
                    assert(here[i] == above.last());
                }
            }
        }
        assert(here.take(above.len() as int) =~= above);
        if x < before.len() + own.len() {
            assert(paths[x] == own[x - before.len()]);
            lemma_own_path_follows(file, segments, here, x - before.len());
            here
        } else {
            let y = x - before.len() - own.len();
            assert(paths[x] == below[y]);
            if let Ok(transform) = model::transform_at(file, node) {
                let all = transform.children@;
                assert(all.take(all.len() as int) =~= all);
                let at = lemma_kept_nodes(file, all, all.len() as int);
                let wanted = |i: int| resolve::node_name(file, all[i]) is Ok;
                assert forall|i: int| 0 <= i < children.len() implies all.contains(
                    #[trigger] children[i],
                ) && resolve::node_name(file, children[i]) is Ok by {
                    assert(children[i] == all[at[i]]);
                    assert(wanted(at[i]));
                }
            }
            let way = lemma_listed_path_follows(
                file,
                segments,
                here,
                children,
                children.len(),
                (fuel - 1) as nat,
                y,
            );
            assert(way.take(above.len() as int) =~= above) by {
                assert forall|i: int| 0 <= i < above.len() implies way[i] == above[i] by {
                    assert(way.take(here.len() as int)[i] == here[i]);
                }
            }
            assert(way.take(here.len() as int)[above.len() as int] == node);
            way
        }
    }
}

/// Every listed path spells a way from a root along child pointers, and selects nothing
/// or a component that the GameObject at its end carries.
pub proof fn every_listed_path_spells_a_way(file: SceneFile, x: int) -> (way: Seq<Pptr>)
    requires
        qualify::paths_of(file) matches Some(paths) && 0 <= x < paths.len(),
    ensures
        follows(file, qualify::paths_of(file)->0[x], way),
        way[0].file_id == 0,
        file.transforms@.contains(way[0].path_id),
        is_root(file, way[0].path_id),
{
    let ids = file.transforms@;
    let roots = qualify::readable_roots(file, ids);
    let at = paths_begin_at_every_named_root(file);
    let wanted = |i: int| is_named_root(file, ids[i]);
    assert forall|i: int| 0 <= i < roots.len() implies resolve::node_name(
        file,
        #[trigger] roots[i],
    ) is Ok by {
        assert(wanted(at[i]));
        assert(roots[i] == (Pptr { file_id: 0, path_id: ids[at[i]] }));
    }
    let way = lemma_listed_path_follows(
        file,
        Seq::empty(),
        Seq::empty(),
        roots,
        roots.len(),
        file.objects@.len() + file.linked@.len(),
        x,
    );
    let j = choose|j: int| 0 <= j < roots.len() && roots[j] == way[0];
    assert(wanted(at[j]));
    assert(roots[j] == (Pptr { file_id: 0, path_id: ids[at[j]] }));
    way
}

} // verus!
