//! What object references and paths select.

use vstd::prelude::*;

use super::{lemma_positions_push, lemma_positions_skip};
use crate::component_path::{FieldView, ObjectRefView, PathView};
use crate::model::{Pptr, SceneFile};
use crate::{classes, laws, model, resolve};

verus! {

/// Whether `at` are the positions of those of `nodes` whose GameObject is called `name`.
pub open spec fn are_named(at: Seq<int>, file: SceneFile, nodes: Seq<Pptr>, name: Seq<char>) -> bool {
    laws::are_positions(
        at,
        nodes.len() as int,
        |i: int| resolve::node_name(file, nodes[i]) == Ok::<Seq<char>, Seq<char>>(name),
    )
}

/// Whether `at` are the positions of those components that carry `label`.
pub open spec fn are_labelled(
    at: Seq<int>,
    file: SceneFile,
    components: Seq<Pptr>,
    label: Seq<char>,
) -> bool {
    laws::are_positions(
        at,
        components.len() as int,
        |i: int| model::label_at(file, components[i]) == Ok::<Seq<char>, Seq<char>>(label),
    )
}

/// Whether the `k`-th of `n` matches is the one meant: the one that the index counts
/// from zero, or the only one where there is no index.
pub open spec fn is_meant(field: FieldView, k: int, n: nat) -> bool {
    0 <= k < n && match field.index {
        Some(index) => k == index,
        None => n == 1,
    }
}

/// Of several matches the index selects one, counted from zero; without an index there
/// has to be exactly one; else nothing is selected.
pub proof fn an_index_selects_among_matches<T>(matches: Seq<T>, field: FieldView, kind: Seq<char>)
    ensures
        forall|k: int|
            is_meant(field, k, matches.len()) ==> resolve::picked(matches, field, kind) == Ok::<
                T,
                Seq<char>,
            >(#[trigger] matches[k]),
        (forall|k: int| !#[trigger] is_meant(field, k, matches.len())) && (field.index matches Some(
            index,
        ) ==> 0 <= index) ==> resolve::picked(matches, field, kind) is Err,
{
    if forall|k: int| !#[trigger] is_meant(field, k, matches.len()) {
        if let Some(index) = field.index {
            assert(!is_meant(field, index as int, matches.len()));
        } else {
            assert(!is_meant(field, 0, matches.len()));
        }
    }
}

proof fn lemma_named(file: SceneFile, nodes: Seq<Pptr>, name: Seq<char>, n: int) -> (at: Seq<int>)
    requires
        0 <= n <= nodes.len(),
        resolve::nodes_named(file, nodes.take(n), name) is Ok,
    ensures
        laws::are_positions(
            at,
            n,
            |i: int| resolve::node_name(file, nodes[i]) == Ok::<Seq<char>, Seq<char>>(name),
        ),
        ({
            let found = resolve::nodes_named(file, nodes.take(n), name)->Ok_0;
            &&& found.len() == at.len()
            &&& forall|j: int| 0 <= j < at.len() ==> #[trigger] found[j] == nodes[at[j]]
        }),
    decreases n,
{
    let wanted = |i: int| resolve::node_name(file, nodes[i]) == Ok::<Seq<char>, Seq<char>>(name);
    if n == 0 {
        Seq::empty()
    } else {
        let part = nodes.take(n);
        assert(part.drop_last() =~= nodes.take(n - 1));
        assert(part.last() == nodes[n - 1]);
        let before = lemma_named(file, nodes, name, n - 1);
        if wanted(n - 1) {
            lemma_positions_push(before, n - 1, wanted);
            before.push(n - 1)
        } else {
            lemma_positions_skip(before, n - 1, wanted);
            before
        }
    }
}

/// The nodes found by name are exactly those of that name, in order.
pub proof fn nodes_of_a_name_are_found(file: SceneFile, nodes: Seq<Pptr>, name: Seq<char>) -> (at:
    Seq<int>)
    requires
        resolve::nodes_named(file, nodes, name) is Ok,
    ensures
        are_named(at, file, nodes, name),
        ({
            let found = resolve::nodes_named(file, nodes, name)->Ok_0;
            &&& found.len() == at.len()
            &&& forall|j: int| 0 <= j < at.len() ==> #[trigger] found[j] == nodes[at[j]]
        }),
{
    assert(nodes.take(nodes.len() as int) =~= nodes);
    lemma_named(file, nodes, name, nodes.len() as int)
}

proof fn lemma_labelled(file: SceneFile, components: Seq<Pptr>, label: Seq<char>, n: int) -> (at:
    Seq<int>)
    requires
        0 <= n <= components.len(),
        resolve::components_labelled(file, components.take(n), label) is Ok,
    ensures
        laws::are_positions(
            at,
            n,
            |i: int| model::label_at(file, components[i]) == Ok::<Seq<char>, Seq<char>>(label),
        ),
        ({
            let found = resolve::components_labelled(file, components.take(n), label)->Ok_0;
            &&& found.len() == at.len()
            &&& forall|j: int|
                0 <= j < at.len() ==> #[trigger] found[j] == components[at[j]].path_id
        }),
    decreases n,
{
    let wanted = |i: int|
        model::label_at(file, components[i]) == Ok::<Seq<char>, Seq<char>>(label);
    if n == 0 {
        Seq::empty()
    } else {
        let part = components.take(n);
        assert(part.drop_last() =~= components.take(n - 1));
        assert(part.last() == components[n - 1]);
        let before = lemma_labelled(file, components, label, n - 1);
        if wanted(n - 1) {
            lemma_positions_push(before, n - 1, wanted);
            before.push(n - 1)
        } else {
            lemma_positions_skip(before, n - 1, wanted);
            before
        }
    }
}

/// The components found by a label are exactly those that carry it, in order.
pub proof fn components_of_a_label_are_found(
    file: SceneFile,
    components: Seq<Pptr>,
    label: Seq<char>,
) -> (at: Seq<int>)
    requires
        resolve::components_labelled(file, components, label) is Ok,
    ensures
        are_labelled(at, file, components, label),
        ({
            let found = resolve::components_labelled(file, components, label)->Ok_0;
            &&& found.len() == at.len()
            &&& forall|j: int|
                0 <= j < at.len() ==> #[trigger] found[j] == components[at[j]].path_id
        }),
{
    assert(components.take(components.len() as int) =~= components);
    lemma_labelled(file, components, label, components.len() as int)
}

/// Whether the Transform with the given path id is a root: it can be read, and has no
/// father.
pub open spec fn is_root(file: SceneFile, id: i64) -> bool {
    model::transform_at(file, Pptr { file_id: 0, path_id: id }) matches Ok(transform)
        && transform.father.path_id == 0
}

proof fn lemma_roots(file: SceneFile, ids: Seq<i64>, n: int) -> (at: Seq<int>)
    requires
        0 <= n <= ids.len(),
        resolve::roots_of(file, ids.take(n)) is Ok,
    ensures
        laws::are_positions(at, n, |i: int| is_root(file, ids[i])),
        ({
            let roots = resolve::roots_of(file, ids.take(n))->Ok_0;
            &&& roots.len() == at.len()
            &&& forall|j: int|
                0 <= j < at.len() ==> #[trigger] roots[j] == (Pptr {
                    file_id: 0,
                    path_id: ids[at[j]],
                })
        }),
        forall|i: int|
            0 <= i < n ==> model::transform_at(
                file,
                Pptr { file_id: 0, path_id: #[trigger] ids[i] },
            ) is Ok,
    decreases n,
{
    let wanted = |i: int| is_root(file, ids[i]);
    if n == 0 {
        Seq::empty()
    } else {
        let part = ids.take(n);
        assert(part.drop_last() =~= ids.take(n - 1));
        assert(part.last() == ids[n - 1]);
        let before = lemma_roots(file, ids, n - 1);
        if wanted(n - 1) {
            lemma_positions_push(before, n - 1, wanted);
            before.push(n - 1)
        } else {
            lemma_positions_skip(before, n - 1, wanted);
            before
        }
    }
}

/// The roots of a file are exactly the Transforms that have no father, in file order.
pub proof fn roots_have_no_father(file: SceneFile) -> (at: Seq<int>)
    requires
        resolve::roots_of(file, file.transforms@) is Ok,
    ensures
        laws::are_positions(
            at,
            file.transforms@.len() as int,
            |i: int| is_root(file, file.transforms@[i]),
        ),
        ({
            let roots = resolve::roots_of(file, file.transforms@)->Ok_0;
            &&& roots.len() == at.len()
            &&& forall|j: int|
                0 <= j < at.len() ==> #[trigger] roots[j] == (Pptr {
                    file_id: 0,
                    path_id: file.transforms@[at[j]],
                })
        }),
{
    let ids = file.transforms@;
    assert(ids.take(ids.len() as int) =~= ids);
    lemma_roots(file, ids, ids.len() as int)
}

/// Whether a path segment means `node` among the nodes of a level: of those with the
/// segment's name it is the one that the index counts, or the only one.
pub open spec fn means(file: SceneFile, level: Seq<Pptr>, field: FieldView, node: Pptr) -> bool {
    exists|at: Seq<int>, k: int| #[trigger]
        are_named(at, file, level, field.name) && #[trigger] is_meant(field, k, at.len())
            && level[at[k]] == node
}

proof fn lemma_picked_is_meant(
    file: SceneFile,
    level: Seq<Pptr>,
    field: FieldView,
    kind: Seq<char>,
)
    requires
        resolve::picked_node(file, level, field, kind) is Ok,
        field.index matches Some(index) ==> 0 <= index,
    ensures
        means(file, level, field, resolve::picked_node(file, level, field, kind)->Ok_0),
{
    let at = nodes_of_a_name_are_found(file, level, field.name);
    let found = resolve::nodes_named(file, level, field.name)->Ok_0;
    let k: int = match field.index {
        Some(index) => index as int,
        None => 0,
    };
    assert(is_meant(field, k, at.len()));
    assert(found[k] == level[at[k]]);
}

/// The nodes among which the `i`-th segment of a path selects: the roots, or the
/// children of the node that the segment before it selected.
pub open spec fn level_at(file: SceneFile, way: Seq<Pptr>, i: int) -> Seq<Pptr> {
    if i == 0 {
        match resolve::roots_of(file, file.transforms@) {
            Ok(roots) => roots,
            Err(_) => Seq::empty(),
        }
    } else {
        match model::transform_at(file, way[i - 1]) {
            Ok(transform) => transform.children@,
            Err(_) => Seq::empty(),
        }
    }
}

/// Whether the `i`-th segment means the `i`-th node of a way on its level.
pub open spec fn is_step(file: SceneFile, segments: Seq<FieldView>, way: Seq<Pptr>, i: int) -> bool {
    means(file, level_at(file, way, i), segments[i], way[i])
}

/// Whether the segments lead along a way: each means the next node among the children
/// of the one before it, the first among the roots.
pub open spec fn leads_along(file: SceneFile, segments: Seq<FieldView>, way: Seq<Pptr>) -> bool {
    &&& way.len() == segments.len()
    &&& forall|i: int|
        0 <= i < way.len() ==> #[trigger] is_step(file, segments, way, i)
}

proof fn lemma_descended(
    file: SceneFile,
    segments: Seq<FieldView>,
    way: Seq<Pptr>,
    n: int,
) -> (whole: Seq<Pptr>)
    requires
        1 <= n <= segments.len(),
        way.len() == n,
        forall|i: int| 0 <= i < n ==> #[trigger] is_step(file, segments, way, i),
        forall|i: int|
            0 <= i < segments.len() ==> ((#[trigger] segments[i]).index matches Some(index) ==> 0
                <= index),
        resolve::descended(file, way[n - 1], segments.skip(n)) is Ok,
    ensures
        leads_along(file, segments, whole),
        whole.last() == resolve::descended(file, way[n - 1], segments.skip(n))->Ok_0,
    decreases segments.len() - n,
{
    let rest = segments.skip(n);
    if n == segments.len() {
        way
    } else {
        assert(rest[0] == segments[n]);
        assert(rest.skip(1) =~= segments.skip(n + 1));
        let transform = model::transform_at(file, way[n - 1])->Ok_0;
        lemma_picked_is_meant(file, transform.children@, segments[n], "child object"@);
        let child = resolve::child_of(file, way[n - 1], segments[n])->Ok_0;
        let more = way.push(child);
        assert forall|i: int| 0 <= i < n + 1 implies #[trigger] is_step(
            file,
            segments,
            more,
            i,
        ) by {
            if i < n {
                assert(is_step(file, segments, way, i));
                assert(more[i] == way[i]);
                assert(level_at(file, more, i) == level_at(file, way, i));
            } else {
                assert(level_at(file, more, i) == transform.children@);
            }
        }
        lemma_descended(file, segments, more, n + 1)
    }
}

/// What the segments of a path lead to is reached from a root by going down one child
/// per segment, each of the name that the segment has, and the one that its index
/// counts among those of that name or the only one.
pub proof fn a_path_leads_along_its_names(file: SceneFile, segments: Seq<FieldView>) -> (way: Seq<
    Pptr,
>)
    requires
        segments.len() >= 1,
        forall|i: int|
            0 <= i < segments.len() ==> ((#[trigger] segments[i]).index matches Some(index) ==> 0
                <= index),
        resolve::transform_for(file, segments) is Ok,
    ensures
        leads_along(file, segments, way),
        way.last() == resolve::transform_for(file, segments)->Ok_0,
{
    let roots = resolve::roots_of(file, file.transforms@)->Ok_0;
    lemma_picked_is_meant(file, roots, segments[0], "root object"@);
    let root = resolve::picked_node(file, roots, segments[0], "root object"@)->Ok_0;
    let way = seq![root];
    assert(level_at(file, way, 0) == roots);
    assert(is_step(file, segments, way, 0));
    lemma_descended(file, segments, way, 1)
}

proof fn lemma_positions_agree(a: Seq<int>, b: Seq<int>, n: int, wanted: spec_fn(int) -> bool)
    requires
        laws::are_positions(a, n, wanted),
        laws::are_positions(b, n, wanted),
    ensures
        a == b,
    decreases a.len(),
{
    if a.len() == 0 {
        if b.len() > 0 {
            assert(wanted(b[0]));
            assert(a.contains(b[0]));
        }
        assert(a =~= b);
    } else {
        assert(wanted(a[a.len() - 1]));
        assert(b.contains(a[a.len() - 1]));
        let j = choose|j: int| 0 <= j < b.len() && b[j] == a[a.len() - 1];
        let x = a[a.len() - 1];
        let y = b[b.len() - 1];
        assert(wanted(y));
        assert(a.contains(y));
        let k = choose|k: int| 0 <= k < a.len() && a[k] == y;
        assert(x == y) by {
            if k < a.len() - 1 {
                assert(a[k] < a[a.len() - 1]);
            }
            if j < b.len() - 1 {
                assert(b[j] < b[b.len() - 1]);
            }
        }
        let m = x;
        let p = a.drop_last();
        let q = b.drop_last();
        assert(laws::are_positions(p, m, wanted)) by {
            assert forall|i: int| 0 <= i < m && #[trigger] wanted(i) implies p.contains(i) by {
                assert(a.contains(i));
                let j = choose|j: int| 0 <= j < a.len() && a[j] == i;
                assert(p[j] == i);
            }
            assert forall|j: int| 0 <= j < p.len() implies 0 <= #[trigger] p[j] < m && wanted(
                p[j],
            ) by {
                assert(a[j] < a[a.len() - 1]);
            }
        }
        assert(laws::are_positions(q, m, wanted)) by {
            assert forall|i: int| 0 <= i < m && #[trigger] wanted(i) implies q.contains(i) by {
                assert(b.contains(i));
                let j = choose|j: int| 0 <= j < b.len() && b[j] == i;
                assert(q[j] == i);
            }
            assert forall|j: int| 0 <= j < q.len() implies 0 <= #[trigger] q[j] < m && wanted(
                q[j],
            ) by {
                assert(b[j] < b[b.len() - 1]);
            }
        }
        lemma_positions_agree(p, q, m, wanted);
        assert(a =~= p.push(x));
        assert(b =~= q.push(x));
    }
}

proof fn lemma_meant_is_picked(
    file: SceneFile,
    level: Seq<Pptr>,
    field: FieldView,
    node: Pptr,
    kind: Seq<char>,
)
    requires
        means(file, level, field, node),
        resolve::nodes_named(file, level, field.name) is Ok,
    ensures
        resolve::picked_node(file, level, field, kind) == Ok::<Pptr, Seq<char>>(node),
{
    let (at, k) = choose|at: Seq<int>, k: int| #[trigger]
        are_named(at, file, level, field.name) && #[trigger] is_meant(field, k, at.len())
            && level[at[k]] == node;
    let own = nodes_of_a_name_are_found(file, level, field.name);
    lemma_positions_agree(
        at,
        own,
        level.len() as int,
        |i: int| resolve::node_name(file, level[i]) == Ok::<Seq<char>, Seq<char>>(field.name),
    );
    let found = resolve::nodes_named(file, level, field.name)->Ok_0;
    assert(found[k] == level[own[k]]);
}

/// Whether the names on a level can all be read.
pub open spec fn all_readable(file: SceneFile, level: Seq<Pptr>) -> bool {
    forall|i: int| 0 <= i < level.len() ==> resolve::node_name(file, #[trigger] level[i]) is Ok
}

proof fn lemma_readable_level(file: SceneFile, level: Seq<Pptr>, name: Seq<char>)
    requires
        all_readable(file, level),
    ensures
        resolve::nodes_named(file, level, name) is Ok,
        resolve::unreadable(file, level) is None,
    decreases level.len(),
{
    if level.len() > 0 {
        assert(all_readable(file, level.drop_last())) by {
            assert forall|i: int| 0 <= i < level.drop_last().len() implies resolve::node_name(
                file,
                #[trigger] level.drop_last()[i],
            ) is Ok by {
                assert(level.drop_last()[i] == level[i]);
            }
        }
        lemma_readable_level(file, level.drop_last(), name);
        assert(resolve::node_name(file, level[level.len() - 1]) is Ok);
    }
}

proof fn lemma_way_descended(
    file: SceneFile,
    segments: Seq<FieldView>,
    way: Seq<Pptr>,
    n: int,
)
    requires
        1 <= n <= segments.len(),
        leads_along(file, segments, way),
        forall|i: int| 0 <= i < way.len() ==> all_readable(file, #[trigger] level_at(file, way, i)),
    ensures
        resolve::descended(file, way[n - 1], segments.skip(n)) == Ok::<Pptr, Seq<char>>(
            way.last(),
        ),
    decreases segments.len() - n,
{
    if n < segments.len() {
        let rest = segments.skip(n);
        assert(rest[0] == segments[n]);
        assert(rest.skip(1) =~= segments.skip(n + 1));
        let level = level_at(file, way, n);
        assert(all_readable(file, level));
        assert(is_step(file, segments, way, n));
        lemma_readable_level(file, level, segments[n].name);
        lemma_meant_is_picked(file, level, segments[n], way[n], "child object"@);
        if model::transform_at(file, way[n - 1]) is Err {
            let (at, k) = choose|at: Seq<int>, k: int| #[trigger]
                are_named(at, file, level, segments[n].name) && #[trigger] is_meant(
                    segments[n],
                    k,
                    at.len(),
                ) && level[at[k]] == way[n];
            assert(0 <= at[k] < level.len());
        }
        lemma_way_descended(file, segments, way, n + 1);
    }
}

/// A path whose segments lead along a way is resolved to the end of that way, where the
/// Transforms and the names on the way can be read.
pub proof fn a_way_that_exists_is_found(
    file: SceneFile,
    segments: Seq<FieldView>,
    way: Seq<Pptr>,
)
    requires
        segments.len() >= 1,
        resolve::roots_of(file, file.transforms@) is Ok,
        leads_along(file, segments, way),
        forall|i: int| 0 <= i < way.len() ==> all_readable(file, #[trigger] level_at(file, way, i)),
    ensures
        resolve::transform_for(file, segments) == Ok::<Pptr, Seq<char>>(way.last()),
{
    let level = level_at(file, way, 0);
    assert(all_readable(file, level));
    assert(is_step(file, segments, way, 0));
    lemma_readable_level(file, level, segments[0].name);
    lemma_meant_is_picked(file, level, segments[0], way[0], "root object"@);
    lemma_way_descended(file, segments, way, 1);
}

/// A path without a component selects the GameObject that it leads to; with one, a
/// component of that GameObject that carries its label: the one that its index counts,
/// or the only one.
pub proof fn a_path_selects_the_object_or_its_component(file: SceneFile, path: PathView)
    requires
        path.component matches Some(selector) ==> (selector.index matches Some(index) ==> 0
            <= index),
        resolve::path_target(file, path) is Ok,
    ensures
        ({
            let id = resolve::path_target(file, path)->Ok_0;
            &&& resolve::transform_for(file, path.segments) matches Ok(node)
            &&& model::transform_at(file, node) matches Ok(transform)
            &&& model::game_object_at(file, transform.game_object) matches Ok(game_object)
            &&& match path.component {
                None => id == transform.game_object.path_id,
                Some(selector) => exists|at: Seq<int>, k: int| #[trigger]
                    are_labelled(at, file, game_object.components@, selector.name)
                        && #[trigger] is_meant(selector, k, at.len())
                        && game_object.components@[at[k]].path_id == id,
            }
        }),
{
    let node = resolve::transform_for(file, path.segments)->Ok_0;
    let transform = model::transform_at(file, node)->Ok_0;
    let game_object = model::game_object_at(file, transform.game_object)->Ok_0;
    if let Some(selector) = path.component {
        let at = components_of_a_label_are_found(file, game_object.components@, selector.name);
        let found = resolve::components_labelled(
            file,
            game_object.components@,
            selector.name,
        )->Ok_0;
        let k: int = match selector.index {
            Some(index) => index as int,
            None => 0,
        };
        assert(is_meant(selector, k, at.len()));
        assert(found[k] == game_object.components@[at[k]].path_id);
    }
}

/// Whether `at` are the positions of the objects with the given `m_Name`.
pub open spec fn are_called(at: Seq<int>, file: SceneFile, name: Seq<char>) -> bool {
    laws::are_positions(
        at,
        file.objects@.len() as int,
        |i: int| model::name_at(file, file.objects@[i].path_id) == Some(name),
    )
}

/// Whether `at` are the positions of the objects of the given class.
pub open spec fn are_of_class(at: Seq<int>, file: SceneFile, class: Seq<char>) -> bool {
    laws::are_positions(
        at,
        file.objects@.len() as int,
        |i: int| classes::class_text(file.objects@[i].class_id) == class,
    )
}

proof fn lemma_called(file: SceneFile, name: Seq<char>, n: int) -> (at: Seq<int>)
    requires
        0 <= n <= file.objects@.len(),
    ensures
        laws::are_positions(
            at,
            n,
            |i: int| model::name_at(file, file.objects@[i].path_id) == Some(name),
        ),
        ({
            let found = resolve::objects_called(file, file.objects@.take(n), name);
            &&& found.len() == at.len()
            &&& forall|j: int|
                0 <= j < at.len() ==> #[trigger] found[j] == file.objects@[at[j]].path_id
        }),
    decreases n,
{
    let objects = file.objects@;
    let wanted = |i: int| model::name_at(file, file.objects@[i].path_id) == Some(name);
    if n == 0 {
        Seq::empty()
    } else {
        let part = objects.take(n);
        assert(part.drop_last() =~= objects.take(n - 1));
        assert(part.last() == objects[n - 1]);
        let before = lemma_called(file, name, n - 1);
        if wanted(n - 1) {
            lemma_positions_push(before, n - 1, wanted);
            before.push(n - 1)
        } else {
            lemma_positions_skip(before, n - 1, wanted);
            before
        }
    }
}

proof fn lemma_of_class(file: SceneFile, class: Seq<char>, n: int) -> (at: Seq<int>)
    requires
        0 <= n <= file.objects@.len(),
    ensures
        laws::are_positions(
            at,
            n,
            |i: int| classes::class_text(file.objects@[i].class_id) == class,
        ),
        ({
            let found = resolve::objects_of_class(file.objects@.take(n), class);
            &&& found.len() == at.len()
            &&& forall|j: int|
                0 <= j < at.len() ==> #[trigger] found[j] == file.objects@[at[j]].path_id
        }),
    decreases n,
{
    let objects = file.objects@;
    let wanted = |i: int| classes::class_text(file.objects@[i].class_id) == class;
    if n == 0 {
        Seq::empty()
    } else {
        let part = objects.take(n);
        assert(part.drop_last() =~= objects.take(n - 1));
        assert(part.last() == objects[n - 1]);
        let before = lemma_of_class(file, class, n - 1);
        if wanted(n - 1) {
            lemma_positions_push(before, n - 1, wanted);
            before.push(n - 1)
        } else {
            lemma_positions_skip(before, n - 1, wanted);
            before
        }
    }
}

/// A bare name selects among the objects with that `m_Name` as soon as there is one;
/// only where there is none does it select among the objects of that class. The index
/// counts among them, and without one there has to be exactly one.
pub proof fn a_name_selects_named_objects_before_classes(file: SceneFile, field: FieldView) -> (r: (
    Seq<int>,
    Seq<int>,
    Seq<int>,
))
    requires
        field.index matches Some(index) ==> 0 <= index,
    ensures
        are_called(r.0, file, field.name),
        are_of_class(r.1, file, field.name),
        r.2 == (if r.0.len() > 0 {
            r.0
        } else {
            r.1
        }),
        resolve::named_target(file, field) is Ok <==> exists|k: int| #[trigger]
            is_meant(field, k, r.2.len()),
        forall|k: int| #[trigger]
            is_meant(field, k, r.2.len()) ==> resolve::named_target(file, field) == Ok::<
                i64,
                Seq<char>,
            >(file.objects@[r.2[k]].path_id),
{
    let objects = file.objects@;
    assert(objects.take(objects.len() as int) =~= objects);
    let called = lemma_called(file, field.name, objects.len() as int);
    let classed = lemma_of_class(file, field.name, objects.len() as int);
    let by_name = resolve::objects_called(file, objects, field.name);
    let by_class = resolve::objects_of_class(objects, field.name);
    let at = if called.len() > 0 {
        called
    } else {
        classed
    };
    let found = if called.len() > 0 {
        by_name
    } else {
        by_class
    };
    an_index_selects_among_matches(found, field, "object"@);
    assert forall|k: int| #[trigger] is_meant(field, k, at.len()) implies resolve::named_target(
        file,
        field,
    ) == Ok::<i64, Seq<char>>(objects[at[k]].path_id) by {
        assert(found[k] == objects[at[k]].path_id);
    }
    if resolve::named_target(file, field) is Ok {
        let k: int = match field.index {
            Some(index) => index as int,
            None => 0,
        };
        assert(is_meant(field, k, at.len()));
    }
    (called, classed, at)
}

/// Where a bare name selects an object and some object has that `m_Name`, the selected
/// one has it too; one that only its class matches is selected only where no object has
/// the name.
pub proof fn a_class_is_only_the_fallback_for_a_name(file: SceneFile, field: FieldView) -> (i: int)
    requires
        field.index matches Some(index) ==> 0 <= index,
        resolve::named_target(file, field) is Ok,
    ensures
        0 <= i < file.objects@.len(),
        file.objects@[i].path_id == resolve::named_target(file, field)->Ok_0,
        (exists|j: int|
            0 <= j < file.objects@.len() && model::name_at(
                file,
                (#[trigger] file.objects@[j]).path_id,
            ) == Some(field.name)) ==> model::name_at(file, file.objects@[i].path_id) == Some(
            field.name,
        ),
        model::name_at(file, file.objects@[i].path_id) == Some(field.name) || classes::class_text(
            file.objects@[i].class_id,
        ) == field.name,
{
    let (called, classed, at) = a_name_selects_named_objects_before_classes(file, field);
    let k = choose|k: int| #[trigger] is_meant(field, k, at.len());
    assert(is_meant(field, k, at.len()));
    let by_name = |i: int| model::name_at(file, file.objects@[i].path_id) == Some(field.name);
    let by_class = |i: int| classes::class_text(file.objects@[i].class_id) == field.name;
    if exists|j: int|
        0 <= j < file.objects@.len() && model::name_at(file, (#[trigger] file.objects@[j]).path_id)
            == Some(field.name) {
        let j = choose|j: int|
            0 <= j < file.objects@.len() && model::name_at(
                file,
                (#[trigger] file.objects@[j]).path_id,
            ) == Some(field.name);
        assert(by_name(j));
        assert(called.contains(j));
    }
    assert(called.len() > 0 ==> by_name(at[k]));
    assert(called.len() == 0 ==> by_class(at[k]));
    at[k]
}

/// An object reference selects by path id as it stands; a path selects what it leads
/// to; where a path leads nowhere and is a bare name, it selects by that name, else it
/// fails as the path did.
pub proof fn a_reference_selects_by_id_path_or_name(file: SceneFile, path: PathView, id: i64)
    ensures
        resolve::ref_target(file, ObjectRefView::PathId(id)) == Ok::<i64, Seq<char>>(id),
        resolve::path_target(file, path) is Ok ==> resolve::ref_target(
            file,
            ObjectRefView::Path(path),
        ) == resolve::path_target(file, path),
        resolve::path_target(file, path) is Err && path.segments.len() == 1 && path.component is None
            ==> resolve::ref_target(file, ObjectRefView::Path(path)) == resolve::named_target(
            file,
            path.segments[0],
        ),
        resolve::path_target(file, path) is Err && (path.segments.len() != 1
            || path.component is Some) ==> resolve::ref_target(file, ObjectRefView::Path(path))
            == resolve::path_target(file, path),
{
}

} // verus!
