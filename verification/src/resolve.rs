//! Resolving an [`ObjectRef`] / [`ComponentPath`] to a path id (or a Transform)
//! within a serialized file.

use vstd::prelude::*;

use crate::classes::class_label;
use crate::component_path::{ComponentPath, Field, FieldView, ObjectRef, ObjectRefView, PathView};
use crate::model::{Object, Pptr, SceneFile};
use crate::number::show_usize;
use crate::text::same;
use crate::{classes, model, number, text};

verus! {

/// Why an index selects nothing among `n` matches.
pub open spec fn out_of_range(kind: Seq<char>, name: Seq<char>, index: nat, n: nat) -> Seq<char> {
    Seq::<char>::empty() + kind + " '"@ + name + "': index "@ + number::decimal(index)
        + " out of range ("@ + number::decimal(n) + " match(es))"@
}

/// Why nothing is selected when nothing matches.
pub open spec fn no_match(kind: Seq<char>, name: Seq<char>) -> Seq<char> {
    Seq::<char>::empty() + "no "@ + kind + " matching '"@ + name + "'"@
}

/// Why nothing is selected when several things match and no index says which.
pub open spec fn ambiguous(kind: Seq<char>, name: Seq<char>, n: nat) -> Seq<char> {
    Seq::<char>::empty() + kind + " '"@ + name + "' is ambiguous ("@ + number::decimal(n)
        + " matches); add ':<index>' (0.."@ + number::decimal((n - 1) as nat) + ")"@
}

/// The match that a field selects: the one at its index, or the sole one if it
/// has none.
pub open spec fn picked<T>(matches: Seq<T>, field: FieldView, kind: Seq<char>) -> Result<
    T,
    Seq<char>,
> {
    match field.index {
        Some(index) => if index < matches.len() {
            Ok(matches[index])
        } else {
            Err(out_of_range(kind, field.name, index as nat, matches.len()))
        },
        None => if matches.len() == 0 {
            Err(no_match(kind, field.name))
        } else if matches.len() == 1 {
            Ok(matches[0])
        } else {
            Err(ambiguous(kind, field.name, matches.len()))
        },
    }
}

/// The Transforms without a father, in file order; fails on the first Transform
/// that cannot be read.
pub open spec fn roots_of(file: SceneFile, ids: Seq<i64>) -> Result<Seq<Pptr>, Seq<char>>
    decreases ids.len(),
{
    if ids.len() == 0 {
        Ok(Seq::empty())
    } else {
        match roots_of(file, ids.drop_last()) {
            Err(e) => Err(e),
            Ok(roots) => match model::transform_at(file, model::local(ids.last())) {
                Err(e) => Err(e),
                Ok(transform) => if transform.father.path_id == 0 {
                    Ok(roots.push(model::local(ids.last())))
                } else {
                    Ok(roots)
                },
            },
        }
    }
}

/// The reason why the first unreadable Transform of `nodes` cannot be read.
pub open spec fn unreadable(file: SceneFile, nodes: Seq<Pptr>) -> Option<Seq<char>>
    decreases nodes.len(),
{
    if nodes.len() == 0 {
        None
    } else {
        match unreadable(file, nodes.drop_last()) {
            Some(e) => Some(e),
            None => match model::transform_at(file, nodes.last()) {
                Err(e) => Some(e),
                Ok(_) => None,
            },
        }
    }
}

/// The name of the GameObject of the Transform that a pointer leads to.
pub open spec fn node_name(file: SceneFile, node: Pptr) -> Result<Seq<char>, Seq<char>> {
    match model::transform_at(file, node) {
        Err(e) => Err(e),
        Ok(transform) => model::owner_name(file, transform),
    }
}

/// Those of `nodes` whose GameObject is called `name`; fails on the first whose
/// name cannot be read.
pub open spec fn nodes_named(file: SceneFile, nodes: Seq<Pptr>, name: Seq<char>) -> Result<
    Seq<Pptr>,
    Seq<char>,
>
    decreases nodes.len(),
{
    if nodes.len() == 0 {
        Ok(Seq::empty())
    } else {
        match nodes_named(file, nodes.drop_last(), name) {
            Err(e) => Err(e),
            Ok(matches) => match node_name(file, nodes.last()) {
                Err(e) => Err(e),
                Ok(n) => if n == name {
                    Ok(matches.push(nodes.last()))
                } else {
                    Ok(matches)
                },
            },
        }
    }
}

/// The one of `nodes` that a path segment selects.
pub open spec fn picked_node(
    file: SceneFile,
    nodes: Seq<Pptr>,
    field: FieldView,
    kind: Seq<char>,
) -> Result<Pptr, Seq<char>> {
    match nodes_named(file, nodes, field.name) {
        Err(e) => Err(e),
        Ok(matches) => picked(matches, field, kind),
    }
}

/// The child that a path segment selects under the Transform at `node`.
pub open spec fn child_of(file: SceneFile, node: Pptr, field: FieldView) -> Result<
    Pptr,
    Seq<char>,
> {
    match model::transform_at(file, node) {
        Err(e) => Err(e),
        Ok(transform) => match unreadable(file, transform.children@) {
            Some(e) => Err(e),
            None => picked_node(file, transform.children@, field, "child object"@),
        },
    }
}

/// The Transform that `segments` lead to, downwards from `node`.
pub open spec fn descended(file: SceneFile, node: Pptr, segments: Seq<FieldView>) -> Result<
    Pptr,
    Seq<char>,
>
    decreases segments.len(),
{
    if segments.len() == 0 {
        Ok(node)
    } else {
        match child_of(file, node, segments[0]) {
            Err(e) => Err(e),
            Ok(child) => descended(file, child, segments.skip(1)),
        }
    }
}

/// The Transform that hierarchy segments lead to.
pub open spec fn transform_for(file: SceneFile, segments: Seq<FieldView>) -> Result<
    Pptr,
    Seq<char>,
> {
    match roots_of(file, file.transforms@) {
        Err(e) => Err(e),
        Ok(roots) => match picked_node(file, roots, segments[0], "root object"@) {
            Err(e) => Err(e),
            Ok(root) => descended(file, root, segments.skip(1)),
        },
    }
}

/// The path ids of those components that carry a label; fails on the first whose
/// label cannot be told.
pub open spec fn components_labelled(
    file: SceneFile,
    components: Seq<Pptr>,
    label: Seq<char>,
) -> Result<Seq<i64>, Seq<char>>
    decreases components.len(),
{
    if components.len() == 0 {
        Ok(Seq::empty())
    } else {
        match components_labelled(file, components.drop_last(), label) {
            Err(e) => Err(e),
            Ok(matches) => match model::label_at(file, components.last()) {
                Err(e) => Err(e),
                Ok(l) => if l == label {
                    Ok(matches.push(components.last().path_id))
                } else {
                    Ok(matches)
                },
            },
        }
    }
}

/// The path id that a component path addresses: of its GameObject, or of the
/// selected component on it.
pub open spec fn path_target(file: SceneFile, path: PathView) -> Result<i64, Seq<char>> {
    match transform_for(file, path.segments) {
        Err(e) => Err(e),
        Ok(node) => match model::transform_at(file, node) {
            Err(e) => Err(e),
            Ok(transform) => match model::game_object_at(file, transform.game_object) {
                Err(e) => Err(e),
                Ok(game_object) => match path.component {
                    None => Ok(transform.game_object.path_id),
                    Some(selector) => match components_labelled(
                        file,
                        game_object.components@,
                        selector.name,
                    ) {
                        Err(e) => Err(e),
                        Ok(matches) => picked(matches, selector, "component"@),
                    },
                },
            },
        },
    }
}

/// The path ids of the objects of the given class, in file order.
pub open spec fn objects_of_class(objects: Seq<Object>, class: Seq<char>) -> Seq<i64>
    decreases objects.len(),
{
    if objects.len() == 0 {
        Seq::empty()
    } else {
        let before = objects_of_class(objects.drop_last(), class);
        if classes::class_text(objects.last().class_id) == class {
            before.push(objects.last().path_id)
        } else {
            before
        }
    }
}

/// The path ids of those objects whose `m_Name` is `name`, in file order.
pub open spec fn objects_called(
    file: SceneFile,
    objects: Seq<Object>,
    name: Seq<char>,
) -> Seq<i64>
    decreases objects.len(),
{
    if objects.len() == 0 {
        Seq::empty()
    } else {
        let before = objects_called(file, objects.drop_last(), name);
        if model::name_at(file, objects.last().path_id) == Some(name) {
            before.push(objects.last().path_id)
        } else {
            before
        }
    }
}

/// The object that a bare name selects: by `m_Name`, or by class where nothing is
/// named that.
pub open spec fn named_target(file: SceneFile, field: FieldView) -> Result<i64, Seq<char>> {
    let by_name = objects_called(file, file.objects@, field.name);
    let by_class = objects_of_class(file.objects@, field.name);
    picked(
        if by_name.len() == 0 {
            by_class
        } else {
            by_name
        },
        field,
        "object"@,
    )
}

/// The path id that an object reference addresses. A single bare name (no `/`
/// segments, no `@component`) that the hierarchy does not know can also select
/// an object by its name or class.
pub open spec fn ref_target(file: SceneFile, reference: ObjectRefView) -> Result<i64, Seq<char>> {
    match reference {
        ObjectRefView::PathId(path_id) => Ok(path_id),
        ObjectRefView::Path(path) => match path_target(file, path) {
            Ok(path_id) => Ok(path_id),
            Err(e) => if path.segments.len() == 1 && path.component is None {
                named_target(file, path.segments[0])
            } else {
                Err(e)
            },
        },
    }
}

/// Whether `r` is what `s` says: the same value, or an error with that text.
pub open spec fn matches_spec<T>(r: Result<T, String>, s: Result<T, Seq<char>>) -> bool {
    match r {
        Ok(v) => s == Ok::<T, Seq<char>>(v),
        Err(e) => s == Err::<T, Seq<char>>(e@),
    }
}

/// Whether `r` is the list that `s` says, or an error with that text.
pub open spec fn lists<T>(r: Result<Vec<T>, String>, s: Result<Seq<T>, Seq<char>>) -> bool {
    match r {
        Ok(v) => s == Ok::<Seq<T>, Seq<char>>(v@),
        Err(e) => s == Err::<Seq<T>, Seq<char>>(e@),
    }
}

/// Selects one match by `field.index`, or the sole match if no index was given.
pub fn pick<T: Copy>(matches: &Vec<T>, field: &Field, kind: &str) -> (r: Result<T, String>)
    ensures
        matches_spec(r, picked(matches@, field@, kind@)),
{
    let n: usize = matches.len();
    match field.index {
        Some(index) => {
            if index < n {
                return Ok(matches[index]);
            }
            let mut e = String::new();
            e.append(kind);
            e.append(" '");
            e.append(field.name.as_str());
            e.append("': index ");
            e.append(show_usize(index).as_str());
            e.append(" out of range (");
            e.append(show_usize(n).as_str());
            e.append(" match(es))");
            Err(e)
        },
        None => {
            if n == 0 {
                let mut e = String::new();
                e.append("no ");
                e.append(kind);
                e.append(" matching '");
                e.append(field.name.as_str());
                e.append("'");
                Err(e)
            } else if n == 1 {
                Ok(matches[0])
            } else {
                let mut e = String::new();
                e.append(kind);
                e.append(" '");
                e.append(field.name.as_str());
                e.append("' is ambiguous (");
                e.append(show_usize(n).as_str());
                e.append(" matches); add ':<index>' (0..");
                e.append(show_usize(n - 1).as_str());
                e.append(")");
                Err(e)
            }
        },
    }
}

/// The Transforms without a father, in file order.
#[verifier::loop_isolation(false)]
pub fn root_transforms(file: &SceneFile) -> (r: Result<Vec<Pptr>, String>)
    ensures
        lists(r, roots_of(*file, file.transforms@)),
{
    let ghost ids = file.transforms@;
    let mut roots: Vec<Pptr> = Vec::new();
    let mut i: usize = 0;
    while i < file.transforms.len()
        invariant
            i <= ids.len(),
            ids == file.transforms@,
            roots_of(*file, ids.take(i as int)) == Ok::<Seq<Pptr>, Seq<char>>(roots@),
        decreases ids.len() - i,
    {
        assert(ids.take(i + 1).drop_last() =~= ids.take(i as int));
        let p = Pptr::local(file.transforms[i]);
        match file.transform_at(p) {
            Ok(transform) => {
                if transform.father.is_null() {
                    roots.push(p);
                }
            },
            Err(e) => {
                proof {
                    lemma_roots_error(*file, ids, i + 1);
                }
                return Err(e);
            },
        }
        i += 1;
    }
    assert(ids.take(i as int) =~= ids);
    Ok(roots)
}

/// Those of `nodes` whose GameObject is called `name`.
#[verifier::loop_isolation(false)]
pub fn find_named(file: &SceneFile, nodes: &Vec<Pptr>, name: &str) -> (r: Result<Vec<Pptr>, String>)
    ensures
        lists(r, nodes_named(*file, nodes@, name@)),
{
    let mut matches: Vec<Pptr> = Vec::new();
    let mut i: usize = 0;
    while i < nodes.len()
        invariant
            i <= nodes@.len(),
            nodes_named(*file, nodes@.take(i as int), name@) == Ok::<Seq<Pptr>, Seq<char>>(matches@),
        decreases nodes@.len() - i,
    {
        assert(nodes@.take(i + 1).drop_last() =~= nodes@.take(i as int));
        let found: Result<String, String> = match file.transform_at(nodes[i]) {
            Ok(transform) => file.owner_name(transform),
            Err(e) => Err(e),
        };
        match found {
            Ok(n) => {
                if same(n.as_str(), name) {
                    matches.push(nodes[i]);
                }
            },
            Err(e) => {
                proof {
                    lemma_named_error(*file, nodes@, name@, i + 1);
                }
                return Err(e);
            },
        }
        i += 1;
    }
    assert(nodes@.take(i as int) =~= nodes@);
    Ok(matches)
}

/// Picks the Transform whose GameObject name matches `field` from `nodes`.
pub fn pick_transform(file: &SceneFile, nodes: &Vec<Pptr>, field: &Field, kind: &str) -> (r: Result<
    Pptr,
    String,
>)
    ensures
        matches_spec(r, picked_node(*file, nodes@, field@, kind@)),
{
    match find_named(file, nodes, field.name.as_str()) {
        Ok(matches) => pick(&matches, field, kind),
        Err(e) => Err(e),
    }
}

/// The reason why the first unreadable Transform of `nodes` cannot be read.
#[verifier::loop_isolation(false)]
fn first_unreadable(file: &SceneFile, nodes: &Vec<Pptr>) -> (r: Option<String>)
    ensures
        text::text_opt(r) == unreadable(*file, nodes@),
{
    let mut i: usize = 0;
    while i < nodes.len()
        invariant
            i <= nodes@.len(),
            unreadable(*file, nodes@.take(i as int)) is None,
        decreases nodes@.len() - i,
    {
        assert(nodes@.take(i + 1).drop_last() =~= nodes@.take(i as int));
        if let Err(e) = file.transform_at(nodes[i]) {
            proof {
                lemma_unreadable_error(*file, nodes@, i + 1);
            }
            return Some(e);
        }
        i += 1;
    }
    assert(nodes@.take(i as int) =~= nodes@);
    None
}

/// Walks the hierarchy described by `path`'s segments to the Transform of the
/// GameObject it addresses.
#[verifier::loop_isolation(false)]
pub fn resolve_path(file: &SceneFile, path: &ComponentPath) -> (r: Result<Pptr, String>)
    requires
        path.segments@.len() >= 1,
    ensures
        matches_spec(r, transform_for(*file, path@.segments)),
        r matches Ok(node) ==> model::transform_at(*file, node) is Ok,
{
    let roots = match root_transforms(file) {
        Ok(roots) => roots,
        Err(e) => {
            return Err(e);
        },
    };
    let ghost rest = path@.segments.skip(1);
    let mut current = match pick_transform(file, &roots, &path.segments[0], "root object") {
        Ok(node) => node,
        Err(e) => {
            return Err(e);
        },
    };
    proof {
        lemma_roots_readable(*file, file.transforms@);
        lemma_named_within(*file, roots@, path.segments@[0].name@);
        assert(rest.skip(0) =~= rest);
    }
    let mut i: usize = 1;
    while i < path.segments.len()
        invariant
            1 <= i <= path.segments@.len(),
            rest == path@.segments.skip(1),
            model::transform_at(*file, current) is Ok,
            transform_for(*file, path@.segments) == descended(*file, current, rest.skip(i - 1)),
        decreases path.segments@.len() - i,
    {
        let field = &path.segments[i];
        proof {
            assert(rest.skip(i - 1)[0] == field@);
            assert(rest.skip(i - 1).skip(1) =~= rest.skip(i as int));
        }
        let transform = match file.transform_at(current) {
            Ok(transform) => transform,
            Err(e) => {
                return Err(e);
            },
        };
        if let Some(e) = first_unreadable(file, &transform.children) {
            return Err(e);
        }
        match pick_transform(file, &transform.children, field, "child object") {
            Ok(child) => {
                proof {
                    lemma_named_within(*file, transform.children@, field.name@);
                }
                current = child;
            },
            Err(e) => {
                return Err(e);
            },
        }
        i += 1;
    }
    Ok(current)
}

/// The path ids of those components that carry `label`.
#[verifier::loop_isolation(false)]
pub fn find_labelled(file: &SceneFile, components: &Vec<Pptr>, label: &str) -> (r: Result<
    Vec<i64>,
    String,
>)
    ensures
        lists(r, components_labelled(*file, components@, label@)),
{
    let mut matches: Vec<i64> = Vec::new();
    let mut i: usize = 0;
    while i < components.len()
        invariant
            i <= components@.len(),
            components_labelled(*file, components@.take(i as int), label@) == Ok::<
                Seq<i64>,
                Seq<char>,
            >(matches@),
        decreases components@.len() - i,
    {
        assert(components@.take(i + 1).drop_last() =~= components@.take(i as int));
        match file.label_at(components[i]) {
            Ok(l) => {
                if same(l.as_str(), label) {
                    matches.push(components[i].path_id);
                }
            },
            Err(e) => {
                proof {
                    lemma_labelled_error(*file, components@, label@, i + 1);
                }
                return Err(e);
            },
        }
        i += 1;
    }
    assert(components@.take(i as int) =~= components@);
    Ok(matches)
}

/// Resolves a [`ComponentPath`] to the path id of its GameObject, or of the
/// selected `@component` on it.
pub fn resolve_component_path(file: &SceneFile, path: &ComponentPath) -> (r: Result<i64, String>)
    requires
        path.segments@.len() >= 1,
    ensures
        matches_spec(r, path_target(*file, path@)),
{
    let node = match resolve_path(file, path) {
        Ok(node) => node,
        Err(e) => {
            return Err(e);
        },
    };
    let transform = match file.transform_at(node) {
        Ok(transform) => transform,
        Err(e) => {
            return Err(e);
        },
    };
    let game_object = match file.game_object_at(transform.game_object) {
        Ok(game_object) => game_object,
        Err(e) => {
            return Err(e);
        },
    };
    match &path.component {
        None => Ok(transform.game_object.path_id),
        Some(selector) => match find_labelled(
            file,
            &game_object.components,
            selector.name.as_str(),
        ) {
            Ok(matches) => pick(&matches, selector, "component"),
            Err(e) => Err(e),
        },
    }
}

/// Resolves a single object by its `m_Name`, or — when nothing is named that —
/// by its class name (for class-typed singletons like `TagManager`). Scans every
/// object in the file; `field.index` disambiguates when several match.
#[verifier::loop_isolation(false)]
pub fn resolve_object_by_name(file: &SceneFile, field: &Field) -> (r: Result<i64, String>)
    ensures
        matches_spec(r, named_target(*file, field@)),
{
    let ghost all = file.objects@;
    let mut by_name: Vec<i64> = Vec::new();
    let mut by_class: Vec<i64> = Vec::new();
    let mut i: usize = 0;
    while i < file.objects.len()
        invariant
            i <= all.len(),
            all == file.objects@,
            by_name@ == objects_called(*file, all.take(i as int), field.name@),
            by_class@ == objects_of_class(all.take(i as int), field.name@),
        decreases all.len() - i,
    {
        assert(all.take(i + 1).drop_last() =~= all.take(i as int));
        let object = &file.objects[i];
        if same(class_label(object.class_id).as_str(), field.name.as_str()) {
            by_class.push(object.path_id);
        }
        if let Some(name) = file.name_at(object.path_id) {
            if same(name.as_str(), field.name.as_str()) {
                by_name.push(object.path_id);
            }
        }
        i += 1;
    }
    assert(all.take(i as int) =~= all);
    // Prefer name matches; class matches are the fallback for unnamed singletons.
    if by_name.len() == 0 {
        pick(&by_class, field, "object")
    } else {
        pick(&by_name, field, "object")
    }
}

/// Resolves an object reference (raw path id or component path) to a path id.
pub fn resolve_object_ref(file: &SceneFile, reference: &ObjectRef) -> (r: Result<i64, String>)
    requires
        reference matches ObjectRef::Path(path) ==> path.segments@.len() >= 1,
    ensures
        matches_spec(r, ref_target(*file, reference@)),
{
    match reference {
        ObjectRef::PathId(path_id) => Ok(*path_id),
        ObjectRef::Path(path) => match resolve_component_path(file, path) {
            Ok(path_id) => Ok(path_id),
            Err(e) => {
                if path.segments.len() == 1 && path.component.is_none() {
                    resolve_object_by_name(file, &path.segments[0])
                } else {
                    Err(e)
                }
            },
        },
    }
}

proof fn lemma_roots_error(file: SceneFile, ids: Seq<i64>, n: int)
    requires
        0 <= n <= ids.len(),
        roots_of(file, ids.take(n)) is Err,
    ensures
        roots_of(file, ids) == roots_of(file, ids.take(n)),
    decreases ids.len() - n,
{
    if n == ids.len() {
        assert(ids.take(n) =~= ids);
    } else {
        assert(ids.take(n + 1).drop_last() =~= ids.take(n));
        lemma_roots_error(file, ids, n + 1);
    }
}

proof fn lemma_named_error(file: SceneFile, nodes: Seq<Pptr>, name: Seq<char>, n: int)
    requires
        0 <= n <= nodes.len(),
        nodes_named(file, nodes.take(n), name) is Err,
    ensures
        nodes_named(file, nodes, name) == nodes_named(file, nodes.take(n), name),
    decreases nodes.len() - n,
{
    if n == nodes.len() {
        assert(nodes.take(n) =~= nodes);
    } else {
        assert(nodes.take(n + 1).drop_last() =~= nodes.take(n));
        lemma_named_error(file, nodes, name, n + 1);
    }
}

proof fn lemma_unreadable_error(file: SceneFile, nodes: Seq<Pptr>, n: int)
    requires
        0 <= n <= nodes.len(),
        unreadable(file, nodes.take(n)) is Some,
    ensures
        unreadable(file, nodes) == unreadable(file, nodes.take(n)),
    decreases nodes.len() - n,
{
    if n == nodes.len() {
        assert(nodes.take(n) =~= nodes);
    } else {
        assert(nodes.take(n + 1).drop_last() =~= nodes.take(n));
        lemma_unreadable_error(file, nodes, n + 1);
    }
}

proof fn lemma_labelled_error(file: SceneFile, components: Seq<Pptr>, label: Seq<char>, n: int)
    requires
        0 <= n <= components.len(),
        components_labelled(file, components.take(n), label) is Err,
    ensures
        components_labelled(file, components, label) == components_labelled(
            file,
            components.take(n),
            label,
        ),
    decreases components.len() - n,
{
    if n == components.len() {
        assert(components.take(n) =~= components);
    } else {
        assert(components.take(n + 1).drop_last() =~= components.take(n));
        lemma_labelled_error(file, components, label, n + 1);
    }
}

/// Every root can be read.
pub proof fn lemma_roots_readable(file: SceneFile, ids: Seq<i64>)
    ensures
        roots_of(file, ids) matches Ok(roots) ==> forall|i: int|
            0 <= i < roots.len() ==> model::transform_at(file, #[trigger] roots[i]) is Ok,
    decreases ids.len(),
{
    if ids.len() > 0 {
        lemma_roots_readable(file, ids.drop_last());
    }
}

/// What is found by name has that name, and can be read.
pub proof fn lemma_named_within(file: SceneFile, nodes: Seq<Pptr>, name: Seq<char>)
    ensures
        nodes_named(file, nodes, name) matches Ok(matches) ==> forall|i: int|
            0 <= i < matches.len() ==> node_name(file, #[trigger] matches[i]) == Ok::<
                Seq<char>,
                Seq<char>,
            >(name) && nodes.contains(matches[i]),
    decreases nodes.len(),
{
    if nodes.len() > 0 {
        lemma_named_within(file, nodes.drop_last(), name);
        if let Ok(matches) = nodes_named(file, nodes, name) {
            assert forall|i: int| 0 <= i < matches.len() implies node_name(
                file,
                #[trigger] matches[i],
            ) == Ok::<Seq<char>, Seq<char>>(name) && nodes.contains(matches[i]) by {
                let before = nodes_named(file, nodes.drop_last(), name)->Ok_0;
                if i < before.len() {
                    assert(nodes.drop_last().contains(before[i]));
                    let k = choose|k: int|
                        0 <= k < nodes.drop_last().len() && nodes.drop_last()[k] == before[i];
                    assert(nodes[k] == before[i]);
                } else {
                    assert(nodes[nodes.len() - 1] == matches[i]);
                }
            }
        }
    }
}

} // verus!
