//! Annotating PPtrs in a dumped object's JSON with a human-readable, and
//! re-`cat`-able, `$ref` component path.
//!
//! A serialized PPtr is `{ "m_FileID": .., "m_PathID": .. }`. For every local
//! one that resolves to a scene-hierarchy object we add a `$ref` field holding
//! the [`ComponentPath`] addressing it — `Root/Child@SpriteRenderer`, with
//! disambiguating `:index` only where names repeat — so it round-trips back
//! through `cat`.

use vstd::prelude::*;

use crate::classes::{GAME_OBJECT, RECT_TRANSFORM, TRANSFORM};
use crate::component_path::{copy_fields, ComponentPath, Field, FieldView, PathView};
use crate::json::{find_entry, Entry, EntryView, Json, JsonView};
use crate::model::{Pptr, SceneFile};
use crate::resolve::{find_labelled, find_named};
use crate::text::same;
use crate::{component_path, json, model, resolve, text};

verus! {

/// The path ids that pointers hold.
pub open spec fn ids_of(pptrs: Seq<Pptr>) -> Seq<i64> {
    pptrs.map_values(|p: Pptr| p.path_id)
}

/// The first position of `target` in `ids`, from position `from` on.
pub open spec fn position_from(ids: Seq<i64>, target: i64, from: int) -> Option<int>
    decreases ids.len() - from,
{
    if from < 0 || from >= ids.len() {
        None
    } else if ids[from] == target {
        Some(from)
    } else {
        position_from(ids, target, from + 1)
    }
}

/// The position of `target` among `ids` when there is more than one, else none
/// (a sole match needs no index).
pub open spec fn disambiguated(ids: Seq<i64>, target: i64) -> Option<int> {
    if ids.len() <= 1 {
        None
    } else {
        position_from(ids, target, 0)
    }
}

/// The Transforms of `ids` that can be read, have no father and a GameObject whose
/// name can be read.
pub open spec fn readable_roots(file: SceneFile, ids: Seq<i64>) -> Seq<Pptr>
    decreases ids.len(),
{
    if ids.len() == 0 {
        Seq::empty()
    } else {
        let before = readable_roots(file, ids.drop_last());
        let node = model::local(ids.last());
        match model::transform_at(file, node) {
            Ok(transform) => if transform.father.path_id == 0 && resolve::node_name(file, node) is Ok {
                before.push(node)
            } else {
                before
            },
            Err(_) => before,
        }
    }
}

/// The Transform with the given path id below all its ancestors, root first, as
/// far as there are no more than `fuel` ancestors.
pub open spec fn chain_to(file: SceneFile, id: i64, fuel: nat) -> Option<Seq<i64>>
    decreases fuel,
{
    match model::transform_at(file, model::local(id)) {
        Err(_) => None,
        Ok(transform) => if transform.father.path_id == 0 {
            Some(seq![id])
        } else if fuel == 0 {
            None
        } else {
            match chain_to(file, transform.father.path_id, (fuel - 1) as nat) {
                None => None,
                Some(chain) => Some(chain.push(id)),
            }
        },
    }
}

/// The segment that selects `node` among the Transforms of its level.
pub open spec fn segment_for(file: SceneFile, level: Seq<Pptr>, node: Pptr) -> Option<FieldView> {
    match resolve::node_name(file, node) {
        Err(_) => None,
        Ok(name) => match resolve::nodes_named(file, level, name) {
            Err(_) => None,
            Ok(matches) => Some(
                FieldView { name, index: disambiguated(ids_of(matches), node.path_id) },
            ),
        },
    }
}

/// The Transforms among which the `i`-th of a chain is to be selected: the roots,
/// or the children of the one before it.
pub open spec fn level_of(file: SceneFile, chain: Seq<i64>, i: int) -> Seq<Pptr> {
    if i == 0 {
        readable_roots(file, file.transforms@)
    } else {
        match model::transform_at(file, model::local(chain[i - 1])) {
            Ok(parent) => parent.children@,
            Err(_) => Seq::empty(),
        }
    }
}

/// The segments that lead down the first `n` Transforms of a chain.
pub open spec fn segments_along(file: SceneFile, chain: Seq<i64>, n: nat) -> Option<Seq<FieldView>>
    decreases n,
{
    if n == 0 {
        Some(Seq::empty())
    } else {
        match segments_along(file, chain, (n - 1) as nat) {
            None => None,
            Some(segments) => match segment_for(
                file,
                level_of(file, chain, n - 1),
                model::local(chain[n - 1]),
            ) {
                None => None,
                Some(segment) => Some(segments.push(segment)),
            },
        }
    }
}

/// Whether a class places its object in the hierarchy.
pub open spec fn is_transform_class(class_id: i32) -> bool {
    class_id == TRANSFORM || class_id == RECT_TRANSFORM
}

/// The path id of the first (Rect)Transform among `components`, if none before it
/// leads nowhere.
pub open spec fn transform_among(file: SceneFile, components: Seq<Pptr>) -> Option<i64>
    decreases components.len(),
{
    if components.len() == 0 {
        None
    } else {
        match model::object_at(file, components[0]) {
            Err(_) => None,
            Ok(object) => if is_transform_class(object.class_id) {
                Some(components[0].path_id)
            } else {
                transform_among(file, components.skip(1))
            },
        }
    }
}

/// The hierarchy segments, root first, that address the GameObject `id`. A
/// GameObject without a Transform is not part of the hierarchy and has none.
pub open spec fn segments_to(file: SceneFile, id: i64) -> Option<Seq<FieldView>> {
    match model::game_object_at(file, model::local(id)) {
        Err(_) => None,
        Ok(game_object) => match transform_among(file, game_object.components@) {
            None => None,
            Some(transform_id) => match chain_to(file, transform_id, file.objects@.len()) {
                None => None,
                Some(chain) => segments_along(file, chain, chain.len()),
            },
        },
    }
}

/// The component selector that addresses `target` on the GameObject `id`.
pub open spec fn selector_for(file: SceneFile, id: i64, target: i64) -> Option<FieldView> {
    match model::label_at(file, model::local(target)) {
        Err(_) => None,
        Ok(label) => match model::game_object_at(file, model::local(id)) {
            Err(_) => None,
            Ok(game_object) => match resolve::components_labelled(file, game_object.components@, label) {
                Err(_) => None,
                Ok(matches) => Some(
                    FieldView { name: label, index: disambiguated(matches, target) },
                ),
            },
        },
    }
}

/// The path that addresses the object `target`, if it is a GameObject of the
/// hierarchy or a component on one, as far as they can be read.
pub open spec fn path_to(file: SceneFile, target: i64) -> Option<PathView> {
    match model::object_at(file, model::local(target)) {
        Err(_) => None,
        Ok(object) => if object.class_id == GAME_OBJECT {
            match segments_to(file, target) {
                None => None,
                Some(segments) => Some(PathView { segments, component: None }),
            }
        } else {
            match object.owner {
                Err(_) => None,
                Ok(owner) => if owner.path_id == 0 {
                    None
                } else {
                    match selector_for(file, owner.path_id, target) {
                        None => None,
                        Some(selector) => match segments_to(file, owner.path_id) {
                            None => None,
                            Some(segments) => Some(
                                PathView { segments, component: Some(selector) },
                            ),
                        },
                    }
                },
            }
        },
    }
}

/// The view of an optional list of fields.
pub open spec fn fields_opt(fields: Option<Vec<Field>>) -> Option<Seq<FieldView>> {
    match fields {
        Some(fields) => Some(component_path::field_views(fields@)),
        None => None,
    }
}

/// The view of an optional path.
pub open spec fn path_opt(path: Option<ComponentPath>) -> Option<PathView> {
    match path {
        Some(path) => Some(path@),
        None => None,
    }
}

/// An index as contracts speak of it.
pub open spec fn index_opt(index: Option<usize>) -> Option<int> {
    match index {
        Some(i) => Some(i as int),
        None => None,
    }
}

/// `Some(position)` of `target` among `matches` when there is more than one,
/// else `None` (a sole match needs no index).
#[verifier::loop_isolation(false)]
pub fn disambiguate(matches: &Vec<i64>, target: i64) -> (r: Option<usize>)
    ensures
        index_opt(r) == disambiguated(matches@, target),
{
    if matches.len() <= 1 {
        return None;
    }
    let mut i: usize = 0;
    while i < matches.len()
        invariant
            i <= matches@.len(),
            position_from(matches@, target, 0) == position_from(matches@, target, i as int),
        decreases matches@.len() - i,
    {
        if matches[i] == target {
            return Some(i);
        }
        i += 1;
    }
    None
}

/// All root Transforms whose name can be read.
#[verifier::loop_isolation(false)]
pub fn roots(file: &SceneFile) -> (out: Vec<Pptr>)
    ensures
        out@ == readable_roots(*file, file.transforms@),
{
    let ghost ids = file.transforms@;
    let mut out: Vec<Pptr> = Vec::new();
    let mut i: usize = 0;
    while i < file.transforms.len()
        invariant
            i <= ids.len(),
            ids == file.transforms@,
            out@ == readable_roots(*file, ids.take(i as int)),
        decreases ids.len() - i,
    {
        assert(ids.take(i + 1).drop_last() =~= ids.take(i as int));
        let node = Pptr::local(file.transforms[i]);
        if let Ok(transform) = file.transform_at(node) {
            if transform.father.is_null() && file.owner_name(transform).is_ok() {
                out.push(node);
            }
        }
        i += 1;
    }
    assert(ids.take(i as int) =~= ids);
    out
}

/// The path ids that pointers hold.
fn path_ids(pptrs: &Vec<Pptr>) -> (out: Vec<i64>)
    ensures
        out@ == ids_of(pptrs@),
{
    let mut out: Vec<i64> = Vec::new();
    let mut i: usize = 0;
    while i < pptrs.len()
        invariant
            i <= pptrs@.len(),
            out@ == ids_of(pptrs@.take(i as int)),
        decreases pptrs@.len() - i,
    {
        out.push(pptrs[i].path_id);
        i += 1;
    }
    assert(pptrs@.take(i as int) =~= pptrs@);
    out
}

/// The segment that selects `node` among the Transforms of its level.
fn segment_at(file: &SceneFile, level: &Vec<Pptr>, node: Pptr) -> (r: Option<Field>)
    ensures
        component_path::field_opt(r) == segment_for(*file, level@, node),
{
    let transform = match file.transform_at(node) {
        Ok(transform) => transform,
        Err(_) => {
            return None;
        },
    };
    let name = match file.owner_name(transform) {
        Ok(name) => name,
        Err(_) => {
            return None;
        },
    };
    let siblings = match find_named(file, level, name.as_str()) {
        Ok(siblings) => siblings,
        Err(_) => {
            return None;
        },
    };
    Some(Field { name, index: disambiguate(&path_ids(&siblings), node.path_id) })
}

/// The Transform with the given path id and its ancestors, root last, if there
/// are no more than `fuel` ancestors.
#[verifier::loop_isolation(false)]
fn ancestors(file: &SceneFile, id: i64, fuel: usize) -> (r: Option<Vec<i64>>)
    ensures
        match r {
            Some(up) => chain_to(*file, id, fuel as nat) == Some(up@.reverse()),
            None => chain_to(*file, id, fuel as nat) is None,
        },
{
    let mut up: Vec<i64> = Vec::new();
    let mut current: i64 = id;
    let mut left: usize = fuel;
    assert(forall|c: Seq<i64>| #[trigger] c.add(up@.reverse()) =~= c);
    loop
        invariant
            left <= fuel,
            chain_to(*file, id, fuel as nat) == (match chain_to(*file, current, left as nat) {
                Some(chain) => Some(chain + up@.reverse()),
                None => None,
            }),
        decreases left,
    {
        let transform = match file.transform_at(Pptr::local(current)) {
            Ok(transform) => transform,
            Err(_) => {
                return None;
            },
        };
        let ghost before = up@.reverse();
        up.push(current);
        assert(up@.reverse() =~= seq![current] + before);
        if transform.father.is_null() {
            return Some(up);
        }
        if left == 0 {
            return None;
        }
        proof {
            if let Some(chain) = chain_to(
                *file,
                transform.father.path_id,
                (left - 1) as nat,
            ) {
                assert(chain.push(current) + before =~= chain + up@.reverse());
            }
        }
        current = transform.father.path_id;
        left -= 1;
    }
}

/// The segments that lead down a chain of Transforms, given root last.
#[verifier::loop_isolation(false)]
fn segments_down(file: &SceneFile, up: &Vec<i64>) -> (r: Option<Vec<Field>>)
    requires
        forall|i: int| 0 <= i < up@.len() ==> model::transform_at(*file, model::local(#[trigger] up@[i])) is Ok,
    ensures
        fields_opt(r) == segments_along(*file, up@.reverse(), up@.len()),
{
    let ghost chain = up@.reverse();
    let mut segments: Vec<Field> = Vec::new();
    let mut i: usize = up.len();
    let n: usize = up.len();
    assert(component_path::field_views(segments@) =~= Seq::empty());
    while i > 0
        invariant
            i <= n,
            n == up@.len(),
            chain == up@.reverse(),
            segments_along(*file, chain, (n - i) as nat) == Some(component_path::field_views(segments@)),
        decreases i,
    {
        let node = Pptr::local(up[i - 1]);
        assert(chain[n - i] == up@[i - 1]);
        let segment: Option<Field> = if i == n {
            segment_at(file, &roots(file), node)
        } else {
            assert(chain[n - i - 1] == up@[i as int]);
            match file.transform_at(Pptr::local(up[i])) {
                Ok(parent) => segment_at(file, &parent.children, node),
                Err(_) => None,
            }
        };
        let ghost before = segments@;
        match segment {
            Some(segment) => {
                segments.push(segment);
                assert(component_path::field_views(segments@) =~= component_path::field_views(before).push(segment@));
            },
            None => {
                proof {
                    lemma_segments_stop(*file, chain, (n - i + 1) as nat, n as nat);
                }
                return None;
            },
        }
        i -= 1;
    }
    Some(segments)
}

/// The path id of the first (Rect)Transform among `components`, if any.
#[verifier::loop_isolation(false)]
fn gameobject_transform(file: &SceneFile, components: &Vec<Pptr>) -> (r: Option<i64>)
    ensures
        r == transform_among(*file, components@),
{
    let mut i: usize = 0;
    assert(components@.skip(0) =~= components@);
    while i < components.len()
        invariant
            i <= components@.len(),
            transform_among(*file, components@) == transform_among(
                *file,
                components@.skip(i as int),
            ),
        decreases components@.len() - i,
    {
        assert(components@.skip(i as int).skip(1) =~= components@.skip(i + 1));
        match file.object_at(components[i]) {
            Ok(object) => {
                if object.class_id == TRANSFORM || object.class_id == RECT_TRANSFORM {
                    return Some(components[i].path_id);
                }
            },
            Err(_) => {
                return None;
            },
        }
        i += 1;
    }
    None
}

/// The hierarchy segments, root first, that address the GameObject `id`, or
/// `None` if it has no Transform (not part of the scene hierarchy).
pub fn go_segments(file: &SceneFile, id: i64) -> (r: Option<Vec<Field>>)
    ensures
        fields_opt(r) == segments_to(*file, id),
{
    let game_object = match file.game_object_at(Pptr::local(id)) {
        Ok(game_object) => game_object,
        Err(_) => {
            return None;
        },
    };
    match gameobject_transform(file, &game_object.components) {
        Some(transform_id) => match ancestors(file, transform_id, file.objects.len()) {
            Some(up) => {
                proof {
                    lemma_chain_readable(*file, transform_id, file.objects@.len());
                    let chain = up@.reverse();
                    assert forall|i: int| 0 <= i < up@.len() implies model::transform_at(
                        *file,
                        model::local(#[trigger] up@[i]),
                    ) is Ok by {
                        assert(chain[up@.len() - 1 - i] == up@[i]);
                    }
                }
                segments_down(file, &up)
            },
            None => None,
        },
        None => None,
    }
}

/// The component selector that addresses `target` on the GameObject `id`.
fn component_selector(file: &SceneFile, id: i64, target: i64) -> (r: Option<Field>)
    ensures
        component_path::field_opt(r) == selector_for(*file, id, target),
{
    let label = match file.label_at(Pptr::local(target)) {
        Ok(label) => label,
        Err(_) => {
            return None;
        },
    };
    let game_object = match file.game_object_at(Pptr::local(id)) {
        Ok(game_object) => game_object,
        Err(_) => {
            return None;
        },
    };
    match find_labelled(file, &game_object.components, label.as_str()) {
        Ok(matches) => Some(Field { name: label, index: disambiguate(&matches, target) }),
        Err(_) => None,
    }
}

/// Builds the [`ComponentPath`] addressing `target`, or `None` if it is not a
/// GameObject or a component on one (e.g. a loose asset), or cannot be read. The
/// fathers of a Transform may also run in a circle; then there is no path either.
pub fn build_path(file: &SceneFile, target: i64) -> (r: Option<ComponentPath>)
    ensures
        path_opt(r) == path_to(*file, target),
{
    let object = match file.object_at(Pptr::local(target)) {
        Ok(object) => object,
        Err(_) => {
            return None;
        },
    };
    if object.class_id == GAME_OBJECT {
        return match go_segments(file, target) {
            Some(segments) => Some(ComponentPath { segments, component: None }),
            None => None,
        };
    }
    // Components carry an `m_GameObject`; assets without one aren't in the
    // hierarchy and get no `$ref`.
    let owner = match &object.owner {
        Ok(owner) => *owner,
        Err(_) => {
            return None;
        },
    };
    if owner.is_null() {
        return None;
    }
    let selector = match component_selector(file, owner.path_id, target) {
        Some(selector) => selector,
        None => {
            return None;
        },
    };
    match go_segments(file, owner.path_id) {
        Some(segments) => Some(ComponentPath { segments, component: Some(selector) }),
        None => None,
    }
}

/// The path id of a local, non-null PPtr (`{m_FileID: 0, m_PathID: N}`).
pub open spec fn pptr_of(entries: Seq<EntryView>) -> Option<i64> {
    if entries.len() != 2 {
        None
    } else {
        match (json::value_of(entries, "m_FileID"@), json::value_of(entries, "m_PathID"@)) {
            (Some(file_id), Some(path_id)) => match (file_id.as_int(), path_id.as_int()) {
                (Some(file_id), Some(path_id)) => if file_id == 0 && path_id != 0 {
                    Some(path_id)
                } else {
                    None
                },
                _ => None,
            },
            _ => None,
        }
    }
}

/// A PPtr with the path that addresses its object, if there is one.
pub open spec fn with_ref(file: SceneFile, entries: Seq<EntryView>, target: i64) -> Seq<EntryView> {
    match path_to(file, target) {
        Some(path) => entries.push(
            EntryView { key: "$ref"@, value: JsonView::Text(component_path::path_text(path)) },
        ),
        None => entries,
    }
}

/// A value in which every local PPtr that addresses a scene object has its path.
pub open spec fn qualified(file: SceneFile, value: JsonView) -> JsonView
    decreases value,
{
    match value {
        JsonView::Object(entries) => match pptr_of(entries) {
            Some(target) => JsonView::Object(with_ref(file, entries, target)),
            None => JsonView::Object(
                Seq::new(
                    entries.len(),
                    |i: int|
                        if 0 <= i < entries.len() {
                            EntryView {
                                key: entries[i].key,
                                value: qualified(file, entries[i].value),
                            }
                        } else {
                            arbitrary()
                        },
                ),
            ),
        },
        JsonView::Array(items) => JsonView::Array(
            Seq::new(
                items.len(),
                |i: int|
                    if 0 <= i < items.len() {
                        qualified(file, items[i])
                    } else {
                        arbitrary()
                    },
            ),
        ),
        _ => value,
    }
}

/// Whether `after` is `before` but for a `$ref` text behind the two integers of some
/// local PPtrs that address a scene object: all else, keys and orders among it, is the
/// same.
pub open spec fn only_annotated(file: SceneFile, before: JsonView, after: JsonView) -> bool
    decreases before,
{
    match (before, after) {
        (JsonView::Object(a), JsonView::Object(b)) => {
            ||| {
                &&& pptr_of(a) matches Some(target) && path_to(file, target) is Some
                &&& b.len() == 3 && b.take(2) == a && b[2].key == "$ref"@ && b[2].value is Text
            }
            ||| {
                &&& a.len() == b.len()
                &&& forall|i: int|
                    0 <= i < a.len() ==> (#[trigger] a[i]).key == b[i].key && only_annotated(
                        file,
                        a[i].value,
                        b[i].value,
                    )
            }
        },
        (JsonView::Array(a), JsonView::Array(b)) => a.len() == b.len() && forall|i: int|
            0 <= i < a.len() ==> only_annotated(file, #[trigger] a[i], b[i]),
        _ => before == after,
    }
}

proof fn lemma_same_is_annotated(file: SceneFile, value: JsonView)
    ensures
        only_annotated(file, value, value),
    decreases value,
{
    match value {
        JsonView::Object(entries) => {
            assert forall|i: int| 0 <= i < entries.len() implies only_annotated(
                file,
                (#[trigger] entries[i]).value,
                entries[i].value,
            ) by {
                lemma_same_is_annotated(file, entries[i].value);
            }
        },
        JsonView::Array(items) => {
            assert forall|i: int| 0 <= i < items.len() implies only_annotated(
                file,
                #[trigger] items[i],
                items[i],
            ) by {
                lemma_same_is_annotated(file, items[i]);
            }
        },
        _ => {},
    }
}

/// Annotating a value only adds to it: some local PPtrs gain a `$ref`, and nothing else
/// changes.
pub proof fn qualifying_only_adds(file: SceneFile, value: JsonView)
    ensures
        only_annotated(file, value, qualified(file, value)),
    decreases value,
{
    match value {
        JsonView::Object(entries) => match pptr_of(entries) {
            Some(target) => {
                if path_to(file, target) is Some {
                    let more = with_ref(file, entries, target);
                    assert(more.take(2) =~= entries);
                } else {
                    lemma_same_is_annotated(file, value);
                }
            },
            None => {
                assert forall|i: int| 0 <= i < entries.len() implies only_annotated(
                    file,
                    (#[trigger] entries[i]).value,
                    qualified(file, entries[i].value),
                ) by {
                    qualifying_only_adds(file, entries[i].value);
                }
            },
        },
        JsonView::Array(items) => {
            assert forall|i: int| 0 <= i < items.len() implies only_annotated(
                file,
                #[trigger] items[i],
                qualified(file, items[i]),
            ) by {
                qualifying_only_adds(file, items[i]);
            }
        },
        _ => {},
    }
}

/// A PPtr holds two integers.
proof fn lemma_pptr_entries(entries: Seq<EntryView>)
    requires
        pptr_of(entries) is Some,
    ensures
        entries.len() == 2,
        entries[0].value is Number,
        entries[1].value is Number,
{
    reveal_strlit("m_FileID");
    reveal_strlit("m_PathID");
    assert("m_FileID"@[2] != "m_PathID"@[2]);
    let rest = entries.skip(1);
    assert(rest[0] == entries[1]);
    assert(rest.skip(1) =~= Seq::<EntryView>::empty());
    assert forall|key: Seq<char>| #[trigger] json::value_of(entries, key) is Some implies (
    entries[0].key == key && json::value_of(entries, key) == Some(entries[0].value)) || (
    entries[1].key == key && json::value_of(entries, key) == Some(entries[1].value)) by {
        assert(json::value_of(rest.skip(1), key) is None);
        if entries[0].key != key && rest[0].key != key {
            assert(json::value_of(rest, key) is None);
        }
    }
    assert(json::value_of(entries, "m_FileID"@) is Some);
    assert(json::value_of(entries, "m_PathID"@) is Some);
}

/// Entries with the same keys and the same integers are the same PPtr.
proof fn lemma_same_integers(a: Seq<EntryView>, b: Seq<EntryView>, key: Seq<char>)
    requires
        a.len() == b.len(),
        forall|i: int|
            0 <= i < a.len() ==> (#[trigger] a[i]).key == b[i].key && a[i].value.as_int()
                == b[i].value.as_int(),
    ensures
        json::value_of(a, key) is Some <==> json::value_of(b, key) is Some,
        json::value_of(a, key) is Some ==> json::value_of(a, key)->0.as_int() == json::value_of(
            b,
            key,
        )->0.as_int(),
    decreases a.len(),
{
    if a.len() > 0 {
        assert(a[0].key == b[0].key);
        assert forall|i: int| 0 <= i < a.skip(1).len() implies (#[trigger] a.skip(1)[i]).key
            == b.skip(1)[i].key && a.skip(1)[i].value.as_int() == b.skip(1)[i].value.as_int() by {
            assert(a.skip(1)[i] == a[i + 1]);
        }
        lemma_same_integers(a.skip(1), b.skip(1), key);
    }
}

/// Annotating an annotated value again changes nothing.
pub proof fn qualifying_again_changes_nothing(file: SceneFile, value: JsonView)
    ensures
        qualified(file, qualified(file, value)) == qualified(file, value),
    decreases value,
{
    let once = qualified(file, value);
    match value {
        JsonView::Object(entries) => match pptr_of(entries) {
            Some(target) => {
                lemma_pptr_entries(entries);
                let more = with_ref(file, entries, target);
                if path_to(file, target) is Some {
                    assert forall|i: int| 0 <= i < more.len() implies qualified(
                        file,
                        (#[trigger] more[i]).value,
                    ) == more[i].value by {
                        assert(i < 2 ==> more[i] == entries[i]);
                    }
                    assert(qualified(file, once)->Object_0 =~= more);
                }
            },
            None => {
                let out = once->Object_0;
                assert forall|i: int| 0 <= i < entries.len() implies (#[trigger] out[i]).key
                    == entries[i].key && out[i].value.as_int() == entries[i].value.as_int()
                    && qualified(file, out[i].value) == out[i].value by {
                    qualifying_again_changes_nothing(file, entries[i].value);
                }
                lemma_same_integers(out, entries, "m_FileID"@);
                lemma_same_integers(out, entries, "m_PathID"@);
                assert(pptr_of(out) is None);
                assert(qualified(file, once)->Object_0 =~= out);
            },
        },
        JsonView::Array(items) => {
            let out = once->Array_0;
            assert forall|i: int| 0 <= i < items.len() implies qualified(file, #[trigger] out[i])
                == out[i] by {
                qualifying_again_changes_nothing(file, items[i]);
            }
            assert(qualified(file, once)->Array_0 =~= out);
        },
        _ => {},
    }
}

/// The path id of a local, non-null PPtr map (`{m_FileID: 0, m_PathID: N}`).
fn local_pptr(entries: &Vec<Entry>) -> (r: Option<i64>)
    ensures
        r == pptr_of(json::entry_views(entries@)),
{
    if entries.len() != 2 {
        return None;
    }
    let file_id: i64 = match find_entry(entries, "m_FileID") {
        Some(value) => match value.as_int() {
            Some(file_id) => file_id,
            None => {
                return None;
            },
        },
        None => {
            return None;
        },
    };
    let path_id: i64 = match find_entry(entries, "m_PathID") {
        Some(value) => match value.as_int() {
            Some(path_id) => path_id,
            None => {
                return None;
            },
        },
        None => {
            return None;
        },
    };
    if file_id == 0 && path_id != 0 {
        Some(path_id)
    } else {
        None
    }
}

/// Walks a dumped object's JSON and adds a `$ref` to every local PPtr that
/// resolves to a scene object. Best-effort: a PPtr that can't be resolved is left
/// untouched.
#[verifier::loop_isolation(false)]
pub fn qualify(file: &SceneFile, value: &mut Json)
    ensures
        final(value)@ == qualified(*file, old(value)@),
    decreases *old(value),
{
    match value {
        Json::Object(entries) => {
            proof {
                json::lemma_object_view(*entries);
            }
            let ghost start = entries@;
            let ghost views = json::entry_views(entries@);
            if let Some(target) = local_pptr(entries) {
                if let Some(path) = build_path(file, target) {
                    let entry = Entry { key: "$ref".to_owned(), value: Json::Text(path.to_text()) };
                    entries.push(entry);
                    assert(json::entry_views(entries@) =~= with_ref(*file, views, target));
                }
                proof {
                    json::lemma_object_view(*entries);
                }
                return;
            }
            let mut i: usize = 0;
            while i < entries.len()
                invariant
                    i <= entries@.len(),
                    entries@.len() == start.len(),
                    forall|k: int| i <= k < start.len() ==> entries@[k] == start[k],
                    forall|k: int|
                        0 <= k < i ==> (#[trigger] entries@[k]).key@ == start[k].key@
                            && entries@[k].value@ == qualified(*file, start[k].value@),
                decreases entries@.len() - i,
            {
                qualify(file, &mut entries[i].value);
                i += 1;
            }
            proof {
                json::lemma_object_view(*entries);
                assert(json::entry_views(entries@) =~= qualified(
                    *file,
                    JsonView::Object(views),
                )->Object_0);
            }
        },
        Json::Array(items) => {
            proof {
                json::lemma_array_view(*items);
            }
            let ghost start = items@;
            let ghost views = json::item_views(items@);
            let mut i: usize = 0;
            while i < items.len()
                invariant
                    i <= items@.len(),
                    items@.len() == start.len(),
                    forall|k: int| i <= k < start.len() ==> items@[k] == start[k],
                    forall|k: int|
                        0 <= k < i ==> (#[trigger] items@[k])@ == qualified(*file, start[k]@),
                decreases items@.len() - i,
            {
                qualify(file, &mut items[i]);
                i += 1;
            }
            proof {
                json::lemma_array_view(*items);
                assert(json::item_views(items@) =~= qualified(
                    *file,
                    JsonView::Array(views),
                )->Array_0);
            }
        },
        _ => {},
    }
}

/// How often `name` occurs among `names`.
pub open spec fn occurrences(names: Seq<Seq<char>>, name: Seq<char>) -> nat
    decreases names.len(),
{
    if names.len() == 0 {
        0
    } else {
        occurrences(names.drop_last(), name) + if names.last() == name {
            1nat
        } else {
            0nat
        }
    }
}

/// The `j`-th of `names` with its disambiguating index: none for a name that
/// occurs once, else the number of its occurrences before this one.
pub open spec fn numbered(names: Seq<Seq<char>>, j: int) -> FieldView {
    FieldView {
        name: names[j],
        index: if occurrences(names, names[j]) <= 1 {
            None
        } else {
            Some(occurrences(names.take(j), names[j]) as int)
        },
    }
}

/// Those of `nodes` whose name can be read.
pub open spec fn readable_nodes(file: SceneFile, nodes: Seq<Pptr>) -> Seq<Pptr>
    decreases nodes.len(),
{
    if nodes.len() == 0 {
        Seq::empty()
    } else {
        let before = readable_nodes(file, nodes.drop_last());
        if resolve::node_name(file, nodes.last()) is Ok {
            before.push(nodes.last())
        } else {
            before
        }
    }
}

/// The names of nodes that can be read.
pub open spec fn names_of(file: SceneFile, nodes: Seq<Pptr>) -> Seq<Seq<char>> {
    nodes.map_values(|node: Pptr| resolve::node_name(file, node)->Ok_0)
}

/// The labels of those components whose label can be told.
pub open spec fn readable_labels(file: SceneFile, components: Seq<Pptr>) -> Seq<Seq<char>>
    decreases components.len(),
{
    if components.len() == 0 {
        Seq::empty()
    } else {
        let before = readable_labels(file, components.drop_last());
        match model::label_at(file, components.last()) {
            Ok(label) => before.push(label),
            Err(_) => before,
        }
    }
}

/// The paths of the first `n` components that carry `labels`, on the GameObject
/// that `segments` address.
pub open spec fn component_paths(
    segments: Seq<FieldView>,
    labels: Seq<Seq<char>>,
    n: nat,
) -> Seq<PathView> {
    Seq::new(n, |j: int| PathView { segments, component: Some(numbered(labels, j)) })
}

/// The paths of a node's GameObject and of its components.
pub open spec fn own_paths(file: SceneFile, segments: Seq<FieldView>, node: Pptr) -> Seq<PathView> {
    let own = seq![PathView { segments, component: None }];
    match model::transform_at(file, node) {
        Ok(transform) => match model::game_object_at(file, transform.game_object) {
            Ok(game_object) => {
                let labels = readable_labels(file, game_object.components@);
                own + component_paths(segments, labels, labels.len())
            },
            Err(_) => own,
        },
        Err(_) => own,
    }
}

/// The children of a node whose name can be read.
pub open spec fn readable_children(file: SceneFile, node: Pptr) -> Seq<Pptr> {
    match model::transform_at(file, node) {
        Ok(transform) => readable_nodes(file, transform.children@),
        Err(_) => Seq::empty(),
    }
}

/// The paths of the first `n` of the nodes of one level and of all that is below
/// them, if there are no more than `fuel` levels.
pub open spec fn paths_below(
    file: SceneFile,
    prefix: Seq<FieldView>,
    nodes: Seq<Pptr>,
    n: nat,
    fuel: nat,
) -> Option<Seq<PathView>>
    decreases fuel, n,
{
    if n == 0 {
        Some(Seq::empty())
    } else if fuel == 0 {
        None
    } else {
        let node = nodes[n - 1];
        let segments = prefix.push(numbered(names_of(file, nodes), n - 1));
        let children = readable_children(file, node);
        match paths_below(file, prefix, nodes, (n - 1) as nat, fuel) {
            None => None,
            Some(before) => match paths_below(
                file,
                segments,
                children,
                children.len(),
                (fuel - 1) as nat,
            ) {
                None => None,
                Some(below) => Some(before + own_paths(file, segments, node) + below),
            },
        }
    }
}

/// Every addressable path of a file; none if its children run in a circle.
pub open spec fn paths_of(file: SceneFile) -> Option<Seq<PathView>> {
    let nodes = readable_roots(file, file.transforms@);
    paths_below(file, Seq::empty(), nodes, nodes.len(), file.objects@.len() + file.linked@.len())
}

/// The views of a list of paths.
pub open spec fn path_views(paths: Seq<ComponentPath>) -> Seq<PathView> {
    paths.map_values(|path: ComponentPath| path@)
}

/// How often `name` occurs among the first `n` of `names`.
fn count(names: &Vec<String>, name: &str, n: usize) -> (r: usize)
    requires
        n <= names@.len(),
    ensures
        r == occurrences(text::texts(names@).take(n as int), name@),
{
    let ghost all = text::texts(names@);
    let mut r: usize = 0;
    let mut i: usize = 0;
    while i < n
        invariant
            i <= n <= names@.len(),
            r <= i,
            all == text::texts(names@),
            r == occurrences(all.take(i as int), name@),
        decreases n - i,
    {
        assert(all.take(i + 1).drop_last() =~= all.take(i as int));
        if same(names[i].as_str(), name) {
            r += 1;
        }
        i += 1;
    }
    r
}

/// The `j`-th of `names` with its disambiguating index: `None` for names that
/// occur once, else a running 0-based index per occurrence.
pub fn next_field(names: &Vec<String>, j: usize) -> (r: Field)
    requires
        j < names@.len(),
    ensures
        r@ == numbered(text::texts(names@), j as int),
{
    let total: usize = count(names, names[j].as_str(), names.len());
    assert(text::texts(names@).take(names@.len() as int) =~= text::texts(names@));
    let index: Option<usize> = if total <= 1 {
        None
    } else {
        Some(count(names, names[j].as_str(), j))
    };
    Field { name: names[j].clone(), index }
}

/// Those of `nodes` whose name can be read.
#[verifier::loop_isolation(false)]
fn readable(file: &SceneFile, nodes: &Vec<Pptr>) -> (out: Vec<Pptr>)
    ensures
        out@ == readable_nodes(*file, nodes@),
{
    let mut out: Vec<Pptr> = Vec::new();
    let mut i: usize = 0;
    while i < nodes.len()
        invariant
            i <= nodes@.len(),
            out@ == readable_nodes(*file, nodes@.take(i as int)),
        decreases nodes@.len() - i,
    {
        assert(nodes@.take(i + 1).drop_last() =~= nodes@.take(i as int));
        if let Ok(transform) = file.transform_at(nodes[i]) {
            if file.owner_name(transform).is_ok() {
                out.push(nodes[i]);
            }
        }
        i += 1;
    }
    assert(nodes@.take(i as int) =~= nodes@);
    out
}

/// The names of nodes that can be read.
#[verifier::loop_isolation(false)]
fn node_names(file: &SceneFile, nodes: &Vec<Pptr>) -> (out: Vec<String>)
    requires
        forall|i: int|
            0 <= i < nodes@.len() ==> resolve::node_name(*file, #[trigger] nodes@[i]) is Ok,
    ensures
        text::texts(out@) == names_of(*file, nodes@),
{
    let mut out: Vec<String> = Vec::new();
    let mut i: usize = 0;
    while i < nodes.len()
        invariant
            i <= nodes@.len(),
            out@.len() == i,
            forall|k: int|
                0 <= k < i ==> resolve::node_name(*file, nodes@[k]) == Ok::<Seq<char>, Seq<char>>(
                    (#[trigger] out@[k])@,
                ),
        decreases nodes@.len() - i,
    {
        assert(resolve::node_name(*file, nodes@[i as int]) is Ok);
        if let Ok(transform) = file.transform_at(nodes[i]) {
            if let Ok(name) = file.owner_name(transform) {
                out.push(name);
            }
        }
        i += 1;
    }
    assert(text::texts(out@) =~= names_of(*file, nodes@));
    out
}

/// The labels of those components whose label can be told.
#[verifier::loop_isolation(false)]
fn labels(file: &SceneFile, components: &Vec<Pptr>) -> (out: Vec<String>)
    ensures
        text::texts(out@) == readable_labels(*file, components@),
{
    let mut out: Vec<String> = Vec::new();
    let mut i: usize = 0;
    assert(text::texts(out@) =~= Seq::empty());
    while i < components.len()
        invariant
            i <= components@.len(),
            text::texts(out@) == readable_labels(*file, components@.take(i as int)),
        decreases components@.len() - i,
    {
        assert(components@.take(i + 1).drop_last() =~= components@.take(i as int));
        let ghost before = out@;
        if let Ok(label) = file.label_at(components[i]) {
            out.push(label);
            assert(text::texts(out@) =~= text::texts(before).push(label@));
        }
        i += 1;
    }
    assert(components@.take(i as int) =~= components@);
    out
}

/// Adds the path of `node`'s GameObject, and a `…@Component` path for each of its
/// components.
#[verifier::loop_isolation(false)]
fn emit_components(
    file: &SceneFile,
    segments: &Vec<Field>,
    node: Pptr,
    out: &mut Vec<ComponentPath>,
)
    ensures
        path_views(final(out)@) == path_views(old(out)@) + own_paths(
            *file,
            component_path::field_views(segments@),
            node,
        ),
{
    let ghost before = path_views(out@);
    let ghost at = component_path::field_views(segments@);
    let path = ComponentPath { segments: copy_fields(segments), component: None };
    assert(path@ == PathView { segments: at, component: None });
    out.push(path);
    let ghost own = seq![PathView { segments: at, component: None }];
    assert(path_views(out@) =~= before + own);
    let transform = match file.transform_at(node) {
        Ok(transform) => transform,
        Err(_) => {
            return;
        },
    };
    let game_object = match file.game_object_at(transform.game_object) {
        Ok(game_object) => game_object,
        Err(_) => {
            return;
        },
    };
    let found = labels(file, &game_object.components);
    let ghost all = text::texts(found@);
    let mut j: usize = 0;
    assert(path_views(out@) =~= before + (own + component_paths(at, all, 0)));
    while j < found.len()
        invariant
            j <= found@.len(),
            path_views(out@) == before + (own + component_paths(at, all, j as nat)),
        decreases found@.len() - j,
    {
        let ghost sofar = out@;
        let field = next_field(&found, j);
        let path = ComponentPath { segments: copy_fields(segments), component: Some(field) };
        assert(path@ == PathView { segments: at, component: Some(numbered(all, j as int)) });
        out.push(path);
        assert(path_views(out@) =~= path_views(sofar).push(path@));
        assert(component_paths(at, all, (j + 1) as nat) =~= component_paths(
            at,
            all,
            j as nat,
        ).push(path@));
        assert(path_views(out@) =~= before + (own + component_paths(at, all, (j + 1) as nat)));
        j += 1;
    }
}

/// Adds the paths for every node at this level (siblings) and below each; gives
/// up, and says so, below `fuel` levels.
#[verifier::loop_isolation(false)]
fn walk_level(
    file: &SceneFile,
    prefix: &Vec<Field>,
    nodes: &Vec<Pptr>,
    fuel: usize,
    out: &mut Vec<ComponentPath>,
) -> (done: bool)
    requires
        forall|i: int|
            0 <= i < nodes@.len() ==> resolve::node_name(*file, #[trigger] nodes@[i]) is Ok,
    ensures
        match paths_below(
            *file,
            component_path::field_views(prefix@),
            nodes@,
            nodes@.len(),
            fuel as nat,
        ) {
            Some(paths) => done && path_views(final(out)@) == path_views(old(out)@) + paths,
            None => !done,
        },
    decreases fuel,
{
    let ghost start = path_views(out@);
    let ghost at = component_path::field_views(prefix@);
    if nodes.len() == 0 {
        assert(path_views(out@) =~= start + Seq::<PathView>::empty());
        return true;
    }
    if fuel == 0 {
        return false;
    }
    let names = node_names(file, nodes);
    let mut i: usize = 0;
    assert(path_views(out@) =~= start + Seq::<PathView>::empty());
    while i < nodes.len()
        invariant
            i <= nodes@.len(),
            paths_below(*file, at, nodes@, i as nat, fuel as nat) matches Some(paths)
                && path_views(out@) == start + paths,
        decreases nodes@.len() - i,
    {
        let ghost before = paths_below(*file, at, nodes@, i as nat, fuel as nat)->0;
        let mut segments = copy_fields(prefix);
        let ghost same_prefix = segments@;
        let field = next_field(&names, i);
        segments.push(field);
        assert(component_path::field_views(segments@) =~= at.push(field@));
        emit_components(file, &segments, nodes[i], out);
        let ghost own = own_paths(*file, at.push(field@), nodes@[i as int]);
        let children: Vec<Pptr> = match file.transform_at(nodes[i]) {
            Ok(transform) => readable(file, &transform.children),
            Err(_) => Vec::new(),
        };
        proof {
            if let Ok(transform) = model::transform_at(*file, nodes@[i as int]) {
                lemma_readable_nodes(*file, transform.children@);
            }
        }
        if !walk_level(file, &segments, &children, fuel - 1, out) {
            proof {
                lemma_paths_stop(*file, at, nodes@, (i + 1) as nat, nodes@.len(), fuel as nat);
            }
            return false;
        }
        proof {
            let below = paths_below(
                *file,
                at.push(field@),
                children@,
                children@.len(),
                (fuel - 1) as nat,
            )->0;
            assert(start + before + own + below =~= start + (before + own + below));
        }
        i += 1;
    }
    true
}

/// Every addressable component path in the file — each GameObject and each of its
/// components — for `cat` completion. Best-effort: unreadable nodes are skipped.
/// `None` if the hierarchy runs in a circle.
pub fn all_paths(file: &SceneFile) -> (r: Option<Vec<ComponentPath>>)
    requires
        file.objects@.len() + file.linked@.len() <= usize::MAX,
    ensures
        match r {
            Some(out) => paths_of(*file) == Some(path_views(out@)),
            None => paths_of(*file) is None,
        },
{
    let nodes = roots(file);
    let mut out: Vec<ComponentPath> = Vec::new();
    let prefix: Vec<Field> = Vec::new();
    proof {
        lemma_readable_roots(*file, file.transforms@);
        assert(component_path::field_views(prefix@) =~= Seq::empty());
    }
    let done: bool = walk_level(
        file,
        &prefix,
        &nodes,
        file.objects.len() + file.linked.len(),
        &mut out,
    );
    if done {
        assert(forall|s: Seq<PathView>| #[trigger] (Seq::<PathView>::empty() + s) =~= s);
        Some(out)
    } else {
        None
    }
}

/// Every node that is kept has a name.
pub proof fn lemma_readable_nodes(file: SceneFile, nodes: Seq<Pptr>)
    ensures
        forall|i: int|
            0 <= i < readable_nodes(file, nodes).len() ==> resolve::node_name(
                file,
                #[trigger] readable_nodes(file, nodes)[i],
            ) is Ok,
    decreases nodes.len(),
{
    if nodes.len() > 0 {
        lemma_readable_nodes(file, nodes.drop_last());
        let kept = readable_nodes(file, nodes);
        let before = readable_nodes(file, nodes.drop_last());
        assert forall|i: int| 0 <= i < kept.len() implies resolve::node_name(
            file,
            #[trigger] kept[i],
        ) is Ok by {
            if i < before.len() {
                assert(kept[i] == before[i]);
            }
        }
    }
}

/// Every root that is kept has a name, and is in the file.
pub proof fn lemma_readable_roots(file: SceneFile, ids: Seq<i64>)
    ensures
        forall|i: int|
            0 <= i < readable_roots(file, ids).len() ==> resolve::node_name(
                file,
                #[trigger] readable_roots(file, ids)[i],
            ) is Ok && readable_roots(file, ids)[i].file_id == 0,
    decreases ids.len(),
{
    if ids.len() > 0 {
        lemma_readable_roots(file, ids.drop_last());
        let kept = readable_roots(file, ids);
        let before = readable_roots(file, ids.drop_last());
        assert forall|i: int| 0 <= i < kept.len() implies resolve::node_name(
            file,
            #[trigger] kept[i],
        ) is Ok && kept[i].file_id == 0 by {
            if i < before.len() {
                assert(kept[i] == before[i]);
            }
        }
    }
}

/// Every listed path has a segment.
pub proof fn lemma_paths_have_segments(file: SceneFile)
    ensures
        paths_of(file) matches Some(paths) ==> forall|k: int|
            0 <= k < paths.len() ==> (#[trigger] paths[k]).segments.len() >= 1,
{
    let nodes = readable_roots(file, file.transforms@);
    lemma_paths_below_have_segments(
        file,
        Seq::empty(),
        nodes,
        nodes.len(),
        file.objects@.len() + file.linked@.len(),
    );
}

proof fn lemma_paths_below_have_segments(
    file: SceneFile,
    prefix: Seq<FieldView>,
    nodes: Seq<Pptr>,
    n: nat,
    fuel: nat,
)
    ensures
        paths_below(file, prefix, nodes, n, fuel) matches Some(paths) ==> forall|k: int|
            0 <= k < paths.len() ==> (#[trigger] paths[k]).segments.len() >= 1,
    decreases fuel, n,
{
    if let Some(paths) = paths_below(file, prefix, nodes, n, fuel) {
        if n > 0 {
            let segments = prefix.push(numbered(names_of(file, nodes), n - 1));
            let children = readable_children(file, nodes[n - 1]);
            lemma_paths_below_have_segments(file, prefix, nodes, (n - 1) as nat, fuel);
            lemma_paths_below_have_segments(
                file,
                segments,
                children,
                children.len(),
                (fuel - 1) as nat,
            );
            let before = paths_below(file, prefix, nodes, (n - 1) as nat, fuel)->0;
            let own = own_paths(file, segments, nodes[n - 1]);
            let below = paths_below(file, segments, children, children.len(), (fuel - 1) as nat)->0;
            assert(paths == before + own + below);
            assert forall|k: int| 0 <= k < paths.len() implies (#[trigger] paths[k]).segments.len()
                >= 1 by {
                if k < before.len() {
                    assert(paths[k] == before[k]);
                } else if k < before.len() + own.len() {
                    assert(paths[k] == own[k - before.len()]);
                } else {
                    assert(paths[k] == below[k - before.len() - own.len()]);
                }
            }
        }
    }
}

proof fn lemma_paths_stop(
    file: SceneFile,
    prefix: Seq<FieldView>,
    nodes: Seq<Pptr>,
    m: nat,
    n: nat,
    fuel: nat,
)
    requires
        m <= n,
        paths_below(file, prefix, nodes, m, fuel) is None,
    ensures
        paths_below(file, prefix, nodes, n, fuel) is None,
    decreases n,
{
    if m < n {
        lemma_paths_stop(file, prefix, nodes, m, (n - 1) as nat, fuel);
    }
}

proof fn lemma_segments_stop(file: SceneFile, chain: Seq<i64>, m: nat, n: nat)
    requires
        m <= n,
        segments_along(file, chain, m) is None,
    ensures
        segments_along(file, chain, n) is None,
    decreases n,
{
    if m < n {
        lemma_segments_stop(file, chain, m, (n - 1) as nat);
    }
}

/// A chain ends in its Transform, and every Transform of it can be read.
proof fn lemma_chain_readable(file: SceneFile, id: i64, fuel: nat)
    ensures
        chain_to(file, id, fuel) matches Some(chain) ==> {
            &&& chain.len() >= 1
            &&& chain.last() == id
            &&& forall|i: int|
                0 <= i < chain.len() ==> model::transform_at(file, model::local(#[trigger] chain[i])) is Ok
        },
    decreases fuel,
{
    if let Ok(transform) = model::transform_at(file, model::local(id)) {
        if transform.father.path_id != 0 && fuel > 0 {
            lemma_chain_readable(file, transform.father.path_id, (fuel - 1) as nat);
        }
    }
}

} // verus!
