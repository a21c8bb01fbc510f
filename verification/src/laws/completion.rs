//! What the shell is offered, and for what.

use vstd::prelude::*;

use super::{lemma_positions_push, lemma_positions_skip};
use crate::commands::bundle::FileEntry;
use crate::complete::{
    ArgValue, ChildView, CompletionView, FieldOfferView, JsonFieldView, Matches, Offer, PeekView,
    SelectedView,
};
use crate::component_path::PathView;
use crate::ctx::Scene;
use crate::locate::SteamApp;
use crate::model::{Object, Pptr, SceneFile};
use crate::{classes, commands, complete, component_path, group, laws, model, number, text};

verus! {

/// Whether a value is among candidates.
pub open spec fn is_offered(candidates: Seq<CompletionView>, value: Seq<char>) -> bool {
    exists|k: int| 0 <= k < candidates.len() && (#[trigger] candidates[k]).value == value
}

/// Whether what is known is what was known before and what was offered since.
pub open spec fn is_accounted(offer: Offer, known: Seq<Seq<char>>) -> bool {
    &&& forall|v: Seq<char>| #[trigger]
        offer.seen.contains(v) <==> known.contains(v) || is_offered(offer.candidates, v)
}

proof fn lemma_offered(offer: Offer, known: Seq<Seq<char>>, candidate: CompletionView)
    requires
        is_accounted(offer, known),
    ensures
        is_accounted(complete::offered(offer, candidate), known),
        forall|v: Seq<char>| #[trigger]
            complete::offered(offer, candidate).seen.contains(v) <==> offer.seen.contains(v) || v
                == candidate.value,
{
    let after = complete::offered(offer, candidate);
    if !offer.seen.contains(candidate.value) {
        assert forall|v: Seq<char>| #[trigger] after.seen.contains(v) <==> offer.seen.contains(v)
            || v == candidate.value by {
            if offer.seen.contains(v) {
                let i = choose|i: int| 0 <= i < offer.seen.len() && offer.seen[i] == v;
                assert(after.seen[i] == v);
            }
            if v == candidate.value {
                assert(after.seen[offer.seen.len() as int] == v);
            }
        }
        assert forall|v: Seq<char>| is_offered(after.candidates, v) <==> is_offered(
            offer.candidates,
            v,
        ) || v == candidate.value by {
            if is_offered(offer.candidates, v) {
                let k = choose|k: int|
                    0 <= k < offer.candidates.len() && (#[trigger] offer.candidates[k]).value == v;
                assert(after.candidates[k].value == v);
            }
            if v == candidate.value {
                assert(after.candidates[offer.candidates.len() as int].value == v);
            }
            if is_offered(after.candidates, v) {
                let k = choose|k: int|
                    0 <= k < after.candidates.len() && (#[trigger] after.candidates[k]).value == v;
                if k < offer.candidates.len() {
                    assert(offer.candidates[k].value == v);
                }
            }
        }
    }
}

/// Whether an object can be referred to by a value: its class, or its `m_Name` if that is
/// not empty.
pub open spec fn goes_by(file: SceneFile, object: Object, value: Seq<char>) -> bool {
    classes::class_text(object.class_id) == value || (value.len() > 0 && model::name_at(
        file,
        object.path_id,
    ) == Some(value))
}

proof fn lemma_names_offered(file: SceneFile, objects: Seq<Object>, known: Seq<Seq<char>>)
    ensures
        is_accounted(complete::names_offered(file, objects, known), known),
        forall|v: Seq<char>| #[trigger]
            complete::names_offered(file, objects, known).seen.contains(v) <==> known.contains(v)
                || exists|i: int| 0 <= i < objects.len() && goes_by(file, #[trigger] objects[i], v),
    decreases objects.len(),
{
    if objects.len() == 0 {
        assert forall|v: Seq<char>| !is_offered(
            complete::names_offered(file, objects, known).candidates,
            v,
        ) by {}
    } else {
        let rest = objects.drop_last();
        let n = objects.len() - 1;
        let object = objects[n];
        lemma_names_offered(file, rest, known);
        let before = complete::names_offered(file, rest, known);
        let class = classes::class_text(object.class_id);
        let candidate = complete::helped(class, "class"@);
        lemma_offered(before, known, candidate);
        let with_class = complete::offered(before, candidate);
        if let Some(name) = commands::file::own_name(file, object.path_id) {
            lemma_offered(with_class, known, complete::helped(name, class));
        }
        let after = complete::names_offered(file, objects, known);
        assert forall|v: Seq<char>| #[trigger] after.seen.contains(v) <==> known.contains(v)
            || exists|i: int| 0 <= i < objects.len() && goes_by(file, #[trigger] objects[i], v) by {
            assert(after.seen.contains(v) <==> before.seen.contains(v) || goes_by(file, object, v));
            if exists|i: int| 0 <= i < rest.len() && goes_by(file, #[trigger] rest[i], v) {
                let i = choose|i: int| 0 <= i < rest.len() && goes_by(file, #[trigger] rest[i], v);
                assert(goes_by(file, objects[i], v));
            }
            if goes_by(file, object, v) {
                assert(goes_by(file, objects[n], v));
            }
            if exists|i: int| 0 <= i < objects.len() && goes_by(file, #[trigger] objects[i], v) {
                let i = choose|i: int|
                    0 <= i < objects.len() && goes_by(file, #[trigger] objects[i], v);
                if i < n {
                    assert(goes_by(file, rest[i], v));
                }
            }
        }
    }
}

/// For an object reference exactly these values are offered: the path id of every
/// object, the class and the name of every object, and every path.
pub proof fn every_reference_is_offered(file: SceneFile, paths: Seq<Seq<char>>, value: Seq<char>)
    ensures
        is_offered(complete::refs_of(file, paths), value) <==> {
            ||| exists|i: int|
                0 <= i < file.objects@.len() && number::signed_decimal(
                    (#[trigger] file.objects@[i]).path_id as int,
                ) == value
            ||| exists|i: int|
                0 <= i < file.objects@.len() && goes_by(file, #[trigger] file.objects@[i], value)
            ||| paths.contains(value)
        },
{
    let objects = file.objects@;
    let ids = complete::id_candidates(objects);
    let names = complete::names_offered(file, objects, paths);
    let rest = complete::bare_all(paths);
    let all = complete::refs_of(file, paths);
    lemma_names_offered(file, objects, paths);
    assert(names.seen.contains(value) <==> paths.contains(value) || is_offered(
        names.candidates,
        value,
    ));
    let a = ids.len();
    let b = names.candidates.len();
    if exists|i: int|
        0 <= i < objects.len() && number::signed_decimal((#[trigger] objects[i]).path_id as int)
            == value {
        let i = choose|i: int|
            0 <= i < objects.len() && number::signed_decimal(
                (#[trigger] objects[i]).path_id as int,
            ) == value;
        assert(all[i].value == value);
    }
    if is_offered(names.candidates, value) {
        let k = choose|k: int| 0 <= k < b && (#[trigger] names.candidates[k]).value == value;
        assert(all[a + k].value == value);
    }
    if paths.contains(value) {
        let k = choose|k: int| 0 <= k < paths.len() && paths[k] == value;
        assert(all[a + b + k].value == value);
    }
    if is_offered(all, value) {
        let k = choose|k: int| 0 <= k < all.len() && (#[trigger] all[k]).value == value;
        if k < a {
            assert(all[k] == ids[k]);
            assert(number::signed_decimal(objects[k].path_id as int) == value);
        } else if k < a + b {
            assert(all[k] == names.candidates[k - a]);
            assert(is_offered(names.candidates, value));
        } else {
            assert(all[k] == rest[k - a - b]);
            assert(paths[k - a - b] == value);
        }
    }
}

/// Whether an object is of a type by a value: its class, or, for a MonoBehaviour, the
/// class of its script.
pub open spec fn is_of(file: SceneFile, object: Object, value: Seq<char>) -> bool {
    classes::class_text(object.class_id) == value || (object.class_id == 114 && model::label_at(
        file,
        Pptr { file_id: 0, path_id: object.path_id },
    ) == Ok::<Seq<char>, Seq<char>>(value))
}

proof fn lemma_types_offered(file: SceneFile, objects: Seq<Object>)
    ensures
        is_accounted(complete::types_offered(file, objects), Seq::empty()),
        forall|v: Seq<char>| #[trigger]
            complete::types_offered(file, objects).seen.contains(v) <==> exists|i: int|
                0 <= i < objects.len() && is_of(file, #[trigger] objects[i], v),
    decreases objects.len(),
{
    if objects.len() == 0 {
        assert forall|v: Seq<char>| !is_offered(
            complete::types_offered(file, objects).candidates,
            v,
        ) by {}
    } else {
        let none = Seq::<Seq<char>>::empty();
        let rest = objects.drop_last();
        let n = objects.len() - 1;
        let object = objects[n];
        lemma_types_offered(file, rest);
        let before = complete::types_offered(file, rest);
        let candidate = complete::bare(classes::class_text(object.class_id));
        lemma_offered(before, none, candidate);
        let with_class = complete::offered(before, candidate);
        if let Some(script) = commands::file::script_at(file, object) {
            lemma_offered(with_class, none, complete::helped(script, "script"@));
        }
        let after = complete::types_offered(file, objects);
        assert forall|v: Seq<char>| #[trigger] after.seen.contains(v) <==> exists|i: int|
            0 <= i < objects.len() && is_of(file, #[trigger] objects[i], v) by {
            assert(after.seen.contains(v) <==> before.seen.contains(v) || is_of(file, object, v));
            if exists|i: int| 0 <= i < rest.len() && is_of(file, #[trigger] rest[i], v) {
                let i = choose|i: int| 0 <= i < rest.len() && is_of(file, #[trigger] rest[i], v);
                assert(is_of(file, objects[i], v));
            }
            if is_of(file, object, v) {
                assert(is_of(file, objects[n], v));
            }
            if exists|i: int| 0 <= i < objects.len() && is_of(file, #[trigger] objects[i], v) {
                let i = choose|i: int|
                    0 <= i < objects.len() && is_of(file, #[trigger] objects[i], v);
                if i < n {
                    assert(is_of(file, rest[i], v));
                }
            }
        }
    }
}

/// For a type exactly the classes of the objects and the scripts of the MonoBehaviours
/// among them are offered.
pub proof fn every_type_is_offered(file: SceneFile, value: Seq<char>)
    ensures
        is_offered(complete::types_offered(file, file.objects@).candidates, value) <==> exists|
            i: int,
        |
            0 <= i < file.objects@.len() && is_of(file, #[trigger] file.objects@[i], value),
{
    lemma_types_offered(file, file.objects@);
    let offer = complete::types_offered(file, file.objects@);
    assert(offer.seen.contains(value) <==> is_offered(offer.candidates, value)) by {
        assert(!Seq::<Seq<char>>::empty().contains(value));
    }
}

proof fn lemma_labels_offered(paths: Seq<PathView>)
    ensures
        is_accounted(complete::labels_offered(paths), Seq::empty()),
        forall|v: Seq<char>| #[trigger]
            complete::labels_offered(paths).seen.contains(v) <==> exists|i: int|
                0 <= i < paths.len() && ((#[trigger] paths[i]).component matches Some(component)
                    && component.name == v),
    decreases paths.len(),
{
    if paths.len() == 0 {
        assert forall|v: Seq<char>| !is_offered(complete::labels_offered(paths).candidates, v) by {}
    } else {
        let rest = paths.drop_last();
        let n = paths.len() - 1;
        lemma_labels_offered(rest);
        let before = complete::labels_offered(rest);
        if let Some(component) = paths[n].component {
            lemma_offered(before, Seq::empty(), complete::bare(component.name));
        }
        let after = complete::labels_offered(paths);
        assert forall|v: Seq<char>| #[trigger] after.seen.contains(v) <==> exists|i: int|
            0 <= i < paths.len() && ((#[trigger] paths[i]).component matches Some(component)
                && component.name == v) by {
            if before.seen.contains(v) {
                let i = choose|i: int|
                    0 <= i < rest.len() && ((#[trigger] rest[i]).component matches Some(component)
                        && component.name == v);
                assert(paths[i] == rest[i]);
            }
            if paths[n].component matches Some(component) && component.name == v {
                assert(paths[n].component is Some);
            }
            if exists|i: int|
                0 <= i < paths.len() && ((#[trigger] paths[i]).component matches Some(component)
                    && component.name == v) {
                let i = choose|i: int|
                    0 <= i < paths.len() && ((#[trigger] paths[i]).component matches Some(component)
                        && component.name == v);
                if i < n {
                    assert(rest[i] == paths[i]);
                }
            }
        }
    }
}

/// For a component exactly the labels that some path of the file selects are offered.
pub proof fn every_component_label_is_offered(paths: Seq<PathView>, value: Seq<char>)
    ensures
        is_offered(complete::labels_offered(paths).candidates, value) <==> exists|i: int|
            0 <= i < paths.len() && ((#[trigger] paths[i]).component matches Some(component)
                && component.name == value),
{
    lemma_labels_offered(paths);
    let offer = complete::labels_offered(paths);
    assert(offer.seen.contains(value) <==> is_offered(offer.candidates, value)) by {
        assert(!Seq::<Seq<char>>::empty().contains(value));
    }
}

proof fn lemma_gameobject_texts(paths: Seq<PathView>, n: int) -> (at: Seq<int>)
    requires
        0 <= n <= paths.len(),
    ensures
        laws::are_positions(at, n, |i: int| paths[i].component is None),
        ({
            let found = complete::gameobject_texts(paths.take(n));
            &&& found.len() == at.len()
            &&& forall|j: int|
                0 <= j < at.len() ==> #[trigger] found[j] == component_path::path_text(
                    paths[at[j]],
                )
        }),
    decreases n,
{
    let wanted = |i: int| paths[i].component is None;
    if n == 0 {
        Seq::empty()
    } else {
        let part = paths.take(n);
        assert(part.drop_last() =~= paths.take(n - 1));
        assert(part.last() == paths[n - 1]);
        let before = lemma_gameobject_texts(paths, n - 1);
        if wanted(n - 1) {
            lemma_positions_push(before, n - 1, wanted);
            before.push(n - 1)
        } else {
            lemma_positions_skip(before, n - 1, wanted);
            before
        }
    }
}

/// For a GameObject exactly the paths that select no component are offered, in order.
pub proof fn every_gameobject_path_is_offered(paths: Seq<PathView>) -> (at: Seq<int>)
    ensures
        laws::are_positions(at, paths.len() as int, |i: int| paths[i].component is None),
        ({
            let found = complete::bare_all(complete::gameobject_texts(paths));
            &&& found.len() == at.len()
            &&& forall|j: int|
                0 <= j < at.len() ==> (#[trigger] found[j]).value == component_path::path_text(
                    paths[at[j]],
                )
        }),
{
    assert(paths.take(paths.len() as int) =~= paths);
    lemma_gameobject_texts(paths, paths.len() as int)
}

proof fn lemma_serialized_paths(entries: Seq<FileEntry>, n: int) -> (at: Seq<int>)
    requires
        0 <= n <= entries.len(),
    ensures
        laws::are_positions(at, n, |i: int| entries[i].flags & 4 != 0),
        ({
            let found = complete::serialized_paths(entries.take(n));
            &&& found.len() == at.len()
            &&& forall|j: int| 0 <= j < at.len() ==> #[trigger] found[j] == entries[at[j]].path@
        }),
    decreases n,
{
    let wanted = |i: int| entries[i].flags & 4 != 0;
    if n == 0 {
        Seq::empty()
    } else {
        let part = entries.take(n);
        assert(part.drop_last() =~= entries.take(n - 1));
        assert(part.last() == entries[n - 1]);
        let before = lemma_serialized_paths(entries, n - 1);
        if wanted(n - 1) {
            lemma_positions_push(before, n - 1, wanted);
            before.push(n - 1)
        } else {
            lemma_positions_skip(before, n - 1, wanted);
            before
        }
    }
}

/// For a file of a bundle exactly those that are marked as serialized files are offered,
/// by their paths and in order.
pub proof fn every_serialized_file_is_offered(entries: Seq<FileEntry>) -> (at: Seq<int>)
    ensures
        laws::are_positions(at, entries.len() as int, |i: int| entries[i].flags & 4 != 0),
        ({
            let found = complete::bare_all(complete::serialized_paths(entries));
            &&& found.len() == at.len()
            &&& forall|j: int|
                0 <= j < at.len() ==> (#[trigger] found[j]).value == entries[at[j]].path@
        }),
{
    assert(entries.take(entries.len() as int) =~= entries);
    lemma_serialized_paths(entries, entries.len() as int)
}

proof fn lemma_last_dot(token: Seq<char>)
    ensures
        complete::last_dot(token) <= token.len(),
    decreases token.len(),
{
    if token.len() > 0 {
        lemma_last_dot(token.drop_last());
    }
}

/// A token splits behind its last dot: what is offered keeps all up to there.
pub proof fn a_token_splits_at_its_last_dot(token: Seq<char>)
    requires
        token.len() > 0,
        token[0] == '.',
    ensures
        ({
            let base = complete::base_of(token);
            &&& 1 <= base.len() <= token.len()
            &&& base == token.take(base.len() as int)
            &&& base.last() == '.'
            &&& forall|i: int| base.len() <= i < token.len() ==> #[trigger] token[i] != '.'
        }),
    decreases token.len(),
{
    if token.last() != '.' {
        let rest = token.drop_last();
        a_token_splits_at_its_last_dot(rest);
        let base = complete::base_of(token);
        lemma_last_dot(rest);
        assert(complete::last_dot(token) == complete::last_dot(rest));
        assert(base =~= complete::base_of(rest));
        assert forall|i: int| base.len() <= i < token.len() implies #[trigger] token[i] != '.' by {
            if i < rest.len() {
                assert(rest[i] == token[i]);
            }
        }
    } else {
        assert(complete::base_of(token) =~= token);
    }
}

/// Whether a field reads as a word: a letter or `_`, then letters, digits or `_`.
pub open spec fn is_word(key: Seq<char>) -> bool {
    &&& key.len() > 0
    &&& !('0' <= key[0] && key[0] <= '9')
    &&& forall|i: int|
        0 <= i < key.len() ==> {
            let c = #[trigger] key[i];
            ('a' <= c && c <= 'z') || ('A' <= c && c <= 'Z') || ('0' <= c && c <= '9') || c == '_'
        }
}

/// How a field is reached behind a token's last dot: by its key if that reads as a word,
/// else by its key as a JSON string.
pub open spec fn reached_by(token: Seq<char>, key: Seq<char>) -> Seq<char> {
    complete::base_of(token) + (if is_word(key) {
        key
    } else {
        complete::json_string(key)
    })
}

proof fn lemma_is_word(key: Seq<char>)
    ensures
        complete::is_ident(key) <==> is_word(key),
{
    if complete::is_ident(key) {
        assert forall|i: int| 0 <= i < key.len() implies {
            let c = #[trigger] key[i];
            ('a' <= c && c <= 'z') || ('A' <= c && c <= 'Z') || ('0' <= c && c <= '9') || c == '_'
        } by {
            if i > 0 {
                assert(complete::is_word_char(key[i]));
            }
        }
    }
    if is_word(key) {
        assert(complete::is_word_char(key[0]));
        assert forall|i: int| 1 <= i < key.len() implies complete::is_word_char(
            #[trigger] key[i],
        ) by {}
    }
}

/// Whether an offer is for a field: it is reached behind the token's last dot, and goes on
/// with `.` into an object, with `[` into an array that is not empty.
pub open spec fn is_offer_for(offer: FieldOfferView, token: Seq<char>, field: JsonFieldView) -> bool {
    &&& offer.leaf == reached_by(token, field.key)
    &&& offer.descend == (match field.child {
        ChildView::Object(_) => Some('.'),
        ChildView::Array(items) => if items.len() > 0 {
            Some('[')
        } else {
            None
        },
        _ => None,
    })
}

proof fn lemma_with_fields(
    before: Seq<FieldOfferView>,
    token: Seq<char>,
    fields: Seq<JsonFieldView>,
)
    ensures
        ({
            let after = complete::with_fields(before, token, fields);
            &&& after.len() >= before.len()
            &&& forall|k: int| 0 <= k < before.len() ==> after[k] == #[trigger] before[k]
            &&& forall|i: int|
                0 <= i < fields.len() && text::begins_with(
                    reached_by(token, (#[trigger] fields[i]).key),
                    token,
                ) ==> complete::has_leaf(after, reached_by(token, fields[i].key))
            &&& forall|k: int|
                before.len() <= k < after.len() ==> exists|i: int|
                    0 <= i < fields.len() && is_offer_for(
                        #[trigger] after[k],
                        token,
                        #[trigger] fields[i],
                    )
        }),
    decreases fields.len(),
{
    if fields.len() > 0 {
        let rest = fields.drop_last();
        let n = fields.len() - 1;
        let field = fields[n];
        lemma_with_fields(before, token, rest);
        lemma_is_word(field.key);
        let sofar = complete::with_fields(before, token, rest);
        let after = complete::with_fields(before, token, fields);
        let leaf = reached_by(token, field.key);
        assert forall|v: Seq<char>| complete::has_leaf(sofar, v) implies complete::has_leaf(
            after,
            v,
        ) by {
            let k = choose|k: int| 0 <= k < sofar.len() && (#[trigger] sofar[k]).leaf == v;
            assert(after[k].leaf == v);
        }
        assert forall|i: int|
            0 <= i < fields.len() && text::begins_with(
                reached_by(token, (#[trigger] fields[i]).key),
                token,
            ) implies complete::has_leaf(after, reached_by(token, fields[i].key)) by {
            if i < n {
                assert(rest[i] == fields[i]);
            } else if !complete::has_leaf(sofar, leaf) {
                assert(after[sofar.len() as int].leaf == leaf);
            }
        }
        assert forall|k: int| before.len() <= k < after.len() implies exists|i: int|
            0 <= i < fields.len() && is_offer_for(
                #[trigger] after[k],
                token,
                #[trigger] fields[i],
            ) by {
            if k < sofar.len() {
                let i = choose|i: int|
                    0 <= i < rest.len() && is_offer_for(
                        sofar[k],
                        token,
                        #[trigger] rest[i],
                    );
                assert(is_offer_for(after[k], token, fields[i]));
            } else {
                assert(is_offer_for(after[k], token, fields[n]));
            }
        }
    }
}

/// Every field of every result whose path goes on from the token is offered, and nothing
/// else is: each offer is for some field of some result.
pub proof fn every_field_that_goes_on_is_offered(
    token: Seq<char>,
    objects: Seq<Seq<JsonFieldView>>,
)
    ensures
        ({
            let offers = complete::fields_offered(token, objects);
            &&& forall|o: int, i: int|
                0 <= o < objects.len() && 0 <= i < objects[o].len() && text::begins_with(
                    reached_by(token, (#[trigger] objects[o][i]).key),
                    token,
                ) ==> complete::has_leaf(offers, reached_by(token, objects[o][i].key))
            &&& forall|k: int|
                0 <= k < offers.len() ==> exists|o: int, i: int|
                    0 <= o < objects.len() && 0 <= i < objects[o].len() && is_offer_for(
                        #[trigger] offers[k],
                        token,
                        #[trigger] objects[o][i],
                    )
        }),
    decreases objects.len(),
{
    if objects.len() > 0 {
        let rest = objects.drop_last();
        let n = objects.len() - 1;
        every_field_that_goes_on_is_offered(token, rest);
        let before = complete::fields_offered(token, rest);
        let offers = complete::fields_offered(token, objects);
        lemma_with_fields(before, token, objects[n]);
        assert forall|v: Seq<char>| complete::has_leaf(before, v) implies complete::has_leaf(
            offers,
            v,
        ) by {
            let k = choose|k: int| 0 <= k < before.len() && (#[trigger] before[k]).leaf == v;
            assert(offers[k] == before[k]);
            assert(offers[k].leaf == v);
        }
        assert forall|o: int, i: int|
            0 <= o < objects.len() && 0 <= i < objects[o].len() && text::begins_with(
                reached_by(token, (#[trigger] objects[o][i]).key),
                token,
            ) implies complete::has_leaf(offers, reached_by(token, objects[o][i].key)) by {
            if o < n {
                assert(rest[o][i] == objects[o][i]);
            }
        }
        assert forall|k: int| 0 <= k < offers.len() implies exists|o: int, i: int|
            0 <= o < objects.len() && 0 <= i < objects[o].len() && is_offer_for(
                #[trigger] offers[k],
                token,
                #[trigger] objects[o][i],
            ) by {
            if k < before.len() {
                assert(offers[k] == before[k]);
                let (o, i) = choose|o: int, i: int|
                    0 <= o < rest.len() && 0 <= i < rest[o].len() && is_offer_for(
                        before[k],
                        token,
                        #[trigger] rest[o][i],
                    );
                assert(is_offer_for(offers[k], token, objects[o][i]));
            } else {
                let i = choose|i: int|
                    0 <= i < objects[n].len() && is_offer_for(
                        offers[k],
                        token,
                        #[trigger] objects[n][i],
                    );
                assert(is_offer_for(offers[k], token, objects[n][i]));
            }
        }
    }
}

/// Every offered field is a candidate; the only one can be gone on from, too, if there is
/// something in it.
pub proof fn fields_are_candidates(offers: Seq<FieldOfferView>)
    ensures
        ({
            let out = complete::field_candidates(offers);
            let further = offers.len() == 1 && offers[0].descend is Some;
            &&& out.len() == offers.len() + (if further {
                1int
            } else {
                0int
            })
            &&& forall|k: int|
                0 <= k < offers.len() ==> (#[trigger] out[k]).value == offers[k].leaf && out[k].help
                    == Some(offers[k].hint)
            &&& further ==> out[1].value == offers[0].leaf.push(offers[0].descend->0)
        }),
{
}

/// The value typed for an argument is the first one with its id, and there is none only
/// if none has it.
pub proof fn an_argument_has_its_first_value(values: Seq<ArgValue>, id: Seq<char>, i: int)
    requires
        0 <= i <= values.len(),
        forall|j: int| 0 <= j < i ==> (#[trigger] values[j]).id@ != id,
        i < values.len() ==> values[i].id@ == id,
    ensures
        complete::value_of(values, id) == (if i < values.len() {
            Some(values[i].value@)
        } else {
            None
        }),
    decreases values.len(),
{
    if i > 0 {
        let rest = values.skip(1);
        assert(values[0].id@ != id);
        assert forall|j: int| 0 <= j < i - 1 implies (#[trigger] rest[j]).id@ != id by {
            assert(rest[j] == values[j + 1]);
        }
        if i < values.len() {
            assert(rest[i - 1] == values[i]);
        }
        an_argument_has_its_first_value(rest, id, i - 1);
    }
}

/// What is selected on a command line is told by its subcommand: a file by its path, a
/// scene by its name, an addressable by its key, a bundle by its path once a file of it
/// is being asked for; no other subcommand selects anything.
pub proof fn a_command_line_selects_by_its_subcommand(matches: Matches)
    ensures
        matches.subcommand is None ==> complete::selection(matches) is None,
        matches.subcommand matches Some(sub) ==> {
            let values = sub.matches.values@;
            let selected = complete::selection(matches);
            &&& sub.name@ == "file"@ ==> selected == (match complete::value_of(values, "path"@) {
                Some(path) => Some(SelectedView::File(path)),
                None => None,
            })
            &&& sub.name@ == "scene"@ ==> selected == (match complete::value_of(values, "name"@) {
                Some(name) => Some(SelectedView::Scene(name)),
                None => None,
            })
            &&& sub.name@ == "addressable"@ ==> selected == (match complete::value_of(
                values,
                "key"@,
            ) {
                Some(key) => Some(SelectedView::Addressable(key)),
                None => None,
            })
            &&& sub.name@ == "bundle"@ ==> {
                &&& selected is Some <==> complete::value_of(values, "path"@) is Some && (
                sub.matches.subcommand matches Some(inner) && inner.name@ == "file"@)
                &&& selected matches Some(found) ==> found == (SelectedView::Bundle {
                    path: complete::value_of(values, "path"@)->0,
                    cab: complete::value_of(sub.matches.subcommand->0.matches.values@, "cab"@),
                })
            }
            &&& sub.name@ != "file"@ && sub.name@ != "scene"@ && sub.name@ != "addressable"@
                && sub.name@ != "bundle"@ ==> selected is None
        },
{
    reveal_strlit("file");
    reveal_strlit("scene");
    reveal_strlit("bundle");
    reveal_strlit("addressable");
    assert("file"@.len() == 4 && "scene"@.len() == 5 && "bundle"@.len() == 6
        && "addressable"@.len() == 11);
}

/// The object reference on a command line is that of the `object` verb, however many
/// verbs stand before it.
pub proof fn an_object_reference_is_found_behind_other_verbs(matches: Matches)
    ensures
        matches.subcommand is None ==> complete::object_ref_in(matches) is None,
        matches.subcommand matches Some(sub) ==> {
            &&& sub.name@ == "object"@ ==> complete::object_ref_in(matches)
                == sub.matches.reference
            &&& sub.name@ != "object"@ ==> complete::object_ref_in(matches)
                == complete::object_ref_in(sub.matches)
        },
{
}

/// Keys are offered with their types, scenes with their source and games with their app
/// id, each of them once and in order.
pub proof fn keys_scenes_and_games_are_offered(
    keys: Seq<group::Group>,
    scenes: Seq<Scene>,
    apps: Seq<SteamApp>,
    i: int,
)
    ensures
        complete::key_candidates(keys).len() == keys.len(),
        complete::scene_candidates(scenes).len() == scenes.len(),
        complete::app_candidates(apps).len() == apps.len(),
        0 <= i < keys.len() ==> complete::key_candidates(keys)[i].value == keys[i].key@
            && complete::key_candidates(keys)[i].help == Some(
            text::joined(text::texts(keys[i].values@), ", "@),
        ),
        0 <= i < scenes.len() ==> complete::scene_candidates(scenes)[i].value == scenes[i].name@
            && complete::scene_candidates(scenes)[i].help == Some(scenes[i].source.label_text()),
        0 <= i < apps.len() ==> complete::app_candidates(apps)[i].value == (match apps[i].name {
            Some(name) => name@,
            None => apps[i].install_dir@,
        }) && complete::app_candidates(apps)[i].help == Some(
            number::decimal(apps[i].app_id as nat),
        ),
{
}

/// The hint for a value is the value itself where it is plain, a long text cut behind its
/// first forty characters, and for an array or an object how much is in it.
pub proof fn a_hint_tells_a_value(s: Seq<char>, n: nat)
    ensures
        complete::hint_text(PeekView::Null) == "null"@,
        complete::hint_text(PeekView::Bool(true)) == "true"@,
        complete::hint_text(PeekView::Bool(false)) == "false"@,
        complete::hint_text(PeekView::Number(s)) == s,
        s.len() <= 40 ==> complete::hint_text(PeekView::Text(s)) == seq!['"'] + s + seq!['"'],
        s.len() > 40 ==> complete::hint_text(PeekView::Text(s)) == seq!['"'] + s.take(40)
            + "\u{2026}"@ + seq!['"'],
        complete::hint_text(PeekView::Array(n)) == seq!['['] + number::decimal(n) + seq![']'],
        complete::hint_text(PeekView::Object(n)) == seq!['{'] + number::decimal(n) + seq!['}'],
{
    reveal_strlit("\"");
    reveal_strlit("[");
    reveal_strlit("]");
    reveal_strlit("{");
    reveal_strlit("}");
    reveal_strlit("\u{2026}");
    reveal_strlit("…");
    assert(Seq::<char>::empty() + "\""@ =~= seq!['"']);
    assert("\""@ =~= seq!['"']);
    assert(Seq::<char>::empty() + "["@ =~= seq!['[']);
    assert("]"@ =~= seq![']']);
    assert(Seq::<char>::empty() + "{"@ =~= seq!['{']);
    assert("}"@ =~= seq!['}']);
}

/// What a token completes is a field path only if it begins with a dot and none of its
/// characters is a blank, a bar, a bracket or a brace.
pub proof fn an_expression_is_left_alone(token: Seq<char>, i: int)
    requires
        complete::is_field_path(token),
        0 <= i < token.len(),
    ensures
        token[0] == '.',
        token[i] != ' ' && token[i] != '|' && token[i] != '(' && token[i] != ')' && token[i] != '{'
            && token[i] != '}',
{
    assert(!complete::is_expression_char(token[i]));
}

/// A token of dots, letters, digits, underscores, quotes and square brackets that begins
/// with a dot is a field path, and so is nothing at all.
pub proof fn a_dotted_token_is_a_field_path(token: Seq<char>)
    requires
        token.len() > 0 ==> token[0] == '.',
        forall|i: int|
            0 <= i < token.len() ==> {
                let c = #[trigger] token[i];
                ('a' <= c && c <= 'z') || ('A' <= c && c <= 'Z') || ('0' <= c && c <= '9') || c
                    == '_' || c == '.' || c == '[' || c == ']' || c == '"'
            },
    ensures
        complete::is_field_path(token),
{
    assert forall|i: int| 0 <= i < token.len() implies !complete::is_expression_char(
        #[trigger] token[i],
    ) by {}
}

/// The fields of a token are those of what stands before its last dot, and of the value
/// itself where that is nothing.
pub proof fn fields_are_asked_of_what_is_before_the_last_dot(a: Seq<char>, b: Seq<char>)
    requires
        forall|i: int| 0 <= i < b.len() ==> #[trigger] b[i] != '.',
    ensures
        a.len() > 0 ==> complete::prefix_of(a.push('.') + b) == a,
        complete::prefix_of(seq!['.'] + b) == seq!['.'],
    decreases b.len(),
{
    let whole = a.push('.') + b;
    let bare = seq!['.'] + b;
    if b.len() == 0 {
        assert(whole =~= a.push('.'));
        assert(bare =~= seq!['.']);
        assert(complete::base_of(whole) =~= whole);
        assert(complete::base_of(bare) =~= bare);
        assert(whole.drop_last() =~= a);
    } else {
        let rest = b.drop_last();
        assert forall|i: int| 0 <= i < rest.len() implies #[trigger] rest[i] != '.' by {
            assert(rest[i] == b[i]);
        }
        assert(b[b.len() - 1] != '.');
        fields_are_asked_of_what_is_before_the_last_dot(a, rest);
        assert(whole.drop_last() =~= a.push('.') + rest);
        assert(bare.drop_last() =~= seq!['.'] + rest);
        lemma_last_dot(whole.drop_last());
        lemma_last_dot(bare.drop_last());
        assert(complete::base_of(whole) =~= complete::base_of(whole.drop_last()));
        assert(complete::base_of(bare) =~= complete::base_of(bare.drop_last()));
    }
}

/// The objects among the results of a query are those results that spell one, in order.
pub proof fn every_object_among_the_results_counts(results: Seq<Vec<u8>>) -> (at: Seq<int>)
    ensures
        laws::are_positions(
            at,
            results.len() as int,
            |i: int| complete::json_entries(results[i]@) is Some,
        ),
        complete::objects_of(results).len() == at.len(),
        forall|j: int|
            0 <= j < at.len() ==> complete::json_entries(results[#[trigger] at[j]]@) == Some(
                complete::objects_of(results)[j],
            ),
{
    assert(results.take(results.len() as int) =~= results);
    lemma_objects(results, results.len() as int)
}

proof fn lemma_objects(results: Seq<Vec<u8>>, n: int) -> (at: Seq<int>)
    requires
        0 <= n <= results.len(),
    ensures
        laws::are_positions(at, n, |i: int| complete::json_entries(results[i]@) is Some),
        complete::objects_of(results.take(n)).len() == at.len(),
        forall|j: int|
            0 <= j < at.len() ==> complete::json_entries(results[#[trigger] at[j]]@) == Some(
                complete::objects_of(results.take(n))[j],
            ),
    decreases n,
{
    let wanted = |i: int| complete::json_entries(results[i]@) is Some;
    if n == 0 {
        Seq::empty()
    } else {
        let before = lemma_objects(results, n - 1);
        assert(results.take(n).drop_last() =~= results.take(n - 1));
        assert(results.take(n).last() == results[n - 1]);
        if complete::json_entries(results[n - 1]@) is Some {
            lemma_positions_push(before, n - 1, wanted);
            before.push(n - 1)
        } else {
            lemma_positions_skip(before, n - 1, wanted);
            before
        }
    }
}

} // verus!
