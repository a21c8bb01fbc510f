//! What pointers lead to, and what objects are called.

use vstd::prelude::*;

use crate::json::{EntryView, JsonView};
use crate::model::{Linked, Object, Pptr, SceneFile};
use crate::{classes, json, model};

verus! {

proof fn lemma_object_with(objects: Seq<Object>, path_id: i64)
    ensures
        match model::object_with(objects, path_id) {
            Some(object) => exists|i: int|
                0 <= i < objects.len() && #[trigger] objects[i] == object && object.path_id
                    == path_id && forall|j: int|
                    i < j < objects.len() ==> (#[trigger] objects[j]).path_id != path_id,
            None => forall|j: int|
                0 <= j < objects.len() ==> (#[trigger] objects[j]).path_id != path_id,
        },
    decreases objects.len(),
{
    if objects.len() > 0 {
        let rest = objects.drop_last();
        let n = objects.len() - 1;
        if objects.last().path_id == path_id {
            assert(objects[n] == objects.last());
        } else {
            lemma_object_with(rest, path_id);
            match model::object_with(rest, path_id) {
                Some(object) => {
                    let i = choose|i: int|
                        0 <= i < rest.len() && #[trigger] rest[i] == object && object.path_id
                            == path_id && forall|j: int|
                            i < j < rest.len() ==> (#[trigger] rest[j]).path_id != path_id;
                    assert(objects[i] == object);
                    assert forall|j: int| i < j < objects.len() implies (
                    #[trigger] objects[j]).path_id != path_id by {
                        if j < n {
                            assert(rest[j] == objects[j]);
                        }
                    }
                },
                None => {
                    assert forall|j: int| 0 <= j < objects.len() implies (
                    #[trigger] objects[j]).path_id != path_id by {
                        if j < n {
                            assert(rest[j] == objects[j]);
                        }
                    }
                },
            }
        }
    }
}

proof fn lemma_linked_with(linked: Seq<Linked>, pptr: Pptr)
    ensures
        match model::linked_with(linked, pptr) {
            Some(link) => exists|i: int|
                0 <= i < linked.len() && #[trigger] linked[i] == link && link.pptr == pptr
                    && forall|j: int|
                    i < j < linked.len() ==> (#[trigger] linked[j]).pptr != pptr,
            None => forall|j: int|
                0 <= j < linked.len() ==> (#[trigger] linked[j]).pptr != pptr,
        },
    decreases linked.len(),
{
    if linked.len() > 0 {
        let rest = linked.drop_last();
        let n = linked.len() - 1;
        if linked.last().pptr == pptr {
            assert(linked[n] == linked.last());
        } else {
            lemma_linked_with(rest, pptr);
            match model::linked_with(rest, pptr) {
                Some(link) => {
                    let i = choose|i: int|
                        0 <= i < rest.len() && #[trigger] rest[i] == link && link.pptr == pptr
                            && forall|j: int|
                            i < j < rest.len() ==> (#[trigger] rest[j]).pptr != pptr;
                    assert(linked[i] == link);
                    assert forall|j: int| i < j < linked.len() implies (
                    #[trigger] linked[j]).pptr != pptr by {
                        if j < n {
                            assert(rest[j] == linked[j]);
                        }
                    }
                },
                None => {
                    assert forall|j: int| 0 <= j < linked.len() implies (
                    #[trigger] linked[j]).pptr != pptr by {
                        if j < n {
                            assert(rest[j] == linked[j]);
                        }
                    }
                },
            }
        }
    }
}

/// A pointer within the file leads to the object with its path id, the last one if
/// several have it, and leads nowhere only if no object has it.
pub proof fn a_local_pointer_leads_to_the_object_with_its_id(file: SceneFile, path_id: i64)
    ensures
        match model::object_at(file, Pptr { file_id: 0, path_id }) {
            Ok(object) => exists|i: int|
                0 <= i < file.objects@.len() && #[trigger] file.objects@[i] == object
                    && object.path_id == path_id && forall|j: int|
                    i < j < file.objects@.len() ==> (#[trigger] file.objects@[j]).path_id
                        != path_id,
            Err(_) => forall|j: int|
                0 <= j < file.objects@.len() ==> (#[trigger] file.objects@[j]).path_id != path_id,
        },
{
    lemma_object_with(file.objects@, path_id);
}

/// A pointer out of the file leads to what was linked for it, the last if there are
/// several, or fails as that failed; it leads nowhere if nothing was linked for it.
pub proof fn a_pointer_out_of_the_file_leads_to_what_is_linked(file: SceneFile, pptr: Pptr)
    requires
        pptr.file_id != 0,
    ensures
        (exists|i: int|
            0 <= i < file.linked@.len() && (#[trigger] file.linked@[i]).pptr == pptr && (
            forall|j: int|
                i < j < file.linked@.len() ==> (#[trigger] file.linked@[j]).pptr != pptr) && (
            match file.linked@[i].object {
                Ok(object) => model::object_at(file, pptr) == Ok::<Object, Seq<char>>(object),
                Err(e) => model::object_at(file, pptr) == Err::<Object, Seq<char>>(e@),
            })) || (model::object_at(file, pptr) is Err && forall|j: int|
            0 <= j < file.linked@.len() ==> (#[trigger] file.linked@[j]).pptr != pptr),
{
    lemma_linked_with(file.linked@, pptr);
    if let Some(link) = model::linked_with(file.linked@, pptr) {
        let i = choose|i: int|
            0 <= i < file.linked@.len() && #[trigger] file.linked@[i] == link && link.pptr == pptr
                && forall|j: int|
                i < j < file.linked@.len() ==> (#[trigger] file.linked@[j]).pptr != pptr;
        assert(file.linked@[i].pptr == pptr);
    }
}

/// What an object is as a GameObject or a Transform is what reading it gave.
pub proof fn readings_are_those_of_the_object(file: SceneFile, pptr: Pptr)
    ensures
        model::game_object_at(file, pptr) is Ok <==> (model::object_at(file, pptr) matches Ok(
            object,
        ) && object.game_object is Ok),
        model::game_object_at(file, pptr) matches Ok(game_object) ==> model::object_at(
            file,
            pptr,
        )->Ok_0.game_object->Ok_0 == game_object,
        model::transform_at(file, pptr) is Ok <==> (model::object_at(file, pptr) matches Ok(object)
            && object.transform is Ok),
        model::transform_at(file, pptr) matches Ok(transform) ==> model::object_at(
            file,
            pptr,
        )->Ok_0.transform->Ok_0 == transform,
        forall|transform|
            #![trigger model::owner_name(file, transform)]
            model::owner_name(file, transform) matches Ok(name) ==> (model::object_at(
                file,
                transform.game_object,
            ) matches Ok(object) && (object.game_object matches Ok(game_object)
                && game_object.name@ == name)),
{
}

/// The value under a key is that of the first entry with the key, and there is none
/// only if no entry has it.
pub proof fn a_key_gives_its_first_value(entries: Seq<EntryView>, key: Seq<char>)
    ensures
        match json::value_of(entries, key) {
            Some(value) => exists|i: int|
                0 <= i < entries.len() && (#[trigger] entries[i]).key == key && entries[i].value
                    == value && forall|j: int|
                    0 <= j < i ==> (#[trigger] entries[j]).key != key,
            None => forall|j: int|
                0 <= j < entries.len() ==> (#[trigger] entries[j]).key != key,
        },
    decreases entries.len(),
{
    if entries.len() > 0 {
        if entries[0].key == key {
            assert(entries[0].value == json::value_of(entries, key)->0);
        } else {
            let rest = entries.skip(1);
            a_key_gives_its_first_value(rest, key);
            match json::value_of(rest, key) {
                Some(value) => {
                    let i = choose|i: int|
                        0 <= i < rest.len() && (#[trigger] rest[i]).key == key && rest[i].value
                            == value && forall|j: int|
                            0 <= j < i ==> (#[trigger] rest[j]).key != key;
                    assert(entries[i + 1] == rest[i]);
                    assert forall|j: int| 0 <= j < i + 1 implies (#[trigger] entries[j]).key
                        != key by {
                        if j > 0 {
                            assert(rest[j - 1] == entries[j]);
                        }
                    }
                },
                None => {
                    assert forall|j: int| 0 <= j < entries.len() implies (
                    #[trigger] entries[j]).key != key by {
                        if j > 0 {
                            assert(rest[j - 1] == entries[j]);
                        }
                    }
                },
            }
        }
    }
}

/// Whether a value has the name `name`: the first of its entries with the key `m_Name`
/// is that text.
pub open spec fn is_called(value: JsonView, name: Seq<char>) -> bool {
    value matches JsonView::Object(entries) && exists|i: int|
        0 <= i < entries.len() && (#[trigger] entries[i]).key == "m_Name"@ && entries[i].value
            == JsonView::Text(name) && forall|j: int|
            0 <= j < i ==> (#[trigger] entries[j]).key != "m_Name"@
}

/// An object is called by the text that its value has under `m_Name`, and by nothing
/// else.
pub proof fn an_object_is_called_by_its_m_name(file: SceneFile, path_id: i64, name: Seq<char>)
    ensures
        model::name_at(file, path_id) == Some(name) <==> (model::object_at(
            file,
            Pptr { file_id: 0, path_id },
        ) matches Ok(object) && (object.value matches Ok(value) && is_called(value@, name))),
{
    if let Ok(object) = model::object_at(file, Pptr { file_id: 0, path_id }) {
        if let Ok(value) = object.value {
            if let JsonView::Object(entries) = value@ {
                a_key_gives_its_first_value(entries, "m_Name"@);
                if is_called(value@, name) {
                    let i = choose|i: int|
                        0 <= i < entries.len() && (#[trigger] entries[i]).key == "m_Name"@
                            && entries[i].value == JsonView::Text(name) && forall|j: int|
                            0 <= j < i ==> (#[trigger] entries[j]).key != "m_Name"@;
                    assert(entries[i].key == "m_Name"@);
                }
            }
        }
    }
}

/// The label of a MonoBehaviour is the class of its script where it has one, that of
/// any other object the name of its class.
pub proof fn a_label_is_the_script_or_the_class(object: Object)
    ensures
        object.class_id == 114 ==> (match object.script {
            Ok(Some(script)) => model::label_of(object) == Ok::<Seq<char>, Seq<char>>(script@),
            Ok(None) => model::label_of(object) == Ok::<Seq<char>, Seq<char>>(
                classes::class_text(114),
            ),
            Err(e) => model::label_of(object) == Err::<Seq<char>, Seq<char>>(e@),
        }),
        object.class_id != 114 ==> model::label_of(object) == Ok::<Seq<char>, Seq<char>>(
            classes::class_text(object.class_id),
        ),
        classes::class_id_name(object.class_id) matches Some(name) ==> classes::class_text(
            object.class_id,
        ) == name,
{
}

} // verus!
