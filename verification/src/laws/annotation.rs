//! What annotating a dumped value adds to it, and where.

use vstd::prelude::*;

use super::objects::a_key_gives_its_first_value;
use crate::json::{EntryView, JsonView};
use crate::model::SceneFile;
use crate::{component_path, qualify};

verus! {

/// The value at a position within a value: the entries of objects and the items of
/// arrays that the numbers count, from the outside in.
pub open spec fn within(value: JsonView, position: Seq<int>) -> Option<JsonView>
    decreases position.len(),
{
    if position.len() == 0 {
        Some(value)
    } else {
        match value {
            JsonView::Object(entries) => if 0 <= position[0] < entries.len() {
                within(entries[position[0]].value, position.skip(1))
            } else {
                None
            },
            JsonView::Array(items) => if 0 <= position[0] < items.len() {
                within(items[position[0]], position.skip(1))
            } else {
                None
            },
            _ => None,
        }
    }
}

/// Whether a number is the given integer.
pub open spec fn is_integer(value: JsonView, n: i64) -> bool {
    value matches JsonView::Number(_, Some(m)) && m == n
}

/// Whether a value is a pointer within the file: `m_FileID` 0 and `m_PathID` the path id
/// of the target, which is not 0, in either order and with nothing else.
pub open spec fn is_local_pointer(value: JsonView, target: i64) -> bool {
    &&& target != 0
    &&& value matches JsonView::Object(entries) && entries.len() == 2 && (({
        &&& entries[0].key == "m_FileID"@ && is_integer(entries[0].value, 0)
        &&& entries[1].key == "m_PathID"@ && is_integer(entries[1].value, target)
    }) || ({
        &&& entries[1].key == "m_FileID"@ && is_integer(entries[1].value, 0)
        &&& entries[0].key == "m_PathID"@ && is_integer(entries[0].value, target)
    }))
}

proof fn lemma_pointer(entries: Seq<EntryView>, target: i64)
    ensures
        qualify::pptr_of(entries) == Some(target) <==> is_local_pointer(
            JsonView::Object(entries),
            target,
        ),
{
    reveal_strlit("m_FileID");
    reveal_strlit("m_PathID");
    assert("m_FileID"@[2] != "m_PathID"@[2]);
    a_key_gives_its_first_value(entries, "m_FileID"@);
    a_key_gives_its_first_value(entries, "m_PathID"@);
    if entries.len() == 2 {
        assert(entries[0] == entries[0] && entries[1] == entries[1]);
        if is_local_pointer(JsonView::Object(entries), target) {
            let f = if entries[0].key == "m_FileID"@ {
                0int
            } else {
                1int
            };
            assert(entries[f].key == "m_FileID"@);
            assert(entries[1 - f].key == "m_PathID"@);
        }
    }
}

/// Every pointer within the file that leads to an object with a path gains a `$ref`
/// entry with the text of that path, however deep in objects and arrays it stands.
pub proof fn every_pointer_is_annotated(
    file: SceneFile,
    value: JsonView,
    position: Seq<int>,
    target: i64,
)
    requires
        within(value, position) matches Some(pointer) && is_local_pointer(pointer, target),
        qualify::path_to(file, target) is Some,
    ensures
        within(qualify::qualified(file, value), position) == Some(
            JsonView::Object(
                within(value, position)->0->Object_0.push(
                    EntryView {
                        key: "$ref"@,
                        value: JsonView::Text(
                            component_path::path_text(qualify::path_to(file, target)->0),
                        ),
                    },
                ),
            ),
        ),
    decreases position.len(),
{
    match value {
        JsonView::Object(entries) => {
            if position.len() == 0 {
                lemma_pointer(entries, target);
            } else {
                if let Some(own) = qualify::pptr_of(entries) {
                    lemma_pointer(entries, own);
                    assert(entries[position[0]].value is Number);
                    if position.skip(1).len() > 0 {
                        assert(within(entries[position[0]].value, position.skip(1)) is None);
                    }
                    assert(false);
                }
                every_pointer_is_annotated(
                    file,
                    entries[position[0]].value,
                    position.skip(1),
                    target,
                );
                let out = qualify::qualified(file, value)->Object_0;
                assert(out[position[0]].value == qualify::qualified(
                    file,
                    entries[position[0]].value,
                ));
            }
        },
        JsonView::Array(items) => {
            if position.len() > 0 {
                every_pointer_is_annotated(file, items[position[0]], position.skip(1), target);
                let out = qualify::qualified(file, value)->Array_0;
                assert(out[position[0]] == qualify::qualified(file, items[position[0]]));
            }
        },
        _ => {},
    }
}

/// Whether a value is a pointer that can be annotated.
pub open spec fn has_path(file: SceneFile, value: JsonView) -> bool {
    exists|target: i64| #[trigger]
        is_local_pointer(value, target) && qualify::path_to(file, target) is Some
}

/// Whether `after` stands where `before` stood, with as many entries or items and the
/// same keys, or the very same where it has none.
pub open spec fn has_kept_its_shape(before: JsonView, after: JsonView) -> bool {
    match before {
        JsonView::Object(a) => after matches JsonView::Object(b) && a.len() == b.len() && forall|
            i: int,
        |
            0 <= i < a.len() ==> (#[trigger] a[i]).key == b[i].key,
        JsonView::Array(a) => after matches JsonView::Array(b) && a.len() == b.len(),
        _ => before == after,
    }
}

/// Nothing but pointers to objects with a path is changed by annotating: at every other
/// position stands what stood there, with the same keys and as many items.
pub proof fn nothing_but_pointers_is_annotated(
    file: SceneFile,
    value: JsonView,
    position: Seq<int>,
)
    requires
        within(value, position) is Some,
        !has_path(file, within(value, position)->0),
    ensures
        within(qualify::qualified(file, value), position) matches Some(after) && has_kept_its_shape(
            within(value, position)->0,
            after,
        ),
    decreases position.len(),
{
    match value {
        JsonView::Object(entries) => {
            let out = qualify::qualified(file, value)->Object_0;
            if let Some(own) = qualify::pptr_of(entries) {
                lemma_pointer(entries, own);
                if position.len() == 0 {
                    if qualify::path_to(file, own) is Some {
                        assert(is_local_pointer(value, own));
                        assert(has_path(file, value));
                    }
                } else {
                    assert(out[position[0]] == entries[position[0]]);
                }
            } else if position.len() > 0 {
                assert(out[position[0]].value == qualify::qualified(
                    file,
                    entries[position[0]].value,
                ));
                nothing_but_pointers_is_annotated(
                    file,
                    entries[position[0]].value,
                    position.skip(1),
                );
            }
        },
        JsonView::Array(items) => {
            if position.len() > 0 {
                let out = qualify::qualified(file, value)->Array_0;
                assert(out[position[0]] == qualify::qualified(file, items[position[0]]));
                nothing_but_pointers_is_annotated(file, items[position[0]], position.skip(1));
            }
        },
        _ => {},
    }
}

} // verus!
