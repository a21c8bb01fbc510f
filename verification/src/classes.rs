//! Unity class ids and their names.

use vstd::prelude::*;

use crate::number::show_i64;
use crate::{number, text};

verus! {

/// `GameObject`.
pub const GAME_OBJECT: i32 = 1;

/// `Transform`.
pub const TRANSFORM: i32 = 4;

/// `MonoBehaviour`.
pub const MONO_BEHAVIOUR: i32 = 114;

/// `AssetBundle`.
pub const ASSET_BUNDLE: i32 = 142;

/// `PreloadData`.
pub const PRELOAD_DATA: i32 = 150;

/// `RectTransform`.
pub const RECT_TRANSFORM: i32 = 224;

/// The name that `rabex` has for a class id, if it knows the id.
pub uninterp spec fn class_id_name(id: i32) -> Option<Seq<char>>;

/// `rabex::objects::ClassId::name`: the name in the crate's fixed table of class
/// ids, a function of the id alone.
#[verifier::external_body]
pub(crate) fn known_class_name(id: i32) -> (r: Option<String>)
    ensures
        text::text_opt(r) == class_id_name(id),
{
    rabex::objects::ClassId(id).name().map(|name| name.to_owned())
}

/// How a class id is printed, given its name if it has one: the name, or
/// `ClassId(<id>)`.
pub open spec fn class_text_of(name: Option<Seq<char>>, id: i32) -> Seq<char> {
    match name {
        Some(name) => name,
        None => Seq::<char>::empty() + "ClassId("@ + number::signed_decimal(id as int)
            + ")"@,
    }
}

/// How a class id is printed.
pub open spec fn class_text(id: i32) -> Seq<char> {
    class_text_of(class_id_name(id), id)
}

/// How a class id is printed, given its name if it has one.
pub fn class_label_of(name: Option<String>, id: i32) -> (out: String)
    ensures
        out@ == class_text_of(text::text_opt(name), id),
{
    match name {
        Some(name) => name,
        None => {
            let mut out = String::new();
            out.append("ClassId(");
            out.append(show_i64(id as i64).as_str());
            out.append(")");
            out
        },
    }
}

/// How a class id is printed: its name, or `ClassId(<id>)` for an unknown one.
pub fn class_label(id: i32) -> (out: String)
    ensures
        out@ == class_text(id),
{
    class_label_of(known_class_name(id), id)
}

} // verus!
