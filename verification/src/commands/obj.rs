//! One object of a file, as it is.

use vstd::prelude::*;

use crate::json::{Json, JsonView};
use crate::model::{Pptr, SceneFile};
use crate::model;

verus! {

/// What reading an object as JSON gives.
pub open spec fn value_at(file: SceneFile, path_id: i64) -> Result<JsonView, Seq<char>> {
    match model::object_at(file, model::local(path_id)) {
        Ok(object) => match object.value {
            Ok(value) => Ok(value@),
            Err(e) => Err(e@),
        },
        Err(e) => Err(e),
    }
}

/// Reads object `path_id`.
pub fn dump(file: &SceneFile, path_id: i64) -> (r: Result<Json, String>)
    ensures
        match r {
            Ok(value) => value_at(*file, path_id) == Ok::<JsonView, Seq<char>>(value@),
            Err(e) => value_at(*file, path_id) == Err::<JsonView, Seq<char>>(e@),
        },
{
    match file.object_at(Pptr::local(path_id)) {
        Ok(object) => match &object.value {
            Ok(value) => Ok(value.copy()),
            Err(e) => Err(e.clone()),
        },
        Err(e) => Err(e),
    }
}

} // verus!
