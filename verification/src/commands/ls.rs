//! The objects of a file, one per line.

use vstd::prelude::*;

use crate::classes::class_label;
use crate::model::{Object, SceneFile};
use crate::number::show_i64;
use crate::text::{align_right, same};
use crate::{classes, commands, number, text};

verus! {

/// The lines of those objects that are of the given class.
pub open spec fn lines_for(objects: Seq<Object>, filter: Option<Seq<char>>) -> Seq<char>
    decreases objects.len(),
{
    if objects.len() == 0 {
        Seq::empty()
    } else {
        let before = lines_for(objects.drop_last(), filter);
        let class = classes::class_text(objects.last().class_id);
        if filter is None || filter == Some(class) {
            before + text::right_aligned(
                number::signed_decimal(objects.last().path_id as int),
                12,
            ) + "  "@ + class + "\n"@
        } else {
            before
        }
    }
}

/// Writes `path_id  ClassId` for each object, optionally filtered to a single class
/// name.
#[verifier::loop_isolation(false)]
pub fn list(file: &SceneFile, type_filter: Option<&str>) -> (out: String)
    ensures
        out@ == lines_for(file.objects@, commands::file::str_opt(type_filter)),
{
    let ghost all = file.objects@;
    let ghost filter = commands::file::str_opt(type_filter);
    let mut out = String::new();
    let mut i: usize = 0;
    while i < file.objects.len()
        invariant
            i <= all.len(),
            all == file.objects@,
            out@ == lines_for(all.take(i as int), filter),
        decreases all.len() - i,
    {
        assert(all.take(i + 1).drop_last() =~= all.take(i as int));
        let object = &file.objects[i];
        let class = class_label(object.class_id);
        let keep: bool = match type_filter {
            Some(wanted) => same(class.as_str(), wanted),
            None => true,
        };
        if keep {
            out.append(align_right(show_i64(object.path_id).as_str(), 12).as_str());
            out.append("  ");
            out.append(class.as_str());
            out.append("\n");
        }
        i += 1;
    }
    assert(all.take(i as int) =~= all);
    out
}

} // verus!
