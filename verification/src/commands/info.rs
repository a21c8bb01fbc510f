//! What a path is, in a line.

use vstd::prelude::*;

use crate::target::Target;

verus! {

/// The line that says what a path is.
pub open spec fn line_for(target: Target) -> Seq<char> {
    match target {
        Target::SerializedFile(path) => Seq::<char>::empty() + "serialized file: "@ + path@ + "\n"@,
        Target::Bundle(path) => Seq::<char>::empty() + "bundle: "@ + path@ + "\n"@,
        Target::GameDir(path) => Seq::<char>::empty() + "game dir: "@ + path@ + "\n"@,
    }
}

/// Says what a path is.
pub fn run(target: &Target) -> (out: String)
    ensures
        out@ == line_for(*target),
{
    let mut out = String::new();
    match target {
        Target::SerializedFile(path) => {
            out.append("serialized file: ");
            out.append(path.as_str());
        },
        Target::Bundle(path) => {
            out.append("bundle: ");
            out.append(path.as_str());
        },
        Target::GameDir(path) => {
            out.append("game dir: ");
            out.append(path.as_str());
        },
    }
    out.append("\n");
    out
}

} // verus!
