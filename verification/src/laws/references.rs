//! Which objects reference an object, and which files a file.

use vstd::prelude::*;

use super::{lemma_positions_push, lemma_positions_skip};
use crate::commands::file::find_references::{
    Candidate, Loaded, PathFilter, Query, ScanFile, TypeFilter,
};
use crate::commands::file;
use crate::commands::file::references::{FileExternals, ReferralView, ReferrerView};
use crate::commands::file::{find_references, references};
use crate::model::{Object, Pptr, SceneFile};
use crate::{classes, laws, model, number, text};

verus! {

/// Whether a pointer of a file is a pointer to the target: it has the target's path
/// id, and leads into the target's file, which is the file itself for a pointer
/// without a file, else the one of its externals that the pointer counts from one.
pub open spec fn is_pointer_to(file: ScanFile, pptr: Pptr, name: Seq<char>, id: i64) -> bool {
    &&& pptr.path_id == id
    &&& {
        ||| pptr.file_id == 0 && file.name@ == name
        ||| pptr.file_id > 0 && pptr.file_id <= file.externals@.len() && file.externals@[pptr.file_id
            - 1]@ == name
    }
}

/// Whether an object that can be read has a pointer to the target, in whatever field.
pub open spec fn has_pointer_to(file: ScanFile, object: Object, name: Seq<char>, id: i64) -> bool {
    object.pointers matches Ok(pointers) && exists|k: int|
        0 <= k < pointers@.len() && is_pointer_to(file, #[trigger] pointers@[k], name, id)
}

/// Whether an object is looked at: preload tables (an `AssetBundle` or `PreloadData`)
/// only where they are asked for, and only types that pass the filter.
pub open spec fn is_looked_at(file: ScanFile, query: Query, object: Object) -> bool {
    &&& object.class_id == 142 || object.class_id == 150 ==> query.include_preloads
    &&& query.types.keeps(file.scene, object.class_id, object.path_id)
}

/// Whether an object is to be reported.
pub open spec fn is_referrer(file: ScanFile, query: Query, object: Object) -> bool {
    is_looked_at(file, query, object) && has_pointer_to(
        file,
        object,
        query.target_file@,
        query.target_path_id,
    )
}

proof fn lemma_pointing(file: ScanFile, query: Query, pointers: Seq<Pptr>)
    ensures
        find_references::any_points_at_target(file, query, pointers) <==> exists|k: int|
            0 <= k < pointers.len() && is_pointer_to(
                file,
                #[trigger] pointers[k],
                query.target_file@,
                query.target_path_id,
            ),
{
    if find_references::any_points_at_target(file, query, pointers) {
        let k = choose|k: int|
            0 <= k < pointers.len() && find_references::points_at_target(
                file,
                query,
                #[trigger] pointers[k],
            );
        assert(is_pointer_to(file, pointers[k], query.target_file@, query.target_path_id));
    }
    if exists|k: int|
        0 <= k < pointers.len() && is_pointer_to(
            file,
            #[trigger] pointers[k],
            query.target_file@,
            query.target_path_id,
        ) {
        let k = choose|k: int|
            0 <= k < pointers.len() && is_pointer_to(
                file,
                #[trigger] pointers[k],
                query.target_file@,
                query.target_path_id,
            );
        assert(find_references::points_at_target(file, query, pointers[k]));
    }
}

proof fn lemma_hits(
    file: ScanFile,
    query: Query,
    display: Seq<char>,
    objects: Seq<Object>,
    n: int,
) -> (at: Seq<int>)
    requires
        !query.first_only,
        0 <= n <= objects.len(),
        find_references::hits_among(file, query, display, objects.take(n)) is Ok,
    ensures
        laws::are_positions(at, n, |i: int| is_referrer(file, query, objects[i])),
        ({
            let hits = find_references::hits_among(file, query, display, objects.take(n))->Ok_0;
            &&& hits.len() == at.len()
            &&& forall|j: int|
                0 <= j < hits.len() ==> (#[trigger] hits[j]).path_id == objects[at[j]].path_id
                    && hits[j].file == display && hits[j].load == file.name@
        }),
        forall|i: int|
            0 <= i < n && is_looked_at(file, query, #[trigger] objects[i])
                ==> objects[i].pointers is Ok,
    decreases n,
{
    let wanted = |i: int| is_referrer(file, query, objects[i]);
    if n == 0 {
        Seq::empty()
    } else {
        let part = objects.take(n);
        assert(part.drop_last() =~= objects.take(n - 1));
        assert(part.last() == objects[n - 1]);
        let before = lemma_hits(file, query, display, objects, n - 1);
        if let Ok(pointers) = objects[n - 1].pointers {
            lemma_pointing(file, query, pointers@);
        }
        if wanted(n - 1) {
            lemma_positions_push(before, n - 1, wanted);
            before.push(n - 1)
        } else {
            lemma_positions_skip(before, n - 1, wanted);
            before
        }
    }
}

/// A scan of a file reports exactly the objects that have a pointer to the target in
/// some field, each once and in file order, each by its path id, under the file it was
/// found in.
pub proof fn every_referrer_in_a_file_is_reported(
    file: ScanFile,
    query: Query,
    display: Seq<char>,
) -> (at: Seq<int>)
    requires
        !query.first_only,
        find_references::hits_among(file, query, display, file.scene.objects@) is Ok,
    ensures
        laws::are_positions(
            at,
            file.scene.objects@.len() as int,
            |i: int| is_referrer(file, query, file.scene.objects@[i]),
        ),
        ({
            let objects = file.scene.objects@;
            let hits = find_references::hits_among(file, query, display, objects)->Ok_0;
            &&& hits.len() == at.len()
            &&& forall|j: int|
                0 <= j < hits.len() ==> (#[trigger] hits[j]).path_id == objects[at[j]].path_id
                    && hits[j].file == display && hits[j].load == file.name@
        }),
        forall|i: int|
            0 <= i < file.scene.objects@.len() && is_looked_at(
                file,
                query,
                #[trigger] file.scene.objects@[i],
            ) ==> file.scene.objects@[i].pointers is Ok,
{
    let objects = file.scene.objects@;
    assert(objects.take(objects.len() as int) =~= objects);
    lemma_hits(file, query, display, objects, objects.len() as int)
}

/// A scan of a file fails only at an object that it looks at and whose pointers cannot
/// be read, the first of them, with the reason that reading it gave.
pub proof fn a_scan_fails_at_the_first_unreadable_object(
    file: ScanFile,
    query: Query,
    display: Seq<char>,
    objects: Seq<Object>,
) -> (i: int)
    requires
        find_references::hits_among(file, query, display, objects) is Err,
    ensures
        0 <= i < objects.len(),
        is_looked_at(file, query, objects[i]),
        objects[i].pointers matches Err(e) && find_references::hits_among(
            file,
            query,
            display,
            objects,
        ) == Err::<Seq<ReferralView>, Seq<char>>(e@),
        forall|j: int|
            0 <= j < i && is_looked_at(file, query, #[trigger] objects[j])
                ==> objects[j].pointers is Ok,
        query.first_only ==> forall|j: int|
            0 <= j < i ==> !is_referrer(file, query, #[trigger] objects[j]),
    decreases objects.len(),
{
    let rest = objects.drop_last();
    if find_references::hits_among(file, query, display, rest) is Err {
        let i = a_scan_fails_at_the_first_unreadable_object(file, query, display, rest);
        assert(rest[i] == objects[i]);
        assert forall|j: int| 0 <= j < i && is_looked_at(
            file,
            query,
            #[trigger] objects[j],
        ) implies objects[j].pointers is Ok by {
            assert(rest[j] == objects[j]);
        }
        if query.first_only {
            assert forall|j: int| 0 <= j < i implies !is_referrer(
                file,
                query,
                #[trigger] objects[j],
            ) by {
                assert(rest[j] == objects[j]);
            }
        }
        i
    } else {
        let i = objects.len() - 1;
        if query.first_only {
            let at = lemma_first_hit(file, query, display, objects, i);
            assert(objects.take(i) =~= rest);
            assert(at is None);
            assert forall|j: int| 0 <= j < i && is_looked_at(
                file,
                query,
                #[trigger] objects[j],
            ) implies objects[j].pointers is Ok by {}
        } else {
            assert(objects.take(i) =~= rest);
            let at = lemma_hits(file, query, display, objects, i);
            assert forall|j: int| 0 <= j < i && is_looked_at(
                file,
                query,
                #[trigger] objects[j],
            ) implies objects[j].pointers is Ok by {}
        }
        i
    }
}

proof fn lemma_first_hit(
    file: ScanFile,
    query: Query,
    display: Seq<char>,
    objects: Seq<Object>,
    n: int,
) -> (at: Option<int>)
    requires
        query.first_only,
        0 <= n <= objects.len(),
        find_references::hits_among(file, query, display, objects.take(n)) is Ok,
    ensures
        ({
            let hits = find_references::hits_among(file, query, display, objects.take(n))->Ok_0;
            match at {
                Some(i) => {
                    &&& 0 <= i < n
                    &&& is_referrer(file, query, objects[i])
                    &&& forall|j: int|
                        0 <= j < i ==> !is_referrer(file, query, #[trigger] objects[j])
                    &&& hits.len() == 1
                    &&& hits[0].path_id == objects[i].path_id
                    &&& hits[0].file == display
                    &&& hits[0].load == file.name@
                },
                None => {
                    &&& hits.len() == 0
                    &&& forall|j: int|
                        0 <= j < n ==> !is_referrer(file, query, #[trigger] objects[j])
                    &&& forall|j: int|
                        0 <= j < n && is_looked_at(file, query, #[trigger] objects[j])
                            ==> objects[j].pointers is Ok
                },
            }
        }),
    decreases n,
{
    if n == 0 {
        None
    } else {
        let part = objects.take(n);
        assert(part.drop_last() =~= objects.take(n - 1));
        assert(part.last() == objects[n - 1]);
        let before = lemma_first_hit(file, query, display, objects, n - 1);
        if let Ok(pointers) = objects[n - 1].pointers {
            lemma_pointing(file, query, pointers@);
        }
        match before {
            Some(i) => Some(i),
            None => if is_referrer(file, query, objects[n - 1]) {
                Some(n - 1)
            } else {
                None
            },
        }
    }
}

/// Where one hit is enough, a scan of a file reports the first object that has a
/// pointer to the target, and nothing only if no object has one.
pub proof fn the_first_referrer_in_a_file_is_enough(
    file: ScanFile,
    query: Query,
    display: Seq<char>,
) -> (at: Option<int>)
    requires
        query.first_only,
        find_references::hits_among(file, query, display, file.scene.objects@) is Ok,
    ensures
        ({
            let objects = file.scene.objects@;
            let hits = find_references::hits_among(file, query, display, objects)->Ok_0;
            match at {
                Some(i) => {
                    &&& 0 <= i < objects.len()
                    &&& is_referrer(file, query, objects[i])
                    &&& forall|j: int|
                        0 <= j < i ==> !is_referrer(file, query, #[trigger] objects[j])
                    &&& hits.len() == 1
                    &&& hits[0].path_id == objects[i].path_id
                    &&& hits[0].file == display
                    &&& hits[0].load == file.name@
                },
                None => {
                    &&& hits.len() == 0
                    &&& forall|j: int|
                        0 <= j < objects.len() ==> !is_referrer(file, query, #[trigger] objects[j])
                },
            }
        }),
{
    let objects = file.scene.objects@;
    assert(objects.take(objects.len() as int) =~= objects);
    lemma_first_hit(file, query, display, objects, objects.len() as int)
}

/// A file that is neither the target's nor lists it has no pointer to the target.
proof fn lemma_strangers_have_no_pointer(file: ScanFile, query: Query, object: Object)
    requires
        !find_references::can_reference(file.name@, text::texts(file.externals@), query),
    ensures
        !has_pointer_to(file, object, query.target_file@, query.target_path_id),
{
    if let Ok(pointers) = object.pointers {
        assert forall|k: int| 0 <= k < pointers@.len() implies !is_pointer_to(
            file,
            #[trigger] pointers@[k],
            query.target_file@,
            query.target_path_id,
        ) by {
            let pptr = pointers@[k];
            if is_pointer_to(file, pptr, query.target_file@, query.target_path_id) {
                if pptr.file_id != 0 {
                    assert(text::texts(file.externals@)[pptr.file_id - 1] == query.target_file@);
                }
            }
        }
    }
}

/// The serialized files that a candidate was found to hold.
pub open spec fn files_in(loaded: Loaded) -> Seq<Result<ScanFile, String>> {
    match loaded {
        Loaded::Unreadable(e) => seq![Err(e)],
        Loaded::Bundle { files, .. } => files@,
        Loaded::Plain(file) => seq![Ok(file)],
    }
}

/// Whether a path passes a filter: it holds some wanted part, where any is set, and
/// no unwanted one, all in lowercase.
pub open spec fn passes_filter(wanted: Seq<String>, unwanted: Seq<String>, path: Seq<char>) -> bool {
    &&& wanted.len() > 0 ==> exists|k: int|
        0 <= k < wanted.len() && text::has_text(text::lowercase(path), (#[trigger] wanted[k])@)
    &&& forall|k: int|
        0 <= k < unwanted.len() ==> !text::has_text(
            text::lowercase(path),
            (#[trigger] unwanted[k])@,
        )
}

proof fn lemma_contains_any(s: Seq<char>, parts: Seq<String>)
    ensures
        find_references::contains_any(s, text::texts(parts)) <==> exists|k: int|
            0 <= k < parts.len() && text::has_text(s, (#[trigger] parts[k])@),
{
    let all = text::texts(parts);
    if find_references::contains_any(s, all) {
        let k = choose|k: int| 0 <= k < all.len() && text::has_text(s, #[trigger] all[k]);
        assert(text::has_text(s, parts[k]@));
    }
    if exists|k: int| 0 <= k < parts.len() && text::has_text(s, (#[trigger] parts[k])@) {
        let k = choose|k: int| 0 <= k < parts.len() && text::has_text(s, (#[trigger] parts[k])@);
        assert(text::has_text(s, all[k]));
    }
}

proof fn lemma_passes(s: Seq<char>, wanted: Seq<String>, unwanted: Seq<String>)
    ensures
        find_references::passes(text::lowercase(s), text::texts(wanted), text::texts(unwanted))
            <==> passes_filter(wanted, unwanted, s),
{
    lemma_contains_any(text::lowercase(s), wanted);
    lemma_contains_any(text::lowercase(s), unwanted);
}

/// A path filter keeps a path exactly if it holds some wanted part, where any is set,
/// and no unwanted one, whatever the case of its letters.
pub proof fn path_filter_keeps_what_it_is_set_to(filter: PathFilter, path: Seq<char>)
    ensures
        filter.keeps(path) <==> passes_filter(filter.wanted@, filter.unwanted@, path),
{
    lemma_passes(path, filter.wanted@, filter.unwanted@);
}

/// A type filter keeps an object exactly if its type (the script of a MonoBehaviour,
/// else the name of its class) holds some wanted part, where any is set, and no
/// unwanted one, whatever the case of its letters.
pub proof fn type_filter_keeps_what_it_is_set_to(
    filter: TypeFilter,
    file: SceneFile,
    object: Object,
    shown: Seq<char>,
)
    requires
        model::object_at(file, model::local(object.path_id)) == Ok::<Object, Seq<char>>(object),
        object.class_id != 114 ==> shown == (match classes::class_id_name(object.class_id) {
            Some(name) => name,
            None => "Unknown"@,
        }),
        object.class_id == 114 ==> (match object.script {
            Ok(Some(script)) => shown == script@,
            _ => shown == "MonoBehaviour"@,
        }),
    ensures
        filter.keeps(file, object.class_id, object.path_id) <==> passes_filter(
            filter.wanted@,
            filter.unwanted@,
            shown,
        ),
{
    lemma_passes(shown, filter.wanted@, filter.unwanted@);
}

proof fn lemma_file_hits(file: ScanFile, query: Query, display: Seq<char>, i: int)
    requires
        !query.first_only,
        0 <= i < file.scene.objects@.len(),
        is_referrer(file, query, file.scene.objects@[i]),
        find_references::file_hits(file, query, display) is Ok,
    ensures
        exists|h: int|
            0 <= h < find_references::file_hits(file, query, display)->Ok_0.len() && (
            #[trigger] find_references::file_hits(file, query, display)->Ok_0[h]).path_id
                == file.scene.objects@[i].path_id && find_references::file_hits(
                file,
                query,
                display,
            )->Ok_0[h].load == file.name@,
{
    let object = file.scene.objects@[i];
    if !find_references::can_reference(file.name@, text::texts(file.externals@), query) {
        lemma_strangers_have_no_pointer(file, query, object);
    }
    let at = every_referrer_in_a_file_is_reported(file, query, display);
    let wanted = |i: int| is_referrer(file, query, file.scene.objects@[i]);
    assert(wanted(i));
    assert(at.contains(i));
    let h = choose|h: int| 0 <= h < at.len() && at[h] == i;
    let hits = find_references::file_hits(file, query, display)->Ok_0;
    assert(hits[h].path_id == object.path_id);
}

proof fn lemma_bundle_file(
    files: Seq<Result<ScanFile, String>>,
    query: Query,
    display: Seq<char>,
    f: int,
) -> (from: int)
    requires
        0 <= f < files.len(),
        find_references::bundle_hits(files, query, display) is Ok,
    ensures
        files[f] is Ok,
        find_references::file_hits(files[f]->Ok_0, query, display) is Ok,
        ({
            let all = find_references::bundle_hits(files, query, display)->Ok_0;
            let own = find_references::file_hits(files[f]->Ok_0, query, display)->Ok_0;
            &&& 0 <= from
            &&& from + own.len() <= all.len()
            &&& forall|h: int| 0 <= h < own.len() ==> #[trigger] own[h] == all[from + h]
        }),
    decreases files.len(),
{
    let rest = files.drop_last();
    let before = find_references::bundle_hits(rest, query, display)->Ok_0;
    if f == files.len() - 1 {
        before.len() as int
    } else {
        assert(rest[f] == files[f]);
        lemma_bundle_file(rest, query, display, f)
    }
}

/// No referrer of a candidate is missed: whatever file of it an object is in, and
/// through whatever field it points at the target, the object is reported, under the
/// candidate's path and with the file that holds it.
pub proof fn no_referrer_of_a_candidate_is_missed(
    candidate: Candidate,
    loaded: Loaded,
    query: Query,
    f: int,
    i: int,
) -> (h: int)
    requires
        !query.first_only,
        find_references::candidate_hits(candidate, loaded, query) is Ok,
        passes_filter(query.paths.wanted@, query.paths.unwanted@, candidate.path()),
        0 <= f < files_in(loaded).len(),
        files_in(loaded)[f] matches Ok(file) && 0 <= i < file.scene.objects@.len() && is_referrer(
            file,
            query,
            file.scene.objects@[i],
        ),
    ensures
        ({
            let hits = find_references::candidate_hits(candidate, loaded, query)->Ok_0;
            let file = files_in(loaded)[f]->Ok_0;
            &&& 0 <= h < hits.len()
            &&& hits[h].path_id == file.scene.objects@[i].path_id
            &&& hits[h].load == file.name@
            &&& hits[h].file == candidate.path()
        }),
{
    lemma_passes(candidate.path(), query.paths.wanted@, query.paths.unwanted@);
    let file = files_in(loaded)[f]->Ok_0;
    let display = candidate.path();
    let own = find_references::file_hits(file, query, display);
    let from: int = match loaded {
        Loaded::Bundle { files, .. } => lemma_bundle_file(files@, query, display, f),
        _ => 0,
    };
    lemma_file_hits(file, query, display, i);
    let hits = own->Ok_0;
    let h = choose|h: int|
        0 <= h < hits.len() && (#[trigger] hits[h]).path_id == file.scene.objects@[i].path_id
            && hits[h].load == file.name@;
    let at = every_hit_in_a_file_is_a_referrer(file, query, display, h);
    let all = find_references::candidate_hits(candidate, loaded, query)->Ok_0;
    assert(hits[h] == all[from + h]);
    from + h
}

/// What a file is found to hold is an object with a pointer to the target, reported by
/// its path id under the path of the file.
pub proof fn every_hit_in_a_file_is_a_referrer(
    file: ScanFile,
    query: Query,
    display: Seq<char>,
    h: int,
) -> (i: int)
    requires
        find_references::file_hits(file, query, display) matches Ok(hits) && 0 <= h < hits.len(),
    ensures
        0 <= i < file.scene.objects@.len(),
        is_referrer(file, query, file.scene.objects@[i]),
        ({
            let hit = find_references::file_hits(file, query, display)->Ok_0[h];
            &&& hit.path_id == file.scene.objects@[i].path_id
            &&& hit.file == display
            &&& hit.load == file.name@
        }),
{
    if query.first_only {
        let first = the_first_referrer_in_a_file_is_enough(file, query, display);
        first->0
    } else {
        let at = every_referrer_in_a_file_is_reported(file, query, display);
        let wanted = |i: int| is_referrer(file, query, file.scene.objects@[i]);
        assert(wanted(at[h]));
        at[h]
    }
}

proof fn lemma_bundle_hit(
    files: Seq<Result<ScanFile, String>>,
    query: Query,
    display: Seq<char>,
    h: int,
) -> (found: (int, int))
    requires
        find_references::bundle_hits(files, query, display) matches Ok(hits) && 0 <= h
            < hits.len(),
    ensures
        0 <= found.0 < files.len(),
        files[found.0] matches Ok(file) && find_references::file_hits(file, query, display)
            matches Ok(own) && 0 <= found.1 < own.len() && own[found.1]
            == find_references::bundle_hits(files, query, display)->Ok_0[h],
    decreases files.len(),
{
    let rest = files.drop_last();
    let before = find_references::bundle_hits(rest, query, display)->Ok_0;
    if h < before.len() {
        let found = lemma_bundle_hit(rest, query, display, h);
        assert(rest[found.0] == files[found.0]);
        found
    } else {
        (files.len() - 1, h - before.len())
    }
}

/// Nothing else is reported of a candidate: every hit is an object of one of its files
/// that has a pointer to the target, and nothing is reported of a candidate whose path
/// the filter does not keep.
pub proof fn every_hit_of_a_candidate_is_a_referrer(
    candidate: Candidate,
    loaded: Loaded,
    query: Query,
    h: int,
) -> (found: (int, int))
    requires
        find_references::candidate_hits(candidate, loaded, query) matches Ok(hits) && 0 <= h
            < hits.len(),
    ensures
        passes_filter(query.paths.wanted@, query.paths.unwanted@, candidate.path()),
        0 <= found.0 < files_in(loaded).len(),
        ({
            let hit = find_references::candidate_hits(candidate, loaded, query)->Ok_0[h];
            &&& files_in(loaded)[found.0] matches Ok(file)
            &&& 0 <= found.1 < file.scene.objects@.len()
            &&& is_referrer(file, query, file.scene.objects@[found.1])
            &&& hit.path_id == file.scene.objects@[found.1].path_id
            &&& hit.load == file.name@
            &&& hit.file == candidate.path()
        }),
{
    lemma_passes(candidate.path(), query.paths.wanted@, query.paths.unwanted@);
    let display = candidate.path();
    let (f, k): (int, int) = match loaded {
        Loaded::Bundle { files, .. } => lemma_bundle_hit(files@, query, display, h),
        _ => (0, h),
    };
    let file = files_in(loaded)[f]->Ok_0;
    let i = every_hit_in_a_file_is_a_referrer(file, query, display, k);
    (f, i)
}

/// A candidate fails only if it is wanted, and with the reason for which it, a file of
/// it or an object of such a file could not be read, or because it is a bundle without
/// a main file.
pub proof fn a_candidate_fails_for_a_reason(candidate: Candidate, loaded: Loaded, query: Query)
    requires
        find_references::candidate_hits(candidate, loaded, query) is Err,
    ensures
        passes_filter(query.paths.wanted@, query.paths.unwanted@, candidate.path()),
        ({
            let reason = find_references::candidate_hits(candidate, loaded, query)->Err_0;
            ||| loaded matches Loaded::Bundle { has_main, .. } && !has_main && reason
                == "bundle has no main serialized file"@
            ||| exists|f: int|
                0 <= f < files_in(loaded).len() && ((#[trigger] files_in(loaded)[f]) matches Err(e)
                    && e@ == reason)
            ||| exists|f: int, i: int|
                0 <= f < files_in(loaded).len() && fails_at(
                    #[trigger] files_in(loaded)[f],
                    query,
                    #[trigger] objects_in(files_in(loaded)[f])[i],
                    reason,
                ) && 0 <= i < objects_in(files_in(loaded)[f]).len()
        }),
{
    lemma_passes(candidate.path(), query.paths.wanted@, query.paths.unwanted@);
    let reason = find_references::candidate_hits(candidate, loaded, query)->Err_0;
    let display = candidate.path();
    if let Loaded::Unreadable(e) = loaded {
        assert(files_in(loaded)[0] is Err);
    } else {
        let f: int = match loaded {
            Loaded::Bundle { has_main, files } => if has_main {
                lemma_bundle_failure(files@, query, display)
            } else {
                0
            },
            _ => 0,
        };
        if !(loaded matches Loaded::Bundle { has_main, .. } && !has_main) {
            if let Ok(file) = files_in(loaded)[f] {
                let i = a_scan_fails_at_the_first_unreadable_object(
                    file,
                    query,
                    display,
                    file.scene.objects@,
                );
                assert(fails_at(
                    files_in(loaded)[f],
                    query,
                    objects_in(files_in(loaded)[f])[i],
                    reason,
                ));
            } else {
                assert(files_in(loaded)[f] is Err);
            }
        }
    }
}

/// The objects of a file that could be read.
pub open spec fn objects_in(file: Result<ScanFile, String>) -> Seq<Object> {
    match file {
        Ok(file) => file.scene.objects@,
        Err(_) => Seq::empty(),
    }
}

/// Whether an object of a file is looked at, and its pointers cannot be read for the
/// given reason.
pub open spec fn fails_at(
    file: Result<ScanFile, String>,
    query: Query,
    object: Object,
    reason: Seq<char>,
) -> bool {
    &&& file matches Ok(file) && is_looked_at(file, query, object)
    &&& object.pointers matches Err(e) && e@ == reason
}

proof fn lemma_bundle_failure(
    files: Seq<Result<ScanFile, String>>,
    query: Query,
    display: Seq<char>,
) -> (f: int)
    requires
        find_references::bundle_hits(files, query, display) is Err,
    ensures
        0 <= f < files.len(),
        ({
            let reason = find_references::bundle_hits(files, query, display)->Err_0;
            match files[f] {
                Err(e) => e@ == reason,
                Ok(file) => find_references::file_hits(file, query, display) == Err::<
                    Seq<ReferralView>,
                    Seq<char>,
                >(reason),
            }
        }),
    decreases files.len(),
{
    let rest = files.drop_last();
    if find_references::bundle_hits(rest, query, display) is Err {
        let f = lemma_bundle_failure(rest, query, display);
        assert(rest[f] == files[f]);
        f
    } else {
        files.len() - 1
    }
}

/// A search without a limit has found exactly what the candidates hold.
pub proof fn a_search_without_a_limit_finds_what_there_is<A>(
    batches: Seq<Seq<A>>,
    first_only: bool,
    x: A,
)
    ensures
        find_references::searched(batches, None, first_only).found.contains(x) <==> exists|i: int|
            0 <= i < batches.len() && (#[trigger] batches[i]).contains(x),
        !find_references::searched(batches, None, first_only).truncated,
    decreases batches.len(),
{
    let found = find_references::searched(batches, None, first_only).found;
    if batches.len() > 0 {
        let rest = batches.drop_last();
        a_search_without_a_limit_finds_what_there_is(rest, first_only, x);
        let before = find_references::searched(rest, None, first_only).found;
        assert(found == before + batches.last());
        if found.contains(x) {
            let k = choose|k: int| 0 <= k < found.len() && found[k] == x;
            if k < before.len() {
                assert(before[k] == x);
                let i = choose|i: int| 0 <= i < rest.len() && (#[trigger] rest[i]).contains(x);
                assert(batches[i].contains(x));
            } else {
                assert(batches.last()[k - before.len()] == x);
                assert(batches[batches.len() - 1].contains(x));
            }
        }
        if exists|i: int| 0 <= i < batches.len() && (#[trigger] batches[i]).contains(x) {
            let i = choose|i: int| 0 <= i < batches.len() && (#[trigger] batches[i]).contains(x);
            if i < rest.len() {
                assert(rest[i].contains(x));
                let k = choose|k: int| 0 <= k < before.len() && before[k] == x;
                assert(found[k] == x);
            } else {
                let k = choose|k: int| 0 <= k < batches[i].len() && batches[i][k] == x;
                assert(found[before.len() + k] == x);
            }
        }
    }
}

proof fn lemma_referring(files: Seq<FileExternals>, to: Seq<char>, n: int) -> (at: Seq<int>)
    requires
        0 <= n <= files.len(),
    ensures
        laws::are_positions(at, n, |i: int| lists_in_any_file(files[i], to)),
        ({
            let found = references::referring_files(files.take(n), to);
            &&& found.len() == at.len()
            &&& forall|j: int| 0 <= j < at.len() ==> #[trigger] found[j] == files[at[j]].path@
        }),
    decreases n,
{
    let wanted = |i: int| lists_in_any_file(files[i], to);
    if n == 0 {
        Seq::empty()
    } else {
        let part = files.take(n);
        assert(part.drop_last() =~= files.take(n - 1));
        let before = lemma_referring(files, to, n - 1);
        let file = files[n - 1];
        if references::refers_to(file, to) {
            let i = choose|i: int|
                0 <= i < file.externals@.len() && references::lists_file(
                    (#[trigger] file.externals@[i])@,
                    to,
                );
            let texts = text::texts(file.externals@[i]@);
            let k = choose|k: int| 0 <= k < texts.len() && texts[k] == to;
            assert(file.externals@[i]@[k]@ == to);
        }
        if lists_in_any_file(file, to) {
            let (i, k) = choose|i: int, k: int|
                0 <= i < file.externals@.len() && 0 <= k < file.externals@[i]@.len() && (
                #[trigger] file.externals@[i]@[k])@ == to;
            let texts = text::texts(file.externals@[i]@);
            assert(texts[k] == to);
            assert(references::lists_file(file.externals@[i]@, to));
        }
        if wanted(n - 1) {
            lemma_positions_push(before, n - 1, wanted);
            before.push(n - 1)
        } else {
            lemma_positions_skip(before, n - 1, wanted);
            before
        }
    }
}

/// Whether any of the externals lists of a file names `to`.
pub open spec fn lists_in_any_file(file: FileExternals, to: Seq<char>) -> bool {
    exists|i: int, k: int|
        0 <= i < file.externals@.len() && 0 <= k < file.externals@[i]@.len() && (
        #[trigger] file.externals@[i]@[k])@ == to
}

/// The files that reference a file are exactly those of which some externals list names
/// it, each once and in order, by their paths.
pub proof fn files_that_list_a_file_reference_it(files: Seq<FileExternals>, to: Seq<char>) -> (at:
    Seq<int>)
    ensures
        laws::are_positions(at, files.len() as int, |i: int| lists_in_any_file(files[i], to)),
        ({
            let found = references::referring_files(files, to);
            &&& found.len() == at.len()
            &&& forall|j: int| 0 <= j < at.len() ==> #[trigger] found[j] == files[at[j]].path@
        }),
{
    assert(files.take(files.len() as int) =~= files);
    lemma_referring(files, to, files.len() as int)
}

proof fn lemma_until(
    file: ScanFile,
    query: Query,
    display: Seq<char>,
    objects: Seq<Object>,
    n: int,
)
    requires
        0 <= n < objects.len(),
        find_references::hits_among(file, query, display, objects.take(n)) is Ok,
        find_references::hits_among(file, query, display, objects.take(n + 1)) is Err,
        find_references::hits_among(file, query, display, objects) is Err,
    ensures
        find_references::hits_until(file, query, display, objects) == find_references::hits_among(
            file,
            query,
            display,
            objects.take(n),
        )->Ok_0,
    decreases objects.len(),
{
    let rest = objects.drop_last();
    assert(rest.take(n) =~= objects.take(n));
    if n < rest.len() {
        assert(rest.take(n + 1) =~= objects.take(n + 1));
        lemma_errors_stay(file, query, display, rest, n + 1, rest.len() as int);
        assert(rest.take(rest.len() as int) =~= rest);
        lemma_until(file, query, display, rest, n);
    } else {
        assert(rest =~= objects.take(n));
        assert(find_references::hits_until(file, query, display, rest)
            == find_references::hits_among(file, query, display, rest)->Ok_0);
    }
}

proof fn lemma_errors_stay(
    file: ScanFile,
    query: Query,
    display: Seq<char>,
    objects: Seq<Object>,
    m: int,
    n: int,
)
    requires
        0 <= m <= n <= objects.len(),
        find_references::hits_among(file, query, display, objects.take(m)) is Err,
    ensures
        find_references::hits_among(file, query, display, objects.take(n)) is Err,
    decreases n - m,
{
    if m < n {
        lemma_errors_stay(file, query, display, objects, m, n - 1);
        assert(objects.take(n).drop_last() =~= objects.take(n - 1));
    }
}

/// A scan that fails has found what a scan of the objects before the failure finds.
pub proof fn a_failed_scan_keeps_what_was_before(
    file: ScanFile,
    query: Query,
    display: Seq<char>,
    objects: Seq<Object>,
    n: int,
)
    requires
        0 <= n < objects.len(),
        find_references::hits_among(file, query, display, objects.take(n)) is Ok,
        find_references::hits_among(file, query, display, objects.take(n + 1)) is Err,
    ensures
        find_references::hits_until(file, query, display, objects) == find_references::hits_among(
            file,
            query,
            display,
            objects.take(n),
        )->Ok_0,
{
    lemma_errors_stay(file, query, display, objects, n + 1, objects.len() as int);
    assert(objects.take(objects.len() as int) =~= objects);
    lemma_until(file, query, display, objects, n);
}

/// The candidates of a search are all bundles and all plain files, in that order.
pub proof fn every_file_is_a_candidate(
    all: Seq<Candidate>,
    bundles: Seq<String>,
    plain: Seq<String>,
    i: int,
)
    requires
        all.len() == bundles.len() + plain.len(),
        forall|k: int|
            0 <= k < all.len() ==> find_references::is_candidate(
                #[trigger] all[k],
                bundles,
                plain,
                k,
            ),
    ensures
        0 <= i < bundles.len() ==> (all[i] matches Candidate::Bundle(path) && path@
            == bundles[i]@ && all[i].path() == bundles[i]@),
        0 <= i < plain.len() ==> (all[bundles.len() + i] matches Candidate::Plain(path) && path@
            == plain[i]@ && all[bundles.len() + i].path() == plain[i]@),
{
    if 0 <= i < bundles.len() {
        assert(find_references::is_candidate(all[i], bundles, plain, i));
    }
    if 0 <= i < plain.len() {
        let k = bundles.len() + i;
        assert(find_references::is_candidate(all[k], bundles, plain, k));
    }
}

/// A filter is set to the lowercase of what it is given, one for one.
pub proof fn filters_are_set_in_lowercase(given: Seq<Seq<char>>, i: int)
    ensures
        find_references::lowered(given).len() == given.len(),
        0 <= i < given.len() ==> find_references::lowered(given)[i] == text::lowercase(given[i]),
{
}

/// A search takes the hits of one candidate after the other until it has enough: as many
/// hits as the limit, or hits in as many files where one per file is enough; a limit of
/// none is reached at once.
pub proof fn a_search_stops_when_it_has_enough<A>(
    batches: Seq<Seq<A>>,
    hits: Seq<A>,
    limit: usize,
    first_only: bool,
)
    ensures
        ({
            let before = find_references::searched(batches, Some(limit), first_only);
            let after = find_references::searched(batches.push(hits), Some(limit), first_only);
            &&& batches.len() == 0 ==> (before.truncated <==> limit == 0)
            &&& before.truncated ==> after == before
            &&& !before.truncated ==> after.found == before.found + hits
            &&& !before.truncated ==> after.files_hit == before.files_hit + (if hits.len() > 0 {
                1int
            } else {
                0int
            })
            &&& !before.truncated && first_only ==> (after.truncated <==> after.files_hit >= limit)
            &&& !before.truncated && !first_only ==> (after.truncated <==> after.found.len()
                >= limit)
        }),
{
    assert(batches.push(hits).drop_last() =~= batches);
}

/// Of a bundle whose scan fails, what its files before the failure have is kept, and of
/// the file that fails what it had before.
pub proof fn a_failed_bundle_keeps_what_was_before(
    files: Seq<Result<ScanFile, String>>,
    file: Result<ScanFile, String>,
    query: Query,
    display: Seq<char>,
)
    ensures
        find_references::bundle_hits_until(Seq::empty(), query, display) == Seq::<
            ReferralView,
        >::empty(),
        find_references::bundle_hits(files, query, display) is Err
            ==> find_references::bundle_hits_until(files.push(file), query, display)
            == find_references::bundle_hits_until(files, query, display),
        find_references::bundle_hits(files, query, display) matches Ok(before) ==> (match file {
            Err(_) => find_references::bundle_hits_until(files.push(file), query, display)
                == before,
            Ok(file) => find_references::can_reference(
                file.name@,
                text::texts(file.externals@),
                query,
            ) ==> find_references::bundle_hits_until(files.push(Ok(file)), query, display) == before
                + find_references::hits_until(file, query, display, file.scene.objects@),
        }),
{
    assert(files.push(file).drop_last() =~= files);
}

/// A column of references is as wide as the longest entry in it: of the files up to forty
/// characters, of the short and of the long ids each by themselves.
pub proof fn columns_are_as_wide_as_their_entries(referrers: Seq<ReferrerView>, i: int)
    requires
        0 <= i < referrers.len(),
    ensures
        ({
            let at = references::location(referrers[i].file, referrers[i].scene);
            let bytes = vstd::utf8::encode_utf8(at).len();
            let id = number::signed_decimal(referrers[i].path_id as int).len();
            &&& references::file_width(referrers) <= 40
            &&& bytes <= references::file_width(referrers) || references::file_width(referrers)
                == 40
            &&& id <= 12 ==> id <= references::id_width(referrers, true)
            &&& id > 12 ==> id <= references::id_width(referrers, false)
        }),
    decreases referrers.len(),
{
    let rest = referrers.drop_last();
    if i < rest.len() {
        assert(rest[i] == referrers[i]);
        columns_are_as_wide_as_their_entries(rest, i);
    }
}

proof fn lemma_longest(referrers: Seq<ReferrerView>) -> (i: int)
    requires
        referrers.len() > 0,
    ensures
        0 <= i < referrers.len(),
        references::longest_location(referrers) == vstd::utf8::encode_utf8(
            references::location(referrers[i].file, referrers[i].scene),
        ).len(),
    decreases referrers.len(),
{
    let rest = referrers.drop_last();
    let n = referrers.len() - 1;
    if rest.len() == 0 {
        assert(references::longest_location(rest) == 0);
        n
    } else {
        let i = lemma_longest(rest);
        if references::longest_location(rest) < references::byte_len(
            references::location(referrers[n].file, referrers[n].scene),
        ) {
            n
        } else {
            i
        }
    }
}

/// No column is wider than it need be: one of its entries fills it, unless there is none
/// or it is the widest that the files can have.
pub proof fn no_column_is_wider_than_an_entry(referrers: Seq<ReferrerView>, small: bool) -> (at: (
    int,
    int,
))
    ensures
        ({
            let file = references::file_width(referrers);
            let id = references::id_width(referrers, small);
            &&& file == 0 || file == 40 || (0 <= at.0 < referrers.len() && file
                == vstd::utf8::encode_utf8(
                references::location(referrers[at.0].file, referrers[at.0].scene),
            ).len())
            &&& id == 0 || (0 <= at.1 < referrers.len() && id == number::signed_decimal(
                referrers[at.1].path_id as int,
            ).len() && (small <==> id <= 12))
        }),
{
    let first = if referrers.len() > 0 {
        lemma_longest(referrers)
    } else {
        0
    };
    (first, lemma_widest_id(referrers, small))
}

proof fn lemma_widest_id(referrers: Seq<ReferrerView>, small: bool) -> (i: int)
    ensures
        ({
            let id = references::id_width(referrers, small);
            id == 0 || (0 <= i < referrers.len() && id == number::signed_decimal(
                referrers[i].path_id as int,
            ).len() && (small <==> id <= 12))
        }),
    decreases referrers.len(),
{
    if referrers.len() == 0 {
        0
    } else {
        let rest = referrers.drop_last();
        let n = referrers.len() - 1;
        let i = lemma_widest_id(rest, small);
        if references::id_width(referrers, small) == references::id_width(rest, small) {
            i
        } else {
            n
        }
    }
}

/// The target of a listing is told by its own name, or else by its id.
pub proof fn a_target_is_told_by_name_or_id(file: SceneFile, path_id: i64)
    ensures
        file::own_name(file, path_id) matches Some(name) ==> references::target_text(file, path_id)
            == name,
        file::own_name(file, path_id) is None ==> references::target_text(file, path_id) == seq![
            '#',
        ] + number::signed_decimal(path_id as int),
{
    reveal_strlit("#");
    assert(Seq::<char>::empty() + "#"@ =~= seq!['#']);
}

/// A referrer is told by where it was found and by its label, which is left out where one
/// hit per file is enough.
pub proof fn a_referrer_is_labelled_unless_one_is_enough(
    file: ScanFile,
    query: Query,
    display: Seq<char>,
    object: Object,
)
    ensures
        ({
            let hit = find_references::hit(file, query, display, object);
            &&& hit.file == display
            &&& hit.load == file.name@
            &&& hit.path_id == object.path_id
            &&& !query.first_only ==> hit.label == references::label_text(
                file.scene,
                object.path_id,
            )
            &&& query.first_only ==> hit.label.len() == 0
        }),
{
}

} // verus!
