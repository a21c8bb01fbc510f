//! A search for references misses nothing: what a search with a limit leaves out it
//! says, and the listing of files agrees with the listing of objects.

use vstd::prelude::*;

use super::find_references::{Candidate, Loaded, Query, ScanFile};
use super::references::{Referral, ReferralView};
use super::{find_references, references};
use crate::model::Object;
use crate::{sort, text};

verus! {

proof fn lemma_flattened_parts<A>(a: Seq<Seq<A>>, b: Seq<Seq<A>>)
    ensures
        find_references::flattened(a + b) == find_references::flattened(a)
            + find_references::flattened(b),
    decreases b.len(),
{
    let whole = find_references::flattened(a) + find_references::flattened(b);
    if b.len() == 0 {
        assert(a + b =~= a);
        assert(whole =~= find_references::flattened(a));
    } else {
        lemma_flattened_parts(a, b.drop_last());
        assert((a + b).drop_last() =~= a + b.drop_last());
        assert(find_references::flattened(a + b) =~= whole);
    }
}

proof fn lemma_flattened_one<A>(batch: Seq<A>)
    ensures
        find_references::flattened(seq![batch]) == batch,
{
    assert(seq![batch].drop_last() =~= Seq::<Seq<A>>::empty());
    assert(find_references::flattened(seq![batch].drop_last()) + batch =~= batch);
}

/// The hits of candidates, in whatever order they are scanned, are the same.
proof fn lemma_order_is_no_matter<A>(candidates: Seq<Candidate>, hits: spec_fn(Candidate) -> Seq<A>)
    ensures
        find_references::flattened(sort::sorted(candidates).map_values(hits)).to_multiset()
            == find_references::flattened(candidates.map_values(hits)).to_multiset(),
    decreases candidates.len(),
{
    if candidates.len() > 0 {
        let x = candidates[0];
        let tail = candidates.skip(1);
        let rest = sort::sorted(tail);
        lemma_order_is_no_matter(tail, hits);
        sort::lemma_place(x, rest);
        let p = sort::place(x, rest) as int;
        let before = rest.take(p).map_values(hits);
        let after = rest.skip(p).map_values(hits);
        let here = seq![hits(x)];
        assert(rest.map_values(hits) =~= before + after);
        assert(sort::sorted(candidates).map_values(hits) =~= before + here + after);
        assert(candidates.map_values(hits) =~= here + tail.map_values(hits));
        lemma_flattened_one(hits(x));
        lemma_flattened_parts(before, after);
        lemma_flattened_parts(before, here);
        lemma_flattened_parts(before + here, after);
        lemma_flattened_parts(here, tail.map_values(hits));
        let a = find_references::flattened(before);
        let b = find_references::flattened(after);
        let c = find_references::flattened(tail.map_values(hits));
        vstd::seq_lib::lemma_multiset_commutative(a, b);
        vstd::seq_lib::lemma_multiset_commutative(a, hits(x));
        vstd::seq_lib::lemma_multiset_commutative(a + hits(x), b);
        vstd::seq_lib::lemma_multiset_commutative(hits(x), c);
        assert((a + hits(x) + b).to_multiset() =~= (hits(x) + c).to_multiset());
    } else {
        assert(sort::sorted(candidates) == candidates);
    }
}

proof fn lemma_no_more_files_than_hits<A>(batches: Seq<Seq<A>>)
    ensures
        find_references::nonempty(batches) <= find_references::flattened(batches).len(),
    decreases batches.len(),
{
    if batches.len() > 0 {
        lemma_no_more_files_than_hits(batches.drop_last());
    }
}

/// Nothing is missing unless the flag says so. What a search with a limit finds is
/// among what one without a limit finds; if it was not cut short it is all of that, and
/// if it was, it is at least as much as the limit. A limit of none finds nothing and
/// says so; without a limit nothing is ever cut short.
pub proof fn limited_search_tells_what_is_missing<A>(
    candidates: Seq<Candidate>,
    hits: spec_fn(Candidate) -> Seq<A>,
    limit: usize,
    first_only: bool,
)
    ensures
        ({
            let all = find_references::searched(candidates.map_values(hits), None, first_only);
            let some = find_references::searched(
                sort::sorted(candidates).map_values(hits),
                Some(limit),
                first_only,
            );
            &&& !all.truncated
            &&& some.found.to_multiset().subset_of(all.found.to_multiset())
            &&& !some.truncated ==> some.found.to_multiset() == all.found.to_multiset()
            &&& some.truncated ==> some.found.len() >= limit
            &&& limit == 0 ==> some.truncated && some.found.len() == 0
        }),
{
    let batches = sort::sorted(candidates).map_values(hits);
    let some = find_references::searched(batches, Some(limit), first_only);
    find_references::unlimited_search_finds_all(candidates.map_values(hits), first_only);
    lemma_order_is_no_matter(candidates, hits);
    find_references::lemma_truncated_has_enough(batches, limit, first_only);
    let k = find_references::lemma_search_takes_some(batches, Some(limit), first_only);
    let taken = batches.take(k);
    let left = batches.skip(k);
    assert(batches =~= taken + left);
    lemma_flattened_parts(taken, left);
    lemma_no_more_files_than_hits(taken);
    vstd::seq_lib::lemma_multiset_commutative(
        find_references::flattened(taken),
        find_references::flattened(left),
    );
    if !some.truncated {
        assert(taken =~= batches);
    }
    if limit == 0 {
        lemma_no_limit_no_hits(batches, first_only);
    }
}

proof fn lemma_no_limit_no_hits<A>(batches: Seq<Seq<A>>, first_only: bool)
    ensures
        find_references::searched(batches, Some(0usize), first_only).truncated,
        find_references::searched(batches, Some(0usize), first_only).found.len() == 0,
    decreases batches.len(),
{
    if batches.len() > 0 {
        lemma_no_limit_no_hits(batches.drop_last(), first_only);
    }
}

/// The query for files alone: one hit per file is enough.
pub open spec fn files_only(query: Query) -> Query {
    Query { first_only: true, ..query }
}

/// Whether all referrers are reported under one path.
pub open spec fn all_under(hits: Seq<ReferralView>, display: Seq<char>) -> bool {
    forall|i: int| 0 <= i < hits.len() ==> (#[trigger] hits[i]).file == display
}

/// Whether a search for files alone finds something exactly where a search for objects
/// does, all of it in the file at `display`.
pub open spec fn agree(
    first: Result<Seq<ReferralView>, Seq<char>>,
    full: Result<Seq<ReferralView>, Seq<char>>,
    display: Seq<char>,
) -> bool {
    full matches Ok(hits) ==> {
        &&& first matches Ok(some) && (some.len() > 0 <==> hits.len() > 0) && all_under(
            some,
            display,
        )
        &&& all_under(hits, display)
    }
}

proof fn lemma_objects_agree(
    file: ScanFile,
    query: Query,
    display: Seq<char>,
    objects: Seq<Object>,
)
    requires
        !query.first_only,
    ensures
        agree(
            find_references::hits_among(file, files_only(query), display, objects),
            find_references::hits_among(file, query, display, objects),
            display,
        ),
    decreases objects.len(),
{
    if objects.len() > 0 {
        let quick = files_only(query);
        let object = objects.last();
        lemma_objects_agree(file, query, display, objects.drop_last());
        assert(find_references::is_searched(file, quick, object) == find_references::is_searched(
            file,
            query,
            object,
        ));
        if let Ok(pptrs) = object.pointers {
            assert forall|i: int| 0 <= i < pptrs@.len() implies find_references::points_at_target(
                file,
                quick,
                #[trigger] pptrs@[i],
            ) == find_references::points_at_target(file, query, pptrs@[i]) by {}
            assert(find_references::any_points_at_target(file, quick, pptrs@)
                == find_references::any_points_at_target(file, query, pptrs@));
        }
    }
}

proof fn lemma_file_agrees(file: ScanFile, query: Query, display: Seq<char>)
    requires
        !query.first_only,
    ensures
        agree(
            find_references::file_hits(file, files_only(query), display),
            find_references::file_hits(file, query, display),
            display,
        ),
{
    lemma_objects_agree(file, query, display, file.scene.objects@);
}

proof fn lemma_bundle_agrees(
    files: Seq<Result<ScanFile, String>>,
    query: Query,
    display: Seq<char>,
)
    requires
        !query.first_only,
    ensures
        agree(
            find_references::bundle_hits(files, files_only(query), display),
            find_references::bundle_hits(files, query, display),
            display,
        ),
    decreases files.len(),
{
    if files.len() > 0 {
        lemma_bundle_agrees(files.drop_last(), query, display);
        if let Ok(file) = files.last() {
            lemma_file_agrees(file, query, display);
        }
    }
}

/// A candidate has a hit for the listing of files exactly where it has one for the
/// listing of objects, under its own path.
proof fn lemma_candidate_agrees(candidate: Candidate, loaded: Loaded, query: Query)
    requires
        !query.first_only,
    ensures
        agree(
            find_references::candidate_hits(candidate, loaded, files_only(query)),
            find_references::candidate_hits(candidate, loaded, query),
            candidate.path(),
        ),
{
    match loaded {
        Loaded::Unreadable(_) => {},
        Loaded::Bundle { has_main, files } => {
            lemma_bundle_agrees(files@, query, candidate.path());
        },
        Loaded::Plain(file) => {
            lemma_file_agrees(file, query, candidate.path());
        },
    }
}

/// Whether texts ascend, each once.
pub open spec fn ascends(list: Seq<Seq<char>>) -> bool {
    forall|i: int, j: int|
        0 <= i < j < list.len() ==> text::sorts_before(#[trigger] list[i], #[trigger] list[j])
}

/// Whether no text stands before one that it belongs behind.
spec fn climbs(list: Seq<Seq<char>>) -> bool {
    forall|i: int, j: int|
        0 <= i < j < list.len() ==> !text::sorts_before(#[trigger] list[j], #[trigger] list[i])
}

/// Without repeats, what is in order ascends and has the same texts.
proof fn lemma_deduped_ascends(list: Seq<Seq<char>>)
    requires
        climbs(list),
    ensures
        ascends(references::deduped(list)),
        forall|s: Seq<char>| #[trigger]
            references::deduped(list).contains(s) <==> list.contains(s),
        list.len() > 0 ==> references::deduped(list).len() > 0 && references::deduped(list).last()
            == list.last(),
    decreases list.len(),
{
    let out = references::deduped(list);
    if list.len() > 0 {
        let rest = list.drop_last();
        let before = references::deduped(rest);
        assert forall|i: int, j: int| 0 <= i < j < rest.len() implies !text::sorts_before(
            #[trigger] rest[j],
            #[trigger] rest[i],
        ) by {
            assert(rest[i] == list[i] && rest[j] == list[j]);
        }
        lemma_deduped_ascends(rest);
        let last = list.last();
        assert forall|s: Seq<char>| #[trigger] out.contains(s) implies list.contains(s) by {
            let k = choose|k: int| 0 <= k < out.len() && out[k] == s;
            if k < before.len() {
                assert(before[k] == s);
                assert(before.contains(s));
                assert(rest.contains(s));
                let m = choose|m: int| 0 <= m < rest.len() && rest[m] == s;
                assert(list[m] == s);
            } else {
                assert(list[list.len() - 1] == s);
            }
        }
        assert forall|s: Seq<char>| list.contains(s) implies #[trigger] out.contains(s) by {
            let m = choose|m: int| 0 <= m < list.len() && list[m] == s;
            if m < rest.len() {
                assert(rest[m] == s);
                assert(before.contains(s));
                let k = choose|k: int| 0 <= k < before.len() && before[k] == s;
                assert(out[k] == s);
            } else {
                assert(out[out.len() - 1] == s);
            }
        }
        if list.len() > 1 && list[list.len() - 2] == last {
            assert(out == before);
        } else {
            assert forall|i: int, j: int| 0 <= i < j < out.len() implies text::sorts_before(
                #[trigger] out[i],
                #[trigger] out[j],
            ) by {
                if j == before.len() {
                    // The last text that was kept belongs before this one.
                    let top = list[list.len() - 2];
                    assert(before.last() == top);
                    assert(!text::sorts_before(list[list.len() - 1], top));
                    sort::lemma_text_order(top, last);
                    if i < before.len() - 1 {
                        assert(text::sorts_before(before[i], before[before.len() - 1]));
                        sort::lemma_text_order_transitive(before[i], top, last);
                    }
                } else {
                    assert(text::sorts_before(before[i], before[j]));
                }
            }
        }
    }
}

/// Two ascending lists with the same texts are the same.
proof fn lemma_ascending_is_unique(a: Seq<Seq<char>>, b: Seq<Seq<char>>)
    requires
        ascends(a),
        ascends(b),
        forall|s: Seq<char>| #[trigger] a.contains(s) <==> b.contains(s),
    ensures
        a == b,
    decreases a.len(),
{
    if a.len() == 0 {
        if b.len() > 0 {
            assert(b.contains(b[0]));
            assert(a.contains(b[0]));
        }
        assert(a =~= b);
    } else {
        assert(a.contains(a[0]));
        assert(b.contains(a[0]));
        let p = a.len() - 1;
        let q = b.len() - 1;
        assert(a.contains(a[p]));
        assert(b.contains(b[q]));
        assert(a.contains(b[q]));
        assert(b.contains(a[p]));
        let i = choose|i: int| 0 <= i < a.len() && a[i] == b[q];
        let j = choose|j: int| 0 <= j < b.len() && b[j] == a[p];
        sort::lemma_text_order(a[p], b[q]);
        if a[p] != b[q] {
            if i < p {
                assert(text::sorts_before(a[i], a[p]));
            }
            if j < q {
                assert(text::sorts_before(b[j], b[q]));
            }
        }
        assert(a[p] == b[q]);
        let x = a.drop_last();
        let y = b.drop_last();
        assert(ascends(x)) by {
            assert forall|i: int, j: int| 0 <= i < j < x.len() implies text::sorts_before(
                #[trigger] x[i],
                #[trigger] x[j],
            ) by {
                assert(text::sorts_before(a[i], a[j]));
            }
        }
        assert(ascends(y)) by {
            assert forall|i: int, j: int| 0 <= i < j < y.len() implies text::sorts_before(
                #[trigger] y[i],
                #[trigger] y[j],
            ) by {
                assert(text::sorts_before(b[i], b[j]));
            }
        }
        assert forall|s: Seq<char>| #[trigger] x.contains(s) implies y.contains(s) by {
            let k = choose|k: int| 0 <= k < x.len() && x[k] == s;
            assert(text::sorts_before(a[k], a[p]));
            sort::lemma_text_order(a[k], a[p]);
            assert(a[k] == s);
            assert(a.contains(s));
            assert(b.contains(s));
            let m = choose|m: int| 0 <= m < b.len() && b[m] == s;
            assert(y[m] == s);
        }
        assert forall|s: Seq<char>| #[trigger] y.contains(s) implies x.contains(s) by {
            let k = choose|k: int| 0 <= k < y.len() && y[k] == s;
            assert(text::sorts_before(b[k], b[q]));
            sort::lemma_text_order(b[k], b[q]);
            assert(b[k] == s);
            assert(b.contains(s));
            assert(a.contains(s));
            let m = choose|m: int| 0 <= m < a.len() && a[m] == s;
            assert(x[m] == s);
        }
        lemma_ascending_is_unique(x, y);
        assert(a =~= x.push(a[p]));
        assert(b =~= y.push(b[q]));
    }
}

/// Whether any of the referrers is in `file`.
pub open spec fn any_in(found: Seq<Referral>, file: Seq<char>) -> bool {
    exists|i: int| 0 <= i < found.len() && (#[trigger] found[i]).file@ == file
}

/// The distinct files of referrers ascend, and they are the files of the referrers.
pub proof fn listed_files_are_the_referrers_files(found: Seq<Referral>)
    ensures
        ascends(find_references::distinct_files(found)),
        forall|file: Seq<char>| #[trigger]
            find_references::distinct_files(found).contains(file) <==> any_in(found, file),
{
    broadcast use vstd::seq_lib::group_to_multiset_ensures;

    let files = references::files_of(found);
    let ordered = sort::sorted(files);
    let shown = text::texts(ordered);
    sort::sorting_orders(files);
    sort::sorting_keeps_items(files);
    sort::lemma_sorted_within(files);
    assert(climbs(shown)) by {
        assert forall|i: int, j: int| 0 <= i < j < shown.len() implies !text::sorts_before(
            #[trigger] shown[j],
            #[trigger] shown[i],
        ) by {
            assert(!sort::Sortable::below(ordered[j], ordered[i]));
        }
    }
    lemma_deduped_ascends(shown);
    assert forall|file: Seq<char>| #[trigger]
        find_references::distinct_files(found).contains(file) implies any_in(found, file) by {
        assert(shown.contains(file));
        let k = choose|k: int| 0 <= k < shown.len() && shown[k] == file;
        assert(files.contains(ordered[k]));
        let m = choose|m: int| 0 <= m < files.len() && files[m] == ordered[k];
        assert(found[m].file@ == file);
    }
    assert forall|file: Seq<char>| any_in(found, file) implies #[trigger]
        find_references::distinct_files(found).contains(file) by {
        let m = choose|m: int| 0 <= m < found.len() && (#[trigger] found[m]).file@ == file;
        assert(files[m] == found[m].file);
        assert(files.contains(files[m]));
        assert(files.to_multiset().count(files[m]) > 0);
        assert(ordered.to_multiset().count(files[m]) > 0);
        assert(ordered.contains(files[m]));
        let k = choose|k: int| 0 <= k < ordered.len() && ordered[k] == files[m];
        assert(shown[k] == file);
        assert(shown.contains(file));
    }
}

/// Whether the batches are what scanning the candidates gives.
pub open spec fn scanned(
    candidates: Seq<Candidate>,
    loaded: Seq<Loaded>,
    query: Query,
    batches: Seq<Seq<Referral>>,
) -> bool {
    &&& candidates.len() == loaded.len() == batches.len()
    &&& forall|i: int|
        0 <= i < candidates.len() ==> find_references::candidate_hits(
            candidates[i],
            loaded[i],
            query,
        ) == Ok::<Seq<ReferralView>, Seq<char>>(find_references::views(#[trigger] batches[i]))
}

proof fn lemma_in_some_batch(batches: Seq<Seq<Referral>>, file: Seq<char>)
    ensures
        any_in(find_references::flattened(batches), file) <==> exists|i: int|
            0 <= i < batches.len() && any_in(#[trigger] batches[i], file),
    decreases batches.len(),
{
    if batches.len() > 0 {
        let rest = batches.drop_last();
        let last = batches.last();
        let before = find_references::flattened(rest);
        let all = find_references::flattened(batches);
        lemma_in_some_batch(rest, file);
        if any_in(all, file) {
            let k = choose|k: int| 0 <= k < all.len() && (#[trigger] all[k]).file@ == file;
            if k < before.len() {
                assert(before[k].file@ == file);
                let i = choose|i: int| 0 <= i < rest.len() && any_in(#[trigger] rest[i], file);
                assert(batches[i] == rest[i]);
            } else {
                assert(last[k - before.len()].file@ == file);
                assert(any_in(batches[batches.len() - 1], file));
            }
        }
        if exists|i: int| 0 <= i < batches.len() && any_in(#[trigger] batches[i], file) {
            let i = choose|i: int| 0 <= i < batches.len() && any_in(#[trigger] batches[i], file);
            if i < rest.len() {
                assert(rest[i] == batches[i]);
                let k = choose|k: int| 0 <= k < before.len() && (#[trigger] before[k]).file@ == file;
                assert(all[k].file@ == file);
            } else {
                let k = choose|k: int| 0 <= k < last.len() && (#[trigger] last[k]).file@ == file;
                assert(all[before.len() + k].file@ == file);
            }
        }
    }
}

proof fn lemma_batches_agree(
    candidates: Seq<Candidate>,
    loaded: Seq<Loaded>,
    query: Query,
    first: Seq<Seq<Referral>>,
    full: Seq<Seq<Referral>>,
    i: int,
    file: Seq<char>,
)
    requires
        !query.first_only,
        scanned(candidates, loaded, query, full),
        scanned(candidates, loaded, files_only(query), first),
        0 <= i < candidates.len(),
    ensures
        any_in(first[i], file) <==> any_in(full[i], file),
        forall|j: int| 0 <= j < first[i].len() ==> (#[trigger] first[i][j]).file@
            == candidates[i].path(),
{
    lemma_candidate_agrees(candidates[i], loaded[i], query);
    let some = find_references::views(first[i]);
    let hits = find_references::views(full[i]);
    assert forall|j: int| 0 <= j < first[i].len() implies (#[trigger] first[i][j]).file@
        == candidates[i].path() by {
        assert(some[j] == first[i][j]@);
    }
    assert forall|j: int| 0 <= j < full[i].len() implies (#[trigger] full[i][j]).file@
        == candidates[i].path() by {
        assert(hits[j] == full[i][j]@);
    }
    if any_in(first[i], file) {
        assert(full[i].len() > 0);
        assert(full[i][0].file@ == file);
    }
    if any_in(full[i], file) {
        assert(first[i].len() > 0);
        assert(first[i][0].file@ == file);
    }
}

/// The listing of files agrees with the full listing: the files that a search for files
/// alone finds are the files of all referrers, in order and each once.
pub proof fn files_are_those_of_the_full_listing(
    candidates: Seq<Candidate>,
    loaded: Seq<Loaded>,
    query: Query,
    first: Seq<Seq<Referral>>,
    full: Seq<Seq<Referral>>,
)
    requires
        !query.first_only,
        scanned(candidates, loaded, query, full),
        scanned(candidates, loaded, files_only(query), first),
    ensures
        ({
            let files = find_references::distinct_files(find_references::flattened(first));
            &&& ascends(files)
            &&& forall|file: Seq<char>| #[trigger]
                files.contains(file) <==> any_in(find_references::flattened(full), file)
            &&& files == find_references::distinct_files(find_references::flattened(full))
        }),
{
    let a = find_references::flattened(first);
    let b = find_references::flattened(full);
    listed_files_are_the_referrers_files(a);
    listed_files_are_the_referrers_files(b);
    assert forall|file: Seq<char>| any_in(a, file) == any_in(b, file) by {
        lemma_in_some_batch(first, file);
        lemma_in_some_batch(full, file);
        if any_in(a, file) {
            let i = choose|i: int| 0 <= i < first.len() && any_in(#[trigger] first[i], file);
            lemma_batches_agree(candidates, loaded, query, first, full, i, file);
            assert(any_in(full[i], file));
        }
        if any_in(b, file) {
            let i = choose|i: int| 0 <= i < full.len() && any_in(#[trigger] full[i], file);
            lemma_batches_agree(candidates, loaded, query, first, full, i, file);
            assert(any_in(first[i], file));
        }
    }
    lemma_ascending_is_unique(
        find_references::distinct_files(a),
        find_references::distinct_files(b),
    );
}

/// With a limit, the files listed are the smallest `limit` of the files of all
/// referrers, where no two candidates are reported under one path.
pub proof fn limited_files_are_the_smallest_of_the_full_listing(
    candidates: Seq<Candidate>,
    loaded: Seq<Loaded>,
    query: Query,
    first: Seq<Seq<Referral>>,
    full: Seq<Seq<Referral>>,
    limit: usize,
)
    requires
        !query.first_only,
        scanned(candidates, loaded, query, full),
        scanned(candidates, loaded, files_only(query), first),
        ascends(Seq::new(candidates.len(), |i: int| candidates[i].path())),
    ensures
        references::limited(
            find_references::distinct_files(
                find_references::searched(first, Some(limit), true).found,
            ),
            Some(limit),
        ) == references::limited(
            find_references::distinct_files(find_references::flattened(full)),
            Some(limit),
        ),
{
    let paths = Seq::new(candidates.len(), |i: int| candidates[i].path());
    assert forall|i: int, j: int| 0 <= i < first.len() && 0 <= j < first[i].len() implies (
    #[trigger] first[i][j]).file@ == paths[i] by {
        lemma_batches_agree(candidates, loaded, query, first, full, i, Seq::empty());
    }
    find_references::limited_search_finds_the_first_files(first, paths, limit);
    files_are_those_of_the_full_listing(candidates, loaded, query, first, full);
}

} // verus!
