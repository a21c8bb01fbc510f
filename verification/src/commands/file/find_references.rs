//! Finding the objects that reference an object: which files can, which of their
//! objects do, and when enough have been found.

use vstd::prelude::*;

use super::references::{referrer_label, Referral, ReferralView};
use crate::classes::{known_class_name, ASSET_BUNDLE, MONO_BEHAVIOUR, PRELOAD_DATA};
use crate::model::{Object, Pptr, SceneFile};
use crate::sort::Sortable;
use crate::text::{contains, is_listed, same, to_lowercase};
use crate::{classes, model, sort, text};

verus! {

/// Case-insensitive substring allow/deny list over referrer file paths. Lets the
/// scan skip whole files before reading them.
#[derive(Debug, PartialEq, Eq)]
pub struct PathFilter {
    /// Lowercased; a path must contain one of these, if there are any.
    pub wanted: Vec<String>,
    /// Lowercased; a path must contain none of these.
    pub unwanted: Vec<String>,
}

/// Case-insensitive substring allow/deny list over referrer object types (class
/// name, or script class name for MonoBehaviours).
#[derive(Debug, PartialEq, Eq)]
pub struct TypeFilter {
    /// Lowercased; a type must contain one of these, if there are any.
    pub wanted: Vec<String>,
    /// Lowercased; a type must contain none of these.
    pub unwanted: Vec<String>,
}

/// The lowercase equivalents of texts.
pub open spec fn lowered(list: Seq<Seq<char>>) -> Seq<Seq<char>> {
    list.map_values(|s: Seq<char>| text::lowercase(s))
}

/// Whether `s` contains any of the parts.
pub open spec fn contains_any(s: Seq<char>, parts: Seq<Seq<char>>) -> bool {
    exists|i: int| 0 <= i < parts.len() && text::has_text(s, #[trigger] parts[i])
}

/// Whether `s` contains some wanted part (when there are any) and no unwanted one.
pub open spec fn passes(s: Seq<char>, wanted: Seq<Seq<char>>, unwanted: Seq<Seq<char>>) -> bool {
    (wanted.len() == 0 || contains_any(s, wanted)) && !contains_any(s, unwanted)
}

/// The lowercase equivalents of texts.
fn lower_all(list: &Vec<String>) -> (out: Vec<String>)
    ensures
        text::texts(out@) == lowered(text::texts(list@)),
{
    let mut out: Vec<String> = Vec::new();
    let mut i: usize = 0;
    while i < list.len()
        invariant
            i <= list@.len(),
            out@.len() == i,
            forall|k: int| 0 <= k < i ==> (#[trigger] out@[k])@ == text::lowercase(list@[k]@),
        decreases list@.len() - i,
    {
        out.push(to_lowercase(list[i].as_str()));
        i += 1;
    }
    assert(text::texts(out@) =~= lowered(text::texts(list@)));
    out
}

/// Whether `s` contains any of the parts.
fn has_any(s: &str, parts: &Vec<String>) -> (r: bool)
    ensures
        r == contains_any(s@, text::texts(parts@)),
{
    let ghost all = text::texts(parts@);
    let mut i: usize = 0;
    while i < parts.len()
        invariant
            i <= parts@.len(),
            all == text::texts(parts@),
            forall|k: int| 0 <= k < i ==> !text::has_text(s@, #[trigger] all[k]),
        decreases parts@.len() - i,
    {
        assert(all[i as int] == parts@[i as int]@);
        if contains(s, parts[i].as_str()) {
            return true;
        }
        i += 1;
    }
    false
}

/// Whether the lowercase equivalent of a text passes a filter.
pub fn accepts_lowered(wanted: &Vec<String>, unwanted: &Vec<String>, s: &str) -> (r: bool)
    ensures
        r == passes(s@, text::texts(wanted@), text::texts(unwanted@)),
{
    if wanted.len() != 0 && !has_any(s, wanted) {
        return false;
    }
    !has_any(s, unwanted)
}

impl PathFilter {
    /// A filter that keeps the paths that contain some of `include_paths` (when any
    /// are set) and none of `exclude_paths`.
    pub fn new(include_paths: &Vec<String>, exclude_paths: &Vec<String>) -> (r: PathFilter)
        ensures
            text::texts(r.wanted@) == lowered(text::texts(include_paths@)),
            text::texts(r.unwanted@) == lowered(text::texts(exclude_paths@)),
    {
        PathFilter { wanted: lower_all(include_paths), unwanted: lower_all(exclude_paths) }
    }

    /// Whether a referrer reported under `path` should be kept.
    pub open spec fn keeps(self, path: Seq<char>) -> bool {
        passes(text::lowercase(path), text::texts(self.wanted@), text::texts(self.unwanted@))
    }

    /// Whether a referrer reported under `path` should be kept: it must match some
    /// wanted part (when any are set) and none of the unwanted.
    pub fn accepts(&self, path: &str) -> (r: bool)
        ensures
            r == self.keeps(path@),
    {
        accepts_lowered(&self.wanted, &self.unwanted, to_lowercase(path).as_str())
    }
}

/// The type of an object, as filters see it: its script class name for a
/// MonoBehaviour whose script can be told, else its class name.
pub open spec fn type_text(file: SceneFile, class_id: i32, path_id: i64) -> Seq<char> {
    if class_id == MONO_BEHAVIOUR {
        match model::object_at(file, model::local(path_id)) {
            Ok(object) => match object.script {
                Ok(Some(script)) => script@,
                _ => "MonoBehaviour"@,
            },
            Err(_) => "MonoBehaviour"@,
        }
    } else {
        match classes::class_id_name(class_id) {
            Some(name) => name,
            None => "Unknown"@,
        }
    }
}

/// The type of an object, as filters see it.
fn type_label(file: &SceneFile, class_id: i32, path_id: i64) -> (r: String)
    ensures
        r@ == type_text(*file, class_id, path_id),
{
    if class_id == MONO_BEHAVIOUR {
        if let Ok(object) = file.object_at(Pptr::local(path_id)) {
            if let Ok(Some(script)) = &object.script {
                return script.clone();
            }
        }
        "MonoBehaviour".to_owned()
    } else {
        match known_class_name(class_id) {
            Some(name) => name,
            None => "Unknown".to_owned(),
        }
    }
}

impl TypeFilter {
    /// A filter that keeps the types that contain some of `include_types` (when any
    /// are set) and none of `exclude_types`.
    pub fn new(include_types: &Vec<String>, exclude_types: &Vec<String>) -> (r: TypeFilter)
        ensures
            text::texts(r.wanted@) == lowered(text::texts(include_types@)),
            text::texts(r.unwanted@) == lowered(text::texts(exclude_types@)),
    {
        TypeFilter { wanted: lower_all(include_types), unwanted: lower_all(exclude_types) }
    }

    /// Whether the filter keeps everything.
    pub open spec fn keeps_all(self) -> bool {
        self.wanted@.len() == 0 && self.unwanted@.len() == 0
    }

    /// Whether the filter keeps everything.
    pub fn is_empty(&self) -> (r: bool)
        ensures
            r == self.keeps_all(),
    {
        self.wanted.len() == 0 && self.unwanted.len() == 0
    }

    /// Whether an object should be kept.
    pub open spec fn keeps(self, file: SceneFile, class_id: i32, path_id: i64) -> bool {
        self.keeps_all() || passes(
            text::lowercase(type_text(file, class_id, path_id)),
            text::texts(self.wanted@),
            text::texts(self.unwanted@),
        )
    }

    /// Resolves the type label of an object and checks it against the filter. For
    /// MonoBehaviours this resolves the script class name (e.g. `PlayMakerFSM`);
    /// for other objects it uses the ClassId name (e.g. `GameObject`,
    /// `AnimationClip`).
    pub fn accepts(&self, file: &SceneFile, class_id: i32, path_id: i64) -> (r: bool)
        ensures
            r == self.keeps(*file, class_id, path_id),
    {
        if self.is_empty() {
            return true;
        }
        let label = to_lowercase(type_label(file, class_id, path_id).as_str());
        accepts_lowered(&self.wanted, &self.unwanted, label.as_str())
    }
}

/// What is searched for, and how.
#[derive(Debug, PartialEq, Eq)]
pub struct Query {
    /// The name by which other files refer to the target's file.
    pub target_file: String,
    pub target_path_id: i64,
    /// Whether preload tables count as referrers.
    pub include_preloads: bool,
    /// Whether one referrer per file is enough.
    pub first_only: bool,
    pub paths: PathFilter,
    pub types: TypeFilter,
}

/// A serialized file to search, under the name by which other files refer to it.
#[derive(Debug, PartialEq, Eq)]
pub struct ScanFile {
    pub name: String,
    pub externals: Vec<String>,
    pub scene: SceneFile,
}

/// The name of the file that a pointer leads into.
pub open spec fn referenced_file(file: ScanFile, pptr: Pptr) -> Option<Seq<char>> {
    if pptr.file_id == 0 {
        Some(file.name@)
    } else if 1 <= pptr.file_id <= file.externals@.len() {
        Some(file.externals@[pptr.file_id - 1]@)
    } else {
        None
    }
}

/// Whether a pointer leads to the target.
pub open spec fn points_at_target(file: ScanFile, query: Query, pptr: Pptr) -> bool {
    referenced_file(file, pptr) == Some(query.target_file@) && pptr.path_id
        == query.target_path_id
}

/// Whether any of the pointers leads to the target.
pub open spec fn any_points_at_target(file: ScanFile, query: Query, pptrs: Seq<Pptr>) -> bool {
    exists|i: int| 0 <= i < pptrs.len() && points_at_target(file, query, #[trigger] pptrs[i])
}

/// Whether an object is searched at all.
pub open spec fn is_searched(file: ScanFile, query: Query, object: Object) -> bool {
    &&& query.include_preloads || (object.class_id != ASSET_BUNDLE && object.class_id
        != PRELOAD_DATA)
    &&& query.types.keeps(file.scene, object.class_id, object.path_id)
}

/// How a referring object is reported.
pub open spec fn hit(
    file: ScanFile,
    query: Query,
    display: Seq<char>,
    object: Object,
) -> ReferralView {
    ReferralView {
        file: display,
        load: file.name@,
        path_id: object.path_id,
        label: if query.first_only {
            Seq::empty()
        } else {
            super::references::label_text(file.scene, object.path_id)
        },
    }
}

/// The objects that point at the target, one entry per referring object even if it
/// points at the target through several fields; no more than the first where one
/// is enough. Fails on the first searched object whose pointers cannot be read.
pub open spec fn hits_among(
    file: ScanFile,
    query: Query,
    display: Seq<char>,
    objects: Seq<Object>,
) -> Result<Seq<ReferralView>, Seq<char>>
    decreases objects.len(),
{
    if objects.len() == 0 {
        Ok(Seq::empty())
    } else {
        match hits_among(file, query, display, objects.drop_last()) {
            Err(e) => Err(e),
            Ok(before) => if query.first_only && before.len() > 0 {
                Ok(before)
            } else if !is_searched(file, query, objects.last()) {
                Ok(before)
            } else {
                match objects.last().pointers {
                    Err(e) => Err(e@),
                    Ok(pptrs) => if any_points_at_target(file, query, pptrs@) {
                        Ok(before.push(hit(file, query, display, objects.last())))
                    } else {
                        Ok(before)
                    },
                }
            },
        }
    }
}

/// What is found among the objects before the first failure: the hits of the longest
/// stretch from the front whose pointers can be read.
pub open spec fn hits_until(
    file: ScanFile,
    query: Query,
    display: Seq<char>,
    objects: Seq<Object>,
) -> Seq<ReferralView>
    decreases objects.len(),
{
    match hits_among(file, query, display, objects) {
        Ok(hits) => hits,
        Err(_) => if objects.len() == 0 {
            Seq::empty()
        } else {
            hits_until(file, query, display, objects.drop_last())
        },
    }
}

impl ScanFile {
    /// Whether a pointer leads to the target. A local one points within this file,
    /// so it can only hit the target object if this file *is* the target file.
    fn points_at(&self, query: &Query, pptr: Pptr) -> (r: bool)
        ensures
            r == points_at_target(*self, *query, pptr),
    {
        if pptr.path_id != query.target_path_id {
            return false;
        }
        if pptr.is_local() {
            return same(self.name.as_str(), query.target_file.as_str());
        }
        if pptr.file_id >= 1 {
            let index: usize = (pptr.file_id - 1) as usize;
            if index < self.externals.len() {
                return same(self.externals[index].as_str(), query.target_file.as_str());
            }
        }
        false
    }

    /// Whether any of the pointers leads to the target.
    fn any_points_at(&self, query: &Query, pptrs: &Vec<Pptr>) -> (r: bool)
        ensures
            r == any_points_at_target(*self, *query, pptrs@),
    {
        let mut i: usize = 0;
        while i < pptrs.len()
            invariant
                i <= pptrs@.len(),
                forall|k: int|
                    0 <= k < i ==> !points_at_target(*self, *query, #[trigger] pptrs@[k]),
            decreases pptrs@.len() - i,
        {
            if self.points_at(query, pptrs[i]) {
                return true;
            }
            i += 1;
        }
        false
    }
}

/// What referrals say.
pub open spec fn views(found: Seq<Referral>) -> Seq<ReferralView> {
    super::references::referral_views(found)
}

/// Adds the objects of `file` that point at the target, reported under `display`
/// with a human-readable label. On a failure, those before it have been added.
#[verifier::loop_isolation(false)]
pub fn scan_objects(
    file: &ScanFile,
    query: &Query,
    display: &str,
    acc: &mut Vec<Referral>,
) -> (r: Result<(), String>)
    ensures
        match hits_among(*file, *query, display@, file.scene.objects@) {
            Ok(hits) => r is Ok && views(final(acc)@) == views(old(acc)@) + hits,
            Err(reason) => {
                &&& r matches Err(e) && e@ == reason
                &&& views(final(acc)@) == views(old(acc)@) + hits_until(
                    *file,
                    *query,
                    display@,
                    file.scene.objects@,
                )
            },
        },
{
    let ghost start = views(acc@);
    let ghost all = file.scene.objects@;
    // `acc` accumulates across files; compare against its length on entry to detect
    // a hit from *this* file.
    let before: usize = acc.len();
    let mut i: usize = 0;
    assert(views(acc@) =~= start + Seq::<ReferralView>::empty());
    while i < file.scene.objects.len()
        invariant
            i <= all.len(),
            all == file.scene.objects@,
            acc@.len() >= before,
            start.len() == before,
            hits_among(*file, *query, display@, all.take(i as int)) matches Ok(hits)
                && views(acc@) == start + hits,
        decreases all.len() - i,
    {
        assert(all.take(i + 1).drop_last() =~= all.take(i as int));
        let ghost hits = hits_among(*file, *query, display@, all.take(i as int))->Ok_0;
        assert(views(acc@).len() == acc@.len());
        // For `--files-with-matches` one hit proves the file references the target;
        // skip its remaining objects.
        if query.first_only && acc.len() > before {
            proof {
                lemma_first_hit_stays(*file, *query, display@, all, i as int);
            }
            return Ok(());
        }
        let object = &file.scene.objects[i];
        // Preload tables (an AssetBundle's m_PreloadTable / a PreloadData's m_Assets)
        // list the target as a load-time dependency, not a true user — skip them by
        // default.
        let preload: bool = object.class_id == ASSET_BUNDLE || object.class_id == PRELOAD_DATA;
        if (query.include_preloads || !preload) && query.types.accepts(
            &file.scene,
            object.class_id,
            object.path_id,
        ) {
            match &object.pointers {
                Ok(pptrs) => {
                    if file.any_points_at(query, pptrs) {
                        let label = if query.first_only {
                            let blank = String::new();
                            assert(blank@ =~= Seq::<char>::empty());
                            blank
                        } else {
                            referrer_label(&file.scene, object.path_id)
                        };
                        let ghost sofar = acc@;
                        let found = Referral {
                            file: display.to_owned(),
                            load: file.name.clone(),
                            path_id: object.path_id,
                            label,
                        };
                        assert(found@ == hit(*file, *query, display@, *object));
                        acc.push(found);
                        assert(views(acc@) =~= views(sofar).push(found@));
                        assert(views(acc@) =~= start + hits.push(found@));
                    }
                },
                Err(e) => {
                    proof {
                        lemma_hits_error(*file, *query, display@, all, i + 1);
                        assert(hits_until(*file, *query, display@, all.take(i as int)) == hits);
                    }
                    return Err(e.clone());
                },
            }
        }
        i += 1;
    }
    assert(all.take(i as int) =~= all);
    Ok(())
}

proof fn lemma_hits_error(
    file: ScanFile,
    query: Query,
    display: Seq<char>,
    objects: Seq<Object>,
    n: int,
)
    requires
        0 <= n <= objects.len(),
        hits_among(file, query, display, objects.take(n)) is Err,
    ensures
        hits_among(file, query, display, objects) == hits_among(
            file,
            query,
            display,
            objects.take(n),
        ),
        hits_until(file, query, display, objects) == hits_until(
            file,
            query,
            display,
            objects.take(n),
        ),
    decreases objects.len() - n,
{
    if n == objects.len() {
        assert(objects.take(n) =~= objects);
    } else {
        assert(objects.take(n + 1).drop_last() =~= objects.take(n));
        lemma_hits_error(file, query, display, objects, n + 1);
    }
}

proof fn lemma_first_hit_stays(
    file: ScanFile,
    query: Query,
    display: Seq<char>,
    objects: Seq<Object>,
    n: int,
)
    requires
        0 <= n <= objects.len(),
        query.first_only,
        hits_among(file, query, display, objects.take(n)) matches Ok(hits) && hits.len() > 0,
    ensures
        hits_among(file, query, display, objects) == hits_among(
            file,
            query,
            display,
            objects.take(n),
        ),
    decreases objects.len() - n,
{
    if n == objects.len() {
        assert(objects.take(n) =~= objects);
    } else {
        assert(objects.take(n + 1).drop_last() =~= objects.take(n));
        lemma_first_hit_stays(file, query, display, objects, n + 1);
    }
}

/// A file that might reference the target: an addressables bundle or a plain
/// serialized file. Reported by its readable path.
#[derive(Debug, PartialEq, Eq)]
pub enum Candidate {
    Bundle(String),
    Plain(String),
}

impl Candidate {
    /// The readable path a referrer in this file is reported under.
    pub open spec fn path(self) -> Seq<char> {
        match self {
            Candidate::Bundle(path) => path@,
            Candidate::Plain(path) => path@,
        }
    }

    /// The readable path a referrer in this file is reported under — also the
    /// primary sort key, so it matches the final referrer ordering.
    pub fn display(&self) -> (r: String)
        ensures
            r@ == self.path(),
    {
        match self {
            Candidate::Bundle(path) => path.clone(),
            Candidate::Plain(path) => path.clone(),
        }
    }
}

impl Sortable for Candidate {
    open spec fn below(self, other: Candidate) -> bool {
        text::sorts_before(self.path(), other.path())
    }

    proof fn below_is_asymmetric(a: Candidate, b: Candidate) {
        sort::lemma_text_order(a.path(), b.path());
    }

    proof fn not_below_is_transitive(a: Candidate, b: Candidate, c: Candidate) {
        sort::lemma_text_order(a.path(), b.path());
        sort::lemma_text_order(b.path(), c.path());
        if a.below(c) && text::sorts_before(b.path(), a.path()) {
            sort::lemma_text_order_transitive(b.path(), a.path(), c.path());
        }
    }

    fn is_below(&self, other: &Candidate) -> (r: bool) {
        text::less(self.display().as_str(), other.display().as_str())
    }
}

/// Whether the `i`-th candidate is the `i`-th of the bundles, or of the plain files
/// after them.
pub open spec fn is_candidate(
    candidate: Candidate,
    bundles: Seq<String>,
    plain: Seq<String>,
    i: int,
) -> bool {
    if i < bundles.len() {
        candidate == Candidate::Bundle(bundles[i])
    } else {
        candidate == Candidate::Plain(plain[i - bundles.len()])
    }
}

/// Every candidate file in the game: the addressables bundles plus the plain
/// serialized files (`levelN`, `*.assets`, `globalgamemanagers`) — scene/level
/// files live in the latter, so omitting them misses most referrers.
#[verifier::loop_isolation(false)]
pub fn candidates(bundles: &Vec<String>, plain: &Vec<String>) -> (out: Vec<Candidate>)
    ensures
        out@.len() == bundles@.len() + plain@.len(),
        forall|i: int|
            0 <= i < out@.len() ==> is_candidate(#[trigger] out@[i], bundles@, plain@, i),
{
    let mut out: Vec<Candidate> = Vec::new();
    let mut i: usize = 0;
    while i < bundles.len()
        invariant
            i <= bundles@.len(),
            out@.len() == i,
            forall|k: int| 0 <= k < i ==> is_candidate(#[trigger] out@[k], bundles@, plain@, k),
        decreases bundles@.len() - i,
    {
        out.push(Candidate::Bundle(bundles[i].clone()));
        i += 1;
    }
    let mut j: usize = 0;
    while j < plain.len()
        invariant
            j <= plain@.len(),
            out@.len() == bundles@.len() + j,
            forall|k: int|
                0 <= k < out@.len() ==> is_candidate(#[trigger] out@[k], bundles@, plain@, k),
        decreases plain@.len() - j,
    {
        out.push(Candidate::Plain(plain[j].clone()));
        j += 1;
    }
    out
}

/// The order in which candidates are scanned: with a limit, by the paths that their
/// referrers are reported under, so that the first `limit` hits are the globally
/// first ones and the scan can stop there.
pub fn search_order(candidates: Vec<Candidate>, limit: Option<usize>) -> (out: Vec<Candidate>)
    ensures
        out@ == (if limit is Some {
            sort::sorted(candidates@)
        } else {
            candidates@
        }),
{
    match limit {
        Some(_) => sort::sort(candidates),
        None => candidates,
    }
}

/// What was read of a candidate.
#[derive(Debug, PartialEq, Eq)]
pub enum Loaded {
    /// It could not be opened.
    Unreadable(String),
    /// A bundle: whether it has a main serialized file, and the serialized files in
    /// it, each as far as it could be read.
    Bundle { has_main: bool, files: Vec<Result<ScanFile, String>> },
    /// A plain serialized file.
    Plain(ScanFile),
}

/// Whether a file can reference the target: it is the target's file, or lists it
/// among its externals.
pub open spec fn can_reference(name: Seq<char>, externals: Seq<Seq<char>>, query: Query) -> bool {
    name == query.target_file@ || externals.contains(query.target_file@)
}

impl Query {
    /// Whether a file of the given name and externals can reference the target: only
    /// one that lists the target's file in its externals, or is that file, for local
    /// references. No other needs its objects read.
    pub fn concerns(&self, name: &str, externals: &Vec<String>) -> (r: bool)
        ensures
            r == can_reference(name@, text::texts(externals@), *self),
    {
        same(name, self.target_file.as_str()) || is_listed(externals, self.target_file.as_str())
    }
}

/// The referrers in one serialized file.
pub open spec fn file_hits(file: ScanFile, query: Query, display: Seq<char>) -> Result<
    Seq<ReferralView>,
    Seq<char>,
> {
    if can_reference(file.name@, text::texts(file.externals@), query) {
        hits_among(file, query, display, file.scene.objects@)
    } else {
        Ok(Seq::empty())
    }
}

/// The referrers in one serialized file before the first failure.
pub open spec fn file_hits_until(file: ScanFile, query: Query, display: Seq<char>) -> Seq<
    ReferralView,
> {
    if can_reference(file.name@, text::texts(file.externals@), query) {
        hits_until(file, query, display, file.scene.objects@)
    } else {
        Seq::empty()
    }
}

/// The referrers in the files of a bundle.
pub open spec fn bundle_hits(
    files: Seq<Result<ScanFile, String>>,
    query: Query,
    display: Seq<char>,
) -> Result<Seq<ReferralView>, Seq<char>>
    decreases files.len(),
{
    if files.len() == 0 {
        Ok(Seq::empty())
    } else {
        match bundle_hits(files.drop_last(), query, display) {
            Err(e) => Err(e),
            Ok(before) => match files.last() {
                Err(e) => Err(e@),
                Ok(file) => match file_hits(file, query, display) {
                    Err(e) => Err(e),
                    Ok(hits) => Ok(before + hits),
                },
            },
        }
    }
}

/// The referrers in the files of a bundle before the first failure, whether a file
/// cannot be read or one of its objects.
pub open spec fn bundle_hits_until(
    files: Seq<Result<ScanFile, String>>,
    query: Query,
    display: Seq<char>,
) -> Seq<ReferralView>
    decreases files.len(),
{
    if files.len() == 0 {
        Seq::empty()
    } else {
        match bundle_hits(files.drop_last(), query, display) {
            Err(_) => bundle_hits_until(files.drop_last(), query, display),
            Ok(before) => match files.last() {
                Err(_) => before,
                Ok(file) => before + file_hits_until(file, query, display),
            },
        }
    }
}

/// The referrers in a candidate.
pub open spec fn candidate_hits(candidate: Candidate, loaded: Loaded, query: Query) -> Result<
    Seq<ReferralView>,
    Seq<char>,
> {
    if !query.paths.keeps(candidate.path()) {
        Ok(Seq::empty())
    } else {
        match loaded {
            Loaded::Unreadable(e) => Err(e@),
            Loaded::Bundle { has_main, files } => if has_main {
                bundle_hits(files@, query, candidate.path())
            } else {
                Err("bundle has no main serialized file"@)
            },
            Loaded::Plain(file) => file_hits(file, query, candidate.path()),
        }
    }
}

/// The referrers in a candidate before the first failure.
pub open spec fn candidate_hits_until(
    candidate: Candidate,
    loaded: Loaded,
    query: Query,
) -> Seq<ReferralView> {
    if !query.paths.keeps(candidate.path()) {
        Seq::empty()
    } else {
        match loaded {
            Loaded::Unreadable(_) => Seq::empty(),
            Loaded::Bundle { has_main, files } => if has_main {
                bundle_hits_until(files@, query, candidate.path())
            } else {
                Seq::empty()
            },
            Loaded::Plain(file) => file_hits_until(file, query, candidate.path()),
        }
    }
}

/// Adds the referrers in one serialized file. One that cannot reference the target is
/// skipped without scanning its objects.
fn scan_file(file: &ScanFile, query: &Query, display: &str, acc: &mut Vec<Referral>) -> (r: Result<
    (),
    String,
>)
    ensures
        match file_hits(*file, *query, display@) {
            Ok(hits) => r is Ok && views(final(acc)@) == views(old(acc)@) + hits,
            Err(reason) => {
                &&& r matches Err(e) && e@ == reason
                &&& views(final(acc)@) == views(old(acc)@) + file_hits_until(
                    *file,
                    *query,
                    display@,
                )
            },
        },
{
    if !query.concerns(file.name.as_str(), &file.externals) {
        assert(views(acc@) =~= views(acc@) + Seq::<ReferralView>::empty());
        return Ok(());
    }
    scan_objects(file, query, display, acc)
}

/// Scans one candidate file for objects referencing the target, honouring the path
/// filter (skips before reading) and the externals pre-filter. On a failure, the
/// referrers before it have been added.
#[verifier::loop_isolation(false)]
pub fn scan_candidate(
    candidate: &Candidate,
    loaded: &Loaded,
    query: &Query,
    acc: &mut Vec<Referral>,
) -> (r: Result<(), String>)
    ensures
        match candidate_hits(*candidate, *loaded, *query) {
            Ok(hits) => r is Ok && views(final(acc)@) == views(old(acc)@) + hits,
            Err(reason) => {
                &&& r matches Err(e) && e@ == reason
                &&& views(final(acc)@) == views(old(acc)@) + candidate_hits_until(
                    *candidate,
                    *loaded,
                    *query,
                )
            },
        },
{
    let ghost start = views(acc@);
    let display = candidate.display();
    // Filtered-out files can't contribute a referrer — skip before reading.
    if !query.paths.accepts(display.as_str()) {
        assert(views(acc@) =~= start + Seq::<ReferralView>::empty());
        return Ok(());
    }
    assert(views(acc@) =~= start + Seq::<ReferralView>::empty());
    match loaded {
        Loaded::Unreadable(e) => Err(e.clone()),
        Loaded::Bundle { has_main, files } => {
            if !*has_main {
                return Err("bundle has no main serialized file".to_owned());
            }
            let mut i: usize = 0;
            while i < files.len()
                invariant
                    i <= files@.len(),
                    bundle_hits(files@.take(i as int), *query, display@) matches Ok(hits)
                        && views(acc@) == start + hits,
                decreases files@.len() - i,
            {
                assert(files@.take(i + 1).drop_last() =~= files@.take(i as int));
                let ghost before = bundle_hits(files@.take(i as int), *query, display@)->Ok_0;
                let outcome: Result<(), String> = match &files[i] {
                    Ok(file) => scan_file(file, query, display.as_str(), acc),
                    Err(e) => Err(e.clone()),
                };
                match outcome {
                    Ok(()) => {
                        proof {
                            let hits = file_hits(files@[i as int]->Ok_0, *query, display@)->Ok_0;
                            assert(start + before + hits =~= start + (before + hits));
                        }
                    },
                    Err(e) => {
                        proof {
                            lemma_bundle_error(files@, *query, display@, i + 1);
                            if let Ok(file) = files@[i as int] {
                                let hits = file_hits_until(file, *query, display@);
                                assert(start + before + hits =~= start + (before + hits));
                            }
                        }
                        return Err(e);
                    },
                }
                i += 1;
            }
            assert(files@.take(i as int) =~= files@);
            Ok(())
        },
        Loaded::Plain(file) => scan_file(file, query, display.as_str(), acc),
    }
}

proof fn lemma_bundle_error(
    files: Seq<Result<ScanFile, String>>,
    query: Query,
    display: Seq<char>,
    n: int,
)
    requires
        0 <= n <= files.len(),
        bundle_hits(files.take(n), query, display) is Err,
    ensures
        bundle_hits(files, query, display) == bundle_hits(files.take(n), query, display),
        bundle_hits_until(files, query, display) == bundle_hits_until(
            files.take(n),
            query,
            display,
        ),
    decreases files.len() - n,
{
    if n == files.len() {
        assert(files.take(n) =~= files);
    } else {
        assert(files.take(n + 1).drop_last() =~= files.take(n));
        lemma_bundle_error(files, query, display, n + 1);
    }
}

/// A search over candidates, one after the other.
///
/// With a limit, candidates are to be taken **in sorted order**, so that the search
/// can stop as soon as enough referrers are found — the early exit means the true
/// total is no longer known (hence the `truncated` flag).
#[derive(Debug, PartialEq, Eq)]
pub struct Search {
    pub limit: Option<usize>,
    /// Whether the limit counts files rather than referrers. In
    /// `--files-with-matches` mode each file yields at most one shown entry, so the
    /// limit counts distinct files that produced a hit.
    pub first_only: bool,
    pub found: Vec<Referral>,
    pub files_hit: usize,
    /// Whether the search has stopped at the limit.
    pub truncated: bool,
}

/// What a search has come to.
#[verifier::ext_equal]
pub struct SearchView<A> {
    pub found: Seq<A>,
    pub files_hit: nat,
    pub truncated: bool,
}

/// Whether a limit is reached.
pub open spec fn reached(limit: Option<usize>, count: nat) -> bool {
    match limit {
        Some(limit) => count >= limit,
        None => false,
    }
}

/// What a search comes to with the hits of one more candidate; nothing more once the
/// limit is reached.
pub open spec fn search_step<A>(
    before: SearchView<A>,
    hits: Seq<A>,
    limit: Option<usize>,
    first_only: bool,
) -> SearchView<A> {
    if before.truncated {
        before
    } else {
        let found = before.found + hits;
        let files_hit = before.files_hit + if hits.len() > 0 {
            1nat
        } else {
            0nat
        };
        SearchView {
            found,
            files_hit,
            truncated: reached(
                limit,
                if first_only {
                    files_hit
                } else {
                    found.len()
                },
            ),
        }
    }
}

/// What a search comes to that is given the hits of one candidate after the other,
/// until the limit is reached.
pub open spec fn searched<A>(
    batches: Seq<Seq<A>>,
    limit: Option<usize>,
    first_only: bool,
) -> SearchView<A>
    decreases batches.len(),
{
    if batches.len() == 0 {
        SearchView { found: Seq::empty(), files_hit: 0, truncated: limit == Some(0usize) }
    } else {
        search_step(
            searched(batches.drop_last(), limit, first_only),
            batches.last(),
            limit,
            first_only,
        )
    }
}

impl View for Search {
    type V = SearchView<Referral>;

    open spec fn view(&self) -> SearchView<Referral> {
        SearchView {
            found: self.found@,
            files_hit: self.files_hit as nat,
            truncated: self.truncated,
        }
    }
}

impl Search {
    /// No more files have hits than there are hits.
    pub open spec fn wf(self) -> bool {
        self.files_hit <= self.found@.len()
    }

    /// A search that has not begun. A limit of none is reached at once.
    pub fn begin(limit: Option<usize>, first_only: bool) -> (r: Search)
        ensures
            r.wf(),
            r.limit == limit,
            r.first_only == first_only,
            r@ == searched(Seq::<Seq<Referral>>::empty(), limit, first_only),
    {
        let truncated: bool = match limit {
            Some(limit) => limit == 0,
            None => false,
        };
        Search { limit, first_only, found: Vec::new(), files_hit: 0, truncated }
    }

    /// Whether the next candidate is to be scanned.
    pub fn wants_more(&self) -> (r: bool)
        ensures
            r == !self@.truncated,
    {
        !self.truncated
    }

    /// Takes the hits of the next candidate.
    pub fn take(&mut self, hits: Vec<Referral>)
        requires
            old(self).wf(),
        ensures
            final(self).wf(),
            final(self).limit == old(self).limit,
            final(self).first_only == old(self).first_only,
            final(self)@ == search_step(
                old(self)@,
                hits@,
                old(self).limit,
                old(self).first_only,
            ),
    {
        if self.truncated {
            return;
        }
        let mut hits = hits;
        let any: bool = hits.len() > 0;
        self.found.append(&mut hits);
        let total: usize = self.found.len();
        if any {
            self.files_hit = self.files_hit + 1;
        }
        if let Some(limit) = self.limit {
            self.truncated = if self.first_only {
                self.files_hit >= limit
            } else {
                total >= limit
            };
        }
    }
}

/// All items of all batches.
pub open spec fn flattened<A>(batches: Seq<Seq<A>>) -> Seq<A>
    decreases batches.len(),
{
    if batches.len() == 0 {
        Seq::empty()
    } else {
        flattened(batches.drop_last()) + batches.last()
    }
}

/// Without a limit a search comes to everything.
pub proof fn unlimited_search_finds_all<A>(batches: Seq<Seq<A>>, first_only: bool)
    ensures
        searched(batches, None, first_only).found == flattened(batches),
        !searched(batches, None, first_only).truncated,
    decreases batches.len(),
{
    if batches.len() > 0 {
        unlimited_search_finds_all(batches.drop_last(), first_only);
    }
}

/// How many batches are not empty.
pub open spec fn nonempty<A>(batches: Seq<Seq<A>>) -> nat
    decreases batches.len(),
{
    if batches.len() == 0 {
        0
    } else {
        nonempty(batches.drop_last()) + if batches.last().len() > 0 {
            1nat
        } else {
            0nat
        }
    }
}

/// What a search with a limit comes to is what the candidates up to some point
/// hold; if it did not stop early, that is all of them.
pub proof fn lemma_search_takes_some<A>(
    batches: Seq<Seq<A>>,
    limit: Option<usize>,
    first_only: bool,
) -> (k: int)
    ensures
        0 <= k <= batches.len(),
        searched(batches, limit, first_only).found == flattened(batches.take(k)),
        searched(batches, limit, first_only) == searched(batches.take(k), limit, first_only),
        searched(batches, limit, first_only).files_hit == nonempty(batches.take(k)),
        !searched(batches, limit, first_only).truncated ==> k == batches.len(),
    decreases batches.len(),
{
    if batches.len() == 0 {
        assert(batches.take(0) =~= batches);
        0
    } else {
        let rest = batches.drop_last();
        let k = lemma_search_takes_some(rest, limit, first_only);
        if searched(rest, limit, first_only).truncated {
            assert(rest.take(k) =~= batches.take(k));
            k
        } else {
            assert(rest.take(k) =~= rest);
            assert(batches.take(batches.len() as int) =~= batches);
            batches.len() as int
        }
    }
}

/// Whether the batches are those of candidates in ascending order: all of a batch
/// is in one file, and the files ascend.
pub open spec fn ascending(batches: Seq<Seq<Referral>>, files: Seq<Seq<char>>) -> bool {
    &&& batches.len() == files.len()
    &&& forall|i: int, j: int|
        0 <= i < batches.len() && 0 <= j < batches[i].len() ==> (#[trigger] batches[i][j]).file@
            == files[i]
    &&& forall|i: int, j: int|
        0 <= i < j < files.len() ==> text::sorts_before(#[trigger] files[i], #[trigger] files[j])
}

/// Every item of the batches is in one of the first `n` files.
proof fn lemma_flattened_files(batches: Seq<Seq<Referral>>, files: Seq<Seq<char>>, n: int)
    requires
        ascending(batches, files),
        0 <= n <= batches.len(),
    ensures
        forall|x: int|
            0 <= x < flattened(batches.take(n)).len() ==> files.take(n).contains(
                (#[trigger] flattened(batches.take(n))[x]).file@,
            ),
    decreases n,
{
    if n > 0 {
        lemma_flattened_files(batches, files, n - 1);
        let all = flattened(batches.take(n));
        let before = flattened(batches.take(n - 1));
        assert(batches.take(n).drop_last() =~= batches.take(n - 1));
        assert forall|x: int| 0 <= x < all.len() implies files.take(n).contains(
            (#[trigger] all[x]).file@,
        ) by {
            if x < before.len() {
                assert(all[x] == before[x]);
                let short = files.take(n - 1);
                let i = choose|i: int| 0 <= i < short.len() && short[i] == before[x].file@;
                assert(files.take(n)[i] == all[x].file@);
            } else {
                let j = x - before.len();
                assert(all[x] == batches[n - 1][j]);
                assert(files.take(n)[n - 1] == all[x].file@);
            }
        }
    }
}

/// The items behind the first `k` batches are in later files.
proof fn lemma_later_files(batches: Seq<Seq<Referral>>, files: Seq<Seq<char>>, k: int, n: int)
    requires
        ascending(batches, files),
        0 <= k <= n <= batches.len(),
    ensures
        flattened(batches.take(n)) == flattened(batches.take(k)) + flattened(
            batches.subrange(k, n),
        ),
        forall|x: int|
            0 <= x < flattened(batches.subrange(k, n)).len() ==> files.subrange(k, n).contains(
                (#[trigger] flattened(batches.subrange(k, n))[x]).file@,
            ),
    decreases n - k,
{
    if k == n {
        assert(batches.subrange(k, n) =~= Seq::empty());
        assert(flattened(batches.take(n)) =~= flattened(batches.take(k)) + flattened(
            batches.subrange(k, n),
        ));
    } else {
        lemma_later_files(batches, files, k, n - 1);
        let all = flattened(batches.subrange(k, n));
        let before = flattened(batches.subrange(k, n - 1));
        assert(batches.take(n).drop_last() =~= batches.take(n - 1));
        assert(batches.subrange(k, n).drop_last() =~= batches.subrange(k, n - 1));
        assert(flattened(batches.take(n)) =~= flattened(batches.take(k)) + all);
        assert forall|x: int| 0 <= x < all.len() implies files.subrange(k, n).contains(
            (#[trigger] all[x]).file@,
        ) by {
            if x < before.len() {
                assert(all[x] == before[x]);
                let short = files.subrange(k, n - 1);
                let i = choose|i: int| 0 <= i < short.len() && short[i] == before[x].file@;
                assert(files.subrange(k, n)[i] == all[x].file@);
            } else {
                let j = x - before.len();
                assert(all[x] == batches[n - 1][j]);
                assert(files.subrange(k, n)[n - 1 - k] == all[x].file@);
            }
        }
    }
}

/// What is in the first `k` files belongs before what is in the later ones.
proof fn lemma_parts_ordered(batches: Seq<Seq<Referral>>, files: Seq<Seq<char>>, k: int)
    requires
        ascending(batches, files),
        0 <= k <= batches.len(),
    ensures
        ({
            let n = batches.len() as int;
            let a = flattened(batches.take(k));
            let b = flattened(batches.subrange(k, n));
            &&& flattened(batches) == a + b
            &&& forall|i: int, j: int|
                0 <= i < a.len() && 0 <= j < b.len() ==> text::sorts_before(
                    (#[trigger] a[i]).file@,
                    (#[trigger] b[j]).file@,
                )
        }),
{
    let n = batches.len() as int;
    let a = flattened(batches.take(k));
    let b = flattened(batches.subrange(k, n));
    lemma_flattened_files(batches, files, k);
    lemma_later_files(batches, files, k, n);
    assert(batches.take(n) =~= batches);
    assert forall|i: int, j: int| 0 <= i < a.len() && 0 <= j < b.len() implies text::sorts_before(
        (#[trigger] a[i]).file@,
        (#[trigger] b[j]).file@,
    ) by {
        let early = files.take(k);
        let late = files.subrange(k, n);
        let x = choose|x: int| 0 <= x < early.len() && early[x] == a[i].file@;
        let y = choose|y: int| 0 <= y < late.len() && late[y] == b[j].file@;
        assert(text::sorts_before(files[x], files[k + y]));
    }
}

/// A search with a limit over candidates in ascending order finds exactly the
/// globally first `limit` referrers: the same as a search over all candidates
/// whose sorted result is cut off.
pub proof fn limited_search_finds_the_first(
    batches: Seq<Seq<Referral>>,
    files: Seq<Seq<char>>,
    limit: usize,
)
    requires
        ascending(batches, files),
    ensures
        super::references::limited(
            sort::sorted(searched(batches, Some(limit), false).found),
            Some(limit),
        ) == super::references::limited(sort::sorted(flattened(batches)), Some(limit)),
{
    let outcome = searched(batches, Some(limit), false);
    let k = lemma_search_takes_some(batches, Some(limit), false);
    let a = flattened(batches.take(k));
    let b = flattened(batches.subrange(k, batches.len() as int));
    lemma_parts_ordered(batches, files, k);
    assert forall|i: int, j: int| 0 <= i < a.len() && 0 <= j < b.len() implies (
    #[trigger] a[i]).below(#[trigger] b[j]) by {
        sort::lemma_text_order(a[i].file@, b[j].file@);
    }
    sort::sorting_keeps_parts(a, b);
    sort::sorting_keeps_items(a);
    sort::sorting_keeps_items(b);
    if outcome.truncated {
        lemma_truncated_has_enough(batches, limit, false);
        assert((sort::sorted(a) + sort::sorted(b)).take(limit as int) =~= sort::sorted(a).take(
            limit as int,
        ));
        assert(sort::sorted(a).take(sort::sorted(a).len() as int) =~= sort::sorted(a));
        assert((sort::sorted(a) + sort::sorted(b)).take(
            (sort::sorted(a) + sort::sorted(b)).len() as int,
        ) =~= sort::sorted(a) + sort::sorted(b));
    } else {
        assert(batches.take(k) =~= batches);
    }
}

/// A search that stopped at its limit has found that many.
pub proof fn lemma_truncated_has_enough<A>(batches: Seq<Seq<A>>, limit: usize, first_only: bool)
    ensures
        searched(batches, Some(limit), first_only).truncated ==> {
            if first_only {
                searched(batches, Some(limit), first_only).files_hit >= limit
            } else {
                searched(batches, Some(limit), first_only).found.len() >= limit
            }
        },
    decreases batches.len(),
{
    if batches.len() > 0 {
        lemma_truncated_has_enough(batches.drop_last(), limit, first_only);
    }
}

/// The distinct files of referrals, in order.
pub open spec fn distinct_files(found: Seq<Referral>) -> Seq<Seq<char>> {
    super::references::deduped(text::texts(sort::sorted(super::references::files_of(found))))
}

proof fn lemma_deduped_parts(a: Seq<Seq<char>>, b: Seq<Seq<char>>)
    requires
        a.len() > 0 && b.len() > 0 ==> a.last() != b[0],
    ensures
        super::references::deduped(a + b) == super::references::deduped(a)
            + super::references::deduped(b),
    decreases b.len(),
{
    if b.len() == 0 {
        assert(a + b =~= a);
        assert(super::references::deduped(a) + super::references::deduped(b)
            =~= super::references::deduped(a));
    } else {
        lemma_deduped_parts(a, b.drop_last());
        assert((a + b).drop_last() =~= a + b.drop_last());
        assert((a + b).last() == b.last());
        if b.len() == 1 {
            assert(a.len() > 0 ==> (a + b)[(a + b).len() - 2] == a.last());
        } else {
            assert((a + b)[(a + b).len() - 2] == b[b.len() - 2]);
        }
        assert(super::references::deduped(a + b) =~= super::references::deduped(a)
            + super::references::deduped(b));
    }
}

proof fn lemma_deduped_constant(s: Seq<Seq<char>>, d: Seq<char>)
    requires
        forall|i: int| 0 <= i < s.len() ==> #[trigger] s[i] == d,
    ensures
        super::references::deduped(s).len() == (if s.len() == 0 {
            0nat
        } else {
            1nat
        }),
    decreases s.len(),
{
    if s.len() > 0 {
        assert forall|i: int| 0 <= i < s.drop_last().len() implies #[trigger] s.drop_last()[i]
            == d by {
            assert(s.drop_last()[i] == s[i]);
        }
        lemma_deduped_constant(s.drop_last(), d);
        assert(s.last() == d);
        if s.len() > 1 {
            assert(s[s.len() - 2] == d);
        }
    }
}

/// The distinct files of two parts, where those of the first belong before those
/// of the second.
proof fn lemma_distinct_parts(a: Seq<Referral>, b: Seq<Referral>)
    requires
        forall|i: int, j: int|
            0 <= i < a.len() && 0 <= j < b.len() ==> text::sorts_before(
                (#[trigger] a[i]).file@,
                (#[trigger] b[j]).file@,
            ),
    ensures
        distinct_files(a + b) == distinct_files(a) + distinct_files(b),
{
    let x = super::references::files_of(a);
    let y = super::references::files_of(b);
    assert(super::references::files_of(a + b) =~= x + y);
    assert forall|i: int, j: int| 0 <= i < x.len() && 0 <= j < y.len() implies (
    #[trigger] x[i]).below(#[trigger] y[j]) by {
        assert(text::sorts_before(a[i].file@, b[j].file@));
    }
    sort::sorting_keeps_parts(x, y);
    let p = sort::sorted(x);
    let q = sort::sorted(y);
    assert(text::texts(p + q) =~= text::texts(p) + text::texts(q));
    if p.len() > 0 && q.len() > 0 {
        sort::lemma_sorted_within(x);
        sort::lemma_sorted_within(y);
        let last = p[p.len() - 1];
        assert(x.contains(last));
        assert(y.contains(q[0]));
        let i = choose|i: int| 0 <= i < x.len() && x[i] == last;
        let j = choose|j: int| 0 <= j < y.len() && y[j] == q[0];
        assert(x[i].below(y[j]));
        sort::lemma_text_order(last@, q[0]@);
        assert(text::texts(p).last() == last@);
        assert(text::texts(q)[0] == q[0]@);
    }
    lemma_deduped_parts(text::texts(p), text::texts(q));
}

/// As many distinct files as there are batches with hits.
proof fn lemma_distinct_count(batches: Seq<Seq<Referral>>, files: Seq<Seq<char>>, n: int)
    requires
        ascending(batches, files),
        0 <= n <= batches.len(),
    ensures
        distinct_files(flattened(batches.take(n))).len() == nonempty(batches.take(n)),
    decreases n,
{
    if n == 0 {
        assert(batches.take(0) =~= Seq::empty());
        let none = flattened(batches.take(0));
        assert(super::references::files_of(none) =~= Seq::empty());
        assert(text::texts(Seq::<String>::empty()) =~= Seq::empty());
    } else {
        lemma_distinct_count(batches, files, n - 1);
        let before = flattened(batches.take(n - 1));
        let batch = batches[n - 1];
        assert(batches.take(n).drop_last() =~= batches.take(n - 1));
        lemma_flattened_files(batches, files, n - 1);
        let early = files.take(n - 1);
        assert forall|i: int, j: int|
            0 <= i < before.len() && 0 <= j < batch.len() implies text::sorts_before(
            (#[trigger] before[i]).file@,
            (#[trigger] batch[j]).file@,
        ) by {
            let x = choose|x: int| 0 <= x < early.len() && early[x] == before[i].file@;
            assert(batches[n - 1][j].file@ == files[n - 1]);
            assert(text::sorts_before(files[x], files[n - 1]));
        }
        lemma_distinct_parts(before, batch);
        let names = super::references::files_of(batch);
        let shown = text::texts(sort::sorted(names));
        sort::sorting_keeps_items(names);
        sort::lemma_sorted_within(names);
        assert forall|i: int| 0 <= i < shown.len() implies #[trigger] shown[i] == files[n - 1] by {
            let s = sort::sorted(names)[i];
            assert(names.contains(s));
            let j = choose|j: int| 0 <= j < names.len() && names[j] == s;
            assert(batches[n - 1][j].file@ == files[n - 1]);
        }
        lemma_deduped_constant(shown, files[n - 1]);
    }
}

/// With one hit per file being enough, a search with a limit over candidates in
/// ascending order finds exactly the globally first `limit` files.
pub proof fn limited_search_finds_the_first_files(
    batches: Seq<Seq<Referral>>,
    files: Seq<Seq<char>>,
    limit: usize,
)
    requires
        ascending(batches, files),
    ensures
        super::references::limited(
            distinct_files(searched(batches, Some(limit), true).found),
            Some(limit),
        ) == super::references::limited(distinct_files(flattened(batches)), Some(limit)),
{
    let outcome = searched(batches, Some(limit), true);
    let k = lemma_search_takes_some(batches, Some(limit), true);
    let a = flattened(batches.take(k));
    let b = flattened(batches.subrange(k, batches.len() as int));
    lemma_parts_ordered(batches, files, k);
    lemma_distinct_parts(a, b);
    lemma_distinct_count(batches, files, k);
    if outcome.truncated {
        lemma_truncated_has_enough(batches, limit, true);
        let p = distinct_files(a);
        let q = distinct_files(b);
        assert((p + q).take(limit as int) =~= p.take(limit as int));
        assert(p.take(p.len() as int) =~= p);
        assert((p + q).take((p + q).len() as int) =~= p + q);
    } else {
        assert(batches.take(k) =~= batches);
    }
}

} // verus!
