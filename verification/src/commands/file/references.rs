//! The reference-finding file verbs: `references` (files that reference this file)
//! and `object <ref> references` (objects that reference an object, with
//! `--files-with-matches`). Shared by the `file`, `scene` and `bundle <path> file`
//! commands.

use vstd::prelude::*;

use super::object_name;
use crate::classes::class_label;
use crate::ctx::Scene;
use crate::model::{Object, Pptr, SceneFile};
use crate::number::{show_i64, show_usize};
use crate::output::{render_lines, style, Line, Render};
use crate::qualify::build_path;
use crate::sort::{sort, Sortable};
use crate::text::{align_left, align_right, chars_of, less, same};
use crate::{classes, component_path, model, number, output, qualify, sort, text};

verus! {

/// The files that reference a file.
#[derive(Debug, PartialEq, Eq)]
pub struct FileReferences(pub Vec<String>);

/// The lines of listed files.
pub open spec fn dash_lines(files: Seq<Seq<char>>) -> Seq<char>
    decreases files.len(),
{
    if files.len() == 0 {
        Seq::empty()
    } else {
        dash_lines(files.drop_last()) + "- "@ + files.last() + "\n"@
    }
}

impl Render for FileReferences {
    open spec fn text(&self, color: bool) -> Seq<char> {
        if self.0@.len() == 0 {
            "No references found\n"@
        } else {
            dash_lines(text::texts(self.0@))
        }
    }

    #[verifier::loop_isolation(false)]
    fn render(&self, color: bool) -> (out: String) {
        if self.0.len() == 0 {
            return "No references found\n".to_owned();
        }
        let ghost all = text::texts(self.0@);
        let mut out = String::new();
        let mut i: usize = 0;
        while i < self.0.len()
            invariant
                i <= self.0@.len(),
                all == text::texts(self.0@),
                out@ == dash_lines(all.take(i as int)),
            decreases self.0@.len() - i,
        {
            assert(all.take(i + 1).drop_last() =~= all.take(i as int));
            out.append("- ");
            out.append(self.0[i].as_str());
            out.append("\n");
            i += 1;
        }
        assert(all.take(i as int) =~= all);
        out
    }
}

/// A file of the game with the externals lists of the serialized files in it: one
/// for a plain serialized file, one per contained file for a bundle.
#[derive(Debug, PartialEq, Eq)]
pub struct FileExternals {
    pub path: String,
    pub externals: Vec<Vec<String>>,
}

/// Whether an externals list names a file.
pub open spec fn lists_file(externals: Seq<String>, to: Seq<char>) -> bool {
    text::texts(externals).contains(to)
}

/// Whether any serialized file of a file refers to `to`.
pub open spec fn refers_to(file: FileExternals, to: Seq<char>) -> bool {
    exists|i: int|
        0 <= i < file.externals@.len() && lists_file((#[trigger] file.externals@[i])@, to)
}

/// The paths of those files that refer to `to`, each once.
pub open spec fn referring_files(files: Seq<FileExternals>, to: Seq<char>) -> Seq<Seq<char>>
    decreases files.len(),
{
    if files.len() == 0 {
        Seq::empty()
    } else {
        let before = referring_files(files.drop_last(), to);
        if refers_to(files.last(), to) {
            before.push(files.last().path@)
        } else {
            before
        }
    }
}

impl FileExternals {
    /// Whether any serialized file of this file refers to `to`.
    pub fn refers_to(&self, to: &str) -> (r: bool)
        ensures
            r == refers_to(*self, to@),
    {
        let mut i: usize = 0;
        while i < self.externals.len()
            invariant
                i <= self.externals@.len(),
                forall|k: int| 0 <= k < i ==> !lists_file((#[trigger] self.externals@[k])@, to@),
            decreases self.externals@.len() - i,
        {
            if text::is_listed(&self.externals[i], to) {
                assert(lists_file(self.externals@[i as int]@, to@));
                return true;
            }
            i += 1;
        }
        false
    }
}

/// Every file whose externals list `to`. `files` holds both the addressables
/// bundles and the plain serialized files in the game data directory (`levelN`,
/// `*.assets`, `globalgamemanagers`) — scene/level files live in the latter, so
/// omitting them misses most referrers.
#[verifier::loop_isolation(false)]
pub fn external_references(files: &Vec<FileExternals>, to: &str) -> (r: FileReferences)
    ensures
        text::texts(r.0@) == referring_files(files@, to@),
{
    let mut out: Vec<String> = Vec::new();
    let mut i: usize = 0;
    assert(text::texts(out@) =~= Seq::empty());
    while i < files.len()
        invariant
            i <= files@.len(),
            text::texts(out@) == referring_files(files@.take(i as int), to@),
        decreases files@.len() - i,
    {
        assert(files@.take(i + 1).drop_last() =~= files@.take(i as int));
        if files[i].refers_to(to) {
            let ghost before = out@;
            out.push(files[i].path.clone());
            assert(text::texts(out@) =~= text::texts(before).push(files@[i as int].path@));
        }
        i += 1;
    }
    assert(files@.take(i as int) =~= files@);
    FileReferences(out)
}

/// A collected referrer. The readable location is for display (a bundle path); the
/// loadable path is what opens the file again (an `archive:/…` path for a bundle
/// entry) so a referrer can be re-read (e.g. `references cat`).
#[derive(Debug, PartialEq, Eq)]
pub struct Referral {
    pub file: String,
    pub load: String,
    pub path_id: i64,
    pub label: String,
}

/// What a [`Referral`] says.
#[verifier::ext_equal]
pub struct ReferralView {
    pub file: Seq<char>,
    pub load: Seq<char>,
    pub path_id: i64,
    pub label: Seq<char>,
}

impl View for Referral {
    type V = ReferralView;

    open spec fn view(&self) -> ReferralView {
        ReferralView {
            file: self.file@,
            load: self.load@,
            path_id: self.path_id,
            label: self.label@,
        }
    }
}

/// What referrals say.
pub open spec fn referral_views(referrals: Seq<Referral>) -> Seq<ReferralView> {
    referrals.map_values(|r: Referral| r@)
}

impl ReferralView {
    /// The order of a listing: by file, then loadable path, path id and label.
    pub open spec fn before(self, other: ReferralView) -> bool {
        if self.file != other.file {
            text::sorts_before(self.file, other.file)
        } else if self.load != other.load {
            text::sorts_before(self.load, other.load)
        } else if self.path_id != other.path_id {
            self.path_id < other.path_id
        } else {
            text::sorts_before(self.label, other.label)
        }
    }
}

/// Two referrals are in one order, in the other, or say the same.
pub proof fn lemma_referral_order(a: ReferralView, b: ReferralView)
    ensures
        !a.before(b) && !b.before(a) <==> a == b,
        !(a.before(b) && b.before(a)),
{
    sort::lemma_text_order(a.file, b.file);
    sort::lemma_text_order(a.load, b.load);
    sort::lemma_text_order(a.label, b.label);
}

/// The order of referrals is transitive.
pub proof fn lemma_referral_order_transitive(a: ReferralView, b: ReferralView, c: ReferralView)
    requires
        a.before(b),
        b.before(c),
    ensures
        a.before(c),
{
    sort::lemma_text_order(a.file, b.file);
    sort::lemma_text_order(a.file, c.file);
    sort::lemma_text_order(b.file, c.file);
    if a.file != b.file && b.file != c.file {
        sort::lemma_text_order_transitive(a.file, b.file, c.file);
    }
    sort::lemma_text_order(a.load, b.load);
    sort::lemma_text_order(a.load, c.load);
    sort::lemma_text_order(b.load, c.load);
    if a.load != b.load && b.load != c.load && text::sorts_before(a.load, b.load)
        && text::sorts_before(b.load, c.load) {
        sort::lemma_text_order_transitive(a.load, b.load, c.load);
    }
    if text::sorts_before(a.label, b.label) && text::sorts_before(b.label, c.label) {
        sort::lemma_text_order_transitive(a.label, b.label, c.label);
    }
}

impl Sortable for Referral {
    open spec fn below(self, other: Referral) -> bool {
        self@.before(other@)
    }

    proof fn below_is_asymmetric(a: Referral, b: Referral) {
        lemma_referral_order(a@, b@);
    }

    proof fn not_below_is_transitive(a: Referral, b: Referral, c: Referral) {
        lemma_referral_order(a@, b@);
        lemma_referral_order(b@, c@);
        if a.below(c) && b@.before(a@) {
            lemma_referral_order_transitive(b@, a@, c@);
        }
    }

    fn is_below(&self, other: &Referral) -> (r: bool) {
        if !same(self.file.as_str(), other.file.as_str()) {
            less(self.file.as_str(), other.file.as_str())
        } else if !same(self.load.as_str(), other.load.as_str()) {
            less(self.load.as_str(), other.load.as_str())
        } else if self.path_id != other.path_id {
            self.path_id < other.path_id
        } else {
            less(self.label.as_str(), other.label.as_str())
        }
    }
}

/// One object that references a target object.
#[derive(Debug, PartialEq, Eq)]
pub struct Referrer {
    /// Readable location: the bundle path, or the serialized file path.
    pub file: String,
    /// Scene name of `file` when it is a built-in `levelN` scene (from
    /// `BuildSettings`); shown as `Menu_Title (level1)`. Absent otherwise.
    pub scene: Option<String>,
    pub path_id: i64,
    /// Resolved object: its class / script name, plus its `m_Name` or the
    /// GameObject it sits on. Empty when the object could not be deserialized.
    pub label: String,
}

/// What a [`Referrer`] says.
#[verifier::ext_equal]
pub struct ReferrerView {
    pub file: Seq<char>,
    pub scene: Option<Seq<char>>,
    pub path_id: i64,
    pub label: Seq<char>,
}

impl View for Referrer {
    type V = ReferrerView;

    open spec fn view(&self) -> ReferrerView {
        ReferrerView {
            file: self.file@,
            scene: text::text_opt(self.scene),
            path_id: self.path_id,
            label: self.label@,
        }
    }
}

/// What referrers say.
pub open spec fn referrer_views(referrers: Seq<Referrer>) -> Seq<ReferrerView> {
    referrers.map_values(|r: Referrer| r@)
}

/// The header line of a references listing.
pub open spec fn header_of(
    singular: Seq<char>,
    plural: Seq<char>,
    target: Seq<char>,
    shown: nat,
    truncated: bool,
) -> Seq<char> {
    let noun = if shown == 1 {
        singular
    } else {
        plural
    };
    if truncated {
        Seq::<char>::empty() + "first "@ + number::decimal(shown) + " "@ + noun + " "@ + target
            + " (--limit):"@
    } else {
        Seq::<char>::empty() + number::decimal(shown) + " "@ + noun + " "@ + target + ":"@
    }
}

/// Header line for a references listing, with the count-appropriate noun. When the
/// scan stopped early at `--limit` the true total is unknown, so it flags that;
/// otherwise it is the plain `"{shown} {noun} {target}:"` form (`shown` is then
/// the full total).
pub fn references_header(
    singular: &str,
    plural: &str,
    target: &str,
    shown: usize,
    truncated: bool,
) -> (out: String)
    ensures
        out@ == header_of(singular@, plural@, target@, shown as nat, truncated),
{
    let noun = if shown == 1 {
        singular
    } else {
        plural
    };
    let mut out = String::new();
    if truncated {
        out.append("first ");
    }
    out.append(show_usize(shown).as_str());
    out.append(" ");
    out.append(noun);
    out.append(" ");
    out.append(target);
    if truncated {
        out.append(" (--limit):");
    } else {
        out.append(":");
    }
    out
}

/// Every object that references a target object (local or from another file).
#[derive(Debug, PartialEq, Eq)]
pub struct ObjectReferences {
    /// The target object's `m_Name` (e.g. a `MonoScript`'s class name), else
    /// `#<path id>`.
    pub target: String,
    pub path_id: i64,
    /// Whether the scan stopped early at `--limit` (so more referrers may exist).
    pub truncated: bool,
    pub referrers: Vec<Referrer>,
}

/// The widest that the file column is padded to. Longer paths stand out ragged, so
/// that a few of them do not pad every other row.
pub const FILE_WIDTH_CAP: usize = 40;

/// The longest path id of the short kind. Classic serialized files carry short
/// sequential ids, addressables-bundle objects long hash ids; each kind is aligned
/// by itself.
pub const ID_SMALL_MAX: usize = 12;

/// How a file is shown: `Menu_Title (level1)` for a scene, else as it is.
pub open spec fn location(file: Seq<char>, scene: Option<Seq<char>>) -> Seq<char> {
    match scene {
        Some(scene) => Seq::<char>::empty() + scene + " ("@ + file + ")"@,
        None => file,
    }
}

/// The length of a text in bytes.
pub open spec fn byte_len(s: Seq<char>) -> nat {
    vstd::utf8::encode_utf8(s).len()
}

/// The longest location, in bytes.
pub open spec fn longest_location(referrers: Seq<ReferrerView>) -> nat
    decreases referrers.len(),
{
    if referrers.len() == 0 {
        0
    } else {
        let before = longest_location(referrers.drop_last());
        let last = byte_len(location(referrers.last().file, referrers.last().scene));
        if before < last {
            last
        } else {
            before
        }
    }
}

/// The width of the file column.
pub open spec fn file_width(referrers: Seq<ReferrerView>) -> nat {
    let longest = longest_location(referrers);
    if longest < FILE_WIDTH_CAP {
        longest
    } else {
        FILE_WIDTH_CAP as nat
    }
}

/// The length of a path id in print.
pub open spec fn id_len(path_id: i64) -> nat {
    number::signed_decimal(path_id as int).len()
}

/// The width of the longest path id of one kind.
pub open spec fn id_width(referrers: Seq<ReferrerView>, small: bool) -> nat
    decreases referrers.len(),
{
    if referrers.len() == 0 {
        0
    } else {
        let before = id_width(referrers.drop_last(), small);
        let last = id_len(referrers.last().path_id);
        if (last <= ID_SMALL_MAX) == small && before < last {
            last
        } else {
            before
        }
    }
}

/// The line of one referrer, in columns of the given widths.
pub open spec fn referrer_line(
    r: ReferrerView,
    file_width: nat,
    small_width: nat,
    hash_width: nat,
    color: bool,
) -> Seq<char> {
    let shown = Seq::<char>::empty() + "- "@ + style::name_text(
        text::left_aligned(location(r.file, r.scene), file_width),
        color,
    ) + "  "@ + style::dim_text(
        text::right_aligned(
            number::signed_decimal(r.path_id as int),
            if id_len(r.path_id) <= ID_SMALL_MAX {
                small_width
            } else {
                hash_width
            },
        ),
        color,
    );
    if r.label.len() == 0 {
        shown + "\n"@
    } else {
        shown + "  "@ + style::class_text(r.label, color) + "\n"@
    }
}

/// The lines of referrers.
pub open spec fn referrer_lines(
    referrers: Seq<ReferrerView>,
    file_width: nat,
    small_width: nat,
    hash_width: nat,
    color: bool,
) -> Seq<char>
    decreases referrers.len(),
{
    if referrers.len() == 0 {
        Seq::empty()
    } else {
        referrer_lines(referrers.drop_last(), file_width, small_width, hash_width, color)
            + referrer_line(referrers.last(), file_width, small_width, hash_width, color)
    }
}

/// How a file is shown: `Menu_Title (level1)` for a scene, else as it is.
pub fn show_location(file: &str, scene: &Option<String>) -> (out: String)
    ensures
        out@ == location(file@, text::text_opt(*scene)),
{
    match scene {
        Some(scene) => {
            let mut out = String::new();
            out.append(scene.as_str());
            out.append(" (");
            out.append(file);
            out.append(")");
            out
        },
        None => file.to_owned(),
    }
}

/// The length of a path id in print.
fn show_len(path_id: i64) -> (r: usize)
    ensures
        r == id_len(path_id),
{
    chars_of(show_i64(path_id).as_str()).len()
}

/// The width of the file column.
#[verifier::loop_isolation(false)]
fn measure_files(referrers: &Vec<Referrer>) -> (width: usize)
    ensures
        width == file_width(referrer_views(referrers@)),
{
    let ghost all = referrer_views(referrers@);
    let mut longest: usize = 0;
    let mut i: usize = 0;
    while i < referrers.len()
        invariant
            i <= referrers@.len(),
            all == referrer_views(referrers@),
            longest == longest_location(all.take(i as int)),
        decreases referrers@.len() - i,
    {
        assert(all.take(i + 1).drop_last() =~= all.take(i as int));
        let shown = show_location(referrers[i].file.as_str(), &referrers[i].scene);
        let len: usize = shown.as_str().as_bytes().len();
        if longest < len {
            longest = len;
        }
        i += 1;
    }
    assert(all.take(i as int) =~= all);
    if longest < FILE_WIDTH_CAP {
        longest
    } else {
        FILE_WIDTH_CAP
    }
}

/// The width of the longest path id of one kind.
#[verifier::loop_isolation(false)]
fn measure_ids(referrers: &Vec<Referrer>, small: bool) -> (width: usize)
    ensures
        width == id_width(referrer_views(referrers@), small),
{
    let ghost all = referrer_views(referrers@);
    let mut longest: usize = 0;
    let mut i: usize = 0;
    while i < referrers.len()
        invariant
            i <= referrers@.len(),
            all == referrer_views(referrers@),
            longest == id_width(all.take(i as int), small),
        decreases referrers@.len() - i,
    {
        assert(all.take(i + 1).drop_last() =~= all.take(i as int));
        let len: usize = show_len(referrers[i].path_id);
        if (len <= ID_SMALL_MAX) == small && longest < len {
            longest = len;
        }
        i += 1;
    }
    assert(all.take(i as int) =~= all);
    longest
}

impl Referrer {
    fn line(&self, file_width: usize, small_width: usize, hash_width: usize, color: bool) -> (out:
        String)
        ensures
            out@ == referrer_line(
                self@,
                file_width as nat,
                small_width as nat,
                hash_width as nat,
                color,
            ),
    {
        let mut out = String::new();
        out.append("- ");
        let shown = show_location(self.file.as_str(), &self.scene);
        let file = align_left(shown.as_str(), file_width);
        out.append(style::name(file.as_str(), color).as_str());
        out.append("  ");
        let id_width: usize = if show_len(self.path_id) <= ID_SMALL_MAX {
            small_width
        } else {
            hash_width
        };
        let id = align_right(show_i64(self.path_id).as_str(), id_width);
        out.append(style::dim(id.as_str(), color).as_str());
        if !self.label.as_str().is_empty() {
            out.append("  ");
            out.append(style::class(self.label.as_str(), color).as_str());
        }
        out.append("\n");
        out
    }
}

impl Render for ObjectReferences {
    open spec fn text(&self, color: bool) -> Seq<char> {
        let all = referrer_views(self.referrers@);
        style::header_text(
            header_of(
                "reference(s) to"@,
                "reference(s) to"@,
                self.target@,
                self.referrers@.len(),
                self.truncated,
            ),
            color,
        ) + "\n"@ + referrer_lines(
            all,
            file_width(all),
            id_width(all, true),
            id_width(all, false),
            color,
        )
    }

    #[verifier::loop_isolation(false)]
    fn render(&self, color: bool) -> (out: String) {
        let ghost all = referrer_views(self.referrers@);
        let title = references_header(
            "reference(s) to",
            "reference(s) to",
            self.target.as_str(),
            self.referrers.len(),
            self.truncated,
        );
        let mut out = style::header(title.as_str(), color);
        out.append("\n");
        let ghost head = out@;
        let files: usize = measure_files(&self.referrers);
        let small: usize = measure_ids(&self.referrers, true);
        let hash: usize = measure_ids(&self.referrers, false);
        let mut i: usize = 0;
        assert(out@ =~= head + referrer_lines(
            all.take(0),
            files as nat,
            small as nat,
            hash as nat,
            color,
        ));
        while i < self.referrers.len()
            invariant
                i <= self.referrers@.len(),
                all == referrer_views(self.referrers@),
                out@ == head + referrer_lines(
                    all.take(i as int),
                    files as nat,
                    small as nat,
                    hash as nat,
                    color,
                ),
            decreases self.referrers@.len() - i,
        {
            assert(all.take(i + 1).drop_last() =~= all.take(i as int));
            out.append(self.referrers[i].line(files, small, hash, color).as_str());
            assert(out@ =~= head + referrer_lines(
                all.take(i + 1),
                files as nat,
                small as nat,
                hash as nat,
                color,
            ));
            i += 1;
        }
        assert(all.take(i as int) =~= all);
        out
    }
}

/// The name of the last scene whose data lives in `file`.
pub open spec fn scene_in(scenes: Seq<Scene>, file: Seq<char>) -> Option<Seq<char>>
    decreases scenes.len(),
{
    if scenes.len() == 0 {
        None
    } else if scenes.last().source.label_text() == file {
        Some(scenes.last().name@)
    } else {
        scene_in(scenes.drop_last(), file)
    }
}

/// The scene whose data lives in `file`, so referrer listings can show the readable
/// scene alongside the file: a built-in scene's `levelN` file (`level1` →
/// `Menu_Title`) and an addressables scene's bundle path
/// (`scenes_.../abyss_01.bundle` → `Abyss_01`, from the catalog — the bundle name
/// itself is lower-cased and wouldn't match `scene <name>`). The key is exactly
/// the referrer's `file` column ([`ctx::SceneSource::label`]).
#[verifier::loop_isolation(false)]
pub fn scene_name_lookup(scenes: &Vec<Scene>, file: &str) -> (r: Option<String>)
    ensures
        text::text_opt(r) == scene_in(scenes@, file@),
{
    let mut i: usize = scenes.len();
    assert(scenes@.take(i as int) =~= scenes@);
    while i > 0
        invariant
            i <= scenes@.len(),
            scene_in(scenes@, file@) == scene_in(scenes@.take(i as int), file@),
        decreases i,
    {
        assert(scenes@.take(i as int).drop_last() =~= scenes@.take(i - 1));
        i -= 1;
        let label = scenes[i].source.label();
        if same(label.as_str(), file) {
            return Some(scenes[i].name.clone());
        }
    }
    None
}

/// What stands for the target of a search in print: its `m_Name`, else `#<path
/// id>`.
pub open spec fn target_text(file: SceneFile, path_id: i64) -> Seq<char> {
    match super::own_name(file, path_id) {
        Some(name) => name,
        None => Seq::<char>::empty() + "#"@ + number::signed_decimal(path_id as int),
    }
}

/// Names the target of a search.
pub fn name_target(file: &SceneFile, path_id: i64) -> (r: String)
    ensures
        r@ == target_text(*file, path_id),
{
    match object_name(file, path_id) {
        Some(name) => name,
        None => {
            let mut out = String::new();
            out.append("#");
            out.append(show_i64(path_id).as_str());
            out
        },
    }
}

/// The first `limit` items, or all of them.
pub open spec fn limited<T>(items: Seq<T>, limit: Option<usize>) -> Seq<T> {
    match limit {
        Some(limit) => if limit < items.len() {
            items.take(limit as int)
        } else {
            items
        },
        None => items,
    }
}

/// How a referral is listed.
pub open spec fn shown_referral(scenes: Seq<Scene>, r: ReferralView) -> ReferrerView {
    ReferrerView {
        file: r.file,
        scene: scene_in(scenes, r.file),
        path_id: r.path_id,
        label: r.label,
    }
}

/// How referrals are listed.
pub open spec fn shown_referrals(scenes: Seq<Scene>, found: Seq<ReferralView>) -> Seq<
    ReferrerView,
> {
    found.map_values(|r: ReferralView| shown_referral(scenes, r))
}

/// Lists every object that was found to reference the given object: in order, no
/// more than `limit` of them, each with the scene it is in.
#[verifier::loop_isolation(false)]
pub fn object_references(
    file: &SceneFile,
    path_id: i64,
    found: Vec<Referral>,
    truncated: bool,
    limit: Option<usize>,
    scenes: &Vec<Scene>,
) -> (r: ObjectReferences)
    ensures
        r.target@ == target_text(*file, path_id),
        r.path_id == path_id,
        r.truncated == truncated,
        referrer_views(r.referrers@) == shown_referrals(
            scenes@,
            referral_views(limited(sort::sorted(found@), limit)),
        ),
{
    let mut kept = sort(found);
    // The early-exit scan collects from candidates sorted before the cut-off; after
    // sorting, trimming to `limit` yields exactly the globally-first `limit`
    // referrers.
    if let Some(limit) = limit {
        kept.truncate(limit);
        assert(kept@ == limited(sort::sorted(found@), Some(limit)));
    }
    let ghost all = referral_views(kept@);
    let mut referrers: Vec<Referrer> = Vec::new();
    let mut i: usize = 0;
    while i < kept.len()
        invariant
            i <= kept@.len(),
            referrers@.len() == i,
            all == referral_views(kept@),
            forall|k: int|
                0 <= k < i ==> (#[trigger] referrers@[k])@ == shown_referral(scenes@, all[k]),
        decreases kept@.len() - i,
    {
        let found_one = &kept[i];
        referrers.push(
            Referrer {
                file: found_one.file.clone(),
                scene: scene_name_lookup(scenes, found_one.file.as_str()),
                path_id: found_one.path_id,
                label: found_one.label.clone(),
            },
        );
        i += 1;
    }
    assert(referrer_views(referrers@) =~= shown_referrals(scenes@, all));
    ObjectReferences { target: name_target(file, path_id), path_id, truncated, referrers }
}

/// The distinct files that reference a target object (`references -l`).
#[derive(Debug, PartialEq, Eq)]
pub struct ReferencingFiles {
    /// The target object's `m_Name` (e.g. a `MonoScript`'s class name), else
    /// `#<path id>`.
    pub target: String,
    pub path_id: i64,
    /// Whether the scan stopped early at `--limit` (so more files may exist).
    pub truncated: bool,
    pub files: Vec<ReferencingFile>,
}

/// One distinct file that references the target, with its scene name when it is a
/// built-in `levelN` scene (see [`Referrer::scene`]).
#[derive(Debug, PartialEq, Eq)]
pub struct ReferencingFile {
    pub file: String,
    pub scene: Option<String>,
}

impl Line for ReferencingFile {
    open spec fn line_text(&self, color: bool) -> Seq<char> {
        Seq::<char>::empty() + "- "@ + style::name_text(
            location(self.file@, text::text_opt(self.scene)),
            color,
        ) + "\n"@
    }

    fn line(&self, color: bool) -> (out: String) {
        let mut out = String::new();
        out.append("- ");
        let shown = show_location(self.file.as_str(), &self.scene);
        out.append(style::name(shown.as_str(), color).as_str());
        out.append("\n");
        out
    }
}

impl Render for ReferencingFiles {
    open spec fn text(&self, color: bool) -> Seq<char> {
        style::header_text(
            header_of(
                "file referencing"@,
                "files referencing"@,
                self.target@,
                self.files@.len(),
                self.truncated,
            ),
            color,
        ) + "\n"@ + output::item_lines(self.files@, color)
    }

    fn render(&self, color: bool) -> (out: String) {
        let title = references_header(
            "file referencing",
            "files referencing",
            self.target.as_str(),
            self.files.len(),
            self.truncated,
        );
        let mut out = style::header(title.as_str(), color);
        out.append("\n");
        out.append(render_lines(&self.files, color).as_str());
        out
    }
}

/// The files of referrals.
pub open spec fn files_of(found: Seq<Referral>) -> Seq<String> {
    found.map_values(|r: Referral| r.file)
}

/// A list without the texts that repeat the one before them.
pub open spec fn deduped(texts: Seq<Seq<char>>) -> Seq<Seq<char>>
    decreases texts.len(),
{
    if texts.len() == 0 {
        texts
    } else {
        let before = deduped(texts.drop_last());
        if texts.len() > 1 && texts[texts.len() - 2] == texts.last() {
            before
        } else {
            before.push(texts.last())
        }
    }
}

/// Removes the texts that repeat the one before them.
#[verifier::loop_isolation(false)]
pub fn dedup(texts: Vec<String>) -> (out: Vec<String>)
    ensures
        text::texts(out@) == deduped(text::texts(texts@)),
{
    let ghost all = text::texts(texts@);
    let mut out: Vec<String> = Vec::new();
    let mut i: usize = 0;
    assert(text::texts(out@) =~= Seq::empty());
    while i < texts.len()
        invariant
            i <= texts@.len(),
            all == text::texts(texts@),
            text::texts(out@) == deduped(all.take(i as int)),
        decreases texts@.len() - i,
    {
        assert(all.take(i + 1).drop_last() =~= all.take(i as int));
        let repeated: bool = i > 0 && same(texts[i - 1].as_str(), texts[i].as_str());
        if !repeated {
            let ghost before = out@;
            out.push(texts[i].clone());
            assert(text::texts(out@) =~= text::texts(before).push(all[i as int]));
        }
        i += 1;
    }
    assert(all.take(i as int) =~= all);
    out
}

/// The files of a copy of referrals.
fn referral_files(found: &Vec<Referral>) -> (out: Vec<String>)
    ensures
        out@ == files_of(found@),
{
    let mut out: Vec<String> = Vec::new();
    let mut i: usize = 0;
    while i < found.len()
        invariant
            i <= found@.len(),
            out@ == files_of(found@.take(i as int)),
        decreases found@.len() - i,
    {
        out.push(found[i].file.clone());
        assert(out@ =~= files_of(found@.take(i + 1)));
        i += 1;
    }
    assert(found@.take(i as int) =~= found@);
    out
}

/// Whether `file` is listed for the path `path`.
pub open spec fn shows_file(file: ReferencingFile, scenes: Seq<Scene>, path: Seq<char>) -> bool {
    file.file@ == path && text::text_opt(file.scene) == scene_in(scenes, path)
}

/// Lists the distinct files that were found to reference the given object. See
/// [`object_references`] for the full per-object list.
#[verifier::loop_isolation(false)]
pub fn object_referencing_files(
    file: &SceneFile,
    path_id: i64,
    found: &Vec<Referral>,
    truncated: bool,
    limit: Option<usize>,
    scenes: &Vec<Scene>,
) -> (r: ReferencingFiles)
    ensures
        r.target@ == target_text(*file, path_id),
        r.path_id == path_id,
        r.truncated == truncated,
        ({
            let paths = limited(
                deduped(text::texts(sort::sorted(files_of(found@)))),
                limit,
            );
            r.files@.len() == paths.len() && forall|k: int|
                0 <= k < paths.len() ==> shows_file(#[trigger] r.files@[k], scenes@, paths[k])
        }),
{
    // Collapse the (at most one per file) hits into a sorted, distinct file list.
    let mut paths = dedup(sort(referral_files(found)));
    let ghost distinct = paths@;
    if let Some(limit) = limit {
        paths.truncate(limit);
        assert(text::texts(paths@) =~= limited(text::texts(distinct), Some(limit)));
    }
    let ghost all = text::texts(paths@);
    let mut files: Vec<ReferencingFile> = Vec::new();
    let mut i: usize = 0;
    while i < paths.len()
        invariant
            i <= paths@.len(),
            all == text::texts(paths@),
            files@.len() == i,
            forall|k: int| 0 <= k < i ==> shows_file(#[trigger] files@[k], scenes@, all[k]),
        decreases paths@.len() - i,
    {
        assert(all[i as int] == paths@[i as int]@);
        files.push(
            ReferencingFile {
                file: paths[i].clone(),
                scene: scene_name_lookup(scenes, paths[i].as_str()),
            },
        );
        i += 1;
    }
    ReferencingFiles { target: name_target(file, path_id), path_id, truncated, files }
}

/// The class or script of an object, as far as it can be told.
pub open spec fn head_text(file: SceneFile, path_id: i64) -> Option<Seq<char>> {
    match model::object_at(file, model::local(path_id)) {
        Err(_) => None,
        Ok(object) => match model::label_of(object) {
            Ok(label) => Some(label),
            Err(_) => Some(classes::class_text(object.class_id)),
        },
    }
}

/// The name of the GameObject that a component's value says it sits on.
pub open spec fn holder_name(file: SceneFile, path_id: i64) -> Option<Seq<char>> {
    match model::object_at(file, model::local(path_id)) {
        Err(_) => None,
        Ok(object) => match object.value {
            Err(_) => None,
            Ok(value) => match value@.get("m_GameObject"@) {
                None => None,
                Some(pptr) => match pptr.get("m_PathID"@) {
                    None => None,
                    Some(id) => match id.as_int() {
                        None => None,
                        Some(id) => if id == 0 {
                            None
                        } else {
                            super::own_name(file, id)
                        },
                    },
                },
            },
        },
    }
}

/// The label of an object that references something.
pub open spec fn label_text(file: SceneFile, path_id: i64) -> Seq<char> {
    match head_text(file, path_id) {
        None => Seq::empty(),
        Some(head) => match holder_name(file, path_id) {
            Some(holder) => head + " (on '"@ + holder + "')"@,
            None => match super::own_name(file, path_id) {
                Some(name) => head + " '"@ + name + "'"@,
                None => match qualify::path_to(file, path_id) {
                    Some(path) => component_path::path_text(path),
                    None => head,
                },
            },
        },
    }
}

/// The name of the GameObject that a component's value says it sits on.
fn find_holder(file: &SceneFile, object: &Object, path_id: i64) -> (r: Option<String>)
    requires
        model::object_at(*file, model::local(path_id)) == Ok::<Object, Seq<char>>(*object),
    ensures
        text::text_opt(r) == holder_name(*file, path_id),
{
    if let Ok(value) = &object.value {
        if let Some(pptr) = value.get("m_GameObject") {
            if let Some(id) = pptr.get("m_PathID") {
                if let Some(id) = id.as_int() {
                    if id != 0 {
                        return object_name(file, id);
                    }
                }
            }
        }
    }
    None
}

/// A label for an object that references something: its class (script class name for a
/// MonoBehaviour) plus, when present, the GameObject it sits on (`X (on 'GO')`) or its
/// own `m_Name` (`X 'name'`). Without either, its hierarchy
/// [`component_path::ComponentPath`] if it has one. Best-effort: falls back to the bare
/// class, or an empty string when nothing can be read.
pub fn referrer_label(file: &SceneFile, path_id: i64) -> (out: String)
    ensures
        out@ == label_text(*file, path_id),
{
    let object = match file.object_at(Pptr::local(path_id)) {
        Ok(object) => object,
        Err(_) => {
            return String::new();
        },
    };
    let mut out = match object.label() {
        Ok(label) => label,
        // The script (and thus its label) may be unresolvable; show the raw class.
        Err(_) => class_label(object.class_id),
    };
    // A component carries the GameObject it sits on; prefer that over its own name.
    if let Some(holder) = find_holder(file, object, path_id) {
        out.append(" (on '");
        out.append(holder.as_str());
        out.append("')");
    } else if let Some(name) = object_name(file, path_id) {
        out.append(" '");
        out.append(name.as_str());
        out.append("'");
    } else if let Some(path) = build_path(file, path_id) {
        return path.to_text();
    }
    out
}

/// What a query over one referring object gave: its results, each as pretty JSON,
/// up to the error that ended it, if one did.
#[derive(Debug, PartialEq, Eq)]
pub struct QueryRun {
    pub results: Vec<String>,
    pub error: Option<String>,
}

/// What is printed after a query over one referring object.
#[derive(Debug, PartialEq, Eq)]
pub struct QueryReport {
    /// For stdout.
    pub out: String,
    /// For stderr.
    pub err: Option<String>,
}

/// A query over every referring object (`references cat`). One bad referrer (e.g. a
/// query that `deref`s a null field) does not abort a game-wide sweep: it is
/// reported, and remembered so that the command fails at the end.
#[derive(Debug, PartialEq, Eq)]
pub struct Sweep {
    pub failed: usize,
}

/// How a failed query is reported.
pub open spec fn failure_text(display: Seq<char>, path_id: i64, e: Seq<char>) -> Seq<char> {
    Seq::<char>::empty() + display + " #"@ + number::signed_decimal(path_id as int) + ": "@ + e
}

/// Why a sweep with failed queries fails.
pub open spec fn failed_text(failed: nat) -> Seq<char> {
    Seq::<char>::empty() + number::decimal(failed) + " quer"@ + (if failed == 1 {
        "y"@
    } else {
        "ies"@
    }) + " failed"@
}

impl Sweep {
    /// A sweep that has not begun.
    pub fn begin() -> (r: Sweep)
        ensures
            r.failed == 0,
    {
        Sweep { failed: 0 }
    }

    /// Takes the outcome of the query over one referring object and says what to
    /// print.
    pub fn record(&mut self, display: &str, path_id: i64, run: &QueryRun, color: bool) -> (r:
        QueryReport)
        requires
            old(self).failed < usize::MAX,
        ensures
            final(self).failed == old(self).failed + (if run.error is Some {
                1int
            } else {
                0int
            }),
            r.out@ == text::lines_of(text::texts(run.results@)),
            text::text_opt(r.err) == (match run.error {
                Some(e) => Some(style::dim_text(failure_text(display@, path_id, e@), color)),
                None => None,
            }),
    {
        let err: Option<String> = match &run.error {
            Some(e) => {
                self.failed = self.failed + 1;
                let mut message = String::new();
                message.append(display);
                message.append(" #");
                message.append(show_i64(path_id).as_str());
                message.append(": ");
                message.append(e.as_str());
                Some(style::dim(message.as_str(), color))
            },
            None => None,
        };
        QueryReport { out: text::lines(&run.results), err }
    }

    /// How the sweep ends. Successful results are already on stdout; a failing
    /// referrer still fails the command, so that it isn't silently swallowed in a
    /// pipeline.
    pub fn finish(&self) -> (r: Result<(), String>)
        ensures
            match r {
                Ok(()) => self.failed == 0,
                Err(e) => self.failed > 0 && e@ == failed_text(self.failed as nat),
            },
    {
        if self.failed == 0 {
            return Ok(());
        }
        let mut e = String::new();
        e.append(show_usize(self.failed).as_str());
        e.append(" quer");
        if self.failed == 1 {
            e.append("y");
        } else {
            e.append("ies");
        }
        e.append(" failed");
        Err(e)
    }
}

proof fn lemma_sorted_views_keep(s: Seq<Referral>)
    ensures
        referral_views(sort::sorted(s)).to_multiset() == referral_views(s).to_multiset(),
    decreases s.len(),
{
    if s.len() > 0 {
        let rest = sort::sorted(s.skip(1));
        lemma_sorted_views_keep(s.skip(1));
        sort::lemma_place(s[0], rest);
        let p = sort::place(s[0], rest) as int;
        assert(referral_views(rest.insert(p, s[0])) =~= referral_views(rest).insert(p, s[0]@));
        sort::lemma_insert_adds(referral_views(rest), p, s[0]@);
        assert(referral_views(s) =~= referral_views(s.skip(1)).insert(0, s[0]@));
        sort::lemma_insert_adds(referral_views(s.skip(1)), 0, s[0]@);
    }
}

/// Whether nothing belongs before what stands before it.
pub open spec fn views_in_order(s: Seq<ReferralView>) -> bool {
    forall|i: int, j: int| 0 <= i < j < s.len() ==> !(#[trigger] s[j]).before(#[trigger] s[i])
}

#[verifier::spinoff_prover]
proof fn lemma_order_is_unique(s: Seq<ReferralView>, t: Seq<ReferralView>)
    requires
        views_in_order(s),
        views_in_order(t),
        s.to_multiset() == t.to_multiset(),
    ensures
        s == t,
    decreases s.len(),
{
    vstd::seq_lib::to_multiset_len(s);
    vstd::seq_lib::to_multiset_len(t);
    if s.len() == 0 {
        assert(s =~= t);
    } else {
        assert(s.contains(s[0]) && t.contains(t[0]));
        vstd::seq_lib::to_multiset_contains(s, s[0]);
        vstd::seq_lib::to_multiset_contains(t, s[0]);
        vstd::seq_lib::to_multiset_contains(s, t[0]);
        vstd::seq_lib::to_multiset_contains(t, t[0]);
        let j = choose|j: int| 0 <= j < t.len() && t[j] == s[0];
        let i = choose|i: int| 0 <= i < s.len() && s[i] == t[0];
        lemma_referral_order(s[0], t[0]);
        if i > 0 {
            assert(!s[i].before(s[0]));
        }
        if j > 0 {
            assert(!t[j].before(t[0]));
        }
        assert(s[0] == t[0]);
        let x = s.skip(1);
        let y = t.skip(1);
        assert(s =~= x.insert(0, s[0]));
        assert(t =~= y.insert(0, t[0]));
        sort::lemma_insert_adds(x, 0, s[0]);
        sort::lemma_insert_adds(y, 0, t[0]);
        assert(x.to_multiset() =~= s.to_multiset().remove(s[0]));
        assert(y.to_multiset() =~= t.to_multiset().remove(t[0]));
        assert forall|a: int, b: int| 0 <= a < b < x.len() implies !(#[trigger] x[b]).before(
            #[trigger] x[a],
        ) by {
            assert(x[a] == s[a + 1] && x[b] == s[b + 1]);
        }
        assert forall|a: int, b: int| 0 <= a < b < y.len() implies !(#[trigger] y[b]).before(
            #[trigger] y[a],
        ) by {
            assert(y[a] == t[a + 1] && y[b] == t[b + 1]);
        }
        lemma_order_is_unique(x, y);
    }
}

/// A listing does not depend on the order in which referrers were found, as when
/// files are searched in parallel.
pub proof fn listing_ignores_search_order(a: Seq<Referral>, b: Seq<Referral>)
    requires
        referral_views(a).to_multiset() == referral_views(b).to_multiset(),
    ensures
        referral_views(sort::sorted(a)) == referral_views(sort::sorted(b)),
{
    lemma_sorted_views_keep(a);
    lemma_sorted_views_keep(b);
    sort::sorting_orders(a);
    sort::sorting_orders(b);
    let s = sort::sorted(a);
    let t = sort::sorted(b);
    assert forall|i: int, j: int| 0 <= i < j < referral_views(s).len() implies !(
    #[trigger] referral_views(s)[j]).before(#[trigger] referral_views(s)[i]) by {
        assert(!s[j].below(s[i]));
    }
    assert forall|i: int, j: int| 0 <= i < j < referral_views(t).len() implies !(
    #[trigger] referral_views(t)[j]).before(#[trigger] referral_views(t)[i]) by {
        assert(!t[j].below(t[i]));
    }
    lemma_order_is_unique(referral_views(s), referral_views(t));
}

} // verus!
