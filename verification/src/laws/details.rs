//! What is told of objects, files and preloads, and how a listing of references is put
//! together.

use vstd::prelude::*;

use super::{lemma_positions_push, lemma_positions_skip};
use crate::cli::{CatArgs, FileVerb, InfoArgs, ObjectVerb};
use crate::commands::file;
use crate::commands::file::preloads;
use crate::commands::file::preloads::AssetInfo;
use crate::commands::file::references;
use crate::commands::file::references::{Referral, ReferralView};
use crate::commands::file::{
    CabBundle, Components, External, FileHeader, FileInfo, FilterSource, OpenFile, Step,
};
use crate::ctx::Scene;
use crate::json::JsonView;
use crate::locate;
use crate::locate::SteamApp;
use crate::model::{Object, Pptr, SceneFile};
use crate::{classes, component_path, laws, model, qualify, sort, text};

verus! {

/// An object has a name of its own exactly if its `m_Name` is not empty.
pub proof fn an_own_name_is_not_empty(file: SceneFile, path_id: i64, name: Seq<char>)
    ensures
        file::own_name(file, path_id) == Some(name) <==> model::name_at(file, path_id) == Some(
            name,
        ) && name.len() > 0,
{
}

/// The summary of an object tells its path id, the name of its class, its label where
/// that is another (the script of a MonoBehaviour), and its name where it has one; it
/// fails exactly if the object is not there or its label cannot be told.
pub proof fn a_summary_tells_class_script_and_name(file: SceneFile, path_id: i64)
    ensures
        file::summary(file, path_id) is Ok <==> (model::object_at(
            file,
            Pptr { file_id: 0, path_id },
        ) matches Ok(object) && model::label_of(object) is Ok),
        file::summary(file, path_id) matches Ok(shown) ==> {
            let object = model::object_at(file, Pptr { file_id: 0, path_id })->Ok_0;
            let label = model::label_of(object)->Ok_0;
            &&& shown.path_id == path_id
            &&& shown.class == classes::class_text(object.class_id)
            &&& shown.script == (if label == classes::class_text(object.class_id) {
                None
            } else {
                Some(label)
            })
            &&& shown.name matches Some(name) ==> name.len() > 0 && model::name_at(file, path_id)
                == Some(name)
            &&& shown.name is None ==> (model::name_at(file, path_id) matches Some(name)
                ==> name.len() == 0)
        },
{
}

/// Whether a value says that its object sits on the GameObject with the given path id.
pub open spec fn sits_on(value: JsonView, holder: i64) -> bool {
    &&& holder != 0
    &&& value.get("m_GameObject"@) matches Some(pointer)
    &&& pointer.get("m_PathID"@) matches Some(id)
    &&& id.as_int() == Some(holder)
}

/// A referring object is labelled by its class or script, followed by the name of the
/// GameObject that it sits on, or else by its own name; where it has neither, it is
/// labelled by its path, or by its class or script alone.
pub proof fn a_referrer_is_labelled_by_its_holder_name_or_path(
    file: SceneFile,
    path_id: i64,
    object: Object,
    head: Seq<char>,
    holder: i64,
    name: Seq<char>,
)
    requires
        model::object_at(file, Pptr { file_id: 0, path_id }) == Ok::<Object, Seq<char>>(object),
        match model::label_of(object) {
            Ok(label) => head == label,
            Err(_) => head == classes::class_text(object.class_id),
        },
    ensures
        object.value matches Ok(value) && sits_on(value@, holder) && name.len() > 0
            && model::name_at(file, holder) == Some(name) ==> references::label_text(file, path_id)
            == head + " (on '"@ + name + "')"@,
        (object.value matches Ok(value) ==> forall|id: i64| !#[trigger] sits_on(value@, id)) && name.len()
            > 0 && model::name_at(file, path_id) == Some(name) ==> references::label_text(
            file,
            path_id,
        ) == head + " '"@ + name + "'"@,
        (object.value matches Ok(value) ==> forall|id: i64| !#[trigger] sits_on(value@, id))
            && model::name_at(file, path_id) is None ==> references::label_text(file, path_id) == (
        match qualify::path_to(file, path_id) {
            Some(path) => component_path::path_text(path),
            None => head,
        }),
{
    if let Ok(value) = object.value {
        if let Some(pointer) = value@.get("m_GameObject"@) {
            if let Some(id) = pointer.get("m_PathID"@) {
                if let Some(id) = id.as_int() {
                    if id != 0 {
                        assert(sits_on(value@, id));
                    }
                }
            }
        }
    }
}

/// A listing of referrers without a limit holds all that were found; with one, as many
/// as the limit allows, the first of them. It is in order, and tells each one's file,
/// path id and label.
pub proof fn a_listing_holds_what_was_found(
    scenes: Seq<Scene>,
    found: Seq<Referral>,
    limit: Option<usize>,
)
    ensures
        ({
            let sorted = sort::sorted(found);
            let shown = references::shown_referrals(
                scenes,
                references::referral_views(references::limited(sorted, limit)),
            );
            &&& sorted.to_multiset() == found.to_multiset()
            &&& sorted.len() == found.len()
            &&& limit is None ==> shown.len() == found.len()
            &&& limit matches Some(limit) ==> shown.len() == (if limit <= found.len() {
                limit as nat
            } else {
                found.len()
            })
            &&& forall|k: int|
                0 <= k < shown.len() ==> {
                    let r = #[trigger] shown[k];
                    &&& r.file == sorted[k].file@
                    &&& r.path_id == sorted[k].path_id
                    &&& r.label == sorted[k].label@
                    &&& r.scene == references::scene_in(scenes, r.file)
                }
            &&& forall|i: int, j: int|
                0 <= i < j < sorted.len() ==> !text::sorts_before(
                    (#[trigger] sorted[j]).file@,
                    (#[trigger] sorted[i]).file@,
                )
        }),
{
    sort::sorting_keeps_items(found);
    sort::sorting_orders(found);
    let sorted = sort::sorted(found);
    assert forall|i: int, j: int| 0 <= i < j < sorted.len() implies !text::sorts_before(
        (#[trigger] sorted[j]).file@,
        (#[trigger] sorted[i]).file@,
    ) by {
        sort::lemma_text_order(sorted[j].file@, sorted[i].file@);
    }
}

/// Referrers stand in the order of their files, then of the files to load, then of
/// their path ids.
pub proof fn referrers_are_ordered_by_file_and_id(a: ReferralView, b: ReferralView)
    ensures
        text::sorts_before(a.file, b.file) ==> a.before(b) && !b.before(a),
        a.file == b.file && text::sorts_before(a.load, b.load) ==> a.before(b) && !b.before(a),
        a.file == b.file && a.load == b.load && a.path_id < b.path_id ==> a.before(b) && !b.before(
            a,
        ),
{
    sort::lemma_text_order(a.file, b.file);
    sort::lemma_text_order(a.load, b.load);
}

/// The scene of a file is the last one that is labelled by it, and there is none only if
/// no scene is.
pub proof fn a_file_has_its_last_scene(scenes: Seq<Scene>, file: Seq<char>, i: int)
    requires
        -1 <= i < scenes.len(),
        forall|j: int| i < j < scenes.len() ==> (#[trigger] scenes[j]).source.label_text() != file,
        i >= 0 ==> scenes[i].source.label_text() == file,
    ensures
        references::scene_in(scenes, file) == (if i >= 0 {
            Some(scenes[i].name@)
        } else {
            None
        }),
    decreases scenes.len(),
{
    if scenes.len() > 0 && i < scenes.len() - 1 {
        assert(scenes[scenes.len() - 1].source.label_text() != file);
        a_file_has_its_last_scene(scenes.drop_last(), file, i);
    }
}

/// Whether a text differs from the one before it.
pub open spec fn is_new(texts: Seq<Seq<char>>, i: int) -> bool {
    i == 0 || texts[i - 1] != texts[i]
}

proof fn lemma_deduped(texts: Seq<Seq<char>>, n: int) -> (at: Seq<int>)
    requires
        0 <= n <= texts.len(),
    ensures
        laws::are_positions(at, n, |i: int| is_new(texts, i)),
        ({
            let kept = references::deduped(texts.take(n));
            &&& kept.len() == at.len()
            &&& forall|j: int| 0 <= j < at.len() ==> #[trigger] kept[j] == texts[at[j]]
        }),
    decreases n,
{
    let wanted = |i: int| is_new(texts, i);
    if n == 0 {
        Seq::empty()
    } else {
        let part = texts.take(n);
        assert(part.drop_last() =~= texts.take(n - 1));
        assert(part.last() == texts[n - 1]);
        let before = lemma_deduped(texts, n - 1);
        if n > 1 {
            assert(part[n - 2] == texts[n - 2]);
        }
        if wanted(n - 1) {
            lemma_positions_push(before, n - 1, wanted);
            before.push(n - 1)
        } else {
            lemma_positions_skip(before, n - 1, wanted);
            before
        }
    }
}

/// Of texts that repeat the one before them only the first of each run is kept.
pub proof fn only_repeats_are_dropped(texts: Seq<Seq<char>>) -> (at: Seq<int>)
    ensures
        laws::are_positions(at, texts.len() as int, |i: int| is_new(texts, i)),
        ({
            let kept = references::deduped(texts);
            &&& kept.len() == at.len()
            &&& forall|j: int| 0 <= j < at.len() ==> #[trigger] kept[j] == texts[at[j]]
        }),
{
    assert(texts.take(texts.len() as int) =~= texts);
    lemma_deduped(texts, texts.len() as int)
}

/// A CAB is found in the bundle of its first entry in the catalog, and in none only if
/// it has no entry.
pub proof fn a_cab_is_found_in_its_first_bundle(
    catalog: Seq<CabBundle>,
    cab: Seq<char>,
    i: int,
)
    requires
        0 <= i <= catalog.len(),
        forall|j: int| 0 <= j < i ==> (#[trigger] catalog[j]).cab@ != cab,
        i < catalog.len() ==> catalog[i].cab@ == cab,
    ensures
        file::bundle_of(catalog, cab) == (if i < catalog.len() {
            Some(catalog[i].bundle@)
        } else {
            None
        }),
    decreases catalog.len(),
{
    if i > 0 {
        let rest = catalog.skip(1);
        assert(catalog[0].cab@ != cab);
        assert forall|j: int| 0 <= j < i - 1 implies (#[trigger] rest[j]).cab@ != cab by {
            assert(rest[j] == catalog[j + 1]);
        }
        if i < catalog.len() {
            assert(rest[i - 1] == catalog[i]);
        }
        a_cab_is_found_in_its_first_bundle(rest, cab, i - 1);
    }
}

/// An external file reads as the bundle that the catalog finds for its archive, and as
/// its own path where there is no catalog, no archive or no such bundle.
pub proof fn an_external_file_reads_as_its_bundle(
    catalog: Option<Vec<CabBundle>>,
    external: External,
)
    ensures
        catalog is None || external.archive is None ==> file::readable_name(catalog, external)
            == external.path@,
        catalog matches Some(entries) ==> (external.archive matches Some(cab) ==> {
            &&& file::bundle_of(entries@, cab@) matches Some(name) ==> file::readable_name(
                catalog,
                external,
            ) == name
            &&& file::bundle_of(entries@, cab@) is None ==> file::readable_name(catalog, external)
                == external.path@
        }),
{
}

/// What is told of a file is what its header says: its version, format, byte order, size
/// and counts; its external files are named, all of them and in order, where they are
/// asked for.
pub proof fn a_file_is_described_by_its_header(
    info: FileInfo,
    header: FileHeader,
    catalog: Option<Vec<CabBundle>>,
    externals: bool,
)
    requires
        file::describes(info, header, catalog, externals),
    ensures
        info.unity_version is Some <==> header.unity_version is Some,
        info.unity_version matches Some(version) ==> version@ == header.unity_version->0@,
        info.format_version == header.format_version,
        info.endianness@ == header.endianness@,
        info.file_size == header.file_size,
        info.type_tree == header.type_tree,
        info.types == header.types,
        info.objects == header.objects,
        info.externals == header.externals@.len(),
        !externals ==> info.external_bundles@.len() == 0,
        externals ==> info.external_bundles@.len() == header.externals@.len() && forall|k: int|
            0 <= k < header.externals@.len() ==> (#[trigger] info.external_bundles@[k])@
                == file::readable_name(catalog, header.externals@[k]),
{
    let named = text::texts(info.external_bundles@);
    assert(named.len() == info.external_bundles@.len());
    if externals {
        assert forall|k: int| 0 <= k < header.externals@.len() implies (
        #[trigger] info.external_bundles@[k])@ == file::readable_name(
            catalog,
            header.externals@[k],
        ) by {
            assert(named[k] == info.external_bundles@[k]@);
        }
    }
}

/// Scripts outweigh components, and without either nothing is shown of a GameObject.
pub proof fn scripts_outweigh_components(components: bool)
    ensures
        file::components_for(components, true) == Components::Scripts,
        file::components_for(true, false) == Components::All,
        file::components_for(false, false) == Components::Hidden,
{
}

/// An inline filter outweighs one in a file, and without either an object is dumped as it
/// is.
pub proof fn an_inline_filter_comes_first(args: CatArgs)
    ensures
        args.jq matches Some(filter) ==> file::filter_of(args) == FilterSource::Inline(filter),
        args.jq is None ==> (args.jq_file matches Some(path) ==> file::filter_of(args)
            == FilterSource::File(path)),
        args.jq is None && args.jq_file is None ==> file::filter_of(args) == FilterSource::Absent,
{
}

/// Without a verb a file is described, without its external files; without a verb an
/// object is summarised; `cat` without a filter dumps the annotated value of the object.
pub proof fn verbs_have_their_defaults(
    open: OpenFile,
    path_id: i64,
    args: CatArgs,
    step: Result<Step, String>,
)
    ensures
        file::effective_verb(None) == FileVerb::Info(InfoArgs { externals: false }),
        file::is_object_step(open, path_id, None, step) == file::is_object_step(
            open,
            path_id,
            Some(ObjectVerb::Info),
            step,
        ),
        args.jq is None && args.jq_file is None && file::is_object_step(
            open,
            path_id,
            Some(ObjectVerb::Cat(args)),
            step,
        ) ==> {
            &&& step is Ok <==> (model::object_at(open.scene, Pptr { file_id: 0, path_id }) matches Ok(
                object,
            ) && object.value is Ok)
            &&& step matches Ok(Step::Dump(shown)) ==> shown@ == qualify::qualified(
                open.scene,
                model::object_at(open.scene, Pptr { file_id: 0, path_id })->Ok_0.value->Ok_0@,
            )
        },
{
}

/// A preloaded object is told by its path id; one of this file by its class, one of
/// another by the name of that file, and by its class where it is resolved.
pub proof fn a_preload_is_told_by_class_or_bundle(
    scene: SceneFile,
    externals: Seq<External>,
    catalog: Option<Vec<CabBundle>>,
    pptr: Pptr,
    resolve: bool,
)
    ensures
        ({
            let shown = preloads::preloaded(scene, externals, catalog, pptr, resolve);
            let class = match model::object_at(scene, pptr) {
                Ok(object) => Some(classes::class_text(object.class_id)),
                Err(_) => None,
            };
            &&& shown.path_id == pptr.path_id
            &&& shown.local <==> pptr.file_id == 0
            &&& pptr.file_id == 0 || resolve ==> shown.class == class
            &&& pptr.file_id != 0 && !resolve ==> shown.class is None
            &&& shown.bundle is Some <==> 1 <= pptr.file_id <= externals.len()
            &&& 1 <= pptr.file_id <= externals.len() ==> shown.bundle == Some(
                file::readable_name(catalog, externals[pptr.file_id - 1]),
            )
        }),
{
}

/// Whether an entry of the container is asked for: its address contains the filter.
pub open spec fn is_asked_for(info: AssetInfo, filter: Option<Seq<char>>) -> bool {
    filter matches Some(part) ==> text::has_text(info.address@, part)
}

proof fn lemma_described(
    scene: SceneFile,
    externals: Seq<External>,
    catalog: Option<Vec<CabBundle>>,
    table: Seq<Pptr>,
    container: Seq<AssetInfo>,
    filter: Option<Seq<char>>,
    resolve: bool,
    n: int,
) -> (at: Seq<int>)
    requires
        0 <= n <= container.len(),
    ensures
        laws::are_positions(at, n, |i: int| is_asked_for(container[i], filter)),
        ({
            let shown = preloads::all_described(
                scene,
                externals,
                catalog,
                table,
                container.take(n),
                filter,
                resolve,
            );
            &&& shown.len() == at.len()
            &&& forall|j: int|
                0 <= j < at.len() ==> #[trigger] shown[j] == preloads::described(
                    scene,
                    externals,
                    catalog,
                    table,
                    container[at[j]],
                    resolve,
                )
        }),
    decreases n,
{
    let wanted = |i: int| is_asked_for(container[i], filter);
    if n == 0 {
        Seq::empty()
    } else {
        let part = container.take(n);
        assert(part.drop_last() =~= container.take(n - 1));
        assert(part.last() == container[n - 1]);
        let before = lemma_described(
            scene,
            externals,
            catalog,
            table,
            container,
            filter,
            resolve,
            n - 1,
        );
        if wanted(n - 1) {
            lemma_positions_push(before, n - 1, wanted);
            before.push(n - 1)
        } else {
            lemma_positions_skip(before, n - 1, wanted);
            before
        }
    }
}

/// The preloads of a bundle are shown for exactly the container entries whose address
/// contains the filter, or for all, in order: each with its asset and with the part of
/// the preload table that belongs to it, object by object.
pub proof fn preloads_are_shown_by_address(
    scene: SceneFile,
    externals: Seq<External>,
    catalog: Option<Vec<CabBundle>>,
    table: Seq<Pptr>,
    container: Seq<AssetInfo>,
    filter: Option<Seq<char>>,
    resolve: bool,
) -> (at: Seq<int>)
    ensures
        laws::are_positions(
            at,
            container.len() as int,
            |i: int| is_asked_for(container[i], filter),
        ),
        ({
            let shown = preloads::all_described(
                scene,
                externals,
                catalog,
                table,
                container,
                filter,
                resolve,
            );
            &&& shown.len() == at.len()
            &&& forall|j: int|
                0 <= j < at.len() ==> {
                    let entry = #[trigger] shown[j];
                    let info = container[at[j]];
                    let inside = info.range_start <= info.range_end <= table.len();
                    &&& entry.address == info.address@
                    &&& entry.preload_index == info.preload_index
                    &&& entry.preload_size == info.preload_size
                    &&& entry.asset == preloads::preloaded(
                        scene,
                        externals,
                        catalog,
                        info.asset,
                        resolve,
                    )
                    &&& entry.slice.len() == (if inside {
                        info.range_end - info.range_start
                    } else {
                        0
                    })
                    &&& forall|k: int|
                        0 <= k < entry.slice.len() ==> #[trigger] entry.slice[k]
                            == preloads::preloaded(
                            scene,
                            externals,
                            catalog,
                            table[info.range_start + k],
                            resolve,
                        )
                }
        }),
{
    assert(container.take(container.len() as int) =~= container);
    lemma_described(
        scene,
        externals,
        catalog,
        table,
        container,
        filter,
        resolve,
        container.len() as int,
    )
}

/// Whether a game is meant by a needle: its title, or its directory where it has none,
/// contains the needle, in small letters and without blanks.
pub open spec fn is_meant_game(app: SteamApp, needle: Seq<char>) -> bool {
    text::has_text(
        locate::search_form(
            match app.name {
                Some(name) => name@,
                None => app.install_dir@,
            },
        ),
        needle,
    )
}

/// How long the title of a game is, in small letters and without blanks.
pub open spec fn title_len(app: SteamApp) -> nat {
    vstd::utf8::encode_utf8(
        locate::search_form(
            match app.name {
                Some(name) => name@,
                None => app.install_dir@,
            },
        ),
    ).len()
}

/// Of the games that are meant the one with the shortest title is found, the first of
/// them, and none only if none is meant.
pub proof fn the_closest_game_is_found(apps: Seq<SteamApp>, needle: Seq<char>)
    ensures
        match locate::best_among(apps, needle) {
            Some(b) => {
                &&& 0 <= b < apps.len()
                &&& is_meant_game(apps[b], needle)
                &&& forall|i: int|
                    0 <= i < apps.len() && is_meant_game(#[trigger] apps[i], needle) ==> title_len(
                        apps[b],
                    ) <= title_len(apps[i])
                &&& forall|i: int|
                    0 <= i < b && is_meant_game(#[trigger] apps[i], needle) ==> title_len(apps[b])
                        < title_len(apps[i])
            },
            None => forall|i: int|
                0 <= i < apps.len() ==> !is_meant_game(#[trigger] apps[i], needle),
        },
    decreases apps.len(),
{
    if apps.len() > 0 {
        let before = apps.drop_last();
        the_closest_game_is_found(before, needle);
        assert forall|i: int| 0 <= i < before.len() implies before[i] == #[trigger] apps[i] by {}
    }
}

/// A game is looked for in one library after the other: what is found is in the first
/// that has a game that is meant.
pub proof fn the_first_library_with_a_match_counts(
    libraries: Seq<Vec<SteamApp>>,
    needle: Seq<char>,
)
    ensures
        match locate::found_in(libraries, needle) {
            Some((l, a)) => {
                &&& 0 <= l < libraries.len()
                &&& locate::best_among(libraries[l]@, needle) == Some(a)
                &&& forall|k: int|
                    0 <= k < l ==> locate::best_among((#[trigger] libraries[k])@, needle) is None
            },
            None => forall|k: int|
                0 <= k < libraries.len() ==> locate::best_among(
                    (#[trigger] libraries[k])@,
                    needle,
                ) is None,
        },
    decreases libraries.len(),
{
    if libraries.len() > 0 {
        let before = libraries.drop_last();
        the_first_library_with_a_match_counts(before, needle);
        assert forall|i: int| 0 <= i < before.len() implies before[i] == #[trigger] libraries[i] by {}
    }
}

/// Blanks do not count where a game is looked for, nor does the case of its letters.
pub proof fn blanks_and_capitals_do_not_count(a: Seq<char>, b: Seq<char>, c: char)
    ensures
        text::is_space(c) ==> locate::without_space(a.push(c) + b) == locate::without_space(a + b),
        !text::is_space(c) ==> locate::without_space(a.push(c)) == locate::without_space(a).push(c),
        locate::search_form(text::ascii_lower(a)) == locate::search_form(a),
    decreases b.len(),
{
    assert(a.push(c).drop_last() =~= a);
    assert(text::ascii_lower(text::ascii_lower(a)) =~= text::ascii_lower(a));
    if b.len() == 0 {
        assert(a.push(c) + b =~= a.push(c));
        assert(a + b =~= a);
    } else {
        blanks_and_capitals_do_not_count(a, b.drop_last(), c);
        assert((a.push(c) + b).drop_last() =~= a.push(c) + b.drop_last());
        assert((a + b).drop_last() =~= a + b.drop_last());
        assert((a.push(c) + b).last() == b.last());
        assert((a + b).last() == b.last());
    }
}

} // verus!
