//! The `preloads` file verb: an `AssetBundle`'s preload table, grouped by container
//! entry (addressable asset).

use vstd::prelude::*;

use super::{bundle_name, CabBundle, External};
use crate::classes::class_label;
use crate::model::{Pptr, SceneFile};
use crate::number::{show_i64, show_usize};
use crate::output::{render_lines, style, Line, Render};
use crate::text::{align_left, contains, copy_texts};
use crate::{classes, model, number, output, text};

verus! {

/// An `AssetBundle` object.
#[derive(Debug, PartialEq, Eq)]
pub struct AssetBundle {
    pub preload_table: Vec<Pptr>,
    /// The container entries, in the order in which they are shown.
    pub container: Vec<AssetInfo>,
    pub dependencies: Vec<String>,
}

/// A container entry: an address, its main asset, and its part of the preload
/// table.
#[derive(Debug, PartialEq, Eq)]
pub struct AssetInfo {
    pub address: String,
    pub asset: Pptr,
    pub preload_index: i32,
    pub preload_size: i32,
    /// The range of the preload table that index and size stand for.
    pub range_start: usize,
    pub range_end: usize,
}

/// One preloaded object: where it lives and (when resolvable) its class.
#[derive(Debug, PartialEq, Eq)]
pub struct PreloadRef {
    /// `true` for objects in this CAB, `false` for objects in a dependency bundle.
    pub local: bool,
    pub path_id: i64,
    /// Class name; `None` for externals unless `--resolve` loaded the dependency
    /// bundle.
    pub class: Option<String>,
    /// Readable dependency-bundle name for externals (else its archive path).
    pub bundle: Option<String>,
}

/// What a [`PreloadRef`] says.
#[verifier::ext_equal]
pub struct PreloadRefView {
    pub local: bool,
    pub path_id: i64,
    pub class: Option<Seq<char>>,
    pub bundle: Option<Seq<char>>,
}

impl View for PreloadRef {
    type V = PreloadRefView;

    open spec fn view(&self) -> PreloadRefView {
        PreloadRefView {
            local: self.local,
            path_id: self.path_id,
            class: text::text_opt(self.class),
            bundle: text::text_opt(self.bundle),
        }
    }
}

/// What preloaded objects say.
pub open spec fn ref_views(refs: Seq<PreloadRef>) -> Seq<PreloadRefView> {
    refs.map_values(|r: PreloadRef| r@)
}

/// A container entry (addressable asset) and its preload-table slice.
#[derive(Debug, PartialEq, Eq)]
pub struct PreloadEntry {
    pub address: String,
    pub asset: PreloadRef,
    pub preload_index: i32,
    pub preload_size: i32,
    pub slice: Vec<PreloadRef>,
}

/// What a [`PreloadEntry`] says.
#[verifier::ext_equal]
pub struct PreloadEntryView {
    pub address: Seq<char>,
    pub asset: PreloadRefView,
    pub preload_index: i32,
    pub preload_size: i32,
    pub slice: Seq<PreloadRefView>,
}

impl View for PreloadEntry {
    type V = PreloadEntryView;

    open spec fn view(&self) -> PreloadEntryView {
        PreloadEntryView {
            address: self.address@,
            asset: self.asset@,
            preload_index: self.preload_index,
            preload_size: self.preload_size,
            slice: ref_views(self.slice@),
        }
    }
}

/// What entries say.
pub open spec fn entry_views(entries: Seq<PreloadEntry>) -> Seq<PreloadEntryView> {
    entries.map_values(|entry: PreloadEntry| entry@)
}

/// An `AssetBundle`'s preload table, grouped by container entry.
#[derive(Debug, PartialEq, Eq)]
pub struct Preloads {
    pub preload_table_len: usize,
    pub container_len: usize,
    pub dependencies: Vec<String>,
    pub entries: Vec<PreloadEntry>,
}

/// How a preloaded object is printed.
pub open spec fn ref_text(r: PreloadRefView, color: bool) -> Seq<char> {
    let shown = style::dim_text(
        if r.local {
            "local  "@
        } else {
            "EXT    "@
        },
        color,
    ) + style::class_text(
        text::left_aligned(
            match r.class {
                Some(class) => class,
                None => "?"@,
            },
            22,
        ),
        color,
    ) + " "@ + style::dim_text(
        Seq::<char>::empty() + "#"@ + number::signed_decimal(r.path_id as int),
        color,
    );
    match r.bundle {
        Some(bundle) => shown + "  "@ + style::dim_text(
            Seq::<char>::empty() + "@ "@ + bundle,
            color,
        ),
        None => shown,
    }
}

/// Prints a preloaded object.
pub fn render_ref(r: &PreloadRef, color: bool) -> (out: String)
    ensures
        out@ == ref_text(r@, color),
{
    let mut out = style::dim(
        if r.local {
            "local  "
        } else {
            "EXT    "
        },
        color,
    );
    let class = match &r.class {
        Some(class) => align_left(class.as_str(), 22),
        None => align_left("?", 22),
    };
    out.append(style::class(class.as_str(), color).as_str());
    out.append(" ");
    let mut id = String::new();
    id.append("#");
    id.append(show_i64(r.path_id).as_str());
    out.append(style::dim(id.as_str(), color).as_str());
    if let Some(bundle) = &r.bundle {
        out.append("  ");
        let mut at = String::new();
        at.append("@ ");
        at.append(bundle.as_str());
        out.append(style::dim(at.as_str(), color).as_str());
    }
    out
}

impl Line for PreloadRef {
    open spec fn line_text(&self, color: bool) -> Seq<char> {
        Seq::<char>::empty() + "    "@ + ref_text(self@, color) + "\n"@
    }

    fn line(&self, color: bool) -> (out: String) {
        let mut out = String::new();
        out.append("    ");
        out.append(render_ref(self, color).as_str());
        out.append("\n");
        out
    }
}

impl Line for PreloadEntry {
    open spec fn line_text(&self, color: bool) -> Seq<char> {
        Seq::<char>::empty() + "\n■ "@ + style::name_text(self.address@, color) + "  "@
            + style::dim_text(
            Seq::<char>::empty() + "["@ + number::signed_decimal(self.preload_index as int) + ".."@
                + number::signed_decimal(self.preload_index + self.preload_size) + "] ("@
                + number::signed_decimal(self.preload_size as int) + " object(s))"@,
            color,
        ) + "\n"@ + "  asset: "@ + ref_text(self.asset@, color) + "\n"@ + output::item_lines(
            self.slice@,
            color,
        )
    }

    fn line(&self, color: bool) -> (out: String) {
        let mut out = String::new();
        out.append("\n■ ");
        out.append(style::name(self.address.as_str(), color).as_str());
        out.append("  ");
        let mut range = String::new();
        range.append("[");
        range.append(show_i64(self.preload_index as i64).as_str());
        range.append("..");
        range.append(show_i64(self.preload_index as i64 + self.preload_size as i64).as_str());
        range.append("] (");
        range.append(show_i64(self.preload_size as i64).as_str());
        range.append(" object(s))");
        out.append(style::dim(range.as_str(), color).as_str());
        out.append("\n");
        out.append("  asset: ");
        out.append(render_ref(&self.asset, color).as_str());
        out.append("\n");
        out.append(render_lines(&self.slice, color).as_str());
        out
    }
}

impl Render for Preloads {
    open spec fn text(&self, color: bool) -> Seq<char> {
        style::header_text(
            Seq::<char>::empty() + "preload table: "@ + number::decimal(
                self.preload_table_len as nat,
            ) + " entries, container: "@ + number::decimal(self.container_len as nat)
                + " entries, "@ + number::decimal(self.dependencies@.len())
                + " dependency bundle(s)"@,
            color,
        ) + "\n"@ + output::item_lines(self.entries@, color)
    }

    fn render(&self, color: bool) -> (out: String) {
        let mut title = String::new();
        title.append("preload table: ");
        title.append(show_usize(self.preload_table_len).as_str());
        title.append(" entries, container: ");
        title.append(show_usize(self.container_len).as_str());
        title.append(" entries, ");
        title.append(show_usize(self.dependencies.len()).as_str());
        title.append(" dependency bundle(s)");
        let mut out = style::header(title.as_str(), color);
        out.append("\n");
        out.append(render_lines(&self.entries, color).as_str());
        out
    }
}

/// The external file that a pointer leads into.
pub open spec fn external_for(externals: Seq<External>, pptr: Pptr) -> Option<External> {
    if 1 <= pptr.file_id <= externals.len() {
        Some(externals[pptr.file_id - 1])
    } else {
        None
    }
}

/// The class of the object that a pointer leads to, if it leads to one.
pub open spec fn class_at(file: SceneFile, pptr: Pptr) -> Option<Seq<char>> {
    match model::object_at(file, pptr) {
        Ok(object) => Some(classes::class_text(object.class_id)),
        Err(_) => None,
    }
}

/// How a preloaded object is described.
pub open spec fn preloaded(
    file: SceneFile,
    externals: Seq<External>,
    catalog: Option<Vec<CabBundle>>,
    pptr: Pptr,
    resolve: bool,
) -> PreloadRefView {
    if pptr.file_id == 0 {
        PreloadRefView {
            local: true,
            path_id: pptr.path_id,
            class: class_at(file, pptr),
            bundle: None,
        }
    } else {
        PreloadRefView {
            local: false,
            path_id: pptr.path_id,
            class: if resolve {
                class_at(file, pptr)
            } else {
                None
            },
            bundle: match external_for(externals, pptr) {
                Some(external) => Some(super::readable_name(catalog, external)),
                None => None,
            },
        }
    }
}

/// The external file that a pointer leads into.
pub fn file_identifier(externals: &Vec<External>, pptr: Pptr) -> (r: Option<&External>)
    ensures
        match r {
            Some(external) => external_for(externals@, pptr) == Some(*external),
            None => external_for(externals@, pptr) is None,
        },
{
    if pptr.file_id >= 1 {
        let index: usize = (pptr.file_id - 1) as usize;
        if index < externals.len() {
            return Some(&externals[index]);
        }
    }
    None
}

/// The class of the object that a pointer leads to, if it leads to one.
fn target_class(file: &SceneFile, pptr: Pptr) -> (r: Option<String>)
    ensures
        text::text_opt(r) == class_at(*file, pptr),
{
    match file.object_at(pptr) {
        Ok(object) => Some(class_label(object.class_id)),
        Err(_) => None,
    }
}

/// Builds a [`PreloadRef`] for a PPtr. Local class ids are cheap (header lookup);
/// external class ids are only resolved when `resolve` is set (loads the dep
/// bundle).
pub fn preload_ref(
    file: &SceneFile,
    externals: &Vec<External>,
    catalog: &Option<Vec<CabBundle>>,
    pptr: Pptr,
    resolve: bool,
) -> (r: PreloadRef)
    ensures
        r@ == preloaded(*file, externals@, *catalog, pptr, resolve),
{
    if pptr.is_local() {
        PreloadRef {
            local: true,
            path_id: pptr.path_id,
            class: target_class(file, pptr),
            bundle: None,
        }
    } else {
        let bundle: Option<String> = match file_identifier(externals, pptr) {
            Some(external) => Some(bundle_name(catalog, external)),
            None => None,
        };
        let class: Option<String> = if resolve {
            target_class(file, pptr)
        } else {
            None
        };
        PreloadRef { local: false, path_id: pptr.path_id, class, bundle }
    }
}

/// How preloaded objects are described.
pub open spec fn all_preloaded(
    file: SceneFile,
    externals: Seq<External>,
    catalog: Option<Vec<CabBundle>>,
    pptrs: Seq<Pptr>,
    resolve: bool,
) -> Seq<PreloadRefView> {
    pptrs.map_values(|pptr: Pptr| preloaded(file, externals, catalog, pptr, resolve))
}

/// The part of the preload table that belongs to an entry; nothing where its range
/// is not within the table.
pub open spec fn slice_of(table: Seq<Pptr>, info: AssetInfo) -> Seq<Pptr> {
    if info.range_start <= info.range_end <= table.len() {
        table.subrange(info.range_start as int, info.range_end as int)
    } else {
        Seq::empty()
    }
}

/// How a container entry is described.
pub open spec fn described(
    file: SceneFile,
    externals: Seq<External>,
    catalog: Option<Vec<CabBundle>>,
    table: Seq<Pptr>,
    info: AssetInfo,
    resolve: bool,
) -> PreloadEntryView {
    PreloadEntryView {
        address: info.address@,
        asset: preloaded(file, externals, catalog, info.asset, resolve),
        preload_index: info.preload_index,
        preload_size: info.preload_size,
        slice: all_preloaded(file, externals, catalog, slice_of(table, info), resolve),
    }
}

/// How the container entries whose address contains the filter are described.
pub open spec fn all_described(
    file: SceneFile,
    externals: Seq<External>,
    catalog: Option<Vec<CabBundle>>,
    table: Seq<Pptr>,
    container: Seq<AssetInfo>,
    filter: Option<Seq<char>>,
    resolve: bool,
) -> Seq<PreloadEntryView>
    decreases container.len(),
{
    if container.len() == 0 {
        Seq::empty()
    } else {
        let before = all_described(
            file,
            externals,
            catalog,
            table,
            container.drop_last(),
            filter,
            resolve,
        );
        let last = container.last();
        if filter is None || text::has_text(last.address@, filter->0) {
            before.push(described(file, externals, catalog, table, last, resolve))
        } else {
            before
        }
    }
}

/// Whether `r` shows a file's `AssetBundle`.
pub open spec fn shows(
    r: Preloads,
    file: SceneFile,
    externals: Seq<External>,
    catalog: Option<Vec<CabBundle>>,
    bundle: AssetBundle,
    filter: Option<Seq<char>>,
    resolve: bool,
) -> bool {
    &&& r.preload_table_len == bundle.preload_table@.len()
    &&& r.container_len == bundle.container@.len()
    &&& text::texts(r.dependencies@) == text::texts(bundle.dependencies@)
    &&& entry_views(r.entries@) == all_described(
        file,
        externals,
        catalog,
        bundle.preload_table@,
        bundle.container@,
        filter,
        resolve,
    )
}

/// Builds the refs of a part of the preload table.
#[verifier::loop_isolation(false)]
fn preload_slice(
    file: &SceneFile,
    externals: &Vec<External>,
    catalog: &Option<Vec<CabBundle>>,
    table: &Vec<Pptr>,
    info: &AssetInfo,
    resolve: bool,
) -> (out: Vec<PreloadRef>)
    ensures
        ref_views(out@) == all_preloaded(
            *file,
            externals@,
            *catalog,
            slice_of(table@, *info),
            resolve,
        ),
{
    let mut out: Vec<PreloadRef> = Vec::new();
    if info.range_start <= info.range_end && info.range_end <= table.len() {
        let ghost part = slice_of(table@, *info);
        let mut i: usize = info.range_start;
        while i < info.range_end
            invariant
                info.range_start <= i <= info.range_end <= table@.len(),
                out@.len() == i - info.range_start,
                forall|k: int|
                    0 <= k < out@.len() ==> (#[trigger] out@[k])@ == preloaded(
                        *file,
                        externals@,
                        *catalog,
                        table@[info.range_start + k],
                        resolve,
                    ),
            decreases info.range_end - i,
        {
            out.push(preload_ref(file, externals, catalog, table[i], resolve));
            i += 1;
        }
    }
    assert(ref_views(out@) =~= all_preloaded(
        *file,
        externals@,
        *catalog,
        slice_of(table@, *info),
        resolve,
    ));
    out
}

/// Builds the [`Preloads`] view of a file's `AssetBundle` object, if it has one.
#[verifier::loop_isolation(false)]
pub fn preloads(
    file: &SceneFile,
    externals: &Vec<External>,
    catalog: &Option<Vec<CabBundle>>,
    asset_bundle: &Result<Option<AssetBundle>, String>,
    address_filter: Option<&str>,
    resolve: bool,
) -> (r: Result<Preloads, String>)
    ensures
        match *asset_bundle {
            Ok(Some(bundle)) => r matches Ok(out) && shows(
                out,
                *file,
                externals@,
                *catalog,
                bundle,
                super::str_opt(address_filter),
                resolve,
            ),
            Ok(None) => r matches Err(e) && e@
                == "file has no AssetBundle object (not a bundle's main CAB?)"@,
            Err(reason) => r matches Err(e) && e@ == reason@,
        },
{
    let bundle = match asset_bundle {
        Ok(Some(bundle)) => bundle,
        Ok(None) => {
            return Err("file has no AssetBundle object (not a bundle's main CAB?)".to_owned());
        },
        Err(e) => {
            return Err(e.clone());
        },
    };
    let ghost filter = super::str_opt(address_filter);
    let ghost all = bundle.container@;
    let ghost table = bundle.preload_table@;
    let mut entries: Vec<PreloadEntry> = Vec::new();
    let mut i: usize = 0;
    assert(entry_views(entries@) =~= Seq::empty());
    while i < bundle.container.len()
        invariant
            i <= all.len(),
            all == bundle.container@,
            table == bundle.preload_table@,
            entry_views(entries@) == all_described(
                *file,
                externals@,
                *catalog,
                table,
                all.take(i as int),
                filter,
                resolve,
            ),
        decreases all.len() - i,
    {
        assert(all.take(i + 1).drop_last() =~= all.take(i as int));
        let info = &bundle.container[i];
        let keep: bool = match address_filter {
            Some(f) => contains(info.address.as_str(), f),
            None => true,
        };
        if keep {
            let entry = PreloadEntry {
                address: info.address.clone(),
                asset: preload_ref(file, externals, catalog, info.asset, resolve),
                preload_index: info.preload_index,
                preload_size: info.preload_size,
                slice: preload_slice(
                    file,
                    externals,
                    catalog,
                    &bundle.preload_table,
                    info,
                    resolve,
                ),
            };
            let ghost before = entries@;
            entries.push(entry);
            assert(entry_views(entries@) =~= entry_views(before).push(entry@));
        }
        i += 1;
    }
    assert(all.take(i as int) =~= all);
    Ok(
        Preloads {
            preload_table_len: bundle.preload_table.len(),
            container_len: bundle.container.len(),
            dependencies: copy_texts(&bundle.dependencies),
            entries,
        },
    )
}

} // verus!
