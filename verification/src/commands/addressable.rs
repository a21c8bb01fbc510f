//! The `addressable <key>` command: where a key's data lives. Resolving a key to a
//! bundle and path id is [`crate::ctx::open_addressable`].

use vstd::prelude::*;

use crate::commands::file::show_property;
use crate::ctx::{find_locations, location_bundle, Catalog, Dependency, Location, Provider};
use crate::number::show_usize;
use crate::output::{style, Render};
use crate::{commands, ctx, number, text};

verus! {

/// One catalog location a key resolves to.
#[derive(Debug, PartialEq, Eq)]
pub struct AddressableLocation {
    pub asset_type: String,
    pub primary_key: String,
    pub internal_id: String,
    pub provider: String,
    pub bundle: Option<String>,
    /// Total dependency bundles (`bundle` plus the shared bundles it transitively
    /// references).
    pub dependencies: usize,
    /// The dependency bundle labels; only populated with `--dependencies`.
    pub dependency_labels: Vec<String>,
}

/// The catalog location(s) an addressables key resolves to.
#[derive(Debug, PartialEq, Eq)]
pub struct AddressableInfo {
    pub key: String,
    pub locations: Vec<AddressableLocation>,
}

/// The lines of dependency labels.
pub open spec fn label_lines(labels: Seq<Seq<char>>, color: bool) -> Seq<char>
    decreases labels.len(),
{
    if labels.len() == 0 {
        Seq::empty()
    } else {
        label_lines(labels.drop_last(), color) + "    "@ + style::dim_text(labels.last(), color)
            + "\n"@
    }
}

/// The lines of one location.
pub open spec fn location_lines(location: AddressableLocation, color: bool) -> Seq<char> {
    commands::file::property_line(
        "type:"@,
        14,
        style::class_text(location.asset_type@, color),
    ) + commands::file::property_line("primary key:"@, 14, location.primary_key@)
        + commands::file::property_line("internal id:"@, 14, location.internal_id@)
        + commands::file::property_line(
        "provider:"@,
        14,
        style::class_text(location.provider@, color),
    ) + (match location.bundle {
        Some(bundle) => commands::file::property_line("bundle:"@, 14, bundle@),
        None => Seq::empty(),
    }) + (if location.dependencies > 0 {
        commands::file::property_line(
            "dependencies:"@,
            14,
            number::decimal(location.dependencies as nat),
        ) + label_lines(text::texts(location.dependency_labels@), color)
    } else {
        Seq::empty()
    })
}

/// The lines of locations, with an empty line between them.
pub open spec fn all_location_lines(locations: Seq<AddressableLocation>, color: bool) -> Seq<char>
    decreases locations.len(),
{
    if locations.len() == 0 {
        Seq::empty()
    } else {
        all_location_lines(locations.drop_last(), color) + (if locations.len() > 1 {
            "\n"@
        } else {
            Seq::empty()
        }) + location_lines(locations.last(), color)
    }
}

impl AddressableLocation {
    #[verifier::loop_isolation(false)]
    fn lines(&self, color: bool) -> (out: String)
        ensures
            out@ == location_lines(*self, color),
    {
        let asset_type = style::class(self.asset_type.as_str(), color);
        let mut out = show_property("type:", 14, asset_type.as_str());
        out.append(show_property("primary key:", 14, self.primary_key.as_str()).as_str());
        out.append(show_property("internal id:", 14, self.internal_id.as_str()).as_str());
        let provider = style::class(self.provider.as_str(), color);
        out.append(show_property("provider:", 14, provider.as_str()).as_str());
        if let Some(bundle) = &self.bundle {
            out.append(show_property("bundle:", 14, bundle.as_str()).as_str());
        } else {
            assert(out@ + Seq::<char>::empty() =~= out@);
        }
        // The full set of bundles needed for this asset (its own bundle plus the
        // shared bundles it transitively references) is often huge — show the count,
        // and only list them with `--dependencies`.
        if self.dependencies > 0 {
            let count = show_usize(self.dependencies);
            let mut part = show_property("dependencies:", 14, count.as_str());
            let ghost head = part@;
            let ghost all = text::texts(self.dependency_labels@);
            let mut i: usize = 0;
            assert(part@ =~= head + label_lines(all.take(0), color));
            while i < self.dependency_labels.len()
                invariant
                    i <= self.dependency_labels@.len(),
                    all == text::texts(self.dependency_labels@),
                    part@ == head + label_lines(all.take(i as int), color),
                decreases self.dependency_labels@.len() - i,
            {
                assert(all.take(i + 1).drop_last() =~= all.take(i as int));
                part.append("    ");
                part.append(style::dim(self.dependency_labels[i].as_str(), color).as_str());
                part.append("\n");
                assert(part@ =~= head + label_lines(all.take(i + 1), color));
                i += 1;
            }
            assert(all.take(i as int) =~= all);
            out.append(part.as_str());
        } else {
            assert(out@ + Seq::<char>::empty() =~= out@);
        }
        out
    }
}

impl Render for AddressableInfo {
    open spec fn text(&self, color: bool) -> Seq<char> {
        style::name_text(self.key@, color) + " "@ + style::dim_text(
            Seq::<char>::empty() + "("@ + number::decimal(self.locations@.len()) + (
            if self.locations@.len() == 1 {
                " location"@
            } else {
                " locations"@
            }) + ")"@,
            color,
        ) + "\n"@ + all_location_lines(self.locations@, color)
    }

    #[verifier::loop_isolation(false)]
    fn render(&self, color: bool) -> (out: String) {
        let mut out = style::name(self.key.as_str(), color);
        out.append(" ");
        let mut count = String::new();
        count.append("(");
        count.append(show_usize(self.locations.len()).as_str());
        if self.locations.len() == 1 {
            count.append(" location");
        } else {
            count.append(" locations");
        }
        count.append(")");
        out.append(style::dim(count.as_str(), color).as_str());
        out.append("\n");
        let ghost head = out@;
        let ghost all = self.locations@;
        let mut i: usize = 0;
        assert(out@ =~= head + all_location_lines(all.take(0), color));
        while i < self.locations.len()
            invariant
                i <= all.len(),
                all == self.locations@,
                out@ == head + all_location_lines(all.take(i as int), color),
            decreases all.len() - i,
        {
            assert(all.take(i + 1).drop_last() =~= all.take(i as int));
            if i > 0 {
                out.append("\n");
            }
            out.append(self.locations[i].lines(color).as_str());
            assert(out@ =~= head + all_location_lines(all.take(i + 1), color));
            i += 1;
        }
        assert(all.take(i as int) =~= all);
        out
    }
}

/// A dependency's display label.
pub open spec fn label_of(dependency: Dependency) -> Seq<char> {
    if dependency.provider == Provider::AssetBundle {
        dependency.relative@
    } else {
        Seq::<char>::empty() + dependency.id@ + "  ("@ + dependency.provider_name@ + ")"@
    }
}

/// A dependency's display label: its bundle path (relative to the build folder) if
/// it is an `AssetBundle`, else its evaluated internal id plus provider.
pub fn dependency_label(dependency: &Dependency) -> (r: String)
    ensures
        r@ == label_of(*dependency),
{
    if dependency.provider == Provider::AssetBundle {
        dependency.relative.clone()
    } else {
        let mut out = String::new();
        out.append(dependency.id.as_str());
        out.append("  (");
        out.append(dependency.provider_name.as_str());
        out.append(")");
        out
    }
}

/// The labels of dependencies.
pub open spec fn labels_of(dependencies: Seq<Dependency>) -> Seq<Seq<char>> {
    dependencies.map_values(|d: Dependency| label_of(d))
}

/// Whether `shown` is how a location is shown.
pub open spec fn shows_location(
    shown: AddressableLocation,
    location: Location,
    list_deps: bool,
) -> bool {
    &&& shown.asset_type@ == location.asset_type@
    &&& shown.primary_key@ == location.primary_key@
    &&& shown.internal_id@ == location.id@
    &&& shown.provider@ == location.provider_name@
    &&& text::text_opt(shown.bundle) == ctx::bundle_of(location)
    &&& shown.dependencies == location.dependencies@.len()
    &&& text::texts(shown.dependency_labels@) == (if list_deps {
        labels_of(location.dependencies@)
    } else {
        Seq::empty()
    })
}

#[verifier::loop_isolation(false)]
fn show_location(location: &Location, list_deps: bool) -> (r: AddressableLocation)
    ensures
        shows_location(r, *location, list_deps),
{
    let mut labels: Vec<String> = Vec::new();
    if list_deps {
        let mut i: usize = 0;
        while i < location.dependencies.len()
            invariant
                i <= location.dependencies@.len(),
                labels@.len() == i,
                forall|k: int|
                    0 <= k < i ==> (#[trigger] labels@[k])@ == label_of(location.dependencies@[k]),
            decreases location.dependencies@.len() - i,
        {
            labels.push(dependency_label(&location.dependencies[i]));
            i += 1;
        }
        assert(text::texts(labels@) =~= labels_of(location.dependencies@));
    } else {
        assert(text::texts(labels@) =~= Seq::empty());
    }
    AddressableLocation {
        asset_type: location.asset_type.clone(),
        primary_key: location.primary_key.clone(),
        internal_id: location.id.clone(),
        provider: location.provider_name.clone(),
        bundle: location_bundle(location),
        dependencies: location.dependencies.len(),
        dependency_labels: labels,
    }
}

/// Whether `info` shows all locations of a key.
pub open spec fn shows_key(
    info: AddressableInfo,
    locations: Seq<Location>,
    key: Seq<char>,
    list_deps: bool,
) -> bool {
    &&& info.key@ == key
    &&& info.locations@.len() == locations.len()
    &&& forall|i: int|
        0 <= i < locations.len() ==> shows_location(
            #[trigger] info.locations@[i],
            locations[i],
            list_deps,
        )
}

/// Looks up an addressables key in the catalogs (if the game has any) and builds
/// the location(s) it maps to — the same set `Addressables.Load*(key)` would
/// resolve. A key can map to several assets (it may be a label), so each is listed
/// with its type, internal id and bundle.
#[verifier::loop_isolation(false)]
pub fn addressable_info(catalogs: &Option<Vec<Catalog>>, key: &str, list_deps: bool) -> (r: Result<
    AddressableInfo,
    String,
>)
    ensures
        match *catalogs {
            Some(catalogs) => {
                let found = ctx::locations_for(catalogs@, key@);
                if found.len() == 0 {
                    r matches Err(e) && e@ == ctx::no_addressable_text(key@)
                } else {
                    r matches Ok(info) && shows_key(info, found, key@, list_deps)
                }
            },
            None => r matches Err(e) && e@ == ctx::no_addressables_text(),
        },
{
    let catalogs = match catalogs {
        Some(catalogs) => catalogs,
        None => {
            return Err("this game has no addressables".to_owned());
        },
    };
    let raw = find_locations(catalogs, key);
    let ghost all = ctx::pointees(raw@);
    if raw.len() == 0 {
        let mut e = String::new();
        e.append("no addressable with key '");
        e.append(key);
        e.append("'");
        return Err(e);
    }
    let mut locations: Vec<AddressableLocation> = Vec::new();
    let mut i: usize = 0;
    while i < raw.len()
        invariant
            i <= raw@.len(),
            all == ctx::pointees(raw@),
            locations@.len() == i,
            forall|k: int|
                0 <= k < i ==> shows_location(#[trigger] locations@[k], all[k], list_deps),
        decreases raw@.len() - i,
    {
        assert(all[i as int] == *raw@[i as int]);
        locations.push(show_location(raw[i], list_deps));
        i += 1;
    }
    Ok(AddressableInfo { key: key.to_owned(), locations })
}

} // verus!
