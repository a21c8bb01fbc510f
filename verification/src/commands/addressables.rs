//! The `addressables` commands: the key listing (`list`) and the catalog overview
//! (`stats`). The key data comes from [`crate::ctx::addressable_keys`].

use std::collections::HashSet;

use vstd::prelude::*;

use crate::ctx::{Catalog, Location};
use crate::group::{Group, Groups};
use crate::number::show_usize;
use crate::output::{render_lines, style, Line, Render};
use crate::sort::{sort, Sortable};
use crate::text::{align_right, copy_texts, join, less, same};
use crate::{ctx, number, output, qualify, sort, text};

verus! {

/// A name and how often it occurs.
#[derive(Debug, PartialEq, Eq)]
pub struct Count {
    pub name: String,
    pub count: usize,
}

impl Sortable for Count {
    /// By count descending, then name ascending.
    open spec fn below(self, other: Count) -> bool {
        if self.count != other.count {
            self.count > other.count
        } else {
            text::sorts_before(self.name@, other.name@)
        }
    }

    proof fn below_is_asymmetric(a: Count, b: Count) {
        sort::lemma_text_order(a.name@, b.name@);
    }

    proof fn not_below_is_transitive(a: Count, b: Count, c: Count) {
        sort::lemma_text_order(a.name@, b.name@);
        sort::lemma_text_order(b.name@, c.name@);
        if a.below(c) && a.count == b.count && b.count == c.count {
            if text::sorts_before(b.name@, a.name@) {
                sort::lemma_text_order_transitive(b.name@, a.name@, c.name@);
            }
        }
    }

    fn is_below(&self, other: &Count) -> (r: bool) {
        if self.count != other.count {
            self.count > other.count
        } else {
            less(self.name.as_str(), other.name.as_str())
        }
    }
}

impl Line for Count {
    open spec fn line_text(&self, color: bool) -> Seq<char> {
        Seq::<char>::empty() + "    "@ + style::dim_text(
            text::right_aligned(number::decimal(self.count as nat), 6),
            color,
        ) + "  "@ + style::class_text(self.name@, color) + "\n"@
    }

    fn line(&self, color: bool) -> (out: String) {
        let mut out = String::new();
        out.append("    ");
        let count = align_right(show_usize(self.count).as_str(), 6);
        out.append(style::dim(count.as_str(), color).as_str());
        out.append("  ");
        out.append(style::class(self.name.as_str(), color).as_str());
        out.append("\n");
        out
    }
}

/// Catalog overview: counts plus a breakdown of locations by provider and type.
#[derive(Debug, PartialEq, Eq)]
pub struct AddressableStats {
    pub catalogs: usize,
    pub keys: usize,
    pub locations: usize,
    pub location_refs: usize,
    pub bundles: usize,
    /// Sorted by count descending then name.
    pub by_provider: Vec<Count>,
    pub by_type: Vec<Count>,
}

/// A breakdown under a heading.
pub open spec fn breakdown_text(heading: Seq<char>, entries: Seq<Count>, color: bool) -> Seq<char> {
    Seq::<char>::empty() + "\n  "@ + heading + ":\n"@ + output::item_lines(entries, color)
}

/// Prints a `name → count` breakdown under a heading.
pub fn render_breakdown(heading: &str, entries: &Vec<Count>, color: bool) -> (out: String)
    ensures
        out@ == breakdown_text(heading@, entries@, color),
{
    let mut out = String::new();
    out.append("\n  ");
    out.append(heading);
    out.append(":\n");
    out.append(render_lines(entries, color).as_str());
    out
}

impl Render for AddressableStats {
    open spec fn text(&self, color: bool) -> Seq<char> {
        style::header_text("addressables"@, color) + "\n  catalogs:  "@ + number::decimal(
            self.catalogs as nat,
        ) + "\n  keys:      "@ + number::decimal(self.keys as nat) + "\n  locations: "@
            + number::decimal(self.locations as nat) + " ("@ + number::decimal(
            self.location_refs as nat,
        ) + " refs)\n  bundles:   "@ + number::decimal(self.bundles as nat) + "\n"@
            + breakdown_text("by provider"@, self.by_provider@, color) + breakdown_text(
            "by type"@,
            self.by_type@,
            color,
        )
    }

    fn render(&self, color: bool) -> (out: String) {
        let mut out = style::header("addressables", color);
        out.append("\n  catalogs:  ");
        out.append(show_usize(self.catalogs).as_str());
        out.append("\n  keys:      ");
        out.append(show_usize(self.keys).as_str());
        out.append("\n  locations: ");
        out.append(show_usize(self.locations).as_str());
        out.append(" (");
        out.append(show_usize(self.location_refs).as_str());
        out.append(" refs)\n  bundles:   ");
        out.append(show_usize(self.bundles).as_str());
        out.append("\n");
        out.append(render_breakdown("by provider", &self.by_provider, color).as_str());
        out.append(render_breakdown("by type", &self.by_type, color).as_str());
        out
    }
}

/// Sorts a `name → count` list by count descending, then name ascending.
pub fn sorted_breakdown(counts: Vec<Count>) -> (r: Vec<Count>)
    ensures
        r@ == sort::sorted(counts@),
{
    sort(counts)
}

/// Whether every name is counted once, and counted right.
pub open spec fn is_tally(counts: Seq<Count>, names: Seq<Seq<char>>) -> bool {
    &&& forall|i: int|
        0 <= i < counts.len() ==> (#[trigger] counts[i]).count == qualify::occurrences(
            names,
            counts[i].name@,
        ) && counts[i].count > 0
    &&& forall|i: int, j: int|
        0 <= i < j < counts.len() ==> (#[trigger] counts[i]).name@ != (
        #[trigger] counts[j]).name@
    &&& forall|n: int|
        0 <= n < names.len() ==> exists|i: int|
            0 <= i < counts.len() && (#[trigger] counts[i]).name@ == #[trigger] names[n]
}

/// Whether a breakdown is the tally of names, in order.
pub open spec fn is_breakdown(counts: Seq<Count>, names: Seq<Seq<char>>) -> bool {
    is_tally(counts, names) && sort::in_order(counts)
}

proof fn lemma_occurs_within(names: Seq<Seq<char>>, name: Seq<char>)
    ensures
        qualify::occurrences(names, name) <= names.len(),
        names.contains(name) <==> qualify::occurrences(names, name) > 0,
    decreases names.len(),
{
    if names.len() > 0 {
        let before = names.drop_last();
        lemma_occurs_within(before, name);
        if before.contains(name) {
            let i = choose|i: int| 0 <= i < before.len() && before[i] == name;
            assert(names[i] == name);
        }
        if names.last() == name {
            assert(names[names.len() - 1] == name);
        }
        if names.contains(name) && names.last() != name {
            let i = choose|i: int| 0 <= i < names.len() && names[i] == name;
            assert(before[i] == name);
        }
    }
}

/// Counts one more occurrence of a name.
#[verifier::loop_isolation(false)]
fn count_one(counts: &mut Vec<Count>, name: &str, Ghost(names): Ghost<Seq<Seq<char>>>)
    requires
        is_tally(old(counts)@, names),
        names.len() < usize::MAX,
    ensures
        is_tally(final(counts)@, names.push(name@)),
{
    let ghost all = counts@;
    let ghost more = names.push(name@);
    assert(more.drop_last() =~= names);
    let mut i: usize = 0;
    while i < counts.len()
        invariant
            i <= counts@.len(),
            counts@ == all,
            forall|k: int| 0 <= k < i ==> (#[trigger] all[k]).name@ != name@,
        decreases counts@.len() - i,
    {
        if same(counts[i].name.as_str(), name) {
            proof {
                lemma_occurs_within(names, name@);
                assert(all[i as int].count == qualify::occurrences(names, name@));
            }
            counts[i].count = counts[i].count + 1;
            proof {
                let out = counts@;
                assert(out[i as int].name@ == all[i as int].name@);
                assert forall|k: int| 0 <= k < out.len() implies (#[trigger] out[k]).count
                    == qualify::occurrences(more, out[k].name@) && out[k].count > 0 by {
                    if k != i {
                        assert(out[k] == all[k]);
                        assert(all[k].name@ != all[i as int].name@);
                    }
                }
                assert forall|a: int, b: int| 0 <= a < b < out.len() implies (
                #[trigger] out[a]).name@ != (#[trigger] out[b]).name@ by {
                    assert(out[a].name@ == all[a].name@);
                    assert(out[b].name@ == all[b].name@);
                }
                assert forall|n: int| 0 <= n < more.len() implies exists|k: int|
                    0 <= k < out.len() && (#[trigger] out[k]).name@ == #[trigger] more[n] by {
                    if n < names.len() {
                        assert(more[n] == names[n]);
                        let k = choose|k: int|
                            0 <= k < all.len() && (#[trigger] all[k]).name@ == names[n];
                        assert(out[k].name@ == more[n]);
                    } else {
                        assert(out[i as int].name@ == more[n]);
                    }
                }
            }
            return;
        }
        i += 1;
    }
    let fresh = Count { name: name.to_owned(), count: 1 };
    counts.push(fresh);
    proof {
        let out = counts@;
        lemma_occurs_within(names, name@);
        if names.contains(name@) {
            let n = choose|n: int| 0 <= n < names.len() && names[n] == name@;
            let k = choose|k: int| 0 <= k < all.len() && (#[trigger] all[k]).name@ == names[n];
            assert(all[k].name@ != name@);
        }
        assert forall|k: int| 0 <= k < out.len() implies (#[trigger] out[k]).count
            == qualify::occurrences(more, out[k].name@) && out[k].count > 0 by {
            if k < all.len() {
                assert(out[k] == all[k]);
            }
        }
        assert forall|a: int, b: int| 0 <= a < b < out.len() implies (#[trigger] out[a]).name@ != (
        #[trigger] out[b]).name@ by {
            assert(out[a] == all[a]);
            if b < all.len() {
                assert(out[b] == all[b]);
            }
        }
        assert forall|n: int| 0 <= n < more.len() implies exists|k: int|
            0 <= k < out.len() && (#[trigger] out[k]).name@ == #[trigger] more[n] by {
            if n < names.len() {
                assert(more[n] == names[n]);
                let k = choose|k: int| 0 <= k < all.len() && (#[trigger] all[k]).name@ == names[n];
                assert(out[k].name@ == more[n]);
            } else {
                assert(out[all.len() as int].name@ == more[n]);
            }
        }
    }
}

/// Sorting keeps a tally one.
proof fn lemma_sorted_tally(counts: Seq<Count>, names: Seq<Seq<char>>)
    requires
        is_tally(counts, names),
    ensures
        is_breakdown(sort::sorted(counts), names),
{
    let out = sort::sorted(counts);
    sort::sorting_orders(counts);
    sort::sorting_keeps_items(counts);
    sort::lemma_sorted_within(counts);
    lemma_sorted_distinct(counts);
    assert forall|i: int| 0 <= i < out.len() implies (#[trigger] out[i]).count
        == qualify::occurrences(names, out[i].name@) && out[i].count > 0 by {
        assert(counts.contains(out[i]));
        let k = choose|k: int| 0 <= k < counts.len() && counts[k] == out[i];
        assert(counts[k].count > 0);
    }
    assert forall|n: int| 0 <= n < names.len() implies exists|i: int|
        0 <= i < out.len() && (#[trigger] out[i]).name@ == #[trigger] names[n] by {
        let k = choose|k: int| 0 <= k < counts.len() && (#[trigger] counts[k]).name@ == names[n];
        lemma_sorted_has(counts, counts[k]);
        let i = choose|i: int| 0 <= i < out.len() && out[i] == counts[k];
        assert(out[i].name@ == names[n]);
    }
}

proof fn lemma_sorted_has(counts: Seq<Count>, c: Count)
    requires
        counts.contains(c),
    ensures
        sort::sorted(counts).contains(c),
{
    broadcast use vstd::seq_lib::group_to_multiset_ensures;

    sort::sorting_keeps_items(counts);
    assert(counts.to_multiset().count(c) > 0);
}

/// Distinct names stay distinct.
proof fn lemma_sorted_distinct(counts: Seq<Count>)
    requires
        forall|i: int, j: int|
            0 <= i < j < counts.len() ==> (#[trigger] counts[i]).name@ != (
            #[trigger] counts[j]).name@,
    ensures
        forall|i: int, j: int|
            0 <= i < j < sort::sorted(counts).len() ==> (
            #[trigger] sort::sorted(counts)[i]).name@ != (#[trigger] sort::sorted(counts)[j]).name@,
    decreases counts.len(),
{
    if counts.len() > 0 {
        let rest = counts.skip(1);
        assert forall|i: int, j: int| 0 <= i < j < rest.len() implies (#[trigger] rest[i]).name@
            != (#[trigger] rest[j]).name@ by {
            assert(rest[i] == counts[i + 1] && rest[j] == counts[j + 1]);
        }
        lemma_sorted_distinct(rest);
        let tail = sort::sorted(rest);
        let x = counts[0];
        sort::lemma_place(x, tail);
        sort::lemma_sorted_within(rest);
        let p = sort::place(x, tail) as int;
        let out = sort::sorted(counts);
        assert forall|i: int| 0 <= i < tail.len() implies (#[trigger] tail[i]).name@ != x.name@ by {
            assert(rest.contains(tail[i]));
            let k = choose|k: int| 0 <= k < rest.len() && rest[k] == tail[i];
            assert(counts[k + 1] == rest[k]);
            assert(counts[0].name@ != counts[k + 1].name@);
        }
        assert forall|i: int, j: int| 0 <= i < j < out.len() implies (#[trigger] out[i]).name@ != (
        #[trigger] out[j]).name@ by {
            if i == p {
                assert(out[j] == tail[j - 1]);
            } else if j == p {
                assert(out[i] == tail[i]);
            } else {
                let a = if i < p {
                    i
                } else {
                    i - 1
                };
                let b = if j < p {
                    j
                } else {
                    j - 1
                };
                assert(out[i] == tail[a] && out[j] == tail[b]);
            }
        }
    }
}

/// All locations of all catalogs, each as often as it is referred to.
pub open spec fn all_locations(catalogs: Seq<Catalog>) -> Seq<Location>
    decreases catalogs.len(),
{
    if catalogs.len() == 0 {
        Seq::empty()
    } else {
        all_locations(catalogs.drop_last()) + catalogs.last().locations@
    }
}

/// How many keys all catalogs have together.
pub open spec fn key_count(catalogs: Seq<Catalog>) -> nat
    decreases catalogs.len(),
{
    if catalogs.len() == 0 {
        0
    } else {
        key_count(catalogs.drop_last()) + catalogs.last().resources@.len()
    }
}

/// The identities of locations.
pub open spec fn identities(locations: Seq<Location>) -> Set<u64>
    decreases locations.len(),
{
    if locations.len() == 0 {
        Set::empty()
    } else {
        identities(locations.drop_last()).insert(locations.last().identity)
    }
}

/// Locations without those that occurred before.
pub open spec fn distinct(locations: Seq<Location>) -> Seq<Location>
    decreases locations.len(),
{
    if locations.len() == 0 {
        Seq::empty()
    } else {
        let before = distinct(locations.drop_last());
        if identities(locations.drop_last()).contains(locations.last().identity) {
            before
        } else {
            before.push(locations.last())
        }
    }
}

/// The providers of locations.
pub open spec fn provider_names(locations: Seq<Location>) -> Seq<Seq<char>> {
    locations.map_values(|l: Location| l.provider_name@)
}

/// The asset types of locations.
pub open spec fn type_names(locations: Seq<Location>) -> Seq<Seq<char>> {
    locations.map_values(|l: Location| l.asset_type@)
}

/// Whether `stats` is the overview of catalogs.
pub open spec fn is_overview(stats: AddressableStats, catalogs: Seq<Catalog>, bundles: usize) -> bool {
    let all = all_locations(catalogs);
    &&& stats.catalogs == catalogs.len()
    &&& stats.keys == key_count(catalogs)
    &&& stats.locations == identities(all).len()
    &&& stats.location_refs == all.len()
    &&& stats.bundles == bundles
    &&& is_breakdown(stats.by_provider@, provider_names(distinct(all)))
    &&& is_breakdown(stats.by_type@, type_names(distinct(all)))
}

proof fn lemma_totals_grow(catalogs: Seq<Catalog>, n: int)
    requires
        0 <= n <= catalogs.len(),
    ensures
        key_count(catalogs.take(n)) <= key_count(catalogs),
        all_locations(catalogs.take(n)).len() <= all_locations(catalogs).len(),
    decreases catalogs.len() - n,
{
    if n == catalogs.len() {
        assert(catalogs.take(n) =~= catalogs);
    } else {
        assert(catalogs.take(n + 1).drop_last() =~= catalogs.take(n));
        lemma_totals_grow(catalogs, n + 1);
    }
}

proof fn lemma_distinct_len(locations: Seq<Location>)
    ensures
        distinct(locations).len() <= locations.len(),
    decreases locations.len(),
{
    if locations.len() > 0 {
        lemma_distinct_len(locations.drop_last());
    }
}

/// Builds the catalog overview: counts and a breakdown of locations. `bundles` is
/// the number of bundles that the addressables have, if the game has any.
#[verifier::loop_isolation(false)]
pub fn addressable_stats(catalogs: &Option<Vec<Catalog>>, bundles: usize) -> (r: Result<
    AddressableStats,
    String,
>)
    requires
        *catalogs matches Some(list) ==> key_count(list@) <= usize::MAX && all_locations(
            list@,
        ).len() < usize::MAX,
    ensures
        match *catalogs {
            Some(list) => r matches Ok(stats) && is_overview(stats, list@, bundles),
            None => r matches Err(e) && e@ == ctx::no_addressables_text(),
        },
{
    broadcast use vstd::std_specs::hash::group_hash_axioms;

    let catalogs = match catalogs {
        Some(catalogs) => catalogs,
        None => {
            return Err("this game has no addressables".to_owned());
        },
    };
    let mut keys: usize = 0;
    let mut refs: usize = 0;
    let mut seen: HashSet<u64> = HashSet::new();
    let mut by_provider: Vec<Count> = Vec::new();
    let mut by_type: Vec<Count> = Vec::new();
    let ghost mut done: Seq<Location> = Seq::empty();
    let mut i: usize = 0;
    assert(provider_names(distinct(done)) =~= Seq::empty());
    assert(type_names(distinct(done)) =~= Seq::empty());
    while i < catalogs.len()
        invariant
            i <= catalogs@.len(),
            done == all_locations(catalogs@.take(i as int)),
            keys == key_count(catalogs@.take(i as int)),
            refs == done.len(),
            seen@ == identities(done),
            is_tally(by_provider@, provider_names(distinct(done))),
            is_tally(by_type@, type_names(distinct(done))),
        decreases catalogs@.len() - i,
    {
        let catalog = &catalogs[i];
        let ghost before = done;
        proof {
            assert(catalogs@.take(i + 1).drop_last() =~= catalogs@.take(i as int));
            lemma_totals_grow(catalogs@, i + 1);
        }
        keys += catalog.resources.len();
        let ghost all = catalog.locations@;
        let mut j: usize = 0;
        assert(done =~= before + all.take(0));
        while j < catalog.locations.len()
            invariant
                j <= all.len(),
                all == catalog.locations@,
                done == before + all.take(j as int),
                before.len() + all.len() < usize::MAX,
                refs == done.len(),
                seen@ == identities(done),
                is_tally(by_provider@, provider_names(distinct(done))),
                is_tally(by_type@, type_names(distinct(done))),
            decreases all.len() - j,
        {
            let location = &catalog.locations[j];
            let ghost next = done.push(*location);
            let ghost known = distinct(done);
            proof {
                assert(next.drop_last() =~= done);
                assert(before + all.take(j + 1) =~= next);
                lemma_distinct_len(done);
            }
            refs += 1;
            if !seen.contains(&location.identity) {
                seen.insert(location.identity);
                count_one(
                    &mut by_provider,
                    location.provider_name.as_str(),
                    Ghost(provider_names(known)),
                );
                count_one(
                    &mut by_type,
                    location.asset_type.as_str(),
                    Ghost(type_names(known)),
                );
                proof {
                    assert(distinct(next) == known.push(*location));
                    assert(provider_names(distinct(next)) =~= provider_names(known).push(
                        location.provider_name@,
                    ));
                    assert(type_names(distinct(next)) =~= type_names(known).push(
                        location.asset_type@,
                    ));
                }
            } else {
                assert(identities(next) =~= identities(done));
            }
            proof {
                done = next;
            }
            j += 1;
        }
        assert(all.take(j as int) =~= all);
        i += 1;
    }
    assert(catalogs@.take(i as int) =~= catalogs@);
    proof {
        lemma_sorted_tally(by_provider@, provider_names(distinct(done)));
        lemma_sorted_tally(by_type@, type_names(distinct(done)));
    }
    Ok(
        AddressableStats {
            catalogs: catalogs.len(),
            keys,
            locations: seen.len(),
            location_refs: refs,
            bundles,
            by_provider: sorted_breakdown(by_provider),
            by_type: sorted_breakdown(by_type),
        },
    )
}

/// One addressables key with the asset type(s) it resolves to.
#[derive(Debug, PartialEq, Eq)]
pub struct AddressableKey {
    pub key: String,
    pub types: Vec<String>,
}

/// Every addressables key with the asset type(s) it resolves to.
#[derive(Debug, PartialEq, Eq)]
pub struct AddressableKeys(pub Vec<AddressableKey>);

impl Line for AddressableKey {
    open spec fn line_text(&self, color: bool) -> Seq<char> {
        style::name_text(self.key@, color) + "  "@ + style::class_text(
            Seq::<char>::empty() + "("@ + text::joined(text::texts(self.types@), ", "@) + ")"@,
            color,
        ) + "\n"@
    }

    fn line(&self, color: bool) -> (out: String) {
        let mut out = style::name(self.key.as_str(), color);
        out.append("  ");
        let mut types = String::new();
        types.append("(");
        types.append(join(&self.types, ", ").as_str());
        types.append(")");
        out.append(style::class(types.as_str(), color).as_str());
        out.append("\n");
        out
    }
}

impl Render for AddressableKeys {
    open spec fn text(&self, color: bool) -> Seq<char> {
        output::item_lines(self.0@, color)
    }

    fn render(&self, color: bool) -> (out: String) {
        render_lines(&self.0, color)
    }
}

/// Whether `shown` is how a key and its types are shown.
pub open spec fn shows_group(shown: AddressableKey, entry: Group) -> bool {
    shown.key@ == entry.key@ && text::texts(shown.types@) == text::texts(entry.values@)
}

/// Lists every addressables key with the asset type(s) it resolves to.
#[verifier::loop_isolation(false)]
pub fn addressable_ls(keys: &Groups) -> (r: AddressableKeys)
    ensures
        r.0@.len() == keys.entries@.len(),
        forall|i: int|
            0 <= i < r.0@.len() ==> shows_group(#[trigger] r.0@[i], keys.entries@[i]),
{
    let mut out: Vec<AddressableKey> = Vec::new();
    let mut i: usize = 0;
    while i < keys.entries.len()
        invariant
            i <= keys.entries@.len(),
            out@.len() == i,
            forall|k: int| 0 <= k < i ==> shows_group(#[trigger] out@[k], keys.entries@[k]),
        decreases keys.entries@.len() - i,
    {
        let entry = &keys.entries[i];
        out.push(AddressableKey { key: entry.key.clone(), types: copy_texts(&entry.values) });
        i += 1;
    }
    AddressableKeys(out)
}

} // verus!
