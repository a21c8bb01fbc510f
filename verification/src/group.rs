//! Texts grouped under keys, keys and texts each in order and without repeats.

use vstd::prelude::*;

use crate::sort;
use crate::text;
use crate::text::{less, same};

verus! {

/// Whether texts ascend: in order, none twice.
pub open spec fn ascending(s: Seq<Seq<char>>) -> bool {
    forall|i: int, j: int| 0 <= i < j < s.len() ==> text::sorts_before(
        #[trigger] s[i],
        #[trigger] s[j],
    )
}

/// A key with the texts under it.
#[derive(Debug, PartialEq, Eq)]
pub struct Group {
    pub key: String,
    pub values: Vec<String>,
}

/// Texts grouped under keys.
#[derive(Debug, PartialEq, Eq)]
pub struct Groups {
    pub entries: Vec<Group>,
}

/// The keys of groups.
pub open spec fn keys_of(entries: Seq<Group>) -> Seq<Seq<char>> {
    entries.map_values(|g: Group| g.key@)
}

/// The texts under a key, as a set.
pub open spec fn values_of(group: Group) -> Set<Seq<char>> {
    text::texts(group.values@).to_set()
}

/// Groups as a map from keys to sets of texts.
pub open spec fn as_map(entries: Seq<Group>) -> Map<Seq<char>, Set<Seq<char>>>
    decreases entries.len(),
{
    if entries.len() == 0 {
        Map::empty()
    } else {
        as_map(entries.drop_last()).insert(entries.last().key@, values_of(entries.last()))
    }
}

impl View for Groups {
    type V = Map<Seq<char>, Set<Seq<char>>>;

    open spec fn view(&self) -> Map<Seq<char>, Set<Seq<char>>> {
        as_map(self.entries@)
    }
}

/// The texts under `key`; none if there is no such key.
pub open spec fn under(map: Map<Seq<char>, Set<Seq<char>>>, key: Seq<char>) -> Set<Seq<char>> {
    if map.contains_key(key) {
        map[key]
    } else {
        Set::empty()
    }
}

/// The place of `s` in an ascending list: everything before it is below `s`, and
/// nothing after it is.
fn find_place(list: &Vec<String>, s: &str) -> (p: usize)
    ensures
        p <= list@.len(),
        forall|i: int| 0 <= i < p ==> text::sorts_before((#[trigger] list@[i])@, s@),
        p < list@.len() ==> !text::sorts_before(list@[p as int]@, s@),
{
    let mut p: usize = 0;
    while p < list.len() && less(list[p].as_str(), s)
        invariant
            p <= list@.len(),
            forall|i: int| 0 <= i < p ==> text::sorts_before((#[trigger] list@[i])@, s@),
        decreases list@.len() - p,
    {
        p += 1;
    }
    p
}

/// An ascending list stays one when a text is inserted in its place.
pub proof fn lemma_ascending_insert(s: Seq<Seq<char>>, p: int, x: Seq<char>)
    requires
        ascending(s),
        0 <= p <= s.len(),
        forall|i: int| 0 <= i < p ==> text::sorts_before(#[trigger] s[i], x),
        p < s.len() ==> text::sorts_before(x, s[p]),
    ensures
        ascending(s.insert(p, x)),
{
    let out = s.insert(p, x);
    assert forall|i: int, j: int| 0 <= i < j < out.len() implies text::sorts_before(
        #[trigger] out[i],
        #[trigger] out[j],
    ) by {
        if j < p {
            assert(text::sorts_before(s[i], s[j]));
        } else if j == p {
            assert(text::sorts_before(s[i], x));
        } else if i < p {
            assert(text::sorts_before(s[i], s[j - 1]));
        } else if i == p {
            if j - 1 > p {
                assert(text::sorts_before(s[p], s[j - 1]));
                sort::lemma_text_order_transitive(x, s[p], s[j - 1]);
            }
        } else {
            assert(text::sorts_before(s[i - 1], s[j - 1]));
        }
    }
}

proof fn lemma_insert_to_set<A>(s: Seq<A>, p: int, x: A)
    requires
        0 <= p <= s.len(),
    ensures
        s.insert(p, x).to_set() == s.to_set().insert(x),
{
    let out = s.insert(p, x);
    assert forall|y: A| out.to_set().contains(y) <==> #[trigger] s.to_set().insert(x).contains(
        y,
    ) by {
        if s.contains(y) {
            let i = choose|i: int| 0 <= i < s.len() && s[i] == y;
            if i < p {
                assert(out[i] == y);
            } else {
                assert(out[i + 1] == y);
            }
        }
        if y == x {
            assert(out[p] == x);
        }
        if out.contains(y) && y != x {
            let i = choose|i: int| 0 <= i < out.len() && out[i] == y;
            if i < p {
                assert(s[i] == y);
            } else {
                assert(s[i - 1] == y);
            }
        }
    }
    assert(out.to_set() =~= s.to_set().insert(x));
}

/// Adds a text to an ascending list, unless it is there already.
pub fn insert_text(list: &mut Vec<String>, s: String)
    requires
        ascending(text::texts(old(list)@)),
    ensures
        ascending(text::texts(final(list)@)),
        text::texts(final(list)@).to_set() == text::texts(old(list)@).to_set().insert(s@),
{
    let ghost all = text::texts(list@);
    let p: usize = find_place(list, s.as_str());
    assert(forall|i: int| 0 <= i < all.len() ==> #[trigger] all[i] == list@[i]@);
    if p < list.len() && same(list[p].as_str(), s.as_str()) {
        proof {
            assert(all[p as int] == s@);
            assert(all.to_set().contains(s@));
            assert(all.to_set() =~= all.to_set().insert(s@));
        }
        return;
    }
    proof {
        if p < list@.len() {
            sort::lemma_text_order(list@[p as int]@, s@);
        }
        lemma_ascending_insert(all, p as int, s@);
        lemma_insert_to_set(all, p as int, s@);
        assert(text::texts(list@.insert(p as int, s)) =~= all.insert(p as int, s@));
    }
    list.insert(p, s);
}

proof fn lemma_as_map_keys(entries: Seq<Group>)
    ensures
        forall|k: Seq<char>|
            #[trigger] as_map(entries).contains_key(k) <==> keys_of(entries).contains(k),
    decreases entries.len(),
{
    if entries.len() > 0 {
        let before = entries.drop_last();
        lemma_as_map_keys(before);
        assert forall|k: Seq<char>|
            #[trigger] as_map(entries).contains_key(k) <==> keys_of(entries).contains(k) by {
            assert(as_map(before).contains_key(k) <==> keys_of(before).contains(k));
            if keys_of(before).contains(k) {
                let i = choose|i: int| 0 <= i < before.len() && keys_of(before)[i] == k;
                assert(keys_of(entries)[i] == k);
            }
            if entries.last().key@ == k {
                assert(keys_of(entries)[entries.len() - 1] == k);
            }
            if keys_of(entries).contains(k) && entries.last().key@ != k {
                let i = choose|i: int| 0 <= i < entries.len() && keys_of(entries)[i] == k;
                assert(keys_of(before)[i] == k);
            }
        }
    }
}

/// Where keys do not repeat, each entry is what the map has under its key.
pub proof fn lemma_as_map_at(entries: Seq<Group>, p: int)
    requires
        ascending(keys_of(entries)),
        0 <= p < entries.len(),
    ensures
        as_map(entries).contains_key(entries[p].key@),
        as_map(entries)[entries[p].key@] == values_of(entries[p]),
    decreases entries.len(),
{
    let before = entries.drop_last();
    assert(keys_of(entries).drop_last() =~= keys_of(before));
    if p < before.len() {
        assert forall|i: int, j: int| 0 <= i < j < keys_of(before).len() implies text::sorts_before(
            #[trigger] keys_of(before)[i],
            #[trigger] keys_of(before)[j],
        ) by {
            assert(text::sorts_before(keys_of(entries)[i], keys_of(entries)[j]));
        }
        lemma_as_map_at(before, p);
        let last = entries.len() - 1;
        assert(text::sorts_before(keys_of(entries)[p], keys_of(entries)[last]));
        sort::lemma_text_order(entries[p].key@, entries[last].key@);
    }
}

proof fn lemma_as_map_insert(entries: Seq<Group>, p: int, g: Group)
    requires
        0 <= p <= entries.len(),
        !keys_of(entries).contains(g.key@),
    ensures
        as_map(entries.insert(p, g)) == as_map(entries).insert(g.key@, values_of(g)),
    decreases entries.len(),
{
    let out = entries.insert(p, g);
    if p == entries.len() {
        assert(out.drop_last() =~= entries);
    } else {
        let before = entries.drop_last();
        assert(out.drop_last() =~= before.insert(p, g));
        assert(out.last() == entries.last());
        assert(!keys_of(before).contains(g.key@)) by {
            if keys_of(before).contains(g.key@) {
                let i = choose|i: int| 0 <= i < before.len() && keys_of(before)[i] == g.key@;
                assert(keys_of(entries)[i] == g.key@);
            }
        }
        lemma_as_map_insert(before, p, g);
        assert(keys_of(entries)[entries.len() - 1] == entries.last().key@);
        assert(as_map(out) =~= as_map(entries).insert(g.key@, values_of(g)));
    }
}

proof fn lemma_as_map_update(entries: Seq<Group>, p: int, g: Group)
    requires
        0 <= p < entries.len(),
        entries[p].key@ == g.key@,
        ascending(keys_of(entries)),
    ensures
        as_map(entries.update(p, g)) == as_map(entries).insert(g.key@, values_of(g)),
    decreases entries.len(),
{
    let out = entries.update(p, g);
    let before = entries.drop_last();
    if p == entries.len() - 1 {
        assert(out.drop_last() =~= before);
        assert(as_map(out) =~= as_map(entries).insert(g.key@, values_of(g)));
    } else {
        assert(out.drop_last() =~= before.update(p, g));
        assert forall|i: int, j: int| 0 <= i < j < keys_of(before).len() implies text::sorts_before(
            #[trigger] keys_of(before)[i],
            #[trigger] keys_of(before)[j],
        ) by {
            assert(text::sorts_before(keys_of(entries)[i], keys_of(entries)[j]));
        }
        lemma_as_map_update(before, p, g);
        let last = entries.len() - 1;
        assert(text::sorts_before(keys_of(entries)[p], keys_of(entries)[last]));
        sort::lemma_text_order(entries[p].key@, entries[last].key@);
        assert(as_map(out) =~= as_map(entries).insert(g.key@, values_of(g)));
    }
}

impl Groups {
    /// Keys ascend, and so do the texts under each.
    pub open spec fn wf(self) -> bool {
        &&& ascending(keys_of(self.entries@))
        &&& forall|i: int|
            0 <= i < self.entries@.len() ==> ascending(
                text::texts((#[trigger] self.entries@[i]).values@),
            )
    }

    /// No keys.
    pub fn new() -> (r: Groups)
        ensures
            r.wf(),
            r@ == Map::<Seq<char>, Set<Seq<char>>>::empty(),
    {
        Groups { entries: Vec::new() }
    }

    /// The place of the group of `key`, which is added if there is none.
    #[verifier::loop_isolation(false)]
    fn group_at(&mut self, key: &str) -> (p: usize)
        requires
            old(self).wf(),
        ensures
            final(self).wf(),
            p < final(self).entries@.len(),
            final(self).entries@[p as int].key@ == key@,
            final(self)@ == old(self)@.insert(key@, under(old(self)@, key@)),
    {
        let ghost all = self.entries@;
        let ghost keys = keys_of(all);
        let mut p: usize = 0;
        while p < self.entries.len() && less(self.entries[p].key.as_str(), key)
            invariant
                p <= self.entries@.len(),
                self.entries@ == all,
                forall|i: int| 0 <= i < p ==> text::sorts_before(#[trigger] keys[i], key@),
            decreases self.entries@.len() - p,
        {
            assert(keys[p as int] == all[p as int].key@);
            p += 1;
        }
        if p < self.entries.len() && same(self.entries[p].key.as_str(), key) {
            proof {
                lemma_as_map_at(all, p as int);
                assert(self@ =~= self@.insert(key@, under(self@, key@)));
            }
            return p;
        }
        let group = Group { key: key.to_owned(), values: Vec::new() };
        proof {
            if p < all.len() {
                assert(keys[p as int] == all[p as int].key@);
                sort::lemma_text_order(keys[p as int], key@);
            }
            assert(!keys.contains(key@)) by {
                if keys.contains(key@) {
                    let i = choose|i: int| 0 <= i < keys.len() && keys[i] == key@;
                    if i < p {
                        assert(text::sorts_before(keys[i], key@));
                        sort::lemma_text_order(key@, key@);
                    } else if i > p {
                        assert(text::sorts_before(keys[p as int], keys[i]));
                        sort::lemma_text_order(keys[p as int], key@);
                    }
                }
            }
            lemma_as_map_keys(all);
            lemma_as_map_insert(all, p as int, group);
            lemma_ascending_insert(keys, p as int, key@);
            assert(keys_of(all.insert(p as int, group)) =~= keys.insert(p as int, key@));
            assert(text::texts(group.values@) =~= Seq::empty());
            assert(values_of(group) =~= Set::empty());
        }
        self.entries.insert(p, group);
        proof {
            assert forall|i: int| 0 <= i < self.entries@.len() implies ascending(
                text::texts((#[trigger] self.entries@[i]).values@),
            ) by {
                if i < p {
                    assert(self.entries@[i] == all[i]);
                } else if i > p {
                    assert(self.entries@[i] == all[i - 1]);
                }
            }
        }
        p
    }

    /// Makes sure that there is a key, with or without texts under it.
    pub fn touch(&mut self, key: &str)
        requires
            old(self).wf(),
        ensures
            final(self).wf(),
            final(self)@ == old(self)@.insert(key@, under(old(self)@, key@)),
    {
        let _p: usize = self.group_at(key);
    }

    /// Adds a text under a key.
    pub fn put(&mut self, key: &str, value: String)
        requires
            old(self).wf(),
        ensures
            final(self).wf(),
            final(self)@ == old(self)@.insert(key@, under(old(self)@, key@).insert(value@)),
    {
        let ghost start = self@;
        let p: usize = self.group_at(key);
        let ghost all = self.entries@;
        proof {
            lemma_as_map_at(all, p as int);
        }
        insert_text(&mut self.entries[p].values, value);
        proof {
            let g = self.entries@[p as int];
            assert(self.entries@ =~= all.update(p as int, g));
            lemma_as_map_update(all, p as int, g);
            assert(keys_of(self.entries@) =~= keys_of(all));
            assert(self@ =~= start.insert(key@, under(start, key@).insert(value@)));
            assert forall|i: int| 0 <= i < self.entries@.len() implies ascending(
                text::texts((#[trigger] self.entries@[i]).values@),
            ) by {
                if i != p {
                    assert(self.entries@[i] == all[i]);
                }
            }
        }
    }
}

} // verus!
