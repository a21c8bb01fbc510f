//! The path that is built for an object leads back to that object.

use vstd::prelude::*;

use crate::component_path::{FieldView, PathView};
use crate::model::{Pptr, SceneFile};
use crate::{classes, component_path, model, number, qualify, resolve};

verus! {

/// Whether the pointers of a file agree with one another, as they do in a scene
/// that Unity wrote: children and fathers name each other, so do GameObjects and
/// components, and the file lists all its Transforms.
pub open spec fn consistent(file: SceneFile) -> bool {
    &&& names_readable(file)
    &&& forall|id: i64| #[trigger] root_listed(file, id)
    &&& forall|id: i64| #[trigger] child_listed(file, id)
    &&& forall|id: i64| #[trigger] children_local(file, id)
    &&& forall|id: i64| #[trigger] transform_placed(file, id)
    &&& forall|id: i64| #[trigger] component_listed(file, id)
}

/// Every listed Transform and the name of its GameObject can be read.
pub open spec fn names_readable(file: SceneFile) -> bool {
    forall|i: int|
        0 <= i < file.transforms@.len() ==> resolve::node_name(
            file,
            model::local(#[trigger] file.transforms@[i]),
        ) is Ok
}

/// A Transform without a father is listed.
pub open spec fn root_listed(file: SceneFile, id: i64) -> bool {
    match model::transform_at(file, model::local(id)) {
        Ok(transform) => transform.father.path_id == 0 ==> file.transforms@.contains(id),
        Err(_) => true,
    }
}

/// A Transform is a child of its father.
pub open spec fn child_listed(file: SceneFile, id: i64) -> bool {
    match model::transform_at(file, model::local(id)) {
        Ok(transform) => transform.father.path_id != 0 ==> match model::transform_at(
            file,
            model::local(transform.father.path_id),
        ) {
            Ok(father) => father.children@.contains(model::local(id)),
            Err(_) => false,
        },
        Err(_) => true,
    }
}

/// The children of a Transform are in the same file.
pub open spec fn children_local(file: SceneFile, id: i64) -> bool {
    match model::transform_at(file, model::local(id)) {
        Ok(transform) => forall|i: int|
            0 <= i < transform.children@.len() ==> (#[trigger] transform.children@[i]).file_id
                == 0,
        Err(_) => true,
    }
}

/// The Transform that a GameObject has among its components places that
/// GameObject.
pub open spec fn transform_placed(file: SceneFile, id: i64) -> bool {
    match model::game_object_at(file, model::local(id)) {
        Ok(game_object) => match qualify::transform_among(file, game_object.components@) {
            Some(transform_id) => match model::transform_at(file, model::local(transform_id)) {
                Ok(transform) => transform.game_object == model::local(id),
                Err(_) => true,
            },
            None => true,
        },
        Err(_) => true,
    }
}

/// A component is listed by the GameObject that it sits on.
pub open spec fn component_listed(file: SceneFile, id: i64) -> bool {
    match model::object_at(file, model::local(id)) {
        Ok(object) => match object.owner {
            Ok(owner) => match model::game_object_at(file, model::local(owner.path_id)) {
                Ok(game_object) => object.class_id != classes::GAME_OBJECT && owner.path_id != 0
                    ==> game_object.components@.contains(model::local(id)),
                Err(_) => true,
            },
            Err(_) => true,
        },
        Err(_) => true,
    }
}

/// A list in which a value occurs has a first position of it.
pub proof fn lemma_position(ids: Seq<i64>, target: i64, from: int, at: int)
    requires
        0 <= from <= at < ids.len(),
        ids[at] == target,
    ensures
        qualify::position_from(ids, target, from) matches Some(p) && from <= p <= at && ids[p]
            == target,
    decreases at - from,
{
    if ids[from] != target {
        lemma_position(ids, target, from + 1, at);
    }
}

/// An index that was given to one of several matches selects that match.
pub proof fn disambiguated_index_selects(
    matches: Seq<i64>,
    target: i64,
    name: Seq<char>,
    kind: Seq<char>,
)
    requires
        matches.contains(target),
    ensures
        resolve::picked(
            matches,
            FieldView { name, index: qualify::disambiguated(matches, target) },
            kind,
        ) == Ok::<i64, Seq<char>>(target),
{
    let at = choose|i: int| 0 <= i < matches.len() && matches[i] == target;
    if matches.len() > 1 {
        lemma_position(matches, target, 0, at);
    }
}

/// The same of pointers into one file.
proof fn lemma_index_selects_node(
    nodes: Seq<Pptr>,
    id: i64,
    name: Seq<char>,
    kind: Seq<char>,
)
    requires
        nodes.contains(model::local(id)),
        forall|i: int| 0 <= i < nodes.len() ==> (#[trigger] nodes[i]).file_id == 0,
    ensures
        resolve::picked(
            nodes,
            FieldView { name, index: qualify::disambiguated(qualify::ids_of(nodes), id) },
            kind,
        ) == Ok::<Pptr, Seq<char>>(model::local(id)),
{
    let ids = qualify::ids_of(nodes);
    let at = choose|i: int| 0 <= i < nodes.len() && nodes[i] == model::local(id);
    assert(ids[at] == id);
    disambiguated_index_selects(ids, id, name, kind);
    let index = qualify::disambiguated(ids, id);
    match index {
        Some(p) => {
            lemma_position(ids, id, 0, at);
            assert(nodes[p] == model::local(ids[p]));
        },
        None => {
            if nodes.len() > 1 {
                lemma_position(ids, id, 0, at);
            }
        },
    }
}

/// What has a name is found by it.
proof fn lemma_named_finds(file: SceneFile, nodes: Seq<Pptr>, name: Seq<char>, node: Pptr)
    requires
        nodes.contains(node),
        resolve::node_name(file, node) == Ok::<Seq<char>, Seq<char>>(name),
    ensures
        resolve::nodes_named(file, nodes, name) matches Ok(matches) ==> matches.contains(node),
    decreases nodes.len(),
{
    if let Ok(matches) = resolve::nodes_named(file, nodes, name) {
        let before = resolve::nodes_named(file, nodes.drop_last(), name)->Ok_0;
        if nodes.last() == node {
            assert(matches.last() == node);
        } else {
            let k = choose|k: int| 0 <= k < nodes.len() && nodes[k] == node;
            assert(nodes.drop_last()[k] == node);
            lemma_named_finds(file, nodes.drop_last(), name, node);
            let j = choose|j: int| 0 <= j < before.len() && before[j] == node;
            assert(matches[j] == node);
        }
    }
}

/// Where names can be told, every node can be read.
proof fn lemma_named_readable(file: SceneFile, nodes: Seq<Pptr>, name: Seq<char>)
    ensures
        resolve::nodes_named(file, nodes, name) is Ok ==> resolve::unreadable(file, nodes) is None,
    decreases nodes.len(),
{
    if nodes.len() > 0 {
        lemma_named_readable(file, nodes.drop_last(), name);
    }
}

/// Where every root can be read, none is left out.
pub proof fn lemma_roots_agree(file: SceneFile, ids: Seq<i64>)
    requires
        forall|i: int|
            0 <= i < ids.len() ==> resolve::node_name(
                file,
                model::local(#[trigger] ids[i]),
            ) is Ok,
    ensures
        resolve::roots_of(file, ids) == Ok::<Seq<Pptr>, Seq<char>>(
            qualify::readable_roots(file, ids),
        ),
    decreases ids.len(),
{
    if ids.len() > 0 {
        let before = ids.drop_last();
        assert forall|i: int| 0 <= i < before.len() implies resolve::node_name(
            file,
            model::local(#[trigger] before[i]),
        ) is Ok by {
            assert(before[i] == ids[i]);
        }
        lemma_roots_agree(file, before);
        assert(resolve::node_name(file, model::local(ids[ids.len() - 1])) is Ok);
    }
}

/// A listed Transform without a father is a root.
proof fn lemma_root_found(file: SceneFile, ids: Seq<i64>, id: i64)
    requires
        ids.contains(id),
        model::transform_at(file, model::local(id)) matches Ok(transform)
            && transform.father.path_id == 0,
        resolve::node_name(file, model::local(id)) is Ok,
    ensures
        qualify::readable_roots(file, ids).contains(model::local(id)),
    decreases ids.len(),
{
    let roots = qualify::readable_roots(file, ids);
    let before = qualify::readable_roots(file, ids.drop_last());
    if ids.last() == id {
        assert(roots.last() == model::local(id));
    } else {
        let k = choose|k: int| 0 <= k < ids.len() && ids[k] == id;
        assert(ids.drop_last()[k] == id);
        lemma_root_found(file, ids.drop_last(), id);
        let j = choose|j: int| 0 <= j < before.len() && before[j] == model::local(id);
        assert(roots[j] == model::local(id));
    }
}

/// A selection by name and index among the Transforms of a level that holds the
/// node gives the node.
proof fn lemma_segment_selects(file: SceneFile, level: Seq<Pptr>, id: i64, kind: Seq<char>)
    requires
        level.contains(model::local(id)),
        forall|i: int| 0 <= i < level.len() ==> (#[trigger] level[i]).file_id == 0,
    ensures
        qualify::segment_for(file, level, model::local(id)) matches Some(segment) ==> {
            &&& resolve::picked_node(file, level, segment, kind) == Ok::<Pptr, Seq<char>>(
                model::local(id),
            )
            &&& resolve::unreadable(file, level) is None
        },
{
    if let Some(segment) = qualify::segment_for(file, level, model::local(id)) {
        let name = segment.name;
        let matches = resolve::nodes_named(file, level, name)->Ok_0;
        lemma_named_finds(file, level, name, model::local(id));
        lemma_named_readable(file, level, name);
        resolve::lemma_named_within(file, level, name);
        assert forall|i: int| 0 <= i < matches.len() implies (#[trigger] matches[i]).file_id
            == 0 by {
            let k = choose|k: int| 0 <= k < level.len() && level[k] == matches[i];
            assert(level[k].file_id == 0);
        }
        lemma_index_selects_node(matches, id, name, kind);
    }
}

/// Two walks down one after the other are one walk.
proof fn lemma_descended_push(
    file: SceneFile,
    node: Pptr,
    segments: Seq<FieldView>,
    last: FieldView,
)
    ensures
        resolve::descended(file, node, segments.push(last)) == (match resolve::descended(
            file,
            node,
            segments,
        ) {
            Ok(below) => resolve::child_of(file, below, last),
            Err(e) => Err(e),
        }),
    decreases segments.len(),
{
    if segments.len() == 0 {
        assert(segments.push(last).skip(1) =~= Seq::empty());
        assert(segments.push(last)[0] == last);
        if let Ok(child) = resolve::child_of(file, node, last) {
            assert(resolve::descended(file, child, segments.push(last).skip(1)) == Ok::<
                Pptr,
                Seq<char>,
            >(child));
        }
    } else {
        assert(segments.push(last).skip(1) =~= segments.skip(1).push(last));
        assert(segments.push(last)[0] == segments[0]);
        if let Ok(child) = resolve::child_of(file, node, segments[0]) {
            lemma_descended_push(file, child, segments.skip(1), last);
        }
    }
}

/// Whether the Transform at a place of a chain is the child of the one before it, or
/// a root at the first place.
pub open spec fn hangs_on(file: SceneFile, chain: Seq<i64>, i: int) -> bool {
    model::transform_at(file, model::local(chain[i])) matches Ok(transform) && (if i == 0 {
        transform.father.path_id == 0
    } else {
        transform.father.path_id != 0 && transform.father.path_id == chain[i - 1]
    })
}

/// Whether every Transform of a chain is the father of the next, below a root.
pub open spec fn is_chain(file: SceneFile, chain: Seq<i64>) -> bool {
    &&& chain.len() >= 1
    &&& forall|i: int| 0 <= i < chain.len() ==> #[trigger] hangs_on(file, chain, i)
}

/// The Transform below all its ancestors is a chain.
pub proof fn lemma_chain_is_chain(file: SceneFile, id: i64, fuel: nat)
    ensures
        qualify::chain_to(file, id, fuel) matches Some(chain) ==> is_chain(file, chain)
            && chain.last() == id,
    decreases fuel,
{
    if let Some(chain) = qualify::chain_to(file, id, fuel) {
        let transform = model::transform_at(file, model::local(id))->Ok_0;
        if transform.father.path_id != 0 {
            lemma_chain_is_chain(file, transform.father.path_id, (fuel - 1) as nat);
            let up = qualify::chain_to(file, transform.father.path_id, (fuel - 1) as nat)->0;
            assert(chain == up.push(id));
            assert forall|i: int| 0 <= i < chain.len() implies #[trigger] hangs_on(
                file,
                chain,
                i,
            ) by {
                if i < up.len() {
                    assert(hangs_on(file, up, i));
                } else {
                    assert(chain[i - 1] == up.last());
                }
            }
        }
    }
}

/// The segments along a chain lead down that chain.
proof fn lemma_segments_lead_down(file: SceneFile, chain: Seq<i64>, n: nat)
    requires
        consistent(file),
        is_chain(file, chain),
        1 <= n <= chain.len(),
    ensures
        qualify::segments_along(file, chain, n) matches Some(segments) ==> {
            &&& segments.len() == n
            &&& resolve::transform_for(file, segments) == Ok::<Pptr, Seq<char>>(
                model::local(chain[n - 1]),
            )
        },
    decreases n,
{
    if let Some(segments) = qualify::segments_along(file, chain, n) {
        let before = qualify::segments_along(file, chain, (n - 1) as nat)->0;
        let id = chain[n - 1];
        assert(hangs_on(file, chain, n - 1));
        let level = qualify::level_of(file, chain, n - 1);
        let segment = qualify::segment_for(file, level, model::local(id))->0;
        assert(segments == before.push(segment));
        if n == 1 {
            assert(before =~= Seq::empty());
            lemma_roots_agree(file, file.transforms@);
            assert(root_listed(file, id));
            let k = choose|k: int| 0 <= k < file.transforms@.len() && file.transforms@[k] == id;
            assert(resolve::node_name(file, model::local(file.transforms@[k])) is Ok);
            lemma_root_found(file, file.transforms@, id);
            qualify::lemma_readable_roots(file, file.transforms@);
            lemma_segment_selects(file, level, id, "root object"@);
            assert(segments[0] == segment);
            assert(segments.skip(1) =~= Seq::empty());
            assert(resolve::descended(file, model::local(id), segments.skip(1)) == Ok::<
                Pptr,
                Seq<char>,
            >(model::local(id)));
        } else {
            lemma_segments_lead_down(file, chain, (n - 1) as nat);
            let up = chain[n - 2];
            assert(hangs_on(file, chain, n - 2));
            assert(child_listed(file, id));
            assert(children_local(file, up));
            lemma_segment_selects(file, level, id, "child object"@);
            let root = resolve::picked_node(
                file,
                resolve::roots_of(file, file.transforms@)->Ok_0,
                before[0],
                "root object"@,
            )->Ok_0;
            assert(segments[0] == before[0]);
            assert(segments.skip(1) =~= before.skip(1).push(segment));
            lemma_descended_push(file, root, before.skip(1), segment);
        }
    }
}

/// What carries a label is found by it.
proof fn lemma_labelled_finds(
    file: SceneFile,
    components: Seq<Pptr>,
    label: Seq<char>,
    component: Pptr,
)
    requires
        components.contains(component),
        model::label_at(file, component) == Ok::<Seq<char>, Seq<char>>(label),
    ensures
        resolve::components_labelled(file, components, label) matches Ok(matches)
            ==> matches.contains(component.path_id),
    decreases components.len(),
{
    if let Ok(matches) = resolve::components_labelled(file, components, label) {
        let before = resolve::components_labelled(file, components.drop_last(), label)->Ok_0;
        if components.last() == component {
            assert(matches.last() == component.path_id);
        } else {
            let k = choose|k: int| 0 <= k < components.len() && components[k] == component;
            assert(components.drop_last()[k] == component);
            lemma_labelled_finds(file, components.drop_last(), label, component);
            let j = choose|j: int| 0 <= j < before.len() && before[j] == component.path_id;
            assert(matches[j] == component.path_id);
        }
    }
}

/// The path that is built for an object of a consistent file leads back to that
/// object, and it leads nowhere else.
pub proof fn built_path_leads_back(file: SceneFile, target: i64)
    requires
        consistent(file),
    ensures
        qualify::path_to(file, target) matches Some(path) ==> resolve::path_target(file, path)
            == Ok::<i64, Seq<char>>(target),
{
    if let Some(path) = qualify::path_to(file, target) {
        let object = model::object_at(file, model::local(target))->Ok_0;
        let id = if object.class_id == classes::GAME_OBJECT {
            target
        } else {
            object.owner->Ok_0.path_id
        };
        let game_object = model::game_object_at(file, model::local(id))->Ok_0;
        assert(model::game_object_at(file, model::local(id)) is Ok);
        let transform_id = qualify::transform_among(file, game_object.components@)->0;
        let chain = qualify::chain_to(file, transform_id, file.objects@.len())->0;
        lemma_chain_is_chain(file, transform_id, file.objects@.len());
        lemma_segments_lead_down(file, chain, chain.len());
        assert(hangs_on(file, chain, chain.len() - 1));
        assert(transform_placed(file, id));
        if object.class_id != classes::GAME_OBJECT {
            let selector = path.component->0;
            assert(component_listed(file, target));
            lemma_labelled_finds(
                file,
                game_object.components@,
                selector.name,
                model::local(target),
            );
            let matches = resolve::components_labelled(
                file,
                game_object.components@,
                selector.name,
            )->Ok_0;
            disambiguated_index_selects(matches, target, selector.name, "component"@);
        }
    }
}

/// Whether a path can be given as an object reference: it can be written down, and
/// what is written is not the decimal of a path id, as the name of a root can be.
pub open spec fn referable(path: PathView) -> bool {
    &&& path.wf()
    &&& path.segments.len() == 1 && path.component is None ==> number::i64_value(
        component_path::path_text(path),
    ) is None
}

/// What `cat` is given as text for the path of an object gives that object.
pub proof fn path_text_leads_back(file: SceneFile, target: i64)
    requires
        consistent(file),
        qualify::path_to(file, target) matches Some(path) && referable(path),
    ensures
        component_path::object_ref_of(
            component_path::path_text(qualify::path_to(file, target)->0),
        ) matches Ok(reference) && resolve::ref_target(file, reference) == Ok::<i64, Seq<char>>(
            target,
        ),
{
    let path = qualify::path_to(file, target)->0;
    built_path_leads_back(file, target);
    component_path::path_reads_back(path);
    if path.segments.len() >= 2 || path.component is Some {
        component_path::path_text_is_no_number(path);
    }
}

/// No two objects of a consistent file share a path.
pub proof fn built_paths_differ(file: SceneFile, a: i64, b: i64)
    requires
        consistent(file),
        qualify::path_to(file, a) is Some,
        qualify::path_to(file, a) == qualify::path_to(file, b),
    ensures
        a == b,
{
    built_path_leads_back(file, a);
    built_path_leads_back(file, b);
}

/// No Transform occurs twice in a chain.
proof fn lemma_chain_distinct(file: SceneFile, chain: Seq<i64>, i: int, j: int)
    requires
        is_chain(file, chain),
        0 <= i < j < chain.len(),
    ensures
        chain[i] != chain[j],
    decreases i,
{
    assert(hangs_on(file, chain, i));
    assert(hangs_on(file, chain, j));
    if i > 0 {
        lemma_chain_distinct(file, chain, i - 1, j - 1);
    }
}

proof fn lemma_chain_with_fuel(file: SceneFile, chain: Seq<i64>, fuel: nat)
    requires
        is_chain(file, chain),
        chain.len() <= fuel + 1,
    ensures
        qualify::chain_to(file, chain.last(), fuel) == Some(chain),
    decreases chain.len(),
{
    let last = chain.len() - 1;
    assert(hangs_on(file, chain, last));
    if last > 0 {
        let up = chain.drop_last();
        assert forall|i: int| 0 <= i < up.len() implies #[trigger] hangs_on(file, up, i) by {
            assert(hangs_on(file, chain, i));
        }
        lemma_chain_with_fuel(file, up, (fuel - 1) as nat);
        assert(up.push(chain[last]) =~= chain);
    } else {
        assert(seq![chain[last]] =~= chain);
    }
}

/// However deep a Transform lies, its ancestors are all found: only fathers that
/// run in a circle have no end.
pub proof fn every_chain_is_found(file: SceneFile, chain: Seq<i64>)
    requires
        is_chain(file, chain),
    ensures
        qualify::chain_to(file, chain.last(), file.objects@.len()) == Some(chain),
{
    let nodes = Seq::new(chain.len(), |i: int| model::local(chain[i]));
    let pool = model::targets(file).take(file.objects@.len() as int);
    assert forall|i: int, j: int| 0 <= i < nodes.len() && 0 <= j < nodes.len() && i != j implies
        nodes[i] != nodes[j] by {
        if i < j {
            lemma_chain_distinct(file, chain, i, j);
        } else {
            lemma_chain_distinct(file, chain, j, i);
        }
    }
    assert forall|i: int| 0 <= i < nodes.len() implies pool.contains(#[trigger] nodes[i]) by {
        assert(hangs_on(file, chain, i));
        model::lemma_target_known(file, nodes[i]);
    }
    model::lemma_distinct_within(nodes, pool);
    lemma_chain_with_fuel(file, chain, file.objects@.len());
}

/// Whether every child ranks below its parent, so that no Transform is its own
/// descendant.
pub open spec fn ranked(file: SceneFile, rank: spec_fn(Pptr) -> nat) -> bool {
    forall|node: Pptr, i: int|
        #![trigger model::transform_at(file, node)->Ok_0.children@[i]]
        model::transform_at(file, node) is Ok && 0 <= i < model::transform_at(
            file,
            node,
        )->Ok_0.children@.len() ==> rank(model::transform_at(file, node)->Ok_0.children@[i])
            < rank(node)
}

/// What is kept of a list of nodes is part of it.
proof fn lemma_readable_within(file: SceneFile, nodes: Seq<Pptr>)
    ensures
        forall|i: int|
            0 <= i < qualify::readable_nodes(file, nodes).len() ==> nodes.contains(
                #[trigger] qualify::readable_nodes(file, nodes)[i],
            ),
    decreases nodes.len(),
{
    if nodes.len() > 0 {
        lemma_readable_within(file, nodes.drop_last());
        let kept = qualify::readable_nodes(file, nodes);
        let before = qualify::readable_nodes(file, nodes.drop_last());
        assert forall|i: int| 0 <= i < kept.len() implies nodes.contains(#[trigger] kept[i]) by {
            if i < before.len() {
                assert(kept[i] == before[i]);
                let k = choose|k: int|
                    0 <= k < nodes.len() - 1 && nodes.drop_last()[k] == before[i];
                assert(nodes[k] == kept[i]);
            } else {
                assert(nodes[nodes.len() - 1] == kept[i]);
            }
        }
    }
}

/// The nodes on the way to a level, each ranked above that level.
pub open spec fn on_the_way(
    file: SceneFile,
    rank: spec_fn(Pptr) -> nat,
    way: Seq<Pptr>,
    level: Seq<Pptr>,
) -> bool {
    &&& way.no_duplicates()
    &&& forall|k: int| 0 <= k < way.len() ==> model::object_at(file, #[trigger] way[k]) is Ok
    &&& forall|k: int, i: int|
        0 <= k < way.len() && 0 <= i < level.len() ==> rank(#[trigger] level[i]) < rank(
            #[trigger] way[k],
        )
    &&& forall|i: int|
        0 <= i < level.len() ==> resolve::node_name(file, #[trigger] level[i]) is Ok
}

/// The way one level further down.
pub proof fn lemma_way_down(
    file: SceneFile,
    rank: spec_fn(Pptr) -> nat,
    way: Seq<Pptr>,
    level: Seq<Pptr>,
    i: int,
)
    requires
        ranked(file, rank),
        on_the_way(file, rank, way, level),
        0 <= i < level.len(),
    ensures
        way.len() < model::targets(file).len(),
        on_the_way(file, rank, way.push(level[i]), qualify::readable_children(file, level[i])),
{
    let node = level[i];
    let further = way.push(node);
    let children = model::transform_at(file, node)->Ok_0.children@;
    let kept = qualify::readable_children(file, node);
    assert(resolve::node_name(file, node) is Ok);
    lemma_readable_within(file, children);
    qualify::lemma_readable_nodes(file, children);
    assert forall|k: int, m: int|
        0 <= k < further.len() && 0 <= m < further.len() && k != m implies further[k]
        != further[m] by {
        if k == way.len() {
            assert(rank(node) < rank(way[m]));
        } else if m == way.len() {
            assert(rank(node) < rank(way[k]));
        } else {
            assert(way[k] != way[m]);
        }
    }
    assert forall|k: int, m: int| 0 <= k < further.len() && 0 <= m < kept.len() implies rank(
        #[trigger] kept[m],
    ) < rank(#[trigger] further[k]) by {
        let c = choose|c: int| 0 <= c < children.len() && children[c] == kept[m];
        assert(model::transform_at(file, node)->Ok_0.children@[c] == kept[m]);
        if k < way.len() {
            assert(rank(level[i]) < rank(way[k]));
        }
    }
    assert forall|k: int| 0 <= k < further.len() implies model::targets(file).contains(
        #[trigger] further[k],
    ) by {
        if k < way.len() {
            assert(model::object_at(file, way[k]) is Ok);
        }
        model::lemma_target_known(file, further[k]);
    }
    model::lemma_distinct_within(further, model::targets(file));
}

proof fn lemma_ranked_level_is_listed(
    file: SceneFile,
    rank: spec_fn(Pptr) -> nat,
    way: Seq<Pptr>,
    prefix: Seq<FieldView>,
    level: Seq<Pptr>,
    n: nat,
    fuel: nat,
)
    requires
        ranked(file, rank),
        on_the_way(file, rank, way, level),
        n <= level.len(),
        way.len() + fuel >= model::targets(file).len(),
    ensures
        qualify::paths_below(file, prefix, level, n, fuel) is Some,
    decreases fuel, n,
{
    if n > 0 {
        lemma_way_down(file, rank, way, level, n - 1);
        lemma_ranked_level_is_listed(file, rank, way, prefix, level, (n - 1) as nat, fuel);
        let node = level[n - 1];
        let segments = prefix.push(
            qualify::numbered(qualify::names_of(file, level), n - 1),
        );
        let children = qualify::readable_children(file, node);
        lemma_ranked_level_is_listed(
            file,
            rank,
            way.push(node),
            segments,
            children,
            children.len(),
            (fuel - 1) as nat,
        );
    }
}

/// However deep a hierarchy is, its paths are all listed: only children that run
/// in a circle have no end.
pub proof fn ranked_hierarchy_is_listed(file: SceneFile, rank: spec_fn(Pptr) -> nat)
    requires
        ranked(file, rank),
    ensures
        qualify::paths_of(file) is Some,
{
    let nodes = qualify::readable_roots(file, file.transforms@);
    qualify::lemma_readable_roots(file, file.transforms@);
    lemma_ranked_level_is_listed(
        file,
        rank,
        Seq::empty(),
        Seq::empty(),
        nodes,
        nodes.len(),
        file.objects@.len() + file.linked@.len(),
    );
}

/// Whether the children and the components of a node can all be told.
pub open spec fn surroundings_readable(file: SceneFile, node: Pptr) -> bool {
    match model::transform_at(file, node) {
        Ok(transform) => {
            &&& forall|i: int|
                0 <= i < transform.children@.len() ==> resolve::node_name(
                    file,
                    #[trigger] transform.children@[i],
                ) is Ok
            &&& match model::game_object_at(file, transform.game_object) {
                Ok(game_object) => forall|i: int|
                    0 <= i < game_object.components@.len() ==> model::label_at(
                        file,
                        #[trigger] game_object.components@[i],
                    ) is Ok,
                Err(_) => true,
            }
        },
        Err(_) => true,
    }
}

/// What can all be read is kept whole.
pub proof fn lemma_all_kept(file: SceneFile, nodes: Seq<Pptr>)
    requires
        forall|i: int| 0 <= i < nodes.len() ==> resolve::node_name(file, #[trigger] nodes[i]) is Ok,
    ensures
        qualify::readable_nodes(file, nodes) == nodes,
        resolve::unreadable(file, nodes) is None,
    decreases nodes.len(),
{
    if nodes.len() > 0 {
        let before = nodes.drop_last();
        assert forall|i: int| 0 <= i < before.len() implies resolve::node_name(
            file,
            #[trigger] before[i],
        ) is Ok by {
            assert(before[i] == nodes[i]);
        }
        lemma_all_kept(file, before);
        assert(resolve::node_name(file, nodes[nodes.len() - 1]) is Ok);
        assert(before.push(nodes.last()) =~= nodes);
    }
}

/// As many nodes are found by a name as have it.
proof fn lemma_named_count(file: SceneFile, nodes: Seq<Pptr>, name: Seq<char>)
    requires
        forall|i: int| 0 <= i < nodes.len() ==> resolve::node_name(file, #[trigger] nodes[i]) is Ok,
    ensures
        resolve::nodes_named(file, nodes, name) matches Ok(matches) && matches.len()
            == qualify::occurrences(qualify::names_of(file, nodes), name),
    decreases nodes.len(),
{
    let names = qualify::names_of(file, nodes);
    if nodes.len() > 0 {
        let before = nodes.drop_last();
        assert forall|i: int| 0 <= i < before.len() implies resolve::node_name(
            file,
            #[trigger] before[i],
        ) is Ok by {
            assert(before[i] == nodes[i]);
        }
        lemma_named_count(file, before, name);
        assert(resolve::node_name(file, nodes[nodes.len() - 1]) is Ok);
        assert(names.drop_last() =~= qualify::names_of(file, before));
    }
}

/// The node at `j` is found at the place that the number of its namesakes before
/// it says.
proof fn lemma_named_at(file: SceneFile, nodes: Seq<Pptr>, j: int)
    requires
        forall|i: int| 0 <= i < nodes.len() ==> resolve::node_name(file, #[trigger] nodes[i]) is Ok,
        0 <= j < nodes.len(),
    ensures
        ({
            let names = qualify::names_of(file, nodes);
            let at = qualify::occurrences(names.take(j), names[j]);
            resolve::nodes_named(file, nodes, names[j]) matches Ok(matches) && at < matches.len()
                && matches[at as int] == nodes[j]
        }),
    decreases nodes.len(),
{
    let names = qualify::names_of(file, nodes);
    let before = nodes.drop_last();
    assert forall|i: int| 0 <= i < before.len() implies resolve::node_name(
        file,
        #[trigger] before[i],
    ) is Ok by {
        assert(before[i] == nodes[i]);
    }
    let short = qualify::names_of(file, before);
    assert(resolve::node_name(file, nodes[nodes.len() - 1]) is Ok);
    lemma_named_count(file, nodes, names[j]);
    lemma_named_count(file, before, names[j]);
    if j == nodes.len() - 1 {
        assert(names.take(j) =~= short);
    } else {
        lemma_named_at(file, before, j);
        assert(names.take(j) =~= short.take(j));
        assert(short[j] == names[j]);
    }
}

/// A name with its running index selects its node.
pub proof fn numbered_name_selects(file: SceneFile, nodes: Seq<Pptr>, j: int, kind: Seq<char>)
    requires
        forall|i: int| 0 <= i < nodes.len() ==> resolve::node_name(file, #[trigger] nodes[i]) is Ok,
        0 <= j < nodes.len(),
    ensures
        resolve::picked_node(
            file,
            nodes,
            qualify::numbered(qualify::names_of(file, nodes), j),
            kind,
        ) == Ok::<Pptr, Seq<char>>(nodes[j]),
{
    let names = qualify::names_of(file, nodes);
    lemma_named_count(file, nodes, names[j]);
    lemma_named_at(file, nodes, j);
}

/// What can all be told is kept whole.
pub proof fn lemma_labels_kept(file: SceneFile, components: Seq<Pptr>)
    requires
        forall|i: int|
            0 <= i < components.len() ==> model::label_at(file, #[trigger] components[i]) is Ok,
    ensures
        qualify::readable_labels(file, components) == components.map_values(
            |c: Pptr| model::label_at(file, c)->Ok_0,
        ),
    decreases components.len(),
{
    let all = components.map_values(|c: Pptr| model::label_at(file, c)->Ok_0);
    if components.len() > 0 {
        let before = components.drop_last();
        assert forall|i: int| 0 <= i < before.len() implies model::label_at(
            file,
            #[trigger] before[i],
        ) is Ok by {
            assert(before[i] == components[i]);
        }
        lemma_labels_kept(file, before);
        assert(model::label_at(file, components[components.len() - 1]) is Ok);
        assert(all =~= qualify::readable_labels(file, components));
    } else {
        assert(all =~= Seq::empty());
    }
}

/// As many components are found by a label as carry it.
pub proof fn lemma_labelled_count(file: SceneFile, components: Seq<Pptr>, label: Seq<char>)
    requires
        forall|i: int|
            0 <= i < components.len() ==> model::label_at(file, #[trigger] components[i]) is Ok,
    ensures
        resolve::components_labelled(file, components, label) matches Ok(matches) && matches.len()
            == qualify::occurrences(
            components.map_values(|c: Pptr| model::label_at(file, c)->Ok_0),
            label,
        ),
    decreases components.len(),
{
    let labels = components.map_values(|c: Pptr| model::label_at(file, c)->Ok_0);
    if components.len() > 0 {
        let before = components.drop_last();
        assert forall|i: int| 0 <= i < before.len() implies model::label_at(
            file,
            #[trigger] before[i],
        ) is Ok by {
            assert(before[i] == components[i]);
        }
        lemma_labelled_count(file, before, label);
        assert(model::label_at(file, components[components.len() - 1]) is Ok);
        assert(labels.drop_last() =~= before.map_values(
            |c: Pptr| model::label_at(file, c)->Ok_0,
        ));
    }
}

/// The component at `j` is found at the place that the number of equally labelled
/// ones before it says.
pub proof fn lemma_labelled_at(file: SceneFile, components: Seq<Pptr>, j: int)
    requires
        forall|i: int|
            0 <= i < components.len() ==> model::label_at(file, #[trigger] components[i]) is Ok,
        0 <= j < components.len(),
    ensures
        ({
            let labels = components.map_values(|c: Pptr| model::label_at(file, c)->Ok_0);
            let at = qualify::occurrences(labels.take(j), labels[j]);
            resolve::components_labelled(file, components, labels[j]) matches Ok(matches) && at
                < matches.len() && matches[at as int] == components[j].path_id
        }),
    decreases components.len(),
{
    let labels = components.map_values(|c: Pptr| model::label_at(file, c)->Ok_0);
    let before = components.drop_last();
    assert forall|i: int| 0 <= i < before.len() implies model::label_at(
        file,
        #[trigger] before[i],
    ) is Ok by {
        assert(before[i] == components[i]);
    }
    let short = before.map_values(|c: Pptr| model::label_at(file, c)->Ok_0);
    assert(model::label_at(file, components[components.len() - 1]) is Ok);
    lemma_labelled_count(file, components, labels[j]);
    lemma_labelled_count(file, before, labels[j]);
    if j == components.len() - 1 {
        assert(labels.take(j) =~= short);
    } else {
        lemma_labelled_at(file, before, j);
        assert(labels.take(j) =~= short.take(j));
        assert(short[j] == labels[j]);
    }
}

/// Whether `prefix` leads to the parent of a level: the level is that of the
/// roots, or of the children of the Transform that `prefix` addresses.
pub open spec fn leads_to_level(
    file: SceneFile,
    prefix: Seq<FieldView>,
    level: Seq<Pptr>,
) -> bool {
    if prefix.len() == 0 {
        resolve::roots_of(file, file.transforms@) == Ok::<Seq<Pptr>, Seq<char>>(level)
    } else {
        resolve::transform_for(file, prefix) matches Ok(parent) && (model::transform_at(
            file,
            parent,
        ) matches Ok(transform) && transform.children@ == level)
    }
}

/// One more segment leads to a node of the level.
pub proof fn lemma_segment_leads_on(
    file: SceneFile,
    prefix: Seq<FieldView>,
    level: Seq<Pptr>,
    j: int,
)
    requires
        leads_to_level(file, prefix, level),
        forall|i: int| 0 <= i < level.len() ==> resolve::node_name(file, #[trigger] level[i]) is Ok,
        0 <= j < level.len(),
    ensures
        resolve::transform_for(
            file,
            prefix.push(qualify::numbered(qualify::names_of(file, level), j)),
        ) == Ok::<Pptr, Seq<char>>(level[j]),
{
    let segment = qualify::numbered(qualify::names_of(file, level), j);
    let segments = prefix.push(segment);
    if prefix.len() == 0 {
        numbered_name_selects(file, level, j, "root object"@);
        assert(segments[0] == segment);
        assert(segments.skip(1) =~= Seq::empty());
        assert(resolve::descended(file, level[j], segments.skip(1)) == Ok::<Pptr, Seq<char>>(
            level[j],
        ));
    } else {
        numbered_name_selects(file, level, j, "child object"@);
        lemma_all_kept(file, level);
        let root = resolve::picked_node(
            file,
            resolve::roots_of(file, file.transforms@)->Ok_0,
            prefix[0],
            "root object"@,
        )->Ok_0;
        assert(segments[0] == prefix[0]);
        assert(segments.skip(1) =~= prefix.skip(1).push(segment));
        lemma_descended_push(file, root, prefix.skip(1), segment);
    }
}

/// The paths of a node lead to its GameObject and its components.
proof fn lemma_own_paths_lead(file: SceneFile, segments: Seq<FieldView>, node: Pptr, k: int)
    requires
        resolve::transform_for(file, segments) == Ok::<Pptr, Seq<char>>(node),
        resolve::node_name(file, node) is Ok,
        surroundings_readable(file, node),
        0 <= k < qualify::own_paths(file, segments, node).len(),
    ensures
        resolve::path_target(file, qualify::own_paths(file, segments, node)[k]) is Ok,
{
    let transform = model::transform_at(file, node)->Ok_0;
    let game_object = model::game_object_at(file, transform.game_object)->Ok_0;
    let components = game_object.components@;
    lemma_labels_kept(file, components);
    if k > 0 {
        let labels = qualify::readable_labels(file, components);
        let path = qualify::own_paths(file, segments, node)[k];
        assert(path == qualify::component_paths(segments, labels, labels.len())[k - 1]);
        lemma_labelled_count(file, components, labels[k - 1]);
        lemma_labelled_at(file, components, k - 1);
    }
}

proof fn lemma_listed_paths_lead(
    file: SceneFile,
    prefix: Seq<FieldView>,
    level: Seq<Pptr>,
    n: nat,
    fuel: nat,
    k: int,
)
    requires
        leads_to_level(file, prefix, level),
        forall|node: Pptr| #[trigger] surroundings_readable(file, node),
        forall|i: int| 0 <= i < level.len() ==> resolve::node_name(file, #[trigger] level[i]) is Ok,
        n <= level.len(),
        qualify::paths_below(file, prefix, level, n, fuel) matches Some(paths) && 0 <= k
            < paths.len(),
    ensures
        resolve::path_target(
            file,
            qualify::paths_below(file, prefix, level, n, fuel)->0[k],
        ) is Ok,
    decreases fuel, n,
{
    let paths = qualify::paths_below(file, prefix, level, n, fuel)->0;
    let node = level[n - 1];
    let segments = prefix.push(qualify::numbered(qualify::names_of(file, level), n - 1));
    let children = qualify::readable_children(file, node);
    let before = qualify::paths_below(file, prefix, level, (n - 1) as nat, fuel)->0;
    let own = qualify::own_paths(file, segments, node);
    let below = qualify::paths_below(
        file,
        segments,
        children,
        children.len(),
        (fuel - 1) as nat,
    )->0;
    lemma_segment_leads_on(file, prefix, level, n - 1);
    assert(resolve::node_name(file, level[n - 1]) is Ok);
    assert(surroundings_readable(file, node));
    let transform = model::transform_at(file, node)->Ok_0;
    lemma_all_kept(file, transform.children@);
    if k < before.len() {
        assert(paths[k] == before[k]);
        lemma_listed_paths_lead(file, prefix, level, (n - 1) as nat, fuel, k);
    } else if k < before.len() + own.len() {
        assert(paths[k] == own[k - before.len()]);
        lemma_own_paths_lead(file, segments, node, k - before.len());
    } else {
        assert(paths[k] == below[k - before.len() - own.len()]);
        lemma_listed_paths_lead(
            file,
            segments,
            children,
            children.len(),
            (fuel - 1) as nat,
            k - before.len() - own.len(),
        );
    }
}

/// Every path that is listed for a file leads to an object, where nothing of the
/// hierarchy is unreadable.
pub proof fn listed_paths_lead_somewhere(file: SceneFile, k: int)
    requires
        names_readable(file),
        forall|node: Pptr| #[trigger] surroundings_readable(file, node),
        qualify::paths_of(file) matches Some(paths) && 0 <= k < paths.len(),
    ensures
        resolve::path_target(file, qualify::paths_of(file)->0[k]) is Ok,
{
    let nodes = qualify::readable_roots(file, file.transforms@);
    lemma_roots_agree(file, file.transforms@);
    qualify::lemma_readable_roots(file, file.transforms@);
    lemma_listed_paths_lead(
        file,
        Seq::empty(),
        nodes,
        nodes.len(),
        file.objects@.len() + file.linked@.len(),
        k,
    );
}

/// Every node that is found by a name stands somewhere in the list, with as many
/// namesakes before it as its place says.
proof fn lemma_named_stands(
    file: SceneFile,
    nodes: Seq<Pptr>,
    name: Seq<char>,
    q: int,
) -> (j: int)
    requires
        forall|i: int| 0 <= i < nodes.len() ==> resolve::node_name(file, #[trigger] nodes[i]) is Ok,
        resolve::nodes_named(file, nodes, name) matches Ok(matches) && 0 <= q < matches.len(),
    ensures
        0 <= j < nodes.len(),
        nodes[j] == resolve::nodes_named(file, nodes, name)->Ok_0[q],
        qualify::names_of(file, nodes)[j] == name,
        qualify::occurrences(qualify::names_of(file, nodes).take(j), name) == q,
    decreases nodes.len(),
{
    let names = qualify::names_of(file, nodes);
    let before = nodes.drop_last();
    let short = qualify::names_of(file, before);
    let last = nodes.len() - 1;
    assert forall|i: int| 0 <= i < before.len() implies resolve::node_name(
        file,
        #[trigger] before[i],
    ) is Ok by {
        assert(before[i] == nodes[i]);
    }
    assert(resolve::node_name(file, nodes[last]) is Ok);
    lemma_named_count(file, before, name);
    let found = resolve::nodes_named(file, before, name)->Ok_0;
    if q < found.len() {
        let j = lemma_named_stands(file, before, name, q);
        assert(names.take(j) =~= short.take(j));
        assert(short[j] == names[j]);
        j
    } else {
        assert(names.take(last) =~= short);
        last
    }
}

/// The segment that selects a node among its level is one that the level lists.
pub proof fn lemma_segment_is_listed(file: SceneFile, level: Seq<Pptr>, id: i64) -> (j: int)
    requires
        forall|i: int| 0 <= i < level.len() ==> resolve::node_name(file, #[trigger] level[i]) is Ok,
        forall|i: int| 0 <= i < level.len() ==> (#[trigger] level[i]).file_id == 0,
        level.contains(model::local(id)),
    ensures
        0 <= j < level.len(),
        level[j] == model::local(id),
        qualify::segment_for(file, level, model::local(id)) == Some(
            qualify::numbered(qualify::names_of(file, level), j),
        ),
{
    let k = choose|k: int| 0 <= k < level.len() && level[k] == model::local(id);
    assert(resolve::node_name(file, level[k]) is Ok);
    let name = resolve::node_name(file, model::local(id))->Ok_0;
    lemma_named_count(file, level, name);
    lemma_named_finds(file, level, name, model::local(id));
    resolve::lemma_named_within(file, level, name);
    let matches = resolve::nodes_named(file, level, name)->Ok_0;
    let ids = qualify::ids_of(matches);
    let m = choose|m: int| 0 <= m < matches.len() && matches[m] == model::local(id);
    assert(ids[m] == id);
    lemma_position(ids, id, 0, m);
    let p = qualify::position_from(ids, id, 0)->0;
    assert(level.contains(matches[p]));
    let at = choose|at: int| 0 <= at < level.len() && level[at] == matches[p];
    assert(level[at].file_id == 0);
    assert(matches[p] == model::local(id));
    lemma_named_stands(file, level, name, p)
}

/// What is listed for a node of a level, and below it, is listed for the level.
proof fn lemma_level_lists(
    file: SceneFile,
    prefix: Seq<FieldView>,
    level: Seq<Pptr>,
    n: nat,
    fuel: nat,
    j: int,
    path: PathView,
)
    requires
        0 <= j < n <= level.len(),
        qualify::paths_below(file, prefix, level, n, fuel) is Some,
        ({
            let segments = prefix.push(qualify::numbered(qualify::names_of(file, level), j));
            let children = qualify::readable_children(file, level[j]);
            let below = qualify::paths_below(
                file,
                segments,
                children,
                children.len(),
                (fuel - 1) as nat,
            );
            qualify::own_paths(file, segments, level[j]).contains(path) || (below is Some
                && below->0.contains(path))
        }),
    ensures
        qualify::paths_below(file, prefix, level, n, fuel)->0.contains(path),
    decreases n,
{
    let all = qualify::paths_below(file, prefix, level, n, fuel)->0;
    let segments = prefix.push(qualify::numbered(qualify::names_of(file, level), n - 1));
    let children = qualify::readable_children(file, level[n - 1]);
    let before = qualify::paths_below(file, prefix, level, (n - 1) as nat, fuel)->0;
    let own = qualify::own_paths(file, segments, level[n - 1]);
    let below = qualify::paths_below(
        file,
        segments,
        children,
        children.len(),
        (fuel - 1) as nat,
    )->0;
    assert(all == before + own + below);
    if j < n - 1 {
        lemma_level_lists(file, prefix, level, (n - 1) as nat, fuel, j, path);
        let i = choose|i: int| 0 <= i < before.len() && before[i] == path;
        assert(all[i] == path);
    } else if own.contains(path) {
        let i = choose|i: int| 0 <= i < own.len() && own[i] == path;
        assert(all[before.len() + i] == path);
    } else {
        let i = choose|i: int| 0 <= i < below.len() && below[i] == path;
        assert(all[before.len() + own.len() + i] == path);
    }
}

/// The level of the `k`-th node of a chain, all of it readable and in the file.
proof fn lemma_chain_level(file: SceneFile, chain: Seq<i64>, k: int)
    requires
        consistent(file),
        forall|node: Pptr| #[trigger] surroundings_readable(file, node),
        is_chain(file, chain),
        0 <= k < chain.len(),
    ensures
        ({
            let level = qualify::level_of(file, chain, k);
            &&& level.contains(model::local(chain[k]))
            &&& forall|i: int|
                0 <= i < level.len() ==> resolve::node_name(file, #[trigger] level[i]) is Ok
            &&& forall|i: int| 0 <= i < level.len() ==> (#[trigger] level[i]).file_id == 0
        }),
{
    let id = chain[k];
    assert(hangs_on(file, chain, k));
    if k == 0 {
        assert(root_listed(file, id));
        let x = choose|x: int| 0 <= x < file.transforms@.len() && file.transforms@[x] == id;
        assert(resolve::node_name(file, model::local(file.transforms@[x])) is Ok);
        lemma_root_found(file, file.transforms@, id);
        qualify::lemma_readable_roots(file, file.transforms@);
    } else {
        let up = chain[k - 1];
        assert(hangs_on(file, chain, k - 1));
        assert(child_listed(file, id));
        assert(children_local(file, up));
        assert(surroundings_readable(file, model::local(up)));
    }
}

/// What is listed from the `k`-th node of a chain on is listed for the file.
proof fn lemma_chain_lists(
    file: SceneFile,
    chain: Seq<i64>,
    k: nat,
    path: PathView,
)
    requires
        consistent(file),
        forall|node: Pptr| #[trigger] surroundings_readable(file, node),
        is_chain(file, chain),
        k < chain.len(),
        qualify::paths_of(file) is Some,
        qualify::segments_along(file, chain, k) is Some,
        ({
            let level = qualify::level_of(file, chain, k as int);
            let limit = file.objects@.len() + file.linked@.len();
            k <= limit ==> (qualify::paths_below(
                file,
                qualify::segments_along(file, chain, k)->0,
                level,
                level.len(),
                (limit - k) as nat,
            ) matches Some(paths) ==> paths.contains(path))
        }),
    ensures
        qualify::paths_of(file)->0.contains(path),
        ({
            let level = qualify::level_of(file, chain, k as int);
            let limit = file.objects@.len() + file.linked@.len();
            k < limit && qualify::paths_below(
                file,
                qualify::segments_along(file, chain, k)->0,
                level,
                level.len(),
                (limit - k) as nat,
            ) is Some
        }),
    decreases k,
{
    let limit = file.objects@.len() + file.linked@.len();
    lemma_chain_walk(file, chain, k);
    if k > 0 {
        let up = (k - 1) as nat;
        lemma_chain_walk(file, chain, up);
        lemma_chain_level(file, chain, up as int);
        let level = qualify::level_of(file, chain, up as int);
        let prefix = qualify::segments_along(file, chain, up)->0;
        let j = lemma_segment_is_listed(file, level, chain[up as int]);
        let node = level[j];
        assert(surroundings_readable(file, node));
        assert(hangs_on(file, chain, up as int));
        lemma_all_kept(file, model::transform_at(file, node)->Ok_0.children@);
        assert(qualify::level_of(file, chain, k as int) == qualify::readable_children(file, node));
        lemma_level_lists(file, prefix, level, level.len(), (limit - up) as nat, j, path);
        lemma_chain_lists(file, chain, up, path);
    }
}

/// The walk of the file's paths comes by every node of a chain.
proof fn lemma_chain_walk(file: SceneFile, chain: Seq<i64>, k: nat)
    requires
        consistent(file),
        forall|node: Pptr| #[trigger] surroundings_readable(file, node),
        is_chain(file, chain),
        k < chain.len(),
        qualify::paths_of(file) is Some,
        qualify::segments_along(file, chain, k) is Some,
    ensures
        ({
            let level = qualify::level_of(file, chain, k as int);
            let limit = file.objects@.len() + file.linked@.len();
            k < limit && qualify::paths_below(
                file,
                qualify::segments_along(file, chain, k)->0,
                level,
                level.len(),
                (limit - k) as nat,
            ) is Some
        }),
    decreases k,
{
    let limit = file.objects@.len() + file.linked@.len();
    let level = qualify::level_of(file, chain, k as int);
    lemma_chain_level(file, chain, k as int);
    if k > 0 {
        let up = (k - 1) as nat;
        lemma_chain_walk(file, chain, up);
        lemma_chain_level(file, chain, up as int);
        let above = qualify::level_of(file, chain, up as int);
        let prefix = qualify::segments_along(file, chain, up)->0;
        let j = lemma_segment_is_listed(file, above, chain[up as int]);
        let node = above[j];
        assert(surroundings_readable(file, node));
        assert(hangs_on(file, chain, up as int));
        lemma_all_kept(file, model::transform_at(file, node)->Ok_0.children@);
        lemma_walk_goes_on(file, prefix, above, above.len(), (limit - up) as nat, j);
        assert(qualify::segments_along(file, chain, k)->0 == prefix.push(
            qualify::numbered(qualify::names_of(file, above), j),
        ));
    }
    assert(level.contains(model::local(chain[k as int])));
}

proof fn lemma_walk_goes_on(
    file: SceneFile,
    prefix: Seq<FieldView>,
    level: Seq<Pptr>,
    n: nat,
    fuel: nat,
    j: int,
)
    requires
        0 <= j < n <= level.len(),
        qualify::paths_below(file, prefix, level, n, fuel) is Some,
    ensures
        fuel > 0,
        ({
            let segments = prefix.push(qualify::numbered(qualify::names_of(file, level), j));
            let children = qualify::readable_children(file, level[j]);
            qualify::paths_below(
                file,
                segments,
                children,
                children.len(),
                (fuel - 1) as nat,
            ) is Some
        }),
    decreases n,
{
    if j < n - 1 {
        lemma_walk_goes_on(file, prefix, level, (n - 1) as nat, fuel, j);
    }
}

/// Every component that is found by a label stands somewhere in the list, with as
/// many equally labelled ones before it as its place says.
pub proof fn lemma_labelled_stands(
    file: SceneFile,
    components: Seq<Pptr>,
    label: Seq<char>,
    q: int,
) -> (j: int)
    requires
        forall|i: int|
            0 <= i < components.len() ==> model::label_at(file, #[trigger] components[i]) is Ok,
        resolve::components_labelled(file, components, label) matches Ok(matches) && 0 <= q
            < matches.len(),
    ensures
        ({
            let labels = components.map_values(|c: Pptr| model::label_at(file, c)->Ok_0);
            &&& 0 <= j < components.len()
            &&& labels[j] == label
            &&& qualify::occurrences(labels.take(j), label) == q
            &&& resolve::components_labelled(file, components, label)->Ok_0[q]
                == components[j].path_id
        }),
    decreases components.len(),
{
    let labels = components.map_values(|c: Pptr| model::label_at(file, c)->Ok_0);
    let before = components.drop_last();
    let short = before.map_values(|c: Pptr| model::label_at(file, c)->Ok_0);
    let last = components.len() - 1;
    assert forall|i: int| 0 <= i < before.len() implies model::label_at(
        file,
        #[trigger] before[i],
    ) is Ok by {
        assert(before[i] == components[i]);
    }
    assert(model::label_at(file, components[last]) is Ok);
    lemma_labelled_count(file, before, label);
    let found = resolve::components_labelled(file, before, label)->Ok_0;
    if q < found.len() {
        let j = lemma_labelled_stands(file, before, label, q);
        assert(labels.take(j) =~= short.take(j));
        assert(short[j] == labels[j]);
        j
    } else {
        assert(labels.take(last) =~= short);
        last
    }
}

/// The path of an object is among the paths that are listed for its file, where
/// nothing of the hierarchy is unreadable: every addressable object is listed.
pub proof fn built_path_is_listed(file: SceneFile, target: i64)
    requires
        consistent(file),
        forall|node: Pptr| #[trigger] surroundings_readable(file, node),
        qualify::paths_of(file) is Some,
        qualify::path_to(file, target) is Some,
    ensures
        qualify::paths_of(file)->0.contains(qualify::path_to(file, target)->0),
{
    let path = qualify::path_to(file, target)->0;
    let object = model::object_at(file, model::local(target))->Ok_0;
    let id = if object.class_id == classes::GAME_OBJECT {
        target
    } else {
        object.owner->Ok_0.path_id
    };
    let game_object = model::game_object_at(file, model::local(id))->Ok_0;
    let transform_id = qualify::transform_among(file, game_object.components@)->0;
    let chain = qualify::chain_to(file, transform_id, file.objects@.len())->0;
    lemma_chain_is_chain(file, transform_id, file.objects@.len());
    let k = (chain.len() - 1) as nat;
    let limit = file.objects@.len() + file.linked@.len();
    let level = qualify::level_of(file, chain, k as int);
    assert(qualify::segments_along(file, chain, k) is Some);
    let prefix = qualify::segments_along(file, chain, k)->0;
    lemma_chain_walk(file, chain, k);
    lemma_chain_level(file, chain, k as int);
    let j = lemma_segment_is_listed(file, level, transform_id);
    let segments = prefix.push(qualify::numbered(qualify::names_of(file, level), j));
    let node = level[j];
    assert(path.segments == segments);
    assert(model::transform_at(file, node) is Ok);
    assert(transform_placed(file, id));
    assert(surroundings_readable(file, node));
    let own = qualify::own_paths(file, segments, node);
    let components = game_object.components@;
    let labels = qualify::readable_labels(file, components);
    lemma_labels_kept(file, components);
    assert(own == seq![PathView { segments, component: None }] + qualify::component_paths(
        segments,
        labels,
        labels.len(),
    ));
    if object.class_id == classes::GAME_OBJECT {
        assert(own[0] == path);
    } else {
        let selector = path.component->0;
        let matches = resolve::components_labelled(file, components, selector.name)->Ok_0;
        assert(component_listed(file, target));
        lemma_labelled_finds(file, components, selector.name, model::local(target));
        lemma_labelled_count(file, components, selector.name);
        let m = choose|m: int| 0 <= m < matches.len() && matches[m] == target;
        lemma_position(matches, target, 0, m);
        let p = qualify::position_from(matches, target, 0)->0;
        let at = lemma_labelled_stands(file, components, selector.name, p);
        assert(qualify::numbered(labels, at) == selector);
        assert(own[at + 1] == qualify::component_paths(segments, labels, labels.len())[at]);
        assert(own[at + 1] == path);
    }
    assert(own.contains(path));
    lemma_level_lists(file, prefix, level, level.len(), (limit - k) as nat, j, path);
    lemma_chain_lists(file, chain, k, path);
}

} // verus!
