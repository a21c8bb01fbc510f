//! The `tree` file verb: the GameObject hierarchy of a serialized file.

use std::collections::HashSet;

use vstd::prelude::*;

use super::Components;
use crate::classes::MONO_BEHAVIOUR;
use crate::component_path::{ComponentPath, PathView};
use crate::model::{Pptr, SceneFile};
use crate::number::{show_i64, show_usize};
use crate::output::{style, Render};
use crate::resolve::resolve_path;
use crate::text::contains_char;
use crate::{addressing, model, number, resolve, text};

verus! {

/// A node in the GameObject hierarchy [`Tree`].
#[derive(Debug, PartialEq, Eq)]
pub struct TreeNode {
    pub name: String,
    pub path_id: i64,
    pub components: Vec<String>,
    pub children: Vec<TreeNode>,
}

/// What a [`TreeNode`] says.
pub struct NodeView {
    pub name: Seq<char>,
    pub path_id: i64,
    pub components: Seq<Seq<char>>,
    pub children: Seq<NodeView>,
}

impl TreeNode {
    /// What the node says.
    pub open spec fn model(self) -> NodeView
        decreases self,
    {
        NodeView {
            name: self.name@,
            path_id: self.path_id,
            components: text::texts(self.components@),
            children: Seq::new(
                self.children@.len(),
                |i: int|
                    if 0 <= i < self.children@.len() {
                        self.children@[i].model()
                    } else {
                        arbitrary()
                    },
            ),
        }
    }
}

impl View for TreeNode {
    type V = NodeView;

    open spec fn view(&self) -> NodeView {
        self.model()
    }
}

/// What nodes say.
pub open spec fn node_views(nodes: Seq<TreeNode>) -> Seq<NodeView> {
    nodes.map_values(|node: TreeNode| node@)
}

proof fn lemma_node_view(node: TreeNode)
    ensures
        node@ == (NodeView {
            name: node.name@,
            path_id: node.path_id,
            components: text::texts(node.components@),
            children: node_views(node.children@),
        }),
{
    assert(node@.children =~= node_views(node.children@));
}

/// The GameObject hierarchy of a serialized file.
#[derive(Debug, PartialEq, Eq)]
pub struct Tree {
    pub roots: Vec<TreeNode>,
    /// Objects not reachable through the hierarchy (managers, assets, orphaned
    /// components). Always 0 when the tree is scoped to a `root`.
    pub outside_hierarchy: usize,
}

/// What a [`Tree`] says.
pub struct TreeView {
    pub roots: Seq<NodeView>,
    pub outside_hierarchy: nat,
}

impl View for Tree {
    type V = TreeView;

    open spec fn view(&self) -> TreeView {
        TreeView {
            roots: node_views(self.roots@),
            outside_hierarchy: self.outside_hierarchy as nat,
        }
    }
}

/// A name, in single quotes if it contains spaces.
pub open spec fn quoted(name: Seq<char>) -> Seq<char> {
    if name.contains(' ') {
        Seq::<char>::empty() + "'"@ + name + "'"@
    } else {
        name
    }
}

/// Single-quotes a name containing spaces, so it can be copied into a shell.
pub fn quote_if_spaced(name: &str) -> (out: String)
    ensures
        out@ == quoted(name@),
{
    if contains_char(name, ' ') {
        let mut out = String::new();
        out.append("'");
        out.append(name);
        out.append("'");
        out
    } else {
        name.to_owned()
    }
}

/// The lines of components.
pub open spec fn component_lines(
    labels: Seq<Seq<char>>,
    indent: Seq<char>,
    color: bool,
) -> Seq<char>
    decreases labels.len(),
{
    if labels.len() == 0 {
        Seq::empty()
    } else {
        component_lines(labels.drop_last(), indent, color) + (indent + "  "@ + "- "@
            + style::class_text(labels.last(), color) + "\n"@)
    }
}

/// The line of a node itself.
pub open spec fn node_line(node: NodeView, indent: Seq<char>, color: bool) -> Seq<char> {
    indent + style::name_text(quoted(node.name), color) + "  "@ + style::dim_text(
        Seq::<char>::empty() + "#"@ + number::signed_decimal(node.path_id as int),
        color,
    ) + "\n"@
}

/// The lines of a node, its components and all below it, each level two blanks
/// further in.
pub open spec fn node_text(node: NodeView, indent: Seq<char>, color: bool) -> Seq<char>
    decreases node, 1nat, 0nat,
{
    node_line(node, indent, color) + component_lines(node.components, indent, color)
        + children_text(node, node.children.len(), indent + "  "@, color)
}

/// The lines of the first `n` children of a node.
pub open spec fn children_text(node: NodeView, n: nat, indent: Seq<char>, color: bool) -> Seq<char>
    decreases node, 0nat, n,
{
    if n == 0 || n > node.children.len() {
        Seq::empty()
    } else {
        children_text(node, (n - 1) as nat, indent, color) + node_text(
            node.children[n - 1],
            indent,
            color,
        )
    }
}

/// The lines of roots.
pub open spec fn roots_text(roots: Seq<NodeView>, color: bool) -> Seq<char>
    decreases roots.len(),
{
    if roots.len() == 0 {
        Seq::empty()
    } else {
        roots_text(roots.drop_last(), color) + node_text(roots.last(), Seq::empty(), color)
    }
}

/// The line that says how many objects the hierarchy does not reach.
pub open spec fn outside_text(outside: nat, color: bool) -> Seq<char> {
    if outside == 0 {
        Seq::empty()
    } else {
        style::dim_text(
            Seq::<char>::empty() + number::decimal(outside) + (if outside == 1 {
                " object"@
            } else {
                " objects"@
            }) + " outside the hierarchy"@,
            color,
        ) + "\n"@
    }
}

impl TreeNode {
    #[verifier::loop_isolation(false)]
    fn lines(&self, indent: &str, color: bool) -> (out: String)
        ensures
            out@ == node_text(self@, indent@, color),
        decreases *self,
    {
        proof {
            lemma_node_view(*self);
        }
        let mut out = indent.to_owned();
        let name = quote_if_spaced(self.name.as_str());
        out.append(style::name(name.as_str(), color).as_str());
        out.append("  ");
        let mut id = String::new();
        id.append("#");
        id.append(show_i64(self.path_id).as_str());
        out.append(style::dim(id.as_str(), color).as_str());
        out.append("\n");
        let ghost first = out@;
        let ghost labels = text::texts(self.components@);
        let mut i: usize = 0;
        assert(out@ =~= first + component_lines(labels.take(0), indent@, color));
        while i < self.components.len()
            invariant
                i <= self.components@.len(),
                out@ == first + component_lines(labels.take(i as int), indent@, color),
            decreases self.components@.len() - i,
        {
            assert(labels.take(i + 1).drop_last() =~= labels.take(i as int));
            let mut line = indent.to_owned();
            line.append("  ");
            line.append("- ");
            line.append(style::class(self.components[i].as_str(), color).as_str());
            line.append("\n");
            out.append(line.as_str());
            assert(out@ =~= first + component_lines(labels.take(i + 1), indent@, color));
            i += 1;
        }
        assert(labels.take(i as int) =~= labels);
        let ghost second = out@;
        let mut deeper = indent.to_owned();
        deeper.append("  ");
        let mut j: usize = 0;
        assert(out@ =~= second + children_text(self@, 0, deeper@, color));
        while j < self.children.len()
            invariant
                j <= self.children@.len(),
                out@ == second + children_text(self@, j as nat, deeper@, color),
            decreases self.children@.len() - j,
        {
            out.append(self.children[j].lines(deeper.as_str(), color).as_str());
            assert(out@ =~= second + children_text(self@, (j + 1) as nat, deeper@, color));
            j += 1;
        }
        out
    }
}

impl Render for Tree {
    open spec fn text(&self, color: bool) -> Seq<char> {
        roots_text(self@.roots, color) + outside_text(self@.outside_hierarchy, color)
    }

    #[verifier::loop_isolation(false)]
    fn render(&self, color: bool) -> (out: String) {
        let ghost all = node_views(self.roots@);
        let mut out = String::new();
        let mut i: usize = 0;
        while i < self.roots.len()
            invariant
                i <= self.roots@.len(),
                all == node_views(self.roots@),
                out@ == roots_text(all.take(i as int), color),
            decreases self.roots@.len() - i,
        {
            assert(all.take(i + 1).drop_last() =~= all.take(i as int));
            assert(""@ =~= Seq::<char>::empty()) by {
                reveal_strlit("");
            }
            out.append(self.roots[i].lines("", color).as_str());
            i += 1;
        }
        assert(all.take(i as int) =~= all);
        if self.outside_hierarchy > 0 {
            let mut count = String::new();
            count.append(show_usize(self.outside_hierarchy).as_str());
            if self.outside_hierarchy == 1 {
                count.append(" object");
            } else {
                count.append(" objects");
            }
            count.append(" outside the hierarchy");
            let mut line = style::dim(count.as_str(), color);
            line.append("\n");
            out.append(line.as_str());
        } else {
            assert(out@ =~= roots_text(all, color) + Seq::<char>::empty());
        }
        out
    }
}

/// Why a tree cannot be built.
#[derive(Debug, PartialEq, Eq)]
pub enum Fault {
    /// A Transform is among its own descendants.
    Circular,
    /// Something could not be read.
    Unreadable(String),
}

/// What a [`Fault`] says.
pub enum FaultView {
    Circular,
    Unreadable(Seq<char>),
}

impl View for Fault {
    type V = FaultView;

    open spec fn view(&self) -> FaultView {
        match self {
            Fault::Circular => FaultView::Circular,
            Fault::Unreadable(e) => FaultView::Unreadable(e@),
        }
    }
}

impl FaultView {
    /// The fault in words.
    pub open spec fn text(self) -> Seq<char> {
        match self {
            FaultView::Circular => super::circular_text(),
            FaultView::Unreadable(e) => e,
        }
    }
}

impl Fault {
    /// The fault in words.
    pub fn to_text(self) -> (e: String)
        ensures
            e@ == self@.text(),
    {
        match self {
            Fault::Circular => "the hierarchy runs in a circle".to_owned(),
            Fault::Unreadable(e) => e,
        }
    }
}

/// The labels of the components to list; fails on the first that cannot be told.
pub open spec fn shown_labels(
    file: SceneFile,
    components: Seq<Pptr>,
    scripts_only: bool,
) -> Result<Seq<Seq<char>>, Seq<char>>
    decreases components.len(),
{
    if components.len() == 0 {
        Ok(Seq::empty())
    } else {
        match shown_labels(file, components.drop_last(), scripts_only) {
            Err(e) => Err(e),
            Ok(before) => match model::object_at(file, components.last()) {
                Err(e) => Err(e),
                Ok(object) => match model::label_of(object) {
                    Err(e) => Err(e),
                    Ok(label) => if scripts_only && object.class_id != MONO_BEHAVIOUR {
                        Ok(before)
                    } else {
                        Ok(before.push(label))
                    },
                },
            },
        }
    }
}

/// The node and subtree of the Transform that a pointer leads to, or none when
/// pruned: in [`Components::Scripts`] mode a GameObject with no scripts in its
/// whole subtree is pruned. `fuel` bounds the depth.
pub open spec fn built(
    file: SceneFile,
    node: Pptr,
    components: Components,
    fuel: nat,
) -> Result<Option<NodeView>, FaultView>
    decreases fuel, 1nat, 0nat,
{
    match model::transform_at(file, node) {
        Err(e) => Err(FaultView::Unreadable(e)),
        Ok(transform) => match model::game_object_at(file, transform.game_object) {
            Err(e) => Err(FaultView::Unreadable(e)),
            Ok(game_object) => match (if components == Components::Hidden {
                Ok::<Seq<Seq<char>>, Seq<char>>(Seq::empty())
            } else {
                shown_labels(file, game_object.components@, components == Components::Scripts)
            }) {
                Err(e) => Err(FaultView::Unreadable(e)),
                Ok(labels) => match built_among(
                    file,
                    transform.children@,
                    transform.children@.len(),
                    components,
                    fuel,
                ) {
                    Err(e) => Err(e),
                    Ok(children) => if components == Components::Scripts && labels.len() == 0
                        && children.len() == 0 {
                        Ok(None)
                    } else {
                        Ok(
                            Some(
                                NodeView {
                                    name: game_object.name@,
                                    path_id: transform.game_object.path_id,
                                    components: labels,
                                    children,
                                },
                            ),
                        )
                    },
                },
            },
        },
    }
}

/// The nodes of the first `n` of the Transforms that pointers lead to.
pub open spec fn built_among(
    file: SceneFile,
    nodes: Seq<Pptr>,
    n: nat,
    components: Components,
    fuel: nat,
) -> Result<Seq<NodeView>, FaultView>
    decreases fuel, 0nat, n,
{
    if n == 0 {
        Ok(Seq::empty())
    } else if fuel == 0 {
        Err(FaultView::Circular)
    } else {
        match built_among(file, nodes, (n - 1) as nat, components, fuel) {
            Err(e) => Err(e),
            Ok(before) => match built(file, nodes[n - 1], components, (fuel - 1) as nat) {
                Err(e) => Err(e),
                Ok(Some(node)) => Ok(before.push(node)),
                Ok(None) => Ok(before),
            },
        }
    }
}

/// The ids that the hierarchy covers: every Transform, its GameObject, and that
/// GameObject's components; fails on the first Transform that cannot be read.
pub open spec fn covered(file: SceneFile, ids: Seq<i64>) -> Result<Set<i64>, Seq<char>>
    decreases ids.len(),
{
    if ids.len() == 0 {
        Ok(Set::empty())
    } else {
        match covered(file, ids.drop_last()) {
            Err(e) => Err(e),
            Ok(before) => match model::transform_at(file, model::local(ids.last())) {
                Err(e) => Err(e),
                Ok(transform) => {
                    let own = before.insert(ids.last()).insert(transform.game_object.path_id);
                    match model::game_object_at(file, transform.game_object) {
                        Ok(game_object) => Ok(
                            own.union(
                                game_object.components@.map_values(|c: Pptr| c.path_id).to_set(),
                            ),
                        ),
                        Err(_) => Ok(own),
                    }
                },
            },
        }
    }
}

/// How many objects the hierarchy does not cover.
pub open spec fn outside(file: SceneFile) -> Result<nat, Seq<char>> {
    match covered(file, file.transforms@) {
        Err(e) => Err(e),
        Ok(ids) => Ok(
            if file.objects@.len() < ids.len() {
                0
            } else {
                (file.objects@.len() - ids.len()) as nat
            },
        ),
    }
}

/// How deep a hierarchy can be.
pub open spec fn depth_limit(file: SceneFile) -> nat {
    file.objects@.len() + file.linked@.len()
}

/// The nodes of those Transforms that have no father.
pub open spec fn built_roots(file: SceneFile, ids: Seq<i64>, components: Components) -> Result<
    Seq<NodeView>,
    FaultView,
>
    decreases ids.len(),
{
    if ids.len() == 0 {
        Ok(Seq::empty())
    } else {
        match built_roots(file, ids.drop_last(), components) {
            Err(e) => Err(e),
            Ok(before) => match model::transform_at(file, model::local(ids.last())) {
                Err(e) => Err(FaultView::Unreadable(e)),
                Ok(transform) => if transform.father.path_id != 0 {
                    Ok(before)
                } else {
                    match built(file, model::local(ids.last()), components, depth_limit(file)) {
                        Err(e) => Err(e),
                        Ok(Some(node)) => Ok(before.push(node)),
                        Ok(None) => Ok(before),
                    }
                },
            },
        }
    }
}

/// The tree of a file, or of one GameObject in it.
pub open spec fn tree_of(
    file: SceneFile,
    root: Option<PathView>,
    components: Components,
) -> Result<TreeView, FaultView> {
    match root {
        Some(root) => if root.component is Some {
            Err(
                FaultView::Unreadable(
                    "tree takes a GameObject path, not a component (drop the `@…`)"@,
                ),
            )
        } else {
            match resolve::transform_for(file, root.segments) {
                Err(e) => Err(FaultView::Unreadable(e)),
                Ok(node) => match built(file, node, components, depth_limit(file)) {
                    Err(e) => Err(e),
                    Ok(Some(node)) => Ok(TreeView { roots: seq![node], outside_hierarchy: 0 }),
                    Ok(None) => Ok(TreeView { roots: Seq::empty(), outside_hierarchy: 0 }),
                },
            }
        },
        None => match built_roots(file, file.transforms@, components) {
            Err(e) => Err(e),
            Ok(roots) => match outside(file) {
                Err(e) => Err(FaultView::Unreadable(e)),
                Ok(outside_hierarchy) => Ok(TreeView { roots, outside_hierarchy }),
            },
        },
    }
}

/// The labels of the components to list.
#[verifier::loop_isolation(false)]
fn component_labels(file: &SceneFile, components: &Vec<Pptr>, scripts_only: bool) -> (r: Result<
    Vec<String>,
    String,
>)
    ensures
        match r {
            Ok(labels) => shown_labels(*file, components@, scripts_only) == Ok::<
                Seq<Seq<char>>,
                Seq<char>,
            >(text::texts(labels@)),
            Err(e) => shown_labels(*file, components@, scripts_only) == Err::<
                Seq<Seq<char>>,
                Seq<char>,
            >(e@),
        },
{
    let mut labels: Vec<String> = Vec::new();
    let mut i: usize = 0;
    assert(text::texts(labels@) =~= Seq::empty());
    while i < components.len()
        invariant
            i <= components@.len(),
            shown_labels(*file, components@.take(i as int), scripts_only) == Ok::<
                Seq<Seq<char>>,
                Seq<char>,
            >(text::texts(labels@)),
        decreases components@.len() - i,
    {
        assert(components@.take(i + 1).drop_last() =~= components@.take(i as int));
        let object = match file.object_at(components[i]) {
            Ok(object) => object,
            Err(e) => {
                proof {
                    lemma_labels_error(*file, components@, scripts_only, i + 1);
                }
                return Err(e);
            },
        };
        match object.label() {
            Ok(label) => {
                if !scripts_only || object.class_id == MONO_BEHAVIOUR {
                    let ghost before = labels@;
                    labels.push(label);
                    assert(text::texts(labels@) =~= text::texts(before).push(label@));
                }
            },
            Err(e) => {
                proof {
                    lemma_labels_error(*file, components@, scripts_only, i + 1);
                }
                return Err(e);
            },
        }
        i += 1;
    }
    assert(components@.take(i as int) =~= components@);
    Ok(labels)
}

proof fn lemma_labels_error(file: SceneFile, components: Seq<Pptr>, scripts_only: bool, n: int)
    requires
        0 <= n <= components.len(),
        shown_labels(file, components.take(n), scripts_only) is Err,
    ensures
        shown_labels(file, components, scripts_only) == shown_labels(
            file,
            components.take(n),
            scripts_only,
        ),
    decreases components.len() - n,
{
    if n == components.len() {
        assert(components.take(n) =~= components);
    } else {
        assert(components.take(n + 1).drop_last() =~= components.take(n));
        lemma_labels_error(file, components, scripts_only, n + 1);
    }
}

/// Builds a node and its subtree, or `None` when pruned. In
/// [`Components::Scripts`] mode a GameObject with no scripts in its whole subtree
/// is pruned, so only paths leading to a script remain.
pub fn build_node(file: &SceneFile, node: Pptr, components: Components, fuel: usize) -> (r: Result<
    Option<TreeNode>,
    Fault,
>)
    ensures
        match r {
            Ok(Some(node_built)) => built(*file, node, components, fuel as nat) == Ok::<
                Option<NodeView>,
                FaultView,
            >(Some(node_built@)),
            Ok(None) => built(*file, node, components, fuel as nat) == Ok::<
                Option<NodeView>,
                FaultView,
            >(None),
            Err(e) => built(*file, node, components, fuel as nat) == Err::<
                Option<NodeView>,
                FaultView,
            >(e@),
        },
    decreases fuel, 1nat,
{
    let transform = match file.transform_at(node) {
        Ok(transform) => transform,
        Err(e) => {
            return Err(Fault::Unreadable(e));
        },
    };
    let game_object = match file.game_object_at(transform.game_object) {
        Ok(game_object) => game_object,
        Err(e) => {
            return Err(Fault::Unreadable(e));
        },
    };
    let labels: Vec<String> = if components == Components::Hidden {
        let none: Vec<String> = Vec::new();
        assert(text::texts(none@) =~= Seq::empty());
        none
    } else {
        match component_labels(
            file,
            &game_object.components,
            components == Components::Scripts,
        ) {
            Ok(labels) => labels,
            Err(e) => {
                return Err(Fault::Unreadable(e));
            },
        }
    };
    // Build children first, so scripts mode can prune script-less subtrees.
    let children = match build_nodes(file, &transform.children, components, fuel) {
        Ok(children) => children,
        Err(e) => {
            return Err(e);
        },
    };
    if components == Components::Scripts && labels.len() == 0 && children.len() == 0 {
        return Ok(None);
    }
    let out = TreeNode {
        name: game_object.name.clone(),
        path_id: transform.game_object.path_id,
        components: labels,
        children,
    };
    proof {
        lemma_node_view(out);
    }
    Ok(Some(out))
}

/// Builds the nodes of all Transforms that pointers lead to.
#[verifier::loop_isolation(false)]
fn build_nodes(file: &SceneFile, nodes: &Vec<Pptr>, components: Components, fuel: usize) -> (r:
    Result<Vec<TreeNode>, Fault>)
    ensures
        match r {
            Ok(out) => built_among(*file, nodes@, nodes@.len(), components, fuel as nat) == Ok::<
                Seq<NodeView>,
                FaultView,
            >(node_views(out@)),
            Err(e) => built_among(*file, nodes@, nodes@.len(), components, fuel as nat) == Err::<
                Seq<NodeView>,
                FaultView,
            >(e@),
        },
    decreases fuel, 0nat,
{
    let mut out: Vec<TreeNode> = Vec::new();
    assert(node_views(out@) =~= Seq::empty());
    if nodes.len() == 0 {
        return Ok(out);
    }
    if fuel == 0 {
        return Err(Fault::Circular);
    }
    let mut i: usize = 0;
    while i < nodes.len()
        invariant
            i <= nodes@.len(),
            built_among(*file, nodes@, i as nat, components, fuel as nat) == Ok::<
                Seq<NodeView>,
                FaultView,
            >(node_views(out@)),
        decreases nodes@.len() - i,
    {
        match build_node(file, nodes[i], components, fuel - 1) {
            Ok(Some(node)) => {
                let ghost before = out@;
                out.push(node);
                assert(node_views(out@) =~= node_views(before).push(node@));
            },
            Ok(None) => {},
            Err(e) => {
                proof {
                    lemma_built_error(
                        *file,
                        nodes@,
                        components,
                        fuel as nat,
                        (i + 1) as nat,
                        nodes@.len(),
                    );
                }
                return Err(e);
            },
        }
        i += 1;
    }
    Ok(out)
}

proof fn lemma_built_error(
    file: SceneFile,
    nodes: Seq<Pptr>,
    components: Components,
    fuel: nat,
    m: nat,
    n: nat,
)
    requires
        m <= n,
        built_among(file, nodes, m, components, fuel) is Err,
    ensures
        built_among(file, nodes, n, components, fuel) == built_among(
            file,
            nodes,
            m,
            components,
            fuel,
        ),
    decreases n,
{
    if m < n {
        lemma_built_error(file, nodes, components, fuel, m, (n - 1) as nat);
    }
}

/// Counts objects not covered by the GameObject hierarchy: total objects minus
/// every transform, its GameObject, and that GameObject's components.
#[verifier::loop_isolation(false)]
pub fn objects_outside_hierarchy(file: &SceneFile) -> (r: Result<usize, String>)
    ensures
        match r {
            Ok(n) => outside(*file) == Ok::<nat, Seq<char>>(n as nat),
            Err(e) => outside(*file) == Err::<nat, Seq<char>>(e@),
        },
{
    broadcast use vstd::std_specs::hash::group_hash_axioms;

    let ghost ids = file.transforms@;
    let mut found: HashSet<i64> = HashSet::new();
    let mut i: usize = 0;
    while i < file.transforms.len()
        invariant
            i <= ids.len(),
            ids == file.transforms@,
            covered(*file, ids.take(i as int)) == Ok::<Set<i64>, Seq<char>>(found@),
        decreases ids.len() - i,
    {
        assert(ids.take(i + 1).drop_last() =~= ids.take(i as int));
        let id: i64 = file.transforms[i];
        let transform = match file.transform_at(Pptr::local(id)) {
            Ok(transform) => transform,
            Err(e) => {
                proof {
                    lemma_covered_error(*file, ids, i + 1);
                }
                return Err(e);
            },
        };
        found.insert(id);
        found.insert(transform.game_object.path_id);
        if let Ok(game_object) = file.game_object_at(transform.game_object) {
            let ghost own = found@;
            let ghost all = game_object.components@.map_values(|c: Pptr| c.path_id);
            let mut j: usize = 0;
            assert(own =~= own.union(all.take(0).to_set()));
            while j < game_object.components.len()
                invariant
                    j <= game_object.components@.len(),
                    all == game_object.components@.map_values(|c: Pptr| c.path_id),
                    found@ == own.union(all.take(j as int).to_set()),
                decreases game_object.components@.len() - j,
            {
                found.insert(game_object.components[j].path_id);
                proof {
                    let k = j as int;
                    assert(all.take(k + 1) =~= all.take(k).push(all[k]));
                    assert(all.take(k + 1).to_set() =~= all.take(k).to_set().insert(all[k])) by {
                        assert forall|x: i64|
                            #![auto]
                            all.take(k + 1).to_set().contains(x) <==> all.take(k).to_set().insert(
                                all[k],
                            ).contains(x) by {
                            if all.take(k).to_set().contains(x) {
                                let m = choose|m: int|
                                    0 <= m < all.take(k).len() && all.take(k)[m] == x;
                                assert(all.take(k + 1)[m] == x);
                            }
                            if x == all[k] {
                                assert(all.take(k + 1)[k] == x);
                            }
                        }
                    }
                    assert(found@ =~= own.union(all.take(k + 1).to_set()));
                }
                j += 1;
            }
            assert(all.take(j as int) =~= all);
        }
        i += 1;
    }
    assert(ids.take(i as int) =~= ids);
    let total: usize = file.objects.len();
    let inside: usize = found.len();
    Ok(
        if total < inside {
            0
        } else {
            total - inside
        },
    )
}

proof fn lemma_covered_error(file: SceneFile, ids: Seq<i64>, n: int)
    requires
        0 <= n <= ids.len(),
        covered(file, ids.take(n)) is Err,
    ensures
        covered(file, ids) == covered(file, ids.take(n)),
    decreases ids.len() - n,
{
    if n == ids.len() {
        assert(ids.take(n) =~= ids);
    } else {
        assert(ids.take(n + 1).drop_last() =~= ids.take(n));
        lemma_covered_error(file, ids, n + 1);
    }
}

/// Builds the nodes of those Transforms that have no father.
#[verifier::loop_isolation(false)]
fn build_roots(file: &SceneFile, components: Components, limit: usize) -> (r: Result<
    Vec<TreeNode>,
    Fault,
>)
    requires
        limit == depth_limit(*file),
    ensures
        match r {
            Ok(out) => built_roots(*file, file.transforms@, components) == Ok::<
                Seq<NodeView>,
                FaultView,
            >(node_views(out@)),
            Err(e) => built_roots(*file, file.transforms@, components) == Err::<
                Seq<NodeView>,
                FaultView,
            >(e@),
        },
{
    let ghost ids = file.transforms@;
    let mut roots: Vec<TreeNode> = Vec::new();
    let mut i: usize = 0;
    assert(node_views(roots@) =~= Seq::empty());
    while i < file.transforms.len()
        invariant
            i <= ids.len(),
            ids == file.transforms@,
            built_roots(*file, ids.take(i as int), components) == Ok::<Seq<NodeView>, FaultView>(
                node_views(roots@),
            ),
        decreases ids.len() - i,
    {
        assert(ids.take(i + 1).drop_last() =~= ids.take(i as int));
        let node = Pptr::local(file.transforms[i]);
        let transform = match file.transform_at(node) {
            Ok(transform) => transform,
            Err(e) => {
                proof {
                    lemma_roots_error(*file, ids, components, i + 1);
                }
                return Err(Fault::Unreadable(e));
            },
        };
        if transform.father.is_null() {
            match build_node(file, node, components, limit) {
                Ok(Some(root)) => {
                    let ghost before = roots@;
                    roots.push(root);
                    assert(node_views(roots@) =~= node_views(before).push(root@));
                },
                Ok(None) => {},
                Err(e) => {
                    proof {
                        lemma_roots_error(*file, ids, components, i + 1);
                    }
                    return Err(e);
                },
            }
        }
        i += 1;
    }
    assert(ids.take(i as int) =~= ids);
    Ok(roots)
}

proof fn lemma_roots_error(file: SceneFile, ids: Seq<i64>, components: Components, n: int)
    requires
        0 <= n <= ids.len(),
        built_roots(file, ids.take(n), components) is Err,
    ensures
        built_roots(file, ids, components) == built_roots(file, ids.take(n), components),
    decreases ids.len() - n,
{
    if n == ids.len() {
        assert(ids.take(n) =~= ids);
    } else {
        assert(ids.take(n + 1).drop_last() =~= ids.take(n));
        lemma_roots_error(file, ids, components, n + 1);
    }
}

/// Builds the GameObject hierarchy. Names come from each transform's GameObject;
/// the GameObject path id is recorded for `obj` follow-up. `components` selects
/// which components to attach to each GameObject. `root` scopes the tree to one
/// GameObject's subtree; without it, every scene root.
pub fn tree(file: &SceneFile, root: Option<&ComponentPath>, components: Components) -> (r: Result<
    Tree,
    Fault,
>)
    requires
        file.objects@.len() + file.linked@.len() <= usize::MAX,
        root matches Some(path) ==> path.segments@.len() >= 1,
    ensures
        ({
            let at = match root {
                Some(path) => Some(path@),
                None => None,
            };
            match r {
                Ok(out) => tree_of(*file, at, components) == Ok::<TreeView, FaultView>(out@),
                Err(e) => tree_of(*file, at, components) == Err::<TreeView, FaultView>(e@),
            }
        }),
{
    let limit: usize = file.objects.len() + file.linked.len();
    match root {
        Some(path) => {
            if path.component.is_some() {
                return Err(
                    Fault::Unreadable(
                        "tree takes a GameObject path, not a component (drop the `@…`)".to_owned(),
                    ),
                );
            }
            let node = match resolve_path(file, path) {
                Ok(node) => node,
                Err(e) => {
                    return Err(Fault::Unreadable(e));
                },
            };
            let mut roots: Vec<TreeNode> = Vec::new();
            match build_node(file, node, components, limit) {
                Ok(Some(built_node)) => {
                    roots.push(built_node);
                    assert(node_views(roots@) =~= seq![built_node@]);
                },
                Ok(None) => {
                    assert(node_views(roots@) =~= Seq::empty());
                },
                Err(e) => {
                    return Err(e);
                },
            }
            Ok(Tree { roots, outside_hierarchy: 0 })
        },
        None => {
            let roots = match build_roots(file, components, limit) {
                Ok(roots) => roots,
                Err(e) => {
                    return Err(e);
                },
            };
            match objects_outside_hierarchy(file) {
                Ok(outside_hierarchy) => Ok(Tree { roots, outside_hierarchy }),
                Err(e) => Err(Fault::Unreadable(e)),
            }
        },
    }
}

/// Whether a node has components to show, or one below it has.
pub open spec fn leads_to_script(node: NodeView) -> bool
    decreases node,
{
    node.components.len() > 0 || exists|i: int|
        0 <= i < node.children.len() && leads_to_script(#[trigger] node.children[i])
}

/// In a tree of scripts, every node leads to one.
pub proof fn scripts_tree_is_pruned(file: SceneFile, node: Pptr, fuel: nat)
    ensures
        built(file, node, Components::Scripts, fuel) matches Ok(Some(out)) ==> leads_to_script(
            out,
        ),
    decreases fuel, 1nat, 0nat,
{
    if let Ok(Some(out)) = built(file, node, Components::Scripts, fuel) {
        let transform = model::transform_at(file, node)->Ok_0;
        lemma_children_are_pruned(file, transform.children@, transform.children@.len(), fuel);
        if out.components.len() == 0 {
            assert(leads_to_script(out.children[0]));
        }
    }
}

proof fn lemma_children_are_pruned(file: SceneFile, nodes: Seq<Pptr>, n: nat, fuel: nat)
    ensures
        built_among(file, nodes, n, Components::Scripts, fuel) matches Ok(out) ==> forall|i: int|
            0 <= i < out.len() ==> leads_to_script(#[trigger] out[i]),
    decreases fuel, 0nat, n,
{
    if n > 0 && fuel > 0 {
        if let Ok(out) = built_among(file, nodes, n, Components::Scripts, fuel) {
            lemma_children_are_pruned(file, nodes, (n - 1) as nat, fuel);
            scripts_tree_is_pruned(file, nodes[n - 1], (fuel - 1) as nat);
        }
    }
}

/// Whether the nodes of a way are distinct, can be read, and rank above `node`.
pub open spec fn leads_down(
    file: SceneFile,
    rank: spec_fn(Pptr) -> nat,
    way: Seq<Pptr>,
    node: Pptr,
) -> bool {
    &&& way.no_duplicates()
    &&& forall|k: int|
        0 <= k < way.len() ==> model::object_at(file, #[trigger] way[k]) is Ok && rank(node) < rank(
            way[k],
        )
}

proof fn lemma_built_ends(
    file: SceneFile,
    rank: spec_fn(Pptr) -> nat,
    way: Seq<Pptr>,
    node: Pptr,
    components: Components,
    fuel: nat,
)
    requires
        addressing::ranked(file, rank),
        leads_down(file, rank, way, node),
        way.len() + fuel >= depth_limit(file),
    ensures
        built(file, node, components, fuel) != Err::<Option<NodeView>, FaultView>(
            FaultView::Circular,
        ),
    decreases fuel, 1nat, 0nat,
{
    if let Ok(transform) = model::transform_at(file, node) {
        let further = way.push(node);
        assert forall|k: int, m: int|
            0 <= k < further.len() && 0 <= m < further.len() && k != m implies further[k]
            != further[m] by {
            if k < way.len() && m < way.len() {
                assert(way[k] != way[m]);
            } else if k < way.len() {
                assert(rank(node) < rank(way[k]));
            } else {
                assert(rank(node) < rank(way[m]));
            }
        }
        assert forall|k: int| 0 <= k < further.len() implies model::targets(file).contains(
            #[trigger] further[k],
        ) by {
            if k < way.len() {
                assert(model::object_at(file, way[k]) is Ok);
            }
            model::lemma_target_known(file, further[k]);
        }
        model::lemma_distinct_within(further, model::targets(file));
        let children = transform.children@;
        assert forall|i: int| 0 <= i < children.len() implies leads_down(
            file,
            rank,
            further,
            #[trigger] children[i],
        ) by {
            assert(rank(model::transform_at(file, node)->Ok_0.children@[i]) < rank(node));
            assert forall|k: int| 0 <= k < further.len() implies model::object_at(
                file,
                #[trigger] further[k],
            ) is Ok && rank(children[i]) < rank(further[k]) by {
                if k < way.len() {
                    assert(model::object_at(file, way[k]) is Ok);
                }
            }
        }
        lemma_among_ends(file, rank, further, children, children.len(), components, fuel);
    }
}

proof fn lemma_among_ends(
    file: SceneFile,
    rank: spec_fn(Pptr) -> nat,
    way: Seq<Pptr>,
    nodes: Seq<Pptr>,
    n: nat,
    components: Components,
    fuel: nat,
)
    requires
        addressing::ranked(file, rank),
        n <= nodes.len(),
        fuel > 0,
        forall|i: int| 0 <= i < nodes.len() ==> leads_down(file, rank, way, #[trigger] nodes[i]),
        way.len() + fuel > depth_limit(file),
    ensures
        built_among(file, nodes, n, components, fuel) != Err::<Seq<NodeView>, FaultView>(
            FaultView::Circular,
        ),
    decreases fuel, 0nat, n,
{
    if n > 0 {
        lemma_among_ends(file, rank, way, nodes, (n - 1) as nat, components, fuel);
        assert(leads_down(file, rank, way, nodes[n - 1]));
        lemma_built_ends(file, rank, way, nodes[n - 1], components, (fuel - 1) as nat);
    }
}

proof fn lemma_roots_end(
    file: SceneFile,
    rank: spec_fn(Pptr) -> nat,
    ids: Seq<i64>,
    components: Components,
)
    requires
        addressing::ranked(file, rank),
    ensures
        built_roots(file, ids, components) != Err::<Seq<NodeView>, FaultView>(FaultView::Circular),
    decreases ids.len(),
{
    if ids.len() > 0 {
        lemma_roots_end(file, rank, ids.drop_last(), components);
        lemma_built_ends(
            file,
            rank,
            Seq::empty(),
            model::local(ids.last()),
            components,
            depth_limit(file),
        );
    }
}

/// However deep a hierarchy is, its tree is built: only children that run in a
/// circle have no end.
pub proof fn ranked_hierarchy_has_a_tree(
    file: SceneFile,
    rank: spec_fn(Pptr) -> nat,
    root: Option<PathView>,
    components: Components,
)
    requires
        addressing::ranked(file, rank),
    ensures
        tree_of(file, root, components) != Err::<TreeView, FaultView>(FaultView::Circular),
{
    lemma_roots_end(file, rank, file.transforms@, components);
    if let Some(path) = root {
        if let Ok(node) = resolve::transform_for(file, path.segments) {
            lemma_built_ends(file, rank, Seq::empty(), node, components, depth_limit(file));
        }
    }
}

} // verus!
