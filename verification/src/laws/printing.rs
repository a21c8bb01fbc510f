//! How listings and trees are printed: one item after the other, each on its own line.

use vstd::prelude::*;

use crate::cli::{ColorChoice, Format};
use crate::commands::addressable;
use crate::commands::addressable::AddressableLocation;
use crate::commands::file::references::{FileReferences, ReferrerView};
use crate::commands::file::tree::NodeView;
use crate::commands::file::{references, tree, ComponentMatch, ObjectView};
use crate::commands::{file, game, ls};
use crate::model::Object;
use crate::output::{style, Line, Render};
use crate::{classes, number, output, text};

verus! {

/// Items are printed one after the other, all of them and in order.
pub proof fn items_are_printed_one_after_the_other<T: Line>(a: Seq<T>, b: Seq<T>, x: T, color: bool)
    ensures
        output::item_lines(a + b, color) == output::item_lines(a, color) + output::item_lines(b, color),
        output::item_lines(seq![x], color) == x.line_text(color),
    decreases b.len(),
{
    let one = seq![x];
    let none = Seq::<T>::empty();
    assert(one.drop_last() =~= none);
    assert(output::item_lines(none, color) =~= Seq::<char>::empty());
    assert(output::item_lines(one, color) =~= x.line_text(color));
    if b.len() == 0 {
        assert(a + b =~= a);
        assert(b =~= none);
        assert(output::item_lines(a, color) + output::item_lines(b, color) =~= output::item_lines(a, color));
    } else {
        items_are_printed_one_after_the_other(a, b.drop_last(), x, color);
        assert((a + b).drop_last() =~= a + b.drop_last());
        assert((a + b).last() == b.last());
        assert(output::item_lines(a + b, color) =~= output::item_lines(a, color) + output::item_lines(b, color));
    }
}

/// Texts are printed one per line, all of them and in order.
pub proof fn texts_are_printed_one_per_line(a: Seq<Seq<char>>, b: Seq<Seq<char>>, x: Seq<char>)
    ensures
        text::lines_of(a + b) == text::lines_of(a) + text::lines_of(b),
        text::lines_of(seq![x]) == x + "\n"@,
    decreases b.len(),
{
    let one = seq![x];
    let none = Seq::<Seq<char>>::empty();
    assert(one.drop_last() =~= none);
    assert(text::lines_of(none) =~= Seq::<char>::empty());
    assert(text::lines_of(one) =~= x + "\n"@);
    if b.len() == 0 {
        assert(a + b =~= a);
        assert(b =~= none);
        assert(text::lines_of(a) + text::lines_of(b) =~= text::lines_of(a));
    } else {
        texts_are_printed_one_per_line(a, b.drop_last(), x);
        assert((a + b).drop_last() =~= a + b.drop_last());
        assert((a + b).last() == b.last());
        assert(text::lines_of(a + b) =~= text::lines_of(a) + text::lines_of(b));
    }
}

/// Files that reference a file are printed one per line, behind a dash.
pub proof fn referencing_files_are_printed_one_per_line(a: Seq<Seq<char>>, b: Seq<Seq<char>>, x: Seq<char>)
    ensures
        references::dash_lines(a + b) == references::dash_lines(a) + references::dash_lines(b),
        references::dash_lines(seq![x]) == "- "@ + x + "\n"@,
    decreases b.len(),
{
    let one = seq![x];
    let none = Seq::<Seq<char>>::empty();
    assert(one.drop_last() =~= none);
    assert(references::dash_lines(none) =~= Seq::<char>::empty());
    assert(references::dash_lines(one) =~= "- "@ + x + "\n"@);
    if b.len() == 0 {
        assert(a + b =~= a);
        assert(b =~= none);
        assert(references::dash_lines(a) + references::dash_lines(b) =~= references::dash_lines(a));
    } else {
        referencing_files_are_printed_one_per_line(a, b.drop_last(), x);
        assert((a + b).drop_last() =~= a + b.drop_last());
        assert((a + b).last() == b.last());
        assert(references::dash_lines(a + b) =~= references::dash_lines(a) + references::dash_lines(b));
    }
}

/// External files are printed one per line, set in behind a dash.
pub proof fn external_files_are_printed_one_per_line(a: Seq<String>, b: Seq<String>, x: String)
    ensures
        file::external_lines(a + b) == file::external_lines(a) + file::external_lines(b),
        file::external_lines(seq![x]) == "  - "@ + x@ + "\n"@,
    decreases b.len(),
{
    let one = seq![x];
    let none = Seq::<String>::empty();
    assert(one.drop_last() =~= none);
    assert(file::external_lines(none) =~= Seq::<char>::empty());
    assert(file::external_lines(one) =~= "  - "@ + x@ + "\n"@);
    if b.len() == 0 {
        assert(a + b =~= a);
        assert(b =~= none);
        assert(file::external_lines(a) + file::external_lines(b) =~= file::external_lines(a));
    } else {
        external_files_are_printed_one_per_line(a, b.drop_last(), x);
        assert((a + b).drop_last() =~= a + b.drop_last());
        assert((a + b).last() == b.last());
        assert(file::external_lines(a + b) =~= file::external_lines(a) + file::external_lines(b));
    }
}

/// The locations of a script are printed one per line, set in.
pub proof fn locations_are_printed_one_per_line(a: Seq<Seq<char>>, b: Seq<Seq<char>>, x: Seq<char>, color: bool)
    ensures
        game::location_lines(a + b, color) == game::location_lines(a, color) + game::location_lines(b, color),
        game::location_lines(seq![x], color) == "  "@ + style::dim_text(x, color) + "\n"@,
    decreases b.len(),
{
    let one = seq![x];
    let none = Seq::<Seq<char>>::empty();
    assert(one.drop_last() =~= none);
    assert(game::location_lines(none, color) =~= Seq::<char>::empty());
    assert(game::location_lines(one, color) =~= "  "@ + style::dim_text(x, color) + "\n"@);
    if b.len() == 0 {
        assert(a + b =~= a);
        assert(b =~= none);
        assert(game::location_lines(a, color) + game::location_lines(b, color) =~= game::location_lines(a, color));
    } else {
        locations_are_printed_one_per_line(a, b.drop_last(), x, color);
        assert((a + b).drop_last() =~= a + b.drop_last());
        assert((a + b).last() == b.last());
        assert(game::location_lines(a + b, color) =~= game::location_lines(a, color) + game::location_lines(b, color));
    }
}

/// The dependencies of a location are printed one per line, set in.
pub proof fn dependencies_are_printed_one_per_line(a: Seq<Seq<char>>, b: Seq<Seq<char>>, x: Seq<char>, color: bool)
    ensures
        addressable::label_lines(a + b, color) == addressable::label_lines(a, color) + addressable::label_lines(b, color),
        addressable::label_lines(seq![x], color) == "    "@ + style::dim_text(x, color) + "\n"@,
    decreases b.len(),
{
    let one = seq![x];
    let none = Seq::<Seq<char>>::empty();
    assert(one.drop_last() =~= none);
    assert(addressable::label_lines(none, color) =~= Seq::<char>::empty());
    assert(addressable::label_lines(one, color) =~= "    "@ + style::dim_text(x, color) + "\n"@);
    if b.len() == 0 {
        assert(a + b =~= a);
        assert(b =~= none);
        assert(addressable::label_lines(a, color) + addressable::label_lines(b, color) =~= addressable::label_lines(a, color));
    } else {
        dependencies_are_printed_one_per_line(a, b.drop_last(), x, color);
        assert((a + b).drop_last() =~= a + b.drop_last());
        assert((a + b).last() == b.last());
        assert(addressable::label_lines(a + b, color) =~= addressable::label_lines(a, color) + addressable::label_lines(b, color));
    }
}

/// The components of a node are printed one per line, set in behind a dash.
pub proof fn components_are_printed_one_per_line(a: Seq<Seq<char>>, b: Seq<Seq<char>>, x: Seq<char>, indent: Seq<char>, color: bool)
    ensures
        tree::component_lines(a + b, indent, color) == tree::component_lines(a, indent, color) + tree::component_lines(b, indent, color),
        tree::component_lines(seq![x], indent, color) == indent + "  "@ + "- "@ + style::class_text(x, color) + "\n"@,
    decreases b.len(),
{
    let one = seq![x];
    let none = Seq::<Seq<char>>::empty();
    assert(one.drop_last() =~= none);
    assert(tree::component_lines(none, indent, color) =~= Seq::<char>::empty());
    assert(tree::component_lines(one, indent, color) =~= indent + "  "@ + "- "@ + style::class_text(x, color) + "\n"@);
    if b.len() == 0 {
        assert(a + b =~= a);
        assert(b =~= none);
        assert(tree::component_lines(a, indent, color) + tree::component_lines(b, indent, color) =~= tree::component_lines(a, indent, color));
    } else {
        components_are_printed_one_per_line(a, b.drop_last(), x, indent, color);
        assert((a + b).drop_last() =~= a + b.drop_last());
        assert((a + b).last() == b.last());
        assert(tree::component_lines(a + b, indent, color) =~= tree::component_lines(a, indent, color) + tree::component_lines(b, indent, color));
    }
}

/// Objects are printed one per line, all of them and in order.
pub proof fn objects_are_printed_one_per_line(a: Seq<ObjectView>, b: Seq<ObjectView>, x: ObjectView, with_label: bool, color: bool)
    ensures
        file::entry_lines(a + b, with_label, color) == file::entry_lines(a, with_label, color) + file::entry_lines(b, with_label, color),
        file::entry_lines(seq![x], with_label, color) == file::entry_line(x, with_label, color),
    decreases b.len(),
{
    let one = seq![x];
    let none = Seq::<ObjectView>::empty();
    assert(one.drop_last() =~= none);
    assert(file::entry_lines(none, with_label, color) =~= Seq::<char>::empty());
    assert(file::entry_lines(one, with_label, color) =~= file::entry_line(x, with_label, color));
    if b.len() == 0 {
        assert(a + b =~= a);
        assert(b =~= none);
        assert(file::entry_lines(a, with_label, color) + file::entry_lines(b, with_label, color) =~= file::entry_lines(a, with_label, color));
    } else {
        objects_are_printed_one_per_line(a, b.drop_last(), x, with_label, color);
        assert((a + b).drop_last() =~= a + b.drop_last());
        assert((a + b).last() == b.last());
        assert(file::entry_lines(a + b, with_label, color) =~= file::entry_lines(a, with_label, color) + file::entry_lines(b, with_label, color));
    }
}

/// Referrers are printed one per line, all of them and in order.
pub proof fn referrers_are_printed_one_per_line(a: Seq<ReferrerView>, b: Seq<ReferrerView>, x: ReferrerView, files: nat, small: nat, hash: nat, color: bool)
    ensures
        references::referrer_lines(a + b, files, small, hash, color) == references::referrer_lines(a, files, small, hash, color) + references::referrer_lines(b, files, small, hash, color),
        references::referrer_lines(seq![x], files, small, hash, color) == references::referrer_line(x, files, small, hash, color),
    decreases b.len(),
{
    let one = seq![x];
    let none = Seq::<ReferrerView>::empty();
    assert(one.drop_last() =~= none);
    assert(references::referrer_lines(none, files, small, hash, color) =~= Seq::<char>::empty());
    assert(references::referrer_lines(one, files, small, hash, color) =~= references::referrer_line(x, files, small, hash, color));
    if b.len() == 0 {
        assert(a + b =~= a);
        assert(b =~= none);
        assert(references::referrer_lines(a, files, small, hash, color) + references::referrer_lines(b, files, small, hash, color) =~= references::referrer_lines(a, files, small, hash, color));
    } else {
        referrers_are_printed_one_per_line(a, b.drop_last(), x, files, small, hash, color);
        assert((a + b).drop_last() =~= a + b.drop_last());
        assert((a + b).last() == b.last());
        assert(references::referrer_lines(a + b, files, small, hash, color) =~= references::referrer_lines(a, files, small, hash, color) + references::referrer_lines(b, files, small, hash, color));
    }
}

/// The roots of a tree are printed one after the other, each with all below it.
pub proof fn roots_are_printed_one_after_the_other(a: Seq<NodeView>, b: Seq<NodeView>, x: NodeView, color: bool)
    ensures
        tree::roots_text(a + b, color) == tree::roots_text(a, color) + tree::roots_text(b, color),
        tree::roots_text(seq![x], color) == tree::node_text(x, Seq::empty(), color),
    decreases b.len(),
{
    let one = seq![x];
    let none = Seq::<NodeView>::empty();
    assert(one.drop_last() =~= none);
    assert(tree::roots_text(none, color) =~= Seq::<char>::empty());
    assert(tree::roots_text(one, color) =~= tree::node_text(x, Seq::empty(), color));
    if b.len() == 0 {
        assert(a + b =~= a);
        assert(b =~= none);
        assert(tree::roots_text(a, color) + tree::roots_text(b, color) =~= tree::roots_text(a, color));
    } else {
        roots_are_printed_one_after_the_other(a, b.drop_last(), x, color);
        assert((a + b).drop_last() =~= a + b.drop_last());
        assert((a + b).last() == b.last());
        assert(tree::roots_text(a + b, color) =~= tree::roots_text(a, color) + tree::roots_text(b, color));
    }
}

/// The objects of a class are printed one per line, by path id and class; the others
/// are not.
pub proof fn objects_of_a_class_are_printed(
    a: Seq<Object>,
    b: Seq<Object>,
    x: Object,
    filter: Option<Seq<char>>,
)
    ensures
        ls::lines_for(a + b, filter) == ls::lines_for(a, filter) + ls::lines_for(b, filter),
        ls::lines_for(seq![x], filter) == (if filter matches Some(class) && class
            != classes::class_text(x.class_id) {
            Seq::empty()
        } else {
            text::right_aligned(number::signed_decimal(x.path_id as int), 12) + "  "@
                + classes::class_text(x.class_id) + "\n"@
        }),
    decreases b.len(),
{
    let one = seq![x];
    let none = Seq::<Object>::empty();
    assert(one.drop_last() =~= none);
    assert(ls::lines_for(none, filter) =~= Seq::<char>::empty());
    let line = text::right_aligned(number::signed_decimal(x.path_id as int), 12) + "  "@
        + classes::class_text(x.class_id) + "\n"@;
    assert(Seq::<char>::empty() + text::right_aligned(
        number::signed_decimal(x.path_id as int),
        12,
    ) + "  "@ + classes::class_text(x.class_id) + "\n"@ =~= line);
    if b.len() == 0 {
        assert(a + b =~= a);
        assert(b =~= none);
        assert(ls::lines_for(a, filter) + ls::lines_for(b, filter) =~= ls::lines_for(a, filter));
    } else {
        objects_of_a_class_are_printed(a, b.drop_last(), x, filter);
        assert((a + b).drop_last() =~= a + b.drop_last());
        assert((a + b).last() == b.last());
        assert(ls::lines_for(a + b, filter) =~= ls::lines_for(a, filter) + ls::lines_for(
            b,
            filter,
        ));
    }
}

/// The texts one after the other.
pub open spec fn concatenated(texts: Seq<Seq<char>>) -> Seq<char>
    decreases texts.len(),
{
    if texts.len() == 0 {
        Seq::empty()
    } else {
        concatenated(texts.drop_last()) + texts.last()
    }
}

proof fn lemma_children(node: NodeView, n: nat, indent: Seq<char>, color: bool)
    requires
        n <= node.children.len(),
    ensures
        tree::children_text(node, n, indent, color) == concatenated(
            Seq::new(n, |k: int| tree::node_text(node.children[k], indent, color)),
        ),
    decreases n,
{
    let texts = Seq::new(n, |k: int| tree::node_text(node.children[k], indent, color));
    if n > 0 {
        lemma_children(node, (n - 1) as nat, indent, color);
        assert(texts.drop_last() =~= Seq::new(
            (n - 1) as nat,
            |k: int| tree::node_text(node.children[k], indent, color),
        ));
    }
}

/// A node is printed as a line with its name and path id, followed by its components and
/// by all its children, in order and each two blanks further in; a name with blanks
/// stands in quotes.
pub proof fn children_are_printed_below_their_parent(
    node: NodeView,
    indent: Seq<char>,
    color: bool,
)
    ensures
        tree::node_text(node, indent, color) == indent + style::name_text(
            if node.name.contains(' ') {
                "'"@ + node.name + "'"@
            } else {
                node.name
            },
            color,
        ) + "  "@ + style::dim_text("#"@ + number::signed_decimal(node.path_id as int), color)
            + "\n"@ + tree::component_lines(node.components, indent, color) + concatenated(
            Seq::new(
                node.children.len(),
                |k: int| tree::node_text(node.children[k], indent + "  "@, color),
            ),
        ),
{
    lemma_children(node, node.children.len(), indent + "  "@, color);
    assert(Seq::<char>::empty() + "'"@ + node.name + "'"@ =~= "'"@ + node.name + "'"@);
    let id = number::signed_decimal(node.path_id as int);
    assert(Seq::<char>::empty() + "#"@ + id =~= "#"@ + id);
}

/// An object is printed with its path id and class; if labels are shown, with its script
/// in brackets and its name behind them.
pub proof fn an_object_is_printed_with_class_and_label(entry: ObjectView)
    ensures
        file::entry_line(entry, false, false) == text::right_aligned(
            number::signed_decimal(entry.path_id as int),
            12,
        ) + "  "@ + entry.class + "\n"@,
        entry.script is None && entry.name is Some ==> file::entry_line(entry, true, false)
            == text::right_aligned(number::signed_decimal(entry.path_id as int), 12) + "  "@
            + text::left_aligned(entry.class, 24) + "  "@ + entry.name->0 + "\n"@,
        entry.script is Some && entry.name is Some && entry.name->0.len() > 0 ==> file::entry_line(
            entry,
            true,
            false,
        ) == text::right_aligned(number::signed_decimal(entry.path_id as int), 12) + "  "@
            + text::left_aligned(entry.class, 24) + "  "@ + ("("@ + entry.script->0 + ")"@ + " "@
            + entry.name->0) + "\n"@,
{
    if let Some(name) = entry.name {
        assert(Seq::<char>::empty() + name =~= name);
        if name.len() == 0 {
            assert(name =~= Seq::<char>::empty());
        }
    }
    if let Some(script) = entry.script {
        assert(Seq::<char>::empty() + "("@ + script + ")"@ =~= "("@ + script + ")"@);
    }
}

/// A found component is printed with its path, its GameObject and itself.
pub proof fn a_found_component_is_printed_with_its_path(found: ComponentMatch)
    ensures
        found.line_text(false) == found.path@ + "  "@ + ("(GameObject #"@ + number::signed_decimal(
            found.gameobject_path_id as int,
        ) + ", component #"@ + number::signed_decimal(found.component_path_id as int) + ")"@)
            + "\n"@,
{
    let ids = "(GameObject #"@ + number::signed_decimal(found.gameobject_path_id as int)
        + ", component #"@ + number::signed_decimal(found.component_path_id as int) + ")"@;
    assert(Seq::<char>::empty() + "(GameObject #"@ + number::signed_decimal(
        found.gameobject_path_id as int,
    ) + ", component #"@ + number::signed_decimal(found.component_path_id as int) + ")"@ =~= ids);
    assert(Seq::<char>::empty() + found.path@ =~= found.path@);
}

/// A referrer is printed with its file, its path id and its label; the file of a scene
/// stands in brackets behind the name of the scene.
pub proof fn a_referrer_is_printed_with_file_id_and_label(
    r: ReferrerView,
    files: nat,
    small: nat,
    hash: nat,
)
    ensures
        ({
            let at = match r.scene {
                Some(scene) => scene + " ("@ + r.file + ")"@,
                None => r.file,
            };
            let id = number::signed_decimal(r.path_id as int);
            references::referrer_line(r, files, small, hash, false) == "- "@ + text::left_aligned(
                at,
                files,
            ) + "  "@ + text::right_aligned(
                id,
                if id.len() <= 12 {
                    small
                } else {
                    hash
                },
            ) + (if r.label.len() == 0 {
                Seq::empty()
            } else {
                "  "@ + r.label
            }) + "\n"@
        }),
{
    let at = match r.scene {
        Some(scene) => scene + " ("@ + r.file + ")"@,
        None => r.file,
    };
    assert(references::location(r.file, r.scene) =~= at);
    let id = number::signed_decimal(r.path_id as int);
    let width = if id.len() <= 12 {
        small
    } else {
        hash
    };
    let shown = "- "@ + text::left_aligned(at, files) + "  "@ + text::right_aligned(id, width);
    assert(Seq::<char>::empty() + "- "@ + text::left_aligned(at, files) + "  "@
        + text::right_aligned(id, width) =~= shown);
    assert(shown + Seq::<char>::empty() =~= shown);
    assert(shown + ("  "@ + r.label) + "\n"@ =~= shown + "  "@ + r.label + "\n"@);
}

/// A listing of references tells how many there are, of what, and whether it was cut
/// short.
pub proof fn a_header_counts_what_is_shown(
    singular: Seq<char>,
    plural: Seq<char>,
    target: Seq<char>,
    shown: nat,
)
    ensures
        references::header_of(singular, plural, target, shown, false) == number::decimal(shown)
            + " "@ + (if shown == 1 {
            singular
        } else {
            plural
        }) + " "@ + target + ":"@,
        references::header_of(singular, plural, target, shown, true) == "first "@
            + number::decimal(shown) + " "@ + (if shown == 1 {
            singular
        } else {
            plural
        }) + " "@ + target + " (--limit):"@,
{
    assert(Seq::<char>::empty() + number::decimal(shown) =~= number::decimal(shown));
    assert(Seq::<char>::empty() + "first "@ =~= "first "@);
}

/// Where nothing references a file, that is said; else the files are listed.
pub proof fn missing_references_are_said(files: FileReferences, color: bool)
    ensures
        files.0@.len() == 0 ==> files.text(color) == "No references found\n"@,
        files.0@.len() > 0 ==> files.text(color) == references::dash_lines(text::texts(files.0@)),
{
}

/// A tree says how many objects are outside the hierarchy, if there are any.
pub proof fn objects_outside_are_counted(n: nat)
    ensures
        tree::outside_text(0, false) == Seq::<char>::empty(),
        n == 1 ==> tree::outside_text(n, false) == number::decimal(1)
            + " object"@ + " outside the hierarchy"@ + "\n"@,
        n > 1 ==> tree::outside_text(n, false) == number::decimal(n) + " objects"@
            + " outside the hierarchy"@ + "\n"@,
{
    assert(Seq::<char>::empty() + number::decimal(n) =~= number::decimal(n));
}

/// The locations of a key are printed one after the other, with an empty line between
/// them.
pub proof fn locations_are_set_apart(locations: Seq<AddressableLocation>, color: bool)
    ensures
        locations.len() == 1 ==> addressable::all_location_lines(locations, color)
            == addressable::location_lines(locations[0], color),
        locations.len() > 1 ==> addressable::all_location_lines(locations, color)
            == addressable::all_location_lines(locations.drop_last(), color) + "\n"@
            + addressable::location_lines(locations.last(), color),
{
    if locations.len() == 1 {
        let none = locations.drop_last();
        assert(none =~= Seq::<AddressableLocation>::empty());
        assert(addressable::all_location_lines(none, color) =~= Seq::<char>::empty());
        assert(Seq::<char>::empty() + Seq::<char>::empty() + addressable::location_lines(
            locations[0],
            color,
        ) =~= addressable::location_lines(locations[0], color));
    }
}

/// Colour is used as chosen; where that is left open, on a terminal that does not ask to
/// be spared it.
pub proof fn colour_is_used_as_chosen(no_color: bool, terminal: bool)
    ensures
        output::colored(ColorChoice::Always, no_color, terminal),
        !output::colored(ColorChoice::Never, no_color, terminal),
        output::colored(ColorChoice::Auto, no_color, terminal) <==> terminal && !no_color,
{
}

/// Colour stands around a text and leaves the text as it is.
pub proof fn colour_stands_around_the_text(s: Seq<char>)
    ensures
        style::header_text(s, true) == "\x1b["@ + "1"@ + "m"@ + s + "\x1b[0m"@,
        style::dim_text(s, true) == "\x1b["@ + "2"@ + "m"@ + s + "\x1b[0m"@,
        style::class_text(s, true) == "\x1b["@ + "36"@ + "m"@ + s + "\x1b[0m"@,
        style::name_text(s, true) == "\x1b["@ + "32"@ + "m"@ + s + "\x1b[0m"@,
        style::header_text(s, false) == s,
        style::dim_text(s, false) == s,
        style::class_text(s, false) == s,
        style::name_text(s, false) == s,
{
    assert(Seq::<char>::empty() + "\x1b["@ =~= "\x1b["@);
}

/// In JSON the document is printed and a line ended, whatever the text of the value is.
pub proof fn json_is_printed_as_it_is<T: Render>(value: T, color: bool, json: Seq<char>)
    ensures
        output::emitted(value, Format::Json, color, json) == json + "\n"@,
        output::emitted(value, Format::Pretty, color, json) == value.text(color),
{
    assert(Seq::<char>::empty() + json =~= json);
}

/// A text contains another exactly if that stands somewhere in it.
pub proof fn a_text_contains_what_stands_in_it(s: Seq<char>, part: Seq<char>)
    ensures
        text::has_text(s, part) <==> exists|before: Seq<char>, after: Seq<char>|
            s == #[trigger] (before + part + after),
{
    if text::has_text(s, part) {
        let at = choose|at: int| #[trigger] text::occurs_at(s, part, at);
        let before = s.take(at);
        let after = s.skip(at + part.len());
        assert(s.subrange(at, at + part.len()) =~= part);
        assert forall|i: int| 0 <= i < s.len() implies s[i] == (before + part + after)[i] by {
            if at <= i < at + part.len() {
                assert(s.subrange(at, at + part.len())[i - at] == part[i - at]);
            }
        }
        assert(s =~= before + part + after);
    }
    if exists|before: Seq<char>, after: Seq<char>| s == #[trigger] (before + part + after) {
        let (before, after) = choose|before: Seq<char>, after: Seq<char>|
            s == #[trigger] (before + part + after);
        let at = before.len() as int;
        assert(s.subrange(at, at + part.len()) =~= part);
        assert(text::occurs_at(s, part, at));
    }
}

/// A text begins or ends with another exactly if it is that with something behind or
/// before it.
pub proof fn a_text_begins_and_ends_with_its_parts(a: Seq<char>, b: Seq<char>)
    ensures
        text::begins_with(a + b, a),
        text::finishes_with(a + b, b),
        text::begins_with(a, b) ==> b.len() <= a.len() && a.take(b.len() as int) == b,
        text::finishes_with(a, b) ==> b.len() <= a.len() && a.skip(a.len() - b.len()) == b,
{
    assert((a + b).subrange(0, a.len() as int) =~= a);
    assert((a + b).subrange(a.len() as int, (a + b).len() as int) =~= b);
    if text::begins_with(a, b) {
        assert(a.subrange(0, b.len() as int) =~= a.take(b.len() as int));
    }
    if text::finishes_with(a, b) {
        assert(a.subrange(a.len() - b.len(), a.len() as int) =~= a.skip(a.len() - b.len()));
    }
}

/// A text is aligned by blanks alone, on the one side or the other, and is never cut.
pub proof fn a_text_is_aligned_by_blanks(s: Seq<char>, width: nat)
    ensures
        ({
            let left = text::left_aligned(s, width);
            let right = text::right_aligned(s, width);
            let n = if s.len() < width {
                width
            } else {
                s.len()
            };
            &&& left.len() == n && right.len() == n
            &&& left.take(s.len() as int) == s
            &&& forall|i: int| s.len() <= i < n ==> #[trigger] left[i] == ' '
            &&& right.skip(n - s.len()) == s
            &&& forall|i: int| 0 <= i < n - s.len() ==> #[trigger] right[i] == ' '
        }),
{
    let left = text::left_aligned(s, width);
    let right = text::right_aligned(s, width);
    assert(left.take(s.len() as int) =~= s);
    assert(right.skip(right.len() - s.len()) =~= s);
}

/// Small letters stand for capitals one by one, and nothing else is changed.
pub proof fn capitals_are_made_small(s: Seq<char>, i: int)
    requires
        0 <= i < s.len(),
    ensures
        text::ascii_lower(s).len() == s.len(),
        'A' <= s[i] && s[i] <= 'Z' ==> text::ascii_lower(s)[i] as u32 == s[i] as u32 + 32,
        !('A' <= s[i] && s[i] <= 'Z') ==> text::ascii_lower(s)[i] == s[i],
{
}

/// Parts are joined in order, with the separator between each two.
pub proof fn parts_are_joined_in_order(parts: Seq<Seq<char>>, sep: Seq<char>, more: Seq<char>)
    ensures
        text::joined(Seq::empty(), sep) == Seq::<char>::empty(),
        text::joined(seq![more], sep) == more,
        parts.len() > 0 ==> text::joined(parts.push(more), sep) == text::joined(parts, sep) + sep
            + more,
{
    assert(Seq::<char>::empty() + more =~= more);
    assert(parts.push(more).drop_last() =~= parts);
}

} // verus!
