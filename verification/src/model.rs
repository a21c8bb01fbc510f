//! A serialized file as the commands see it: its objects, what reading each of
//! them gave, and the pointers between them.

use vstd::prelude::*;

use crate::classes::{class_label, MONO_BEHAVIOUR};
use crate::json::Json;
use crate::number::show_i64;

verus! {

/// A pointer to an object, in this file (`file_id` 0) or in an external one.
#[derive(Debug, Clone, Copy, PartialEq, Eq, Structural)]
pub struct Pptr {
    pub file_id: i32,
    pub path_id: i64,
}

/// A GameObject: its name and its components.
#[derive(Debug, PartialEq, Eq)]
pub struct GameObject {
    pub name: String,
    pub components: Vec<Pptr>,
}

/// A (Rect)Transform: the GameObject it places, and its place in the hierarchy.
#[derive(Debug, PartialEq, Eq)]
pub struct Transform {
    pub game_object: Pptr,
    pub children: Vec<Pptr>,
    pub father: Pptr,
}

/// One object and what reading it gave. A reading that failed holds the reason.
#[derive(Debug, PartialEq, Eq)]
pub struct Object {
    pub path_id: i64,
    pub class_id: i32,
    /// The class name of the script that a MonoBehaviour is an instance of.
    pub script: Result<Option<String>, String>,
    /// The object read as a GameObject.
    pub game_object: Result<GameObject, String>,
    /// The object read as a Transform.
    pub transform: Result<Transform, String>,
    /// The GameObject that the object, read as a component, sits on.
    pub owner: Result<Pptr, String>,
    /// The object read as a JSON value.
    pub value: Result<Json, String>,
    /// The pointers that the object holds.
    pub pointers: Result<Vec<Pptr>, String>,
}

/// An object of another file that a pointer of this one leads to, or the reason
/// why it could not be reached.
#[derive(Debug, PartialEq, Eq)]
pub struct Linked {
    pub pptr: Pptr,
    pub object: Result<Object, String>,
}

/// A serialized file.
#[derive(Debug, PartialEq, Eq)]
pub struct SceneFile {
    /// The objects, in file order.
    pub objects: Vec<Object>,
    /// The path ids of the (Rect)Transforms.
    pub transforms: Vec<i64>,
    /// The objects of other files that pointers lead to.
    pub linked: Vec<Linked>,
}

/// The pointer to an object of the same file.
pub open spec fn local(path_id: i64) -> Pptr {
    Pptr { file_id: 0, path_id }
}

/// The last of `objects` with the given path id.
pub open spec fn object_with(objects: Seq<Object>, path_id: i64) -> Option<Object>
    decreases objects.len(),
{
    if objects.len() == 0 {
        None
    } else if objects.last().path_id == path_id {
        Some(objects.last())
    } else {
        object_with(objects.drop_last(), path_id)
    }
}

/// The last of `linked` for the given pointer.
pub open spec fn linked_with(linked: Seq<Linked>, pptr: Pptr) -> Option<Linked>
    decreases linked.len(),
{
    if linked.len() == 0 {
        None
    } else if linked.last().pptr == pptr {
        Some(linked.last())
    } else {
        linked_with(linked.drop_last(), pptr)
    }
}

/// Why a path id leads nowhere.
pub open spec fn no_object(path_id: i64) -> Seq<char> {
    Seq::<char>::empty() + "No object with path id "@ + crate::number::signed_decimal(
        path_id as int,
    ) + " exists"@
}

/// The object that a pointer leads to, or why it leads to none.
pub open spec fn object_at(file: SceneFile, pptr: Pptr) -> Result<Object, Seq<char>> {
    if pptr.file_id == 0 {
        match object_with(file.objects@, pptr.path_id) {
            Some(object) => Ok(object),
            None => Err(no_object(pptr.path_id)),
        }
    } else {
        match linked_with(file.linked@, pptr) {
            Some(linked) => match linked.object {
                Ok(object) => Ok(object),
                Err(e) => Err(e@),
            },
            None => Err(no_object(pptr.path_id)),
        }
    }
}

/// The GameObject that a pointer leads to.
pub open spec fn game_object_at(file: SceneFile, pptr: Pptr) -> Result<GameObject, Seq<char>> {
    match object_at(file, pptr) {
        Ok(object) => match object.game_object {
            Ok(game_object) => Ok(game_object),
            Err(e) => Err(e@),
        },
        Err(e) => Err(e),
    }
}

/// The Transform that a pointer leads to.
pub open spec fn transform_at(file: SceneFile, pptr: Pptr) -> Result<Transform, Seq<char>> {
    match object_at(file, pptr) {
        Ok(object) => match object.transform {
            Ok(transform) => Ok(transform),
            Err(e) => Err(e@),
        },
        Err(e) => Err(e),
    }
}

/// The name of the GameObject that a Transform places.
pub open spec fn owner_name(file: SceneFile, transform: Transform) -> Result<
    Seq<char>,
    Seq<char>,
> {
    match game_object_at(file, transform.game_object) {
        Ok(game_object) => Ok(game_object.name@),
        Err(e) => Err(e),
    }
}

/// An object's display label: the script's class name for a MonoBehaviour, else
/// the class.
pub open spec fn label_of(object: Object) -> Result<Seq<char>, Seq<char>> {
    if object.class_id == MONO_BEHAVIOUR {
        match object.script {
            Ok(Some(script)) => Ok(script@),
            Ok(None) => Ok(crate::classes::class_text(object.class_id)),
            Err(e) => Err(e@),
        }
    } else {
        Ok(crate::classes::class_text(object.class_id))
    }
}

/// The display label of the object that a pointer leads to.
pub open spec fn label_at(file: SceneFile, pptr: Pptr) -> Result<Seq<char>, Seq<char>> {
    match object_at(file, pptr) {
        Ok(object) => label_of(object),
        Err(e) => Err(e),
    }
}

/// The `m_Name` of the object with the given path id, as far as it can be read.
pub open spec fn name_at(file: SceneFile, path_id: i64) -> Option<Seq<char>> {
    match object_at(file, local(path_id)) {
        Ok(object) => match object.value {
            Ok(value) => match value@.get("m_Name"@) {
                Some(name) => name.as_text(),
                None => None,
            },
            Err(_) => None,
        },
        Err(_) => None,
    }
}

/// Whether `r` is what `s` says: the same value, or an error with that text.
pub open spec fn agrees<T>(r: Result<&T, String>, s: Result<T, Seq<char>>) -> bool {
    match r {
        Ok(v) => s == Ok::<T, Seq<char>>(*v),
        Err(e) => s == Err::<T, Seq<char>>(e@),
    }
}

/// Whether `r` is the text that `s` says, or an error with that text.
pub open spec fn says(r: Result<String, String>, s: Result<Seq<char>, Seq<char>>) -> bool {
    match r {
        Ok(v) => s == Ok::<Seq<char>, Seq<char>>(v@),
        Err(e) => s == Err::<Seq<char>, Seq<char>>(e@),
    }
}

/// The pointers that can lead anywhere: to the objects of the file, and to those
/// of other files that it is linked to.
pub open spec fn targets(file: SceneFile) -> Seq<Pptr> {
    file.objects@.map_values(|o: Object| local(o.path_id)) + file.linked@.map_values(
        |l: Linked| l.pptr,
    )
}

/// Distinct items out of a pool are no more than the pool holds.
pub proof fn lemma_distinct_within<A>(items: Seq<A>, pool: Seq<A>)
    requires
        items.no_duplicates(),
        forall|i: int| 0 <= i < items.len() ==> pool.contains(#[trigger] items[i]),
    ensures
        items.len() <= pool.len(),
{
    items.unique_seq_to_set();
    pool.lemma_cardinality_of_set();
    assert(items.to_set().subset_of(pool.to_set())) by {
        assert forall|x: A| items.to_set().contains(x) implies pool.to_set().contains(x) by {
            let i = choose|i: int| 0 <= i < items.len() && items[i] == x;
            assert(pool.contains(items[i]));
        }
    }
    vstd::set_lib::lemma_len_subset(items.to_set(), pool.to_set());
}

proof fn lemma_object_known(objects: Seq<Object>, path_id: i64)
    ensures
        object_with(objects, path_id) is Some ==> exists|i: int|
            0 <= i < objects.len() && (#[trigger] objects[i]).path_id == path_id,
    decreases objects.len(),
{
    if objects.len() > 0 {
        if objects.last().path_id == path_id {
            assert(objects[objects.len() - 1].path_id == path_id);
        } else {
            lemma_object_known(objects.drop_last(), path_id);
            if object_with(objects, path_id) is Some {
                let i = choose|i: int|
                    0 <= i < objects.len() - 1 && (#[trigger] objects.drop_last()[i]).path_id
                        == path_id;
                assert(objects[i].path_id == path_id);
            }
        }
    }
}

proof fn lemma_linked_known(linked: Seq<Linked>, pptr: Pptr)
    ensures
        linked_with(linked, pptr) is Some ==> exists|i: int|
            0 <= i < linked.len() && (#[trigger] linked[i]).pptr == pptr,
    decreases linked.len(),
{
    if linked.len() > 0 {
        if linked.last().pptr == pptr {
            assert(linked[linked.len() - 1].pptr == pptr);
        } else {
            lemma_linked_known(linked.drop_last(), pptr);
            if linked_with(linked, pptr) is Some {
                let i = choose|i: int|
                    0 <= i < linked.len() - 1 && (#[trigger] linked.drop_last()[i]).pptr == pptr;
                assert(linked[i].pptr == pptr);
            }
        }
    }
}

/// A pointer that leads to an object is one of those that can.
pub proof fn lemma_target_known(file: SceneFile, pptr: Pptr)
    requires
        object_at(file, pptr) is Ok,
    ensures
        targets(file).contains(pptr),
        pptr.file_id == 0 ==> targets(file).take(file.objects@.len() as int).contains(pptr),
{
    let all = targets(file);
    if pptr.file_id == 0 {
        lemma_object_known(file.objects@, pptr.path_id);
        let i = choose|i: int|
            0 <= i < file.objects@.len() && (#[trigger] file.objects@[i]).path_id == pptr.path_id;
        assert(all[i] == pptr);
        assert(all.take(file.objects@.len() as int)[i] == pptr);
    } else {
        lemma_linked_known(file.linked@, pptr);
        let i = choose|i: int|
            0 <= i < file.linked@.len() && (#[trigger] file.linked@[i]).pptr == pptr;
        assert(all[file.objects@.len() + i] == pptr);
    }
}

impl Pptr {
    /// The pointer to an object of the same file.
    pub fn local(path_id: i64) -> (p: Pptr)
        ensures
            p == local(path_id),
    {
        Pptr { file_id: 0, path_id }
    }

    /// Whether the pointer stays in its file.
    pub fn is_local(self) -> (r: bool)
        ensures
            r == (self.file_id == 0),
    {
        self.file_id == 0
    }

    /// Whether the pointer leads nowhere.
    pub fn is_null(self) -> (r: bool)
        ensures
            r == (self.path_id == 0),
    {
        self.path_id == 0
    }
}

impl SceneFile {
    /// The object that a pointer leads to, or why it leads to none.
    #[verifier::loop_isolation(false)]
    pub fn object_at(&self, pptr: Pptr) -> (r: Result<&Object, String>)
        ensures
            agrees(r, object_at(*self, pptr)),
    {
        if pptr.file_id == 0 {
            let mut i: usize = self.objects.len();
            assert(self.objects@.take(i as int) =~= self.objects@);
            while i > 0
                invariant
                    i <= self.objects@.len(),
                    object_with(self.objects@, pptr.path_id) == object_with(
                        self.objects@.take(i as int),
                        pptr.path_id,
                    ),
                decreases i,
            {
                assert(self.objects@.take(i as int).drop_last() =~= self.objects@.take(i - 1));
                i -= 1;
                if self.objects[i].path_id == pptr.path_id {
                    return Ok(&self.objects[i]);
                }
            }
        } else {
            let mut i: usize = self.linked.len();
            assert(self.linked@.take(i as int) =~= self.linked@);
            while i > 0
                invariant
                    i <= self.linked@.len(),
                    linked_with(self.linked@, pptr) == linked_with(
                        self.linked@.take(i as int),
                        pptr,
                    ),
                decreases i,
            {
                assert(self.linked@.take(i as int).drop_last() =~= self.linked@.take(i - 1));
                i -= 1;
                if self.linked[i].pptr == pptr {
                    return match &self.linked[i].object {
                        Ok(object) => Ok(object),
                        Err(e) => Err(e.clone()),
                    };
                }
            }
        }
        let mut e = String::new();
        e.append("No object with path id ");
        e.append(show_i64(pptr.path_id).as_str());
        e.append(" exists");
        Err(e)
    }

    /// The GameObject that a pointer leads to.
    pub fn game_object_at(&self, pptr: Pptr) -> (r: Result<&GameObject, String>)
        ensures
            agrees(r, game_object_at(*self, pptr)),
    {
        match self.object_at(pptr) {
            Ok(object) => match &object.game_object {
                Ok(game_object) => Ok(game_object),
                Err(e) => Err(e.clone()),
            },
            Err(e) => Err(e),
        }
    }

    /// The Transform that a pointer leads to.
    pub fn transform_at(&self, pptr: Pptr) -> (r: Result<&Transform, String>)
        ensures
            agrees(r, transform_at(*self, pptr)),
    {
        match self.object_at(pptr) {
            Ok(object) => match &object.transform {
                Ok(transform) => Ok(transform),
                Err(e) => Err(e.clone()),
            },
            Err(e) => Err(e),
        }
    }

    /// The name of the GameObject that a Transform places.
    pub fn owner_name(&self, transform: &Transform) -> (r: Result<String, String>)
        ensures
            says(r, owner_name(*self, *transform)),
    {
        match self.game_object_at(transform.game_object) {
            Ok(game_object) => Ok(game_object.name.clone()),
            Err(e) => Err(e),
        }
    }

    /// The display label of the object that a pointer leads to.
    pub fn label_at(&self, pptr: Pptr) -> (r: Result<String, String>)
        ensures
            says(r, label_at(*self, pptr)),
    {
        match self.object_at(pptr) {
            Ok(object) => object.label(),
            Err(e) => Err(e),
        }
    }

    /// The `m_Name` of the object with the given path id, as far as it can be
    /// read.
    pub fn name_at(&self, path_id: i64) -> (r: Option<String>)
        ensures
            crate::text::text_opt(r) == name_at(*self, path_id),
    {
        match self.object_at(Pptr::local(path_id)) {
            Ok(object) => match &object.value {
                Ok(value) => match value.get("m_Name") {
                    Some(name) => match name.as_text() {
                        Some(text) => Some(text.clone()),
                        None => None,
                    },
                    None => None,
                },
                Err(_) => None,
            },
            Err(_) => None,
        }
    }
}

impl Object {
    /// The object's display label: the script's class name for a MonoBehaviour,
    /// else the class.
    pub fn label(&self) -> (r: Result<String, String>)
        ensures
            says(r, label_of(*self)),
    {
        if self.class_id == MONO_BEHAVIOUR {
            match &self.script {
                Ok(Some(script)) => Ok(script.clone()),
                Ok(None) => Ok(class_label(self.class_id)),
                Err(e) => Err(e.clone()),
            }
        } else {
            Ok(class_label(self.class_id))
        }
    }
}

/// The pointers that the hierarchy follows from an object: a GameObject's components;
/// the GameObject that a Transform places, its father and its children.
pub open spec fn followed_from(object: Object) -> Seq<Pptr> {
    let components = match object.game_object {
        Ok(game_object) => game_object.components@,
        Err(_) => Seq::empty(),
    };
    match object.transform {
        Ok(transform) => components + seq![transform.game_object, transform.father]
            + transform.children@,
        Err(_) => components,
    }
}

/// The pointers that the hierarchy follows from an object. Those that lead into other
/// files are what a file has to be linked to.
#[verifier::loop_isolation(false)]
pub fn followed(object: &Object) -> (out: Vec<Pptr>)
    ensures
        out@ == followed_from(*object),
{
    let mut out: Vec<Pptr> = Vec::new();
    if let Ok(game_object) = &object.game_object {
        let mut i: usize = 0;
        while i < game_object.components.len()
            invariant
                i <= game_object.components@.len(),
                out@ == game_object.components@.take(i as int),
            decreases game_object.components@.len() - i,
        {
            out.push(game_object.components[i]);
            assert(out@ =~= game_object.components@.take(i + 1));
            i += 1;
        }
        assert(out@ =~= game_object.components@);
    }
    if let Ok(transform) = &object.transform {
        let ghost components = out@;
        let ghost head = components + seq![transform.game_object, transform.father];
        out.push(transform.game_object);
        out.push(transform.father);
        assert(out@ =~= head + transform.children@.take(0));
        let mut i: usize = 0;
        while i < transform.children.len()
            invariant
                i <= transform.children@.len(),
                out@ == head + transform.children@.take(i as int),
            decreases transform.children@.len() - i,
        {
            out.push(transform.children[i]);
            assert(out@ =~= head + transform.children@.take(i + 1));
            i += 1;
        }
        assert(out@ =~= head + transform.children@);
    }
    out
}

} // verus!
