//! The `bundle` command: inspect one bundle's contents and drill into a contained
//! serialized file. (`bundles` lists all bundles.)

use vstd::prelude::*;

use crate::number::{show_u64, show_usize};
use crate::output::{render_lines, style, Line, Render};
use crate::text::{align_left, align_right, same};
use crate::{number, output, text};

verus! {

/// The flag that marks a contained file as a serialized file.
pub const FLAG_SERIALIZEDFILE: u32 = 4;

/// One file contained in a bundle.
#[derive(Debug, PartialEq, Eq)]
pub struct FileEntry {
    pub size: u64,
    pub flags: u32,
    pub path: String,
}

/// Every addressables bundle in the game (`bundles`).
#[derive(Debug, PartialEq, Eq)]
pub struct Bundles(pub Vec<String>);

/// The files (CABs) contained in a bundle.
#[derive(Debug, PartialEq, Eq)]
pub struct BundleFiles(pub Vec<String>);

/// One contained file in a [`BundleInfo`].
#[derive(Debug, PartialEq, Eq)]
pub struct BundleEntry {
    pub size: u64,
    pub kind: String,
    pub path: String,
}

/// The bundle's contained files with sizes and kinds.
#[derive(Debug, PartialEq, Eq)]
pub struct BundleInfo {
    pub files: Vec<BundleEntry>,
}

impl Render for Bundles {
    open spec fn text(&self, color: bool) -> Seq<char> {
        text::lines_of(text::texts(self.0@))
    }

    fn render(&self, color: bool) -> (out: String) {
        text::lines(&self.0)
    }
}

impl Render for BundleFiles {
    open spec fn text(&self, color: bool) -> Seq<char> {
        text::lines_of(text::texts(self.0@))
    }

    fn render(&self, color: bool) -> (out: String) {
        text::lines(&self.0)
    }
}

impl Line for BundleEntry {
    open spec fn line_text(&self, color: bool) -> Seq<char> {
        Seq::<char>::empty() + "  "@ + style::dim_text(
            text::right_aligned(number::decimal(self.size as nat), 10),
            color,
        ) + "  "@ + style::class_text(text::left_aligned(self.kind@, 11), color) + "  "@
            + self.path@ + "\n"@
    }

    fn line(&self, color: bool) -> (out: String) {
        let mut out = String::new();
        out.append("  ");
        let size = align_right(show_u64(self.size).as_str(), 10);
        out.append(style::dim(size.as_str(), color).as_str());
        out.append("  ");
        let kind = align_left(self.kind.as_str(), 11);
        out.append(style::class(kind.as_str(), color).as_str());
        out.append("  ");
        out.append(self.path.as_str());
        out.append("\n");
        out
    }
}

impl Render for BundleInfo {
    open spec fn text(&self, color: bool) -> Seq<char> {
        style::header_text(
            Seq::<char>::empty() + "bundle ("@ + number::decimal(self.files@.len()) + " files)"@,
            color,
        ) + "\n"@ + output::item_lines(self.files@, color)
    }

    fn render(&self, color: bool) -> (out: String) {
        let mut title = String::new();
        title.append("bundle (");
        title.append(show_usize(self.files.len()).as_str());
        title.append(" files)");
        let mut out = style::header(title.as_str(), color);
        out.append("\n");
        out.append(render_lines(&self.files, color).as_str());
        out
    }
}

/// Whether a contained file is a serialized file.
pub open spec fn is_serialized(entry: FileEntry) -> bool {
    entry.flags & FLAG_SERIALIZEDFILE != 0
}

/// Whether a contained file is a serialized file that can be the main one.
pub open spec fn is_main(entry: FileEntry) -> bool {
    is_serialized(entry) && !text::finishes_with(entry.path@, ".sharedAssets"@)
}

/// The first main serialized file.
pub open spec fn main_of(entries: Seq<FileEntry>) -> Option<FileEntry>
    decreases entries.len(),
{
    if entries.len() == 0 {
        None
    } else if is_main(entries[0]) {
        Some(entries[0])
    } else {
        main_of(entries.skip(1))
    }
}

/// The first file with the given path.
pub open spec fn entry_at(entries: Seq<FileEntry>, path: Seq<char>) -> Option<FileEntry>
    decreases entries.len(),
{
    if entries.len() == 0 {
        None
    } else if entries[0].path@ == path {
        Some(entries[0])
    } else {
        entry_at(entries.skip(1), path)
    }
}

/// The contained file that `cab` selects, or why it selects none.
pub open spec fn selected_entry(entries: Seq<FileEntry>, cab: Option<Seq<char>>) -> Result<
    FileEntry,
    Seq<char>,
> {
    match cab {
        Some(name) => match entry_at(entries, name) {
            Some(entry) => Ok(entry),
            None => Err(Seq::<char>::empty() + "no file '"@ + name + "' in bundle"@),
        },
        None => match main_of(entries) {
            Some(entry) => Ok(entry),
            None => Err("bundle contains no serialized file"@),
        },
    }
}

impl FileEntry {
    /// Whether this is a serialized file.
    pub fn is_serialized(&self) -> (r: bool)
        ensures
            r == is_serialized(*self),
    {
        self.flags & FLAG_SERIALIZEDFILE != 0
    }
}

/// The bundle's main serialized file: the first that is not a `.sharedAssets` one.
#[verifier::loop_isolation(false)]
pub fn main_serializedfile(entries: &Vec<FileEntry>) -> (r: Option<&FileEntry>)
    ensures
        match r {
            Some(entry) => main_of(entries@) == Some(*entry),
            None => main_of(entries@) is None,
        },
{
    let mut i: usize = 0;
    assert(entries@.skip(0) =~= entries@);
    while i < entries.len()
        invariant
            i <= entries@.len(),
            main_of(entries@) == main_of(entries@.skip(i as int)),
        decreases entries@.len() - i,
    {
        assert(entries@.skip(i as int).skip(1) =~= entries@.skip(i + 1));
        let entry = &entries[i];
        if entry.is_serialized() && !text::ends_with(entry.path.as_str(), ".sharedAssets") {
            return Some(entry);
        }
        i += 1;
    }
    None
}

/// The contained file that `cab` selects by name; without it the bundle's main
/// serialized file.
#[verifier::loop_isolation(false)]
pub fn select_entry<'a>(entries: &'a Vec<FileEntry>, cab: Option<&str>) -> (r: Result<
    &'a FileEntry,
    String,
>)
    ensures
        ({
            let name = match cab {
                Some(name) => Some(name@),
                None => None,
            };
            match r {
                Ok(entry) => selected_entry(entries@, name) == Ok::<FileEntry, Seq<char>>(*entry),
                Err(e) => selected_entry(entries@, name) == Err::<FileEntry, Seq<char>>(e@),
            }
        }),
{
    match cab {
        Some(name) => {
            let mut i: usize = 0;
            assert(entries@.skip(0) =~= entries@);
            while i < entries.len()
                invariant
                    i <= entries@.len(),
                    entry_at(entries@, name@) == entry_at(entries@.skip(i as int), name@),
                decreases entries@.len() - i,
            {
                assert(entries@.skip(i as int).skip(1) =~= entries@.skip(i + 1));
                if same(entries[i].path.as_str(), name) {
                    return Ok(&entries[i]);
                }
                i += 1;
            }
            let mut e = String::new();
            e.append("no file '");
            e.append(name);
            e.append("' in bundle");
            Err(e)
        },
        None => match main_serializedfile(entries) {
            Some(entry) => Ok(entry),
            None => Err("bundle contains no serialized file".to_owned()),
        },
    }
}

/// The unity version of a file: the one it states, or the game's where it states none.
pub open spec fn version_of<T>(stated: Option<T>, game: Option<T>) -> Option<T> {
    match stated {
        Some(version) => Some(version),
        None => game,
    }
}

/// The unity version of a file out of a bundle: it keeps the one that it states; the
/// game's is only filled in where it states none.
pub fn file_version<T>(stated: Option<T>, game: Option<T>) -> (r: Option<T>)
    ensures
        r == version_of(stated, game),
{
    match stated {
        Some(version) => Some(version),
        None => game,
    }
}

proof fn lemma_main_is_found(entries: Seq<FileEntry>)
    requires
        forall|i: int, j: int|
            0 <= i < j < entries.len() ==> (#[trigger] entries[i]).path@ != (
            #[trigger] entries[j]).path@,
        main_of(entries) is Some,
    ensures
        exists|i: int| 0 <= i < entries.len() && entries[i] == main_of(entries)->0,
        entry_at(entries, main_of(entries)->0.path@) == main_of(entries),
    decreases entries.len(),
{
    if is_main(entries[0]) {
        assert(entries[0] == main_of(entries)->0);
    } else {
        let rest = entries.skip(1);
        assert forall|i: int, j: int| 0 <= i < j < rest.len() implies (
        #[trigger] rest[i]).path@ != (#[trigger] rest[j]).path@ by {
            assert(rest[i] == entries[i + 1] && rest[j] == entries[j + 1]);
        }
        lemma_main_is_found(rest);
        let k = choose|k: int| 0 <= k < rest.len() && rest[k] == main_of(entries)->0;
        assert(entries[k + 1] == main_of(entries)->0);
        assert(entries[0].path@ != entries[k + 1].path@);
    }
}

/// Without a CAB the same file is selected as with the name of the bundle's main
/// serialized file; nothing is where the bundle has none. A name that no contained file
/// has selects nothing either. This holds where no two contained files share a path.
pub proof fn main_file_is_the_default(entries: Seq<FileEntry>, name: Seq<char>)
    requires
        forall|i: int, j: int|
            0 <= i < j < entries.len() ==> (#[trigger] entries[i]).path@ != (
            #[trigger] entries[j]).path@,
    ensures
        match main_of(entries) {
            Some(main) => selected_entry(entries, None) == Ok::<FileEntry, Seq<char>>(main)
                && selected_entry(entries, Some(main.path@)) == Ok::<FileEntry, Seq<char>>(main),
            None => selected_entry(entries, None) is Err,
        },
        (forall|i: int| 0 <= i < entries.len() ==> (#[trigger] entries[i]).path@ != name)
            ==> selected_entry(entries, Some(name)) == Err::<FileEntry, Seq<char>>(
            Seq::<char>::empty() + "no file '"@ + name + "' in bundle"@,
        ),
{
    if main_of(entries) is Some {
        lemma_main_is_found(entries);
    }
    if entry_at(entries, name) is Some {
        lemma_entry_has_path(entries, name);
    }
}

proof fn lemma_entry_has_path(entries: Seq<FileEntry>, path: Seq<char>)
    requires
        entry_at(entries, path) is Some,
    ensures
        exists|i: int| 0 <= i < entries.len() && (#[trigger] entries[i]).path@ == path,
    decreases entries.len(),
{
    if entries[0].path@ != path {
        let rest = entries.skip(1);
        lemma_entry_has_path(rest, path);
        let k = choose|k: int| 0 <= k < rest.len() && (#[trigger] rest[k]).path@ == path;
        assert(entries[k + 1].path@ == path);
    }
}

/// The paths of contained files.
pub open spec fn paths_of(entries: Seq<FileEntry>) -> Seq<String> {
    entries.map_values(|entry: FileEntry| entry.path)
}

/// Lists the files (CABs) contained in a bundle.
pub fn list_files(entries: &Vec<FileEntry>) -> (r: BundleFiles)
    ensures
        r.0@ == paths_of(entries@),
{
    let mut out: Vec<String> = Vec::new();
    let mut i: usize = 0;
    while i < entries.len()
        invariant
            i <= entries@.len(),
            out@ == paths_of(entries@.take(i as int)),
        decreases entries@.len() - i,
    {
        out.push(entries[i].path.clone());
        assert(out@ =~= paths_of(entries@.take(i + 1)));
        i += 1;
    }
    assert(entries@.take(i as int) =~= entries@);
    BundleFiles(out)
}

/// Whether `shown` is how `entry` is summarised.
pub open spec fn summarises(shown: BundleEntry, entry: FileEntry) -> bool {
    &&& shown.size == entry.size
    &&& shown.path@ == entry.path@
    &&& shown.kind@ == (if is_serialized(entry) {
        "serialized"@
    } else {
        "resource"@
    })
}

/// Builds the bundle's contained files with sizes and kinds.
pub fn info(entries: &Vec<FileEntry>) -> (r: BundleInfo)
    ensures
        r.files@.len() == entries@.len(),
        forall|i: int|
            0 <= i < entries@.len() ==> summarises(#[trigger] r.files@[i], entries@[i]),
{
    let mut files: Vec<BundleEntry> = Vec::new();
    let mut i: usize = 0;
    while i < entries.len()
        invariant
            i <= entries@.len(),
            files@.len() == i,
            forall|k: int| 0 <= k < i ==> summarises(#[trigger] files@[k], entries@[k]),
        decreases entries@.len() - i,
    {
        let entry = &entries[i];
        let kind = if entry.is_serialized() {
            "serialized"
        } else {
            "resource"
        };
        files.push(
            BundleEntry { size: entry.size, kind: kind.to_owned(), path: entry.path.clone() },
        );
        i += 1;
    }
    BundleInfo { files }
}

} // verus!
