//! The command line as the commands see it, once it has been parsed.
//!
//! A game context is set with `--steam-game`/`--game-dir` before the verb, or
//! detected from the current directory. Plurals list a collection (`scenes`,
//! `bundles`); singulars select one item then operate (`scene <name> tree`,
//! `bundle <path> file <cab> objects`).

use vstd::prelude::*;

use crate::component_path::{ComponentPath, ObjectRef};

verus! {

/// A whole command line.
#[derive(Debug, PartialEq, Eq)]
pub struct Cli {
    pub game: Context,
    pub output: OutputOpts,
    pub command: Command,
}

/// Output options shared by every command.
#[derive(Debug, Clone, PartialEq, Eq)]
pub struct OutputOpts {
    /// Human-readable text or structured JSON for tooling.
    pub format: Format,
    /// When to colorize `pretty` output.
    pub color: ColorChoice,
}

/// When to emit ANSI colors in `pretty` output.
#[derive(Debug, Clone, Copy, PartialEq, Eq, Structural)]
pub enum ColorChoice {
    /// Colorize when stdout is a terminal and `NO_COLOR` is unset (the default).
    Auto,
    /// Always colorize.
    Always,
    /// Never colorize.
    Never,
}

/// How results are printed.
#[derive(Debug, Clone, Copy, PartialEq, Eq, Structural)]
pub enum Format {
    /// Human-readable text columns (the default).
    Pretty,
    /// Structured JSON, one document per command.
    Json,
}

/// The game context, shared by every command (optional for standalone paths, and
/// auto-detected from the current directory).
#[derive(Debug, Clone, PartialEq, Eq)]
pub struct Context {
    /// Locate a game by steam name or app id.
    pub steam_game: Option<String>,
    /// Path to a unity game directory (its parent or the `*_Data` dir).
    pub game_dir: Option<String>,
}

#[derive(Debug, PartialEq, Eq)]
pub enum Command {
    /// Game summary.
    Game(GameArgs),
    /// List scenes (build settings + addressables).
    Scenes(ScenesArgs),
    /// List the game's serialized files.
    Files(FilesArgs),
    /// List asset bundles.
    Bundles(BundlesArgs),
    /// List addressables keys.
    Addressables(AddressablesArgs),
    /// Inspect one scene by name.
    Scene(SceneArgs),
    /// Inspect one serialized file by path.
    File(FileArgs),
    /// Inspect one asset bundle by path.
    Bundle(BundleArgs),
    /// Inspect one addressables key.
    Addressable(AddressableArgs),
    /// Inspect the definition of one script.
    Script(ScriptArgs),
}

#[derive(Debug, PartialEq, Eq)]
pub struct GameArgs {
    pub verb: Option<GameVerb>,
}

#[derive(Debug, PartialEq, Eq)]
pub enum GameVerb {
    /// Summary (unity version, file/addressable counts).
    Info,
    /// Each script and the files / addressables that contain its definition.
    ScriptLocations(ScriptLocationsArgs),
}

#[derive(Debug, PartialEq, Eq)]
pub struct ScriptLocationsArgs {
    /// Only scripts whose full name contains this (case-insensitive).
    pub filter: Option<String>,
}

#[derive(Debug, PartialEq, Eq)]
pub struct ScenesArgs {
    pub verb: Option<ScenesVerb>,
}

#[derive(Debug, PartialEq, Eq)]
pub enum ScenesVerb {
    /// List all scenes (the default).
    List,
}

#[derive(Debug, PartialEq, Eq)]
pub struct FilesArgs {
    pub verb: Option<FilesVerb>,
}

#[derive(Debug, PartialEq, Eq)]
pub enum FilesVerb {
    /// List the game's serialized files (the default).
    List,
}

#[derive(Debug, PartialEq, Eq)]
pub struct BundlesArgs {
    pub verb: Option<BundlesVerb>,
}

#[derive(Debug, PartialEq, Eq)]
pub enum BundlesVerb {
    /// List all bundles (the default).
    List,
}

#[derive(Debug, PartialEq, Eq)]
pub struct AddressablesArgs {
    pub verb: Option<AddressablesVerb>,
    /// Also list internal `AssetBundle` resource keys (`IAssetBundleResource`),
    /// hidden by default. Inspect those with `bundle <path>` instead.
    pub include_asset_bundles: bool,
}

#[derive(Debug, PartialEq, Eq)]
pub enum AddressablesVerb {
    /// List all keys with their asset types (the default).
    List,
    /// Catalog overview: counts and breakdowns by provider/type.
    Stats,
}

#[derive(Debug, PartialEq, Eq)]
pub struct SceneArgs {
    /// Scene name (e.g. `Greymoor_05`).
    pub name: String,
    pub verb: Option<FileVerb>,
}

#[derive(Debug, PartialEq, Eq)]
pub struct FileArgs {
    /// Serialized file: a game-relative path, or a standalone fs path.
    pub path: String,
    pub verb: Option<FileVerb>,
}

#[derive(Debug, PartialEq, Eq)]
pub struct BundleArgs {
    /// Bundle path (game-relative or fs).
    pub path: String,
    pub verb: Option<BundleVerb>,
}

#[derive(Debug, PartialEq, Eq)]
pub enum BundleVerb {
    /// Show the bundle's contained files with sizes.
    Info,
    /// List the bundle's contained files (CABs).
    Files,
    /// Inspect a serialized file (CAB) inside the bundle.
    File(BundleFileArgs),
}

#[derive(Debug, PartialEq, Eq)]
pub struct BundleFileArgs {
    /// Name of the file (CAB) inside the bundle; defaults to the bundle's main
    /// serialized file.
    pub cab: Option<String>,
    pub verb: Option<FileVerb>,
}

#[derive(Debug, PartialEq, Eq)]
pub struct AddressableArgs {
    /// Addressables key/address (e.g. `_GameCameras`, `Scenes/Menu_Title`).
    pub key: String,
    pub verb: Option<AddressableVerb>,
}

#[derive(Debug, PartialEq, Eq)]
pub enum AddressableVerb {
    /// Catalog location(s), bundle and dependency count (the default).
    Info(AddressableInfoArgs),
    /// Dump the asset the key points at as JSON (PPtrs annotated with `$ref`).
    Cat,
    /// Inspect the asset's serialized file (the bundle's main CAB) with the shared
    /// file verbs (`tree`, `objects`, `object <ref>`, `preloads`, …).
    File(AddressableFileArgs),
}

#[derive(Debug, PartialEq, Eq)]
pub struct AddressableInfoArgs {
    /// List each dependency bundle (default: just the count).
    pub dependencies: bool,
}

#[derive(Debug, PartialEq, Eq)]
pub struct AddressableFileArgs {
    pub verb: Option<FileVerb>,
}

#[derive(Debug, PartialEq, Eq)]
pub struct ScriptArgs {
    /// Script class name.
    pub name: String,
    pub verb: Option<ObjectVerb>,
}

/// The shared serialized-file verb set, reached via scene / file / bundle-cab.
#[derive(Debug, PartialEq, Eq)]
pub enum FileVerb {
    /// Show header info (version, types, object/external counts).
    Info(InfoArgs),
    /// Print the Transform hierarchy.
    Tree(TreeArgs),
    /// List the objects (`path_id  ClassId`).
    Objects(ObjectsArgs),
    /// Inspect one object by path id or component path.
    Object(ObjectArgs),
    /// Show who references this file
    References,
    /// Show the AssetBundle preload table grouped per container entry.
    Preloads(PreloadsArgs),
    /// Find which GameObject(s) carry a component / script of the given type.
    Find(FindArgs),
}

#[derive(Debug, PartialEq, Eq)]
pub struct InfoArgs {
    /// List the external files (resolved to readable bundle paths); default: just
    /// the count.
    pub externals: bool,
}

impl Default for InfoArgs {
    fn default() -> (r: InfoArgs)
        ensures
            r == (InfoArgs { externals: false }),
    {
        InfoArgs { externals: false }
    }
}

#[derive(Debug, PartialEq, Eq)]
pub struct FindArgs {
    /// Component class name, or MonoBehaviour script name (e.g. `ToolItemManager`).
    pub class: String,
}

#[derive(Debug, PartialEq, Eq)]
pub struct PreloadsArgs {
    /// Only show container entries whose address contains this substring.
    pub address: Option<String>,
    /// Resolve the class of external preloaded objects too (loads dependency
    /// bundles; slower).
    pub resolve: bool,
}

#[derive(Debug, PartialEq, Eq)]
pub struct TreeArgs {
    /// Root the tree at this GameObject (hierarchy path); else every root.
    pub path: Option<ComponentPath>,
    /// Under each GameObject, list its components.
    pub components: bool,
    /// Like `--components`, but only MonoBehaviours (by script name).
    pub scripts: bool,
}

#[derive(Debug, PartialEq, Eq)]
pub struct ObjectsArgs {
    /// Only list objects of this class (e.g. `MonoBehaviour`, `Texture2D`).
    pub class: Option<String>,
}

#[derive(Debug, PartialEq, Eq)]
pub struct ObjectArgs {
    /// A path id (e.g. `-8333…`), an object's `m_Name` (e.g. a `MonoScript`'s
    /// `PlayMakerFSM`), a class name for a singleton (e.g. `TagManager`), or a
    /// component path (`Root/Child@SpriteRenderer`).
    pub reference: ObjectRef,
    pub verb: Option<ObjectVerb>,
}

#[derive(Debug, PartialEq, Eq)]
pub enum ObjectVerb {
    /// Object summary (class, name).
    Info,
    /// Dump the object as JSON (PPtrs annotated with `$ref`).
    Cat(CatArgs),
    /// Find every object that references this one (local or from another file).
    References(ReferencesArgs),
}

#[derive(Debug, PartialEq, Eq)]
pub struct CatArgs {
    /// A jq filter to run over the object.
    pub jq: Option<String>,
    /// A file that holds the jq filter.
    pub jq_file: Option<String>,
}

impl Default for CatArgs {
    fn default() -> (r: CatArgs)
        ensures
            r == (CatArgs { jq: None, jq_file: None }),
    {
        CatArgs { jq: None, jq_file: None }
    }
}

#[derive(Debug, PartialEq, Eq)]
pub struct ReferencesArgs {
    /// Also include preload-table references — `AssetBundle` / `PreloadData`
    /// objects list the target as a load-time dependency, not a true user.
    pub include_preloads: bool,
    /// Only list the files, not each referring object.
    pub files_with_matches: bool,
    /// Only files whose path contains one of these (case-insensitive).
    pub include_paths: Vec<String>,
    /// No files whose path contains one of these (case-insensitive).
    pub exclude_paths: Vec<String>,
    /// Only objects whose type contains one of these (case-insensitive).
    pub include_types: Vec<String>,
    /// No objects whose type contains one of these (case-insensitive).
    pub exclude_types: Vec<String>,
    /// Stop after this many.
    pub limit: Option<usize>,
    pub verb: Option<ReferencesVerb>,
}

#[derive(Debug, PartialEq, Eq)]
pub enum ReferencesVerb {
    /// Load and query every referring object.
    Cat(CatArgs),
}

} // verus!
