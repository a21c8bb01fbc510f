//! What a command line asks for: which target to open, and what to do with it.

use vstd::prelude::*;

use crate::cli::{
    AddressableVerb, AddressablesVerb, BundleVerb, CatArgs, Command, FileVerb, GameVerb, ObjectArgs,
    ObjectVerb,
};
use crate::component_path::ObjectRef;

verus! {

/// What a command asks for, with defaults filled in: a bare collection is listed, a
/// bare item summarised.
#[derive(Debug, PartialEq, Eq)]
pub enum Action {
    GameInfo,
    ScriptLocations { filter: Option<String> },
    Scenes,
    Files,
    Bundles,
    AddressableKeys { include_asset_bundles: bool },
    AddressableStats,
    Scene { name: String, verb: Option<FileVerb> },
    File { path: String, verb: Option<FileVerb> },
    BundleInfo { path: String },
    BundleFiles { path: String },
    BundleFile { path: String, cab: Option<String>, verb: Option<FileVerb> },
    AddressableInfo { key: String, dependencies: bool },
    /// Dumps the asset that a key points at.
    AddressableCat { key: String },
    /// Runs a verb on the file that a key's asset lives in.
    AddressableFile { key: String, verb: Option<FileVerb> },
    /// Runs a verb on the object that defines a script.
    Script { name: String, verb: Option<ObjectVerb> },
}

impl Action {
    /// Whether the action makes no sense without a game. A file or a bundle can
    /// stand alone.
    pub open spec fn needs_game_context(self) -> bool {
        !(self is File || self is BundleInfo || self is BundleFiles || self is BundleFile)
    }

    /// Whether the action makes no sense without a game. A file or a bundle can
    /// stand alone.
    pub fn needs_game(&self) -> (r: bool)
        ensures
            r == self.needs_game_context(),
    {
        match self {
            Action::File { .. } => false,
            Action::BundleInfo { .. } => false,
            Action::BundleFiles { .. } => false,
            Action::BundleFile { .. } => false,
            _ => true,
        }
    }
}

/// What a command asks for.
pub open spec fn action_for(command: Command) -> Action {
    match command {
        Command::Game(args) => match args.verb {
            Some(GameVerb::ScriptLocations(args)) => Action::ScriptLocations {
                filter: args.filter,
            },
            _ => Action::GameInfo,
        },
        Command::Scenes(_) => Action::Scenes,
        Command::Files(_) => Action::Files,
        Command::Bundles(_) => Action::Bundles,
        Command::Addressables(args) => match args.verb {
            Some(AddressablesVerb::Stats) => Action::AddressableStats,
            _ => Action::AddressableKeys { include_asset_bundles: args.include_asset_bundles },
        },
        Command::Scene(args) => Action::Scene { name: args.name, verb: args.verb },
        Command::File(args) => Action::File { path: args.path, verb: args.verb },
        Command::Bundle(args) => match args.verb {
            Some(BundleVerb::Files) => Action::BundleFiles { path: args.path },
            Some(BundleVerb::File(file)) => Action::BundleFile {
                path: args.path,
                cab: file.cab,
                verb: file.verb,
            },
            _ => Action::BundleInfo { path: args.path },
        },
        Command::Addressable(args) => match args.verb {
            Some(AddressableVerb::Info(info)) => Action::AddressableInfo {
                key: args.key,
                dependencies: info.dependencies,
            },
            Some(AddressableVerb::Cat) => Action::AddressableCat { key: args.key },
            Some(AddressableVerb::File(file)) => Action::AddressableFile {
                key: args.key,
                verb: file.verb,
            },
            None => Action::AddressableInfo { key: args.key, dependencies: false },
        },
        Command::Script(args) => Action::Script { name: args.name, verb: args.verb },
    }
}

/// What a command asks for.
pub fn run(command: Command) -> (r: Action)
    ensures
        r == action_for(command),
{
    match command {
        // Game summary.
        Command::Game(args) => match args.verb {
            Some(GameVerb::ScriptLocations(args)) => Action::ScriptLocations {
                filter: args.filter,
            },
            _ => Action::GameInfo,
        },
        // Collections (plural). Bare and `list` both list.
        Command::Scenes(_) => Action::Scenes,
        Command::Files(_) => Action::Files,
        Command::Bundles(_) => Action::Bundles,
        Command::Addressables(args) => match args.verb {
            Some(AddressablesVerb::Stats) => Action::AddressableStats,
            _ => Action::AddressableKeys { include_asset_bundles: args.include_asset_bundles },
        },
        // Items (singular): select then run a verb.
        Command::Scene(args) => Action::Scene { name: args.name, verb: args.verb },
        Command::File(args) => Action::File { path: args.path, verb: args.verb },
        Command::Bundle(args) => match args.verb {
            Some(BundleVerb::Files) => Action::BundleFiles { path: args.path },
            Some(BundleVerb::File(file)) => Action::BundleFile {
                path: args.path,
                cab: file.cab,
                verb: file.verb,
            },
            _ => Action::BundleInfo { path: args.path },
        },
        Command::Addressable(args) => match args.verb {
            Some(AddressableVerb::Info(info)) => Action::AddressableInfo {
                key: args.key,
                dependencies: info.dependencies,
            },
            Some(AddressableVerb::Cat) => Action::AddressableCat { key: args.key },
            Some(AddressableVerb::File(file)) => Action::AddressableFile {
                key: args.key,
                verb: file.verb,
            },
            None => Action::AddressableInfo { key: args.key, dependencies: false },
        },
        Command::Script(args) => Action::Script { name: args.name, verb: args.verb },
    }
}

/// The verb that selects an object by its path id.
pub fn object_verb(path_id: i64, verb: Option<ObjectVerb>) -> (r: FileVerb)
    ensures
        r == FileVerb::Object(ObjectArgs { reference: ObjectRef::PathId(path_id), verb }),
{
    FileVerb::Object(ObjectArgs { reference: ObjectRef::PathId(path_id), verb })
}

/// The verb that dumps the object with the given path id: `addressable <key> cat`
/// is sugar for it.
pub fn cat_verb(path_id: i64) -> (r: FileVerb)
    ensures
        r == FileVerb::Object(
            (ObjectArgs {
                reference: ObjectRef::PathId(path_id),
                verb: Some(ObjectVerb::Cat(CatArgs { jq: None, jq_file: None })),
            }),
        ),
{
    object_verb(path_id, Some(ObjectVerb::Cat(CatArgs { jq: None, jq_file: None })))
}

} // verus!
