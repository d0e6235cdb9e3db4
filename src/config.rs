//! The mod manager's data: game and mod specifications, the target game,
//! the user's configuration and the errors of a modpack.
use std::collections::HashMap;

use indexmap::IndexMap;
use std::collections::hash_map::RandomState;
use vstd::prelude::*;
use vstd::string::StrSliceExecFns;

use crate::notice::Notice;

verus! {

#[verifier::external_type_specification]
#[verifier::external_body]
#[verifier::reject_recursive_types(K)]
#[verifier::reject_recursive_types(V)]
#[verifier::reject_recursive_types(S)]
pub struct ExIndexMap<K, V, S>(IndexMap<K, V, S>);

/// The entries of a map of mods, in their order: key and specification.
pub uninterp spec fn mod_entries(m: IndexMap<String, ModSpec, RandomState>) -> Seq<(Seq<char>, ModSpec)>;

/// Relies on IndexMap::new: a new map holds no entry.
#[verifier::external_body]
fn new_mod_map() -> (r: IndexMap<String, ModSpec, RandomState>)
    ensures
        mod_entries(r).len() == 0,
{
    IndexMap::new()
}

/// How a game handles plugins.
pub struct GamePluginSupportSpec {
    /// The plugin format, which tells how plugins are inspected.
    pub format: Option<String>,
    /// How many plugins the game runs at once; `None` for no limit.
    pub limit: Option<u32>,
    /// The same for light plugins, where the format has them.
    pub light_limit: Option<u32>,
}

/// A game that the manager can handle.
pub struct GameSpec {
    /// The name of the game.
    pub name: String,
    /// How the game handles plugins; `None` where no plugin feature is used.
    pub plugin_config: Option<GamePluginSupportSpec>,
    /// Paths where the game's root is likely found.
    pub common_root_paths: Vec<Vec<u8>>,
    /// The name of the game's mod directory, directly under its root.
    pub mod_directory: String,
    /// Paths where the game's saves and load order are likely found.
    pub common_data_paths: Vec<Vec<u8>>,
}

/// How one mod is managed.
pub struct ModSpec {
    /// The name of the mod.
    pub name: String,
    /// Whether the mod is loaded.
    pub is_enabled: bool,
    /// Whether the mod is laid over the game's root rather than its mod
    /// directory.
    pub is_root: bool,
    /// The mod's identifier on its download site.
    pub id: Option<String>,
    /// The names of the mods that this one depends on.
    pub dependencies: Vec<String>,
    /// The names of the mods loaded before this one.
    pub after: Vec<String>,
    /// A lower priority loads earlier.
    pub priority: u32,
    /// Whether the mod's structure is checked.
    pub should_check: bool,
}

impl Default for ModSpec {
    fn default() -> (r: Self)
        ensures
            r.name@ == "DEFAULT"@,
            r.is_enabled,
            !r.is_root,
            r.id is None,
            r.dependencies@.len() == 0,
            r.after@.len() == 0,
            r.priority == 50,
            r.should_check,
    {
        ModSpec {
            name: "DEFAULT".to_owned(),
            is_enabled: true,
            is_root: false,
            id: None,
            dependencies: Vec::new(),
            after: Vec::new(),
            priority: 50,
            should_check: true,
        }
    }
}

/// The game as the user's configuration names it, before it is resolved.
pub struct RawTargetGame {
    /// The key of the game's specification.
    pub spec_key: String,
    pub root_path: Option<String>,
    pub data_path: Option<String>,
}

/// The game that a modpack targets.
pub struct TargetGame {
    /// The game's specification.
    pub spec: GameSpec,
    /// The game's root path, the one that holds its binary.
    pub root_path: Vec<u8>,
    /// Where the game keeps saves and the load order.
    pub data_path: Option<Vec<u8>>,
}

/// The user's configuration.
pub struct AppConfig {
    /// The games that can be targeted, keyed by their lower-case name; no
    /// key appears twice (`keys_unique`).
    pub games: Vec<(String, GameSpec)>,
    /// The target as the configuration names it.
    pub raw_target: Option<RawTargetGame>,
    /// The resolved target.
    pub target: Option<TargetGame>,
}

/// The data of one run of the manager.
pub struct AppData {
    /// The user's configuration.
    pub config: AppConfig,
    /// The mods laid over the game's root, in load order.
    pub root_mods: IndexMap<String, ModSpec, RandomState>,
    /// The mods laid over the game's mod directory, in load order.
    pub mods: IndexMap<String, ModSpec, RandomState>,
    /// Notices to show the user when the command completes.
    pub notices: Vec<Notice>,
}

/// Errors of a modpack.
pub enum ModpackError {
    /// The current directory is not a modpack.
    InvalidModpack,
    /// The configuration sets no target game.
    MissingTarget,
    /// A mod without a download identifier is not installed.
    LocalModNotFound(ModSpec),
    /// A mod depends on one that the configuration does not declare.
    MissingDependency { cause: ModSpec, dep: String },
    /// These mods cannot be ordered, most likely for a cycle of dependencies.
    UnsortableMods(Vec<ModSpec>),
}

/// Errors of a game specification or a target game.
pub enum GameError {
    /// The target names a specification that does not exist.
    MissingSpec(RawTargetGame),
    /// A Windows game or tool needs Proton, and none is configured.
    MissingProton,
    /// The configured Proton path does not exist.
    InvalidProton,
    /// The game's specification lists no path to scan for the path of this
    /// label.
    ScanUnavailable(String),
    /// No listed path of this label exists.
    ScanFailed(String),
    /// A configured path does not exist.
    InvalidPath { label: String, path: Vec<u8> },
}

impl AppData {
    /// The data of a run with `config`, no mods and no notices.
    pub fn with_config(config: AppConfig) -> (r: Self)
        ensures
            r.config == config,
            mod_entries(r.root_mods).len() == 0,
            mod_entries(r.mods).len() == 0,
            r.notices@.len() == 0,
    {
        AppData { config, root_mods: new_mod_map(), mods: new_mod_map(), notices: Vec::new() }
    }

    /// Empties the stored notices and hands back their text, in order, for
    /// the caller to print.
    pub fn print_notices(&mut self) -> (r: Vec<String>)
        ensures
            r@.len() == old(self).notices@.len(),
            forall|i: int| 0 <= i < r@.len() ==> (#[trigger] r@[i])@ == old(self).notices@[i].rendered(),
            final(self).notices@.len() == 0,
            final(self).config == old(self).config,
    {
        let mut out: Vec<String> = Vec::new();
        let mut i: usize = 0;
        while i < self.notices.len()
            invariant
                0 <= i <= self.notices@.len(),
                self.notices == old(self).notices,
                self.config == old(self).config,
                out@.len() == i,
                forall|j: int| 0 <= j < i ==> (#[trigger] out@[j])@ == self.notices@[j].rendered(),
            decreases self.notices.len() - i,
        {
            out.push(self.notices[i].render());
            i += 1;
        }
        self.notices = Vec::new();
        out
    }
}

/// No key appears twice among the games.
pub open spec fn keys_unique(games: Seq<(String, GameSpec)>) -> bool {
    forall|i: int, j: int| 0 <= i < j < games.len() ==> games[i].0@ != games[j].0@
}

/// `name` in lower case, as a key of the games.
pub open spec fn game_keys() -> Seq<Seq<char>> {
    seq!["skyrim special edition"@, "fallout 4"@, "unreal tournament(1999)"@]
}

/// The specifications of the games supported out of the box, each keyed by
/// its name in lower case.
pub fn generate_default_game_specs() -> (r: Vec<(String, GameSpec)>)
    ensures
        r@.len() == 3,
        forall|i: int| 0 <= i < 3 ==> (#[trigger] r@[i]).0@ == game_keys()[i],
        keys_unique(r@),
        forall|i: int| 0 <= i < 3 ==> (#[trigger] r@[i]).1.plugin_config is None,
        r@[0].1.name@ == "Skyrim Special Edition"@,
        r@[1].1.name@ == "Fallout 4"@,
        r@[2].1.name@ == "Unreal Tournament(1999)"@,
        r@[0].1.mod_directory@ == "data"@,
        r@[1].1.mod_directory@ == "data"@,
        r@[2].1.mod_directory@ == ""@,
        r@[0].1.common_root_paths@.len() == 1,
        r@[1].1.common_root_paths@.len() == 1,
        r@[2].1.common_root_paths@.len() == 0,
{
    let sse = GameSpec {
        name: "Skyrim Special Edition".to_owned(),
        plugin_config: None,
        common_root_paths: vec![steam_path("~/.steam/steam/steamapps/common/Skyrim Special Edition")],
        mod_directory: "data".to_owned(),
        common_data_paths: Vec::new(),
    };
    let fo4 = GameSpec {
        name: "Fallout 4".to_owned(),
        plugin_config: None,
        common_root_paths: vec![steam_path("~/.steam/steam/steamapps/common/Fallout 4")],
        mod_directory: "data".to_owned(),
        common_data_paths: Vec::new(),
    };
    let ut99 = GameSpec {
        name: "Unreal Tournament(1999)".to_owned(),
        plugin_config: None,
        common_root_paths: Vec::new(),
        mod_directory: "".to_owned(),
        common_data_paths: Vec::new(),
    };
    let mut games: Vec<(String, GameSpec)> = Vec::new();
    games.push(("skyrim special edition".to_owned(), sse));
    games.push(("fallout 4".to_owned(), fo4));
    games.push(("unreal tournament(1999)".to_owned(), ut99));
    proof {
        reveal_strlit("skyrim special edition");
        reveal_strlit("fallout 4");
        reveal_strlit("unreal tournament(1999)");
        assert(game_keys()[0].len() != game_keys()[1].len());
        assert(game_keys()[0].len() != game_keys()[2].len());
        assert(game_keys()[1].len() != game_keys()[2].len());
    }
    games
}

/// The bytes of a path written as a string.
fn steam_path(s: &str) -> (r: Vec<u8>) {
    s.as_bytes_vec()
}

} // verus!
