use vstd::prelude::*;

verus! {

/// What a rule does when it applies.
#[derive(Clone, Debug, Hash, PartialEq, Eq, PartialOrd, Ord)]
pub enum RuleAction {
    Allow,
    Disallow,
}

/// The launcher features that a rule may ask for.
#[derive(Clone, Debug, Hash, PartialEq, Eq, PartialOrd, Ord)]
pub struct RuleFeatures {
    pub is_demo_user: bool,
    pub has_custom_resolution: bool,
    pub has_quick_plays_support: bool,
    pub is_quick_play_singleplayer: bool,
    pub is_quick_play_multiplayer: bool,
    pub is_quick_play_realms: bool,
}

/// The operating systems that a rule may name.
#[derive(Copy, Clone, Debug, Hash, PartialEq, Eq, PartialOrd, Ord)]
pub enum OsName {
    Linux,
    Osx,
    Windows,
}

/// The processor families that a rule may name.
#[derive(Copy, Clone, Debug, Hash, PartialEq, Eq, PartialOrd, Ord)]
pub enum OsArch {
    Arm64,
    X86,
}

/// Paths to leave out when the natives of a library are unpacked.
#[derive(Clone, Debug)]
pub struct GameLibraryExtractOptions {
    pub exclude: Option<Vec<String>>,
}

/// The formats of a logging configuration.
#[derive(Clone, Debug)]
pub enum GameLoggingType {
    Log4j2Xml,
}

} // verus!
