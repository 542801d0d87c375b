use vstd::prelude::*;
use vstd::string::StringExecFns;

verus! {

/// Where the launcher keeps its files, each place as the text of its path.
pub struct LauncherDirectories {
    pub instances_dir: String,
    pub synced_dir: String,
    pub metadata_dir: String,
    pub assets_root_dir: String,
    pub assets_index_dir: String,
    pub assets_objects_dir: String,
    pub virtual_legacy_assets_dir: String,
    pub libraries_dir: String,
    pub log_configs_dir: String,
    pub runtime_base_dir: String,
    pub content_library_dir: String,
    pub content_meta_dir: String,
    pub temp_dir: String,
    pub temp_natives_base_dir: String,
    pub root_launcher_dir: String,
    pub config_json: String,
    pub accounts_json: String,
}

/// The path of `child` inside `base`: the two with a separator between them,
/// and `child` alone where `base` is empty.
pub open spec fn joined(base: Seq<char>, child: Seq<char>) -> Seq<char> {
    if base.len() == 0 {
        child
    } else {
        base + seq!['/'] + child
    }
}

/// The path of `child` inside `base`.
pub fn join(base: &str, child: &str) -> (r: String)
    ensures
        r@ == joined(base@, child@),
{
    if base.unicode_len() == 0 {
        String::from_str(child)
    } else {
        proof {
            reveal_strlit("/");
            assert("/"@ =~= seq!['/']);
        }
        String::from_str(base).concat("/").concat(child)
    }
}

impl LauncherDirectories {
    /// The layout below the launcher's own directory.
    pub fn new(launcher_dir: String) -> (r: LauncherDirectories)
        ensures
            r.root_launcher_dir@ == launcher_dir@,
            r.instances_dir@ == joined(launcher_dir@, "instances"@),
            r.synced_dir@ == joined(launcher_dir@, "synced"@),
            r.metadata_dir@ == joined(launcher_dir@, "metadata"@),
            r.assets_root_dir@ == joined(launcher_dir@, "assets"@),
            r.assets_index_dir@ == joined(r.assets_root_dir@, "indexes"@),
            r.assets_objects_dir@ == joined(r.assets_root_dir@, "objects"@),
            r.virtual_legacy_assets_dir@ == joined(
                joined(r.assets_index_dir@, "virtual"@),
                "legacy"@,
            ),
            r.libraries_dir@ == joined(launcher_dir@, "libraries"@),
            r.log_configs_dir@ == joined(launcher_dir@, "logconfigs"@),
            r.runtime_base_dir@ == joined(launcher_dir@, "runtime"@),
            r.content_library_dir@ == joined(launcher_dir@, "contentlibrary"@),
            r.content_meta_dir@ == joined(launcher_dir@, "contentmeta"@),
            r.temp_dir@ == joined(launcher_dir@, "temp"@),
            r.temp_natives_base_dir@ == joined(r.temp_dir@, "natives"@),
            r.config_json@ == joined(launcher_dir@, "config.json"@),
            r.accounts_json@ == joined(launcher_dir@, "accounts.json"@),
    {
        let base = launcher_dir.as_str();
        let instances_dir = join(base, "instances");
        let synced_dir = join(base, "synced");
        let metadata_dir = join(base, "metadata");
        let assets_root_dir = join(base, "assets");
        let assets_index_dir = join(assets_root_dir.as_str(), "indexes");
        let assets_objects_dir = join(assets_root_dir.as_str(), "objects");
        let virtual_dir = join(assets_index_dir.as_str(), "virtual");
        let virtual_legacy_assets_dir = join(virtual_dir.as_str(), "legacy");
        let libraries_dir = join(base, "libraries");
        let log_configs_dir = join(base, "logconfigs");
        let runtime_base_dir = join(base, "runtime");
        let content_library_dir = join(base, "contentlibrary");
        let content_meta_dir = join(base, "contentmeta");
        let temp_dir = join(base, "temp");
        let temp_natives_base_dir = join(temp_dir.as_str(), "natives");
        let config_json = join(base, "config.json");
        let accounts_json = join(base, "accounts.json");
        LauncherDirectories {
            instances_dir,
            synced_dir,
            metadata_dir,
            assets_root_dir,
            assets_index_dir,
            assets_objects_dir,
            virtual_legacy_assets_dir,
            libraries_dir,
            log_configs_dir,
            runtime_base_dir,
            content_library_dir,
            content_meta_dir,
            temp_dir,
            temp_natives_base_dir,
            root_launcher_dir: launcher_dir,
            config_json,
            accounts_json,
        }
    }
}

} // verus!
