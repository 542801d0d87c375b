use vstd::prelude::*;
use vstd::string::StringExecFns;
use vstd::string::StringSliceAdditionalSpecFns;
use crate::text::{decimal, push_decimal, same_text};

verus! {

/// How the launcher was installed, which decides what an update replaces.
#[derive(Debug, Clone)]
pub enum UpdateInstallType {
    /// An AppImage, at this path.
    AppImage(String),
    /// A plain executable.
    Executable,
    /// An application bundle, at this path.
    App(String),
}

impl UpdateInstallType {
    /// The name under which a manifest lists the download for this kind of
    /// installation.
    pub fn key(&self) -> (r: &'static str)
        ensures
            r@ == match *self {
                UpdateInstallType::AppImage(_) => "appimage"@,
                UpdateInstallType::Executable => "executable"@,
                UpdateInstallType::App(_) => "app"@,
            },
    {
        match self {
            UpdateInstallType::AppImage(_) => "appimage",
            UpdateInstallType::Executable => "executable",
            UpdateInstallType::App(_) => "app",
        }
    }
}

/// One download of a manifest.
#[derive(Debug, Clone)]
pub struct UpdateManifestExe {
    pub download: String,
    pub size: usize,
    pub sha1: String,
    pub sig: String,
}

/// The downloads for one processor family, by kind of installation.
#[derive(Debug, Clone)]
pub struct UpdateManifestExes {
    pub exes: Vec<(String, UpdateManifestExe)>,
}

/// The downloads of a manifest, by processor family.
#[derive(Debug, Clone)]
pub struct UpdateManifestArchs {
    pub archs: Vec<(String, UpdateManifestExes)>,
}

/// What a release offers.
#[derive(Debug, Clone)]
pub struct UpdateManifest {
    pub version: String,
    pub downloads: UpdateManifestArchs,
}

/// An update that can be offered to the user.
#[derive(Debug, Clone)]
pub struct UpdatePrompt {
    pub old_version: String,
    pub new_version: String,
    pub install_type: UpdateInstallType,
    pub exe: UpdateManifestExe,
}

/// The first position at which a name stands in a list of named items.
pub open spec fn named_at<T>(items: Seq<(String, T)>, name: Seq<char>) -> Option<int>
    decreases items.len(),
{
    if items.len() == 0 {
        None
    } else if items[0].0@ == name {
        Some(0int)
    } else {
        match named_at(items.drop_first(), name) {
            Some(i) => Some(i + 1),
            None => None,
        }
    }
}

/// Looks a name up in a list of named items: the first position at which it
/// stands.
pub fn find_named<T>(items: &Vec<(String, T)>, name: &str) -> (r: Option<usize>)
    ensures
        match r {
            Some(i) => named_at(items@, name@) == Some(i as int) && i < items@.len(),
            None => named_at(items@, name@) is None,
        },
{
    let mut i: usize = 0;
    assert(items@.skip(0) =~= items@);
    while i < items.len()
        invariant
            i <= items@.len(),
            named_at(items@, name@) == match named_at(items@.skip(i as int), name@) {
                Some(k) => Some(k + i),
                None => None,
            },
        decreases items@.len() - i,
    {
        if same_text(items[i].0.as_str(), name) {
            assert(items@.skip(i as int)[0] == items@[i as int]);
            return Some(i);
        }
        proof {
            let rest = items@.skip(i as int);
            assert(rest[0] == items@[i as int]);
            assert(rest.drop_first() =~= items@.skip(i + 1));
        }
        i += 1;
    }
    None
}

impl UpdateManifest {
    /// The downloads that fit a processor family: those for every family
    /// where the manifest has such, else those for the family itself.
    pub open spec fn exes_for(&self, arch: Seq<char>) -> Option<UpdateManifestExes> {
        match named_at(self.downloads.archs@, "universal"@) {
            Some(i) => Some(self.downloads.archs@[i].1),
            None => match named_at(self.downloads.archs@, arch) {
                Some(i) => Some(self.downloads.archs@[i].1),
                None => None,
            },
        }
    }

    /// The download that fits a processor family and a kind of installation.
    pub open spec fn choice(&self, arch: Seq<char>, install_key: Seq<char>) -> Option<
        UpdateManifestExe,
    > {
        match self.exes_for(arch) {
            Some(exes) => match named_at(exes.exes@, install_key) {
                Some(i) => Some(exes.exes@[i].1),
                None => None,
            },
            None => None,
        }
    }

    /// Picks the download for a processor family and a kind of installation,
    /// if the manifest has one.
    pub fn select_exe(&self, arch: &str, install_key: &str) -> (r: Option<&UpdateManifestExe>)
        ensures
            match r {
                Some(e) => self.choice(arch@, install_key@) == Some(*e),
                None => self.choice(arch@, install_key@) is None,
            },
    {
        let archs = &self.downloads.archs;
        let slot = match find_named(archs, "universal") {
            Some(i) => Some(i),
            None => find_named(archs, arch),
        };
        match slot {
            None => None,
            Some(i) => {
                let exes = &archs[i].1;
                match find_named(&exes.exes, install_key) {
                    Some(j) => Some(&exes.exes[j].1),
                    None => None,
                }
            },
        }
    }
}

/// What the prompt says of the size of an update.
pub open spec fn size_text(size: nat) -> Seq<char> {
    if size < 10_000 {
        "Update size: "@ + decimal(size) + " bytes"@
    } else if size < 10_000_000 {
        "Update size: "@ + decimal(size / 1000) + "kb"@
    } else if size < 10_000_000_000 {
        "Update size: "@ + decimal(size / 1000 / 1000) + "MB"@
    } else {
        "Update size: "@ + decimal(size / 1000 / 1000 / 1000) + "GB"@
    }
}

/// The line of the prompt that tells the size of an update, in the unit that
/// keeps the number short.
pub fn update_size_text(size: u64) -> (r: String)
    ensures
        r@ == size_text(size as nat),
{
    let mut out = String::from_str("Update size: ");
    if size < 10_000 {
        push_decimal(&mut out, size);
        out.append(" bytes");
    } else if size < 10_000_000 {
        push_decimal(&mut out, size / 1000);
        out.append("kb");
    } else if size < 10_000_000_000 {
        push_decimal(&mut out, size / 1000 / 1000);
        out.append("MB");
    } else {
        push_decimal(&mut out, size / 1000 / 1000 / 1000);
        out.append("GB");
    }
    out
}

/// A byte string with every occurrence of `from` replaced by `to`, found from
/// left to right, an occurrence never overlapping the one before it.
pub open spec fn replaced(s: Seq<u8>, from: Seq<u8>, to: Seq<u8>) -> Seq<u8>
    decreases s.len(),
{
    if s.len() == 0 {
        Seq::empty()
    } else if from.len() > 0 && from.is_prefix_of(s) {
        to + replaced(s.skip(from.len() as int), from, to)
    } else {
        seq![s[0]] + replaced(s.skip(1), from, to)
    }
}

/// Whether `pat` stands in `s` at position `at`.
pub fn starts_at(s: &[u8], at: usize, pat: &[u8]) -> (r: bool)
    requires
        at <= s@.len(),
    ensures
        r == pat@.is_prefix_of(s@.skip(at as int)),
{
    if pat.len() > s.len() - at {
        return false;
    }
    let mut k: usize = 0;
    while k < pat.len()
        invariant
            k <= pat@.len(),
            at + pat@.len() <= s@.len(),
            s@.len() <= usize::MAX,
            forall|j: int| 0 <= j < k ==> pat@[j] == s@[at + j],
        decreases pat@.len() - k,
    {
        if pat[k] != s[at + k] {
            assert(s@.skip(at as int)[k as int] == s@[at + k]);
            return false;
        }
        k += 1;
    }
    assert(pat@ =~= s@.skip(at as int).subrange(0, pat@.len() as int));
    true
}

/// Replaces every occurrence of the text `from` in a file name by the text
/// `to`. The file name is taken and given as the bytes of its encoding.
pub fn replace_os_str(input: &[u8], from: &str, to: &str) -> (r: Vec<u8>)
    requires
        from@.len() > 0,
    ensures
        r@ == replaced(input@, from.spec_bytes(), to.spec_bytes()),
{
    let from_bytes = from.as_bytes();
    let to_bytes = to.as_bytes();
    if from_bytes.len() == 0 {
        proof {
            vstd::utf8::encode_utf8_decode_utf8(from@);
        }
    }
    let mut out: Vec<u8> = Vec::new();
    let mut index: usize = 0;
    assert(input@.skip(0) =~= input@);
    while index < input.len()
        invariant
            index <= input@.len(),
            from_bytes@.len() > 0,
            from_bytes@ == from.spec_bytes(),
            to_bytes@ == to.spec_bytes(),
            replaced(input@, from_bytes@, to_bytes@) == out@ + replaced(
                input@.skip(index as int),
                from_bytes@,
                to_bytes@,
            ),
        decreases input@.len() - index,
    {
        let ghost rest = input@.skip(index as int);
        if starts_at(input, index, from_bytes) {
            out.extend_from_slice(to_bytes);
            proof {
                assert(rest.skip(from_bytes@.len() as int) =~= input@.skip(
                    index + from_bytes@.len(),
                ));
            }
            index += from_bytes.len();
        } else {
            out.push(input[index]);
            proof {
                assert(rest[0] == input@[index as int]);
                assert(rest.skip(1) =~= input@.skip(index + 1));
            }
            index += 1;
        }
    }
    proof {
        assert(input@.skip(index as int) =~= Seq::<u8>::empty());
    }
    out
}

/// Whether an executable lies in an application bundle: in a directory named
/// `MacOS`, inside one named `Contents`, inside one whose name ends in `.app`.
/// The three names are given as far as the path has them.
pub fn in_app_bundle(parent: Option<&str>, parent2: Option<&str>, ext3: Option<&str>) -> (r: bool)
    ensures
        r == (parent is Some && parent->0@ == "MacOS"@ && parent2 is Some && parent2->0@
            == "Contents"@ && ext3 is Some && ext3->0@ == "app"@),
{
    match (parent, parent2, ext3) {
        (Some(a), Some(b), Some(c)) => same_text(a, "MacOS") && same_text(b, "Contents")
            && same_text(c, "app"),
        _ => false,
    }
}

/// What the shell is asked to do, with the rights of an administrator, to put
/// a new executable in the place of the old one.
pub open spec fn unix_swap(data: Seq<char>, new_path: Seq<char>, old_path: Seq<char>) -> Seq<
    char,
> {
    let head = "mv -f '"@ + data + "' '"@ + new_path + "' && chmod +x '"@ + new_path;
    if old_path == new_path {
        head + "'"@
    } else {
        head + "' && rm -f '"@ + old_path + "'"@
    }
}

/// Builds the shell command that moves a new executable into place, makes it
/// executable and, where the name has changed, removes the old one.
pub fn unix_swap_command(data: &str, new_path: &str, old_path: &str) -> (r: String)
    ensures
        r@ == unix_swap(data@, new_path@, old_path@),
{
    let mut c = String::from_str("mv -f '");
    c.append(data);
    c.append("' '");
    c.append(new_path);
    c.append("' && chmod +x '");
    c.append(new_path);
    if same_text(old_path, new_path) {
        c.append("'");
    } else {
        c.append("' && rm -f '");
        c.append(old_path);
        c.append("'");
    }
    c
}

/// What PowerShell is asked to do, with the rights of an administrator, to
/// put a new executable in the place of the old one.
pub open spec fn windows_swap(data: Seq<char>, new_path: Seq<char>, old_path: Seq<char>) -> Seq<
    char,
> {
    let head = "Move-Item -Path '"@ + data + "' -Destination '"@ + new_path;
    if old_path == new_path {
        head + "' -Force"@
    } else {
        head + "' -Force; if ($?) { Remove-Item -Path '"@ + old_path + "' }"@
    }
}

/// Builds the PowerShell command that moves a new executable into place and,
/// where the name has changed, removes the old one.
pub fn windows_swap_command(data: &str, new_path: &str, old_path: &str) -> (r: String)
    ensures
        r@ == windows_swap(data@, new_path@, old_path@),
{
    let mut c = String::from_str("Move-Item -Path '");
    c.append(data);
    c.append("' -Destination '");
    c.append(new_path);
    if same_text(old_path, new_path) {
        c.append("' -Force");
    } else {
        c.append("' -Force; if ($?) { Remove-Item -Path '");
        c.append(old_path);
        c.append("' }");
    }
    c
}

/// Builds the shell command that moves the installed bundle to a backup and
/// the new bundle into its place.
pub fn app_swap_command(current: &str, backup: &str, fresh: &str) -> (r: String)
    ensures
        r@ == "mv -f '"@ + current@ + "' '"@ + backup@ + "' && mv -f '"@ + fresh@ + "' '"@
            + current@ + "'"@,
{
    let mut c = String::from_str("mv -f '");
    c.append(current);
    c.append("' '");
    c.append(backup);
    c.append("' && mv -f '");
    c.append(fresh);
    c.append("' '");
    c.append(current);
    c.append("'");
    c
}

/// Builds the shell command that moves the backup of a bundle back.
pub fn app_restore_command(backup: &str, current: &str) -> (r: String)
    ensures
        r@ == "mv -f '"@ + backup@ + "' '"@ + current@ + "'"@,
{
    let mut c = String::from_str("mv -f '");
    c.append(backup);
    c.append("' '");
    c.append(current);
    c.append("'");
    c
}

} // verus!
