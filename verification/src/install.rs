//! Where the editor extension finds the language server binary: a cached
//! path, a release download, or the `PATH`. The steps are decided here, one
//! at a time, from what the previous step reported; the caller performs
//! them.

use vstd::prelude::*;
use vstd::string::*;

use crate::text::chars_of;

verus! {

/// The operating system the editor runs on.
#[derive(Clone, Copy, Debug)]
pub enum Platform {
    Mac,
    Linux,
    Windows,
}

/// The processor architecture the editor runs on.
#[derive(Clone, Copy, Debug)]
pub enum Arch {
    Aarch64,
    X8664,
    X86,
}

/// The installation status shown to the user.
#[derive(Clone, Copy, Debug)]
pub enum InstallStatus {
    CheckingForUpdate,
    Downloading,
    /// No status: the installation is over.
    Cleared,
}

/// A file attached to a release.
pub struct Asset {
    pub name: String,
    pub download_url: String,
}

/// A published release of the language server.
pub struct Release {
    pub version: String,
    pub assets: Vec<Asset>,
}

/// What the caller reports back.
pub enum Event {
    /// Begin a lookup on this platform.
    Start(Platform, Arch),
    /// Whether the path last asked about is a file.
    FileChecked(bool),
    /// The latest release, or why it could not be had.
    ReleaseFetched(Result<Release, String>),
    /// Where the binary was found on the `PATH`, if anywhere.
    FoundOnPath(Option<String>),
    /// The download finished, or why it failed.
    Downloaded(Result<(), String>),
    /// The names of the directory's entries (each, or why it could not be
    /// read), or why the directory could not be listed.
    Listed(Result<Vec<Result<String, String>>, String>),
    /// The directories were removed (failures are ignored).
    Removed,
    /// The binary was made executable, or why not.
    MadeExecutable(Result<(), String>),
}

/// What the caller is to do next.
pub enum Effect {
    /// Tell whether this path is a file.
    CheckFile(String),
    /// Fetch the latest release of a repository.
    FetchRelease { repo: String, require_assets: bool, pre_release: bool },
    /// Look for this executable on the `PATH`.
    FindOnPath(String),
    /// Download and unpack a gzipped tar archive into a directory.
    Download { url: String, dir: String },
    /// List the entries of a directory.
    ListDir(String),
    /// Remove the directories of these entries of the last listing (by
    /// their place in it), ignoring failures.
    RemoveEntries(Vec<usize>),
    /// Make this file executable.
    MakeExecutable(String),
    /// The lookup is over, with this path or this error.
    Finish(Result<String, String>),
}

/// A status to show, if any, then an effect to perform.
pub struct Command {
    pub status: Option<InstallStatus>,
    pub effect: Effect,
}

/// Where a lookup stands.
pub enum Phase {
    Idle,
    CheckingCache { path: String, platform: Platform, arch: Arch },
    Fetching { platform: Platform, arch: Arch },
    SearchingPath { failure: String, binary: String },
    CheckingBinary { url: String, dir: String, path: String },
    Downloading { dir: String, path: String },
    Listing { dir: String, path: String },
    Cleaning { path: String, entry_error: Option<String> },
    MakingExecutable { path: String },
    Done,
}

/// The lookup, and the path it found last time.
pub struct Installer {
    cached_binary_path: Option<String>,
    phase: Phase,
}

/// The content of an effect.
pub enum EffectView {
    CheckFile(Seq<char>),
    FetchRelease { repo: Seq<char>, require_assets: bool, pre_release: bool },
    FindOnPath(Seq<char>),
    Download { url: Seq<char>, dir: Seq<char> },
    ListDir(Seq<char>),
    RemoveEntries(Seq<int>),
    MakeExecutable(Seq<char>),
    Finish(Result<Seq<char>, Seq<char>>),
}

/// The content of a command.
pub struct CommandView {
    pub status: Option<InstallStatus>,
    pub effect: EffectView,
}

/// The content of a phase.
pub enum PhaseView {
    Idle,
    CheckingCache { path: Seq<char>, platform: Platform, arch: Arch },
    Fetching { platform: Platform, arch: Arch },
    SearchingPath { failure: Seq<char>, binary: Seq<char> },
    CheckingBinary { url: Seq<char>, dir: Seq<char>, path: Seq<char> },
    Downloading { dir: Seq<char>, path: Seq<char> },
    Listing { dir: Seq<char>, path: Seq<char> },
    Cleaning { path: Seq<char>, entry_error: Option<Seq<char>> },
    MakingExecutable { path: Seq<char> },
    Done,
}

/// The content of the installer.
pub struct InstallerView {
    pub cached: Option<Seq<char>>,
    pub phase: PhaseView,
}

pub open spec fn opt_view(o: Option<String>) -> Option<Seq<char>> {
    match o {
        Some(s) => Some(s@),
        None => None,
    }
}

/// Places in a sequence, as integers.
pub open spec fn positions(v: Seq<usize>) -> Seq<int> {
    v.map_values(|x: usize| x as int)
}

pub open spec fn result_view(r: Result<String, String>) -> Result<Seq<char>, Seq<char>> {
    match r {
        Ok(s) => Ok(s@),
        Err(e) => Err(e@),
    }
}

impl View for Effect {
    type V = EffectView;

    open spec fn view(&self) -> EffectView {
        match self {
            Effect::CheckFile(p) => EffectView::CheckFile(p@),
            Effect::FetchRelease { repo, require_assets, pre_release } => EffectView::FetchRelease {
                repo: repo@,
                require_assets: *require_assets,
                pre_release: *pre_release,
            },
            Effect::FindOnPath(n) => EffectView::FindOnPath(n@),
            Effect::Download { url, dir } => EffectView::Download { url: url@, dir: dir@ },
            Effect::ListDir(d) => EffectView::ListDir(d@),
            Effect::RemoveEntries(v) => EffectView::RemoveEntries(positions(v@)),
            Effect::MakeExecutable(p) => EffectView::MakeExecutable(p@),
            Effect::Finish(r) => EffectView::Finish(result_view(*r)),
        }
    }
}

impl View for Command {
    type V = CommandView;

    open spec fn view(&self) -> CommandView {
        CommandView { status: self.status, effect: self.effect@ }
    }
}

impl View for Phase {
    type V = PhaseView;

    open spec fn view(&self) -> PhaseView {
        match self {
            Phase::Idle => PhaseView::Idle,
            Phase::CheckingCache { path, platform, arch } => PhaseView::CheckingCache {
                path: path@,
                platform: *platform,
                arch: *arch,
            },
            Phase::Fetching { platform, arch } => PhaseView::Fetching {
                platform: *platform,
                arch: *arch,
            },
            Phase::SearchingPath { failure, binary } => PhaseView::SearchingPath {
                failure: failure@,
                binary: binary@,
            },
            Phase::CheckingBinary { url, dir, path } => PhaseView::CheckingBinary {
                url: url@,
                dir: dir@,
                path: path@,
            },
            Phase::Downloading { dir, path } => PhaseView::Downloading { dir: dir@, path: path@ },
            Phase::Listing { dir, path } => PhaseView::Listing { dir: dir@, path: path@ },
            Phase::Cleaning { path, entry_error } => PhaseView::Cleaning {
                path: path@,
                entry_error: opt_view(*entry_error),
            },
            Phase::MakingExecutable { path } => PhaseView::MakingExecutable { path: path@ },
            Phase::Done => PhaseView::Done,
        }
    }
}

impl View for Installer {
    type V = InstallerView;

    closed spec fn view(&self) -> InstallerView {
        InstallerView { cached: opt_view(self.cached_binary_path), phase: self.phase@ }
    }
}

/// The prefix of the server's binary, asset and directory names.
pub open spec fn server_prefix() -> Seq<char> {
    "git_ignore-lsp-"@
}

/// The file name of the server binary on `platform`.
pub open spec fn binary_name(platform: Platform) -> Seq<char> {
    match platform {
        Platform::Windows => "git_ignore-lsp.exe"@,
        _ => "git_ignore-lsp"@,
    }
}

/// The name of the architecture in release asset names.
pub open spec fn arch_name(arch: Arch) -> Seq<char> {
    match arch {
        Arch::Aarch64 => "aarch64"@,
        Arch::X8664 => "x86_64"@,
        Arch::X86 => "x86"@,
    }
}

/// The name of the operating system in release asset names.
pub open spec fn os_name(platform: Platform) -> Seq<char> {
    match platform {
        Platform::Mac => "apple-darwin"@,
        Platform::Linux => "unknown-linux-gnu"@,
        Platform::Windows => "pc-windows-msvc"@,
    }
}

/// The name of the release asset built for `platform` and `arch`.
pub open spec fn asset_name(platform: Platform, arch: Arch) -> Seq<char> {
    server_prefix() + arch_name(arch) + "-"@ + os_name(platform) + ".tar.gz"@
}

/// The directory a release of version `version` is unpacked into.
pub open spec fn version_dir(version: Seq<char>) -> Seq<char> {
    server_prefix() + version
}

/// The binary inside the directory `dir`.
pub open spec fn binary_path(dir: Seq<char>, binary: Seq<char>) -> Seq<char> {
    dir + "/"@ + binary
}

/// The repository the releases come from.
pub open spec fn release_repo() -> Seq<char> {
    "qwerty-dvorak/sort-gitignore"@
}

/// Why the latest release could not be had.
pub open spec fn fetch_failure(error: Seq<char>) -> Seq<char> {
    "failed to fetch GitHub release for qwerty-dvorak/sort-gitignore ("@ + error + ")"@
}

/// The error when no release binary could be used, for the reason
/// `failure`, and `binary` is not on the `PATH` either.
pub open spec fn not_on_path_message(failure: Seq<char>, binary: Seq<char>) -> Seq<char> {
    failure + "; also could not find `"@ + binary + "` on PATH"@
}

/// The error when the release has no asset of this name.
pub open spec fn no_asset_message(name: Seq<char>) -> Seq<char> {
    "no asset found matching "@ + name
}

/// The error when the download failed.
pub open spec fn download_failed_message(error: Seq<char>) -> Seq<char> {
    "failed to download git_ignore-lsp: "@ + error
}

/// The error when the directory could not be listed.
pub open spec fn list_failed_message(error: Seq<char>) -> Seq<char> {
    "failed to list extension directory: "@ + error
}

/// The first asset called `name`, if any.
pub open spec fn find_asset(assets: Seq<Asset>, name: Seq<char>) -> Option<int>
    decreases assets.len(),
{
    if assets.len() == 0 {
        None
    } else if assets[0].name@ == name {
        Some(0)
    } else {
        match find_asset(assets.drop_first(), name) {
            Some(i) => Some(i + 1),
            None => None,
        }
    }
}

/// An entry left from another version of the server.
pub open spec fn is_stale(name: Seq<char>, dir: Seq<char>) -> bool {
    name.len() >= server_prefix().len() && name.subrange(0, server_prefix().len() as int)
        == server_prefix() && name != dir
}

/// The places, from `i` on, of the stale entries before the first entry
/// that could not be read.
pub open spec fn stale_from(entries: Seq<Result<String, String>>, dir: Seq<char>, i: int) -> Seq<
    int,
>
    decreases entries.len() - i,
{
    if i < 0 || i >= entries.len() {
        Seq::empty()
    } else {
        match entries[i] {
            Ok(name) => if is_stale(name@, dir) {
                seq![i] + stale_from(entries, dir, i + 1)
            } else {
                stale_from(entries, dir, i + 1)
            },
            Err(_) => Seq::empty(),
        }
    }
}

/// Why the first unreadable entry could not be read, if one could not.
pub open spec fn first_entry_error(entries: Seq<Result<String, String>>) -> Option<Seq<char>>
    decreases entries.len(),
{
    if entries.len() == 0 {
        None
    } else {
        match entries[0] {
            Ok(_) => first_entry_error(entries.drop_first()),
            Err(e) => Some(e@),
        }
    }
}

/// Whether `phase` awaits `event`.
pub open spec fn awaits(phase: PhaseView, event: Event) -> bool {
    match (phase, event) {
        (PhaseView::Idle, Event::Start(_, _)) => true,
        (PhaseView::Done, Event::Start(_, _)) => true,
        (PhaseView::CheckingCache { .. }, Event::FileChecked(_)) => true,
        (PhaseView::Fetching { .. }, Event::ReleaseFetched(_)) => true,
        (PhaseView::SearchingPath { .. }, Event::FoundOnPath(_)) => true,
        (PhaseView::CheckingBinary { .. }, Event::FileChecked(_)) => true,
        (PhaseView::Downloading { .. }, Event::Downloaded(_)) => true,
        (PhaseView::Listing { .. }, Event::Listed(_)) => true,
        (PhaseView::Cleaning { .. }, Event::Removed) => true,
        (PhaseView::MakingExecutable { .. }, Event::MadeExecutable(_)) => true,
        _ => false,
    }
}

pub open spec fn cmd(status: Option<InstallStatus>, effect: EffectView) -> CommandView {
    CommandView { status, effect }
}

pub open spec fn finish(r: Result<Seq<char>, Seq<char>>) -> CommandView {
    cmd(None, EffectView::Finish(r))
}

pub open spec fn fetch_release() -> EffectView {
    EffectView::FetchRelease { repo: release_repo(), require_assets: true, pre_release: false }
}

/// The next state and command, once `event` came in `s`.
pub open spec fn transition(s: InstallerView, event: Event) -> (InstallerView, CommandView) {
    let done = InstallerView { cached: s.cached, phase: PhaseView::Done };
    match (s.phase, event) {
        (_, Event::Start(platform, arch)) => match s.cached {
            Some(p) => (
                InstallerView {
                    cached: s.cached,
                    phase: PhaseView::CheckingCache { path: p, platform, arch },
                },
                cmd(None, EffectView::CheckFile(p)),
            ),
            None => (
                InstallerView { cached: s.cached, phase: PhaseView::Fetching { platform, arch } },
                cmd(Some(InstallStatus::CheckingForUpdate), fetch_release()),
            ),
        },
        (PhaseView::CheckingCache { path, platform, arch }, Event::FileChecked(is_file)) => if is_file {
            (done, finish(Ok(path)))
        } else {
            (
                InstallerView { cached: s.cached, phase: PhaseView::Fetching { platform, arch } },
                cmd(Some(InstallStatus::CheckingForUpdate), fetch_release()),
            )
        },
        (PhaseView::Fetching { platform, arch }, Event::ReleaseFetched(r)) => match r {
            Err(e) => (
                InstallerView {
                    cached: s.cached,
                    phase: PhaseView::SearchingPath {
                        failure: fetch_failure(e@),
                        binary: binary_name(platform),
                    },
                },
                cmd(None, EffectView::FindOnPath(binary_name(platform))),
            ),
            Ok(release) => match find_asset(release.assets@, asset_name(platform, arch)) {
                None => (
                    InstallerView {
                        cached: s.cached,
                        phase: PhaseView::SearchingPath {
                            failure: no_asset_message(asset_name(platform, arch)),
                            binary: binary_name(platform),
                        },
                    },
                    cmd(None, EffectView::FindOnPath(binary_name(platform))),
                ),
                Some(i) => {
                    let dir = version_dir(release.version@);
                    let path = binary_path(dir, binary_name(platform));
                    (
                        InstallerView {
                            cached: s.cached,
                            phase: PhaseView::CheckingBinary {
                                url: release.assets@[i].download_url@,
                                dir,
                                path,
                            },
                        },
                        cmd(None, EffectView::CheckFile(path)),
                    )
                },
            },
        },
        (PhaseView::SearchingPath { failure, binary }, Event::FoundOnPath(found)) => match found {
            Some(p) => (
                InstallerView { cached: Some(p@), phase: PhaseView::Done },
                cmd(Some(InstallStatus::Cleared), EffectView::Finish(Ok(p@))),
            ),
            None => (done, finish(Err(not_on_path_message(failure, binary)))),
        },
        (PhaseView::CheckingBinary { url, dir, path }, Event::FileChecked(is_file)) => if is_file {
            (
                InstallerView { cached: Some(path), phase: PhaseView::Done },
                cmd(Some(InstallStatus::Cleared), EffectView::Finish(Ok(path))),
            )
        } else {
            (
                InstallerView { cached: s.cached, phase: PhaseView::Downloading { dir, path } },
                cmd(Some(InstallStatus::Downloading), EffectView::Download { url, dir }),
            )
        },
        (PhaseView::Downloading { dir, path }, Event::Downloaded(r)) => match r {
            Err(e) => (done, finish(Err(download_failed_message(e@)))),
            Ok(_) => (
                InstallerView { cached: s.cached, phase: PhaseView::Listing { dir, path } },
                cmd(None, EffectView::ListDir("."@)),
            ),
        },
        (PhaseView::Listing { dir, path }, Event::Listed(r)) => match r {
            Err(e) => (done, finish(Err(list_failed_message(e@)))),
            Ok(entries) => (
                InstallerView {
                    cached: s.cached,
                    phase: PhaseView::Cleaning { path, entry_error: first_entry_error(entries@) },
                },
                cmd(None, EffectView::RemoveEntries(stale_from(entries@, dir, 0))),
            ),
        },
        (PhaseView::Cleaning { path, entry_error }, Event::Removed) => match entry_error {
            Some(e) => (done, finish(Err(e))),
            None => (
                InstallerView { cached: s.cached, phase: PhaseView::MakingExecutable { path } },
                cmd(None, EffectView::MakeExecutable(path)),
            ),
        },
        (PhaseView::MakingExecutable { path }, Event::MadeExecutable(r)) => match r {
            Err(e) => (done, finish(Err(e@))),
            Ok(_) => (
                InstallerView { cached: Some(path), phase: PhaseView::Done },
                cmd(Some(InstallStatus::Cleared), EffectView::Finish(Ok(path))),
            ),
        },
        // An event the phase does not await; `Installer::step` never takes one.
        _ => (s, finish(Err(Seq::empty()))),
    }
}


/// How far a phase is from the end of a lookup.
pub open spec fn remaining_steps(phase: PhaseView) -> nat {
    match phase {
        PhaseView::Idle => 9,
        PhaseView::CheckingCache { .. } => 8,
        PhaseView::Fetching { .. } => 7,
        PhaseView::SearchingPath { .. } => 6,
        PhaseView::CheckingBinary { .. } => 5,
        PhaseView::Downloading { .. } => 4,
        PhaseView::Listing { .. } => 3,
        PhaseView::Cleaning { .. } => 2,
        PhaseView::MakingExecutable { .. } => 1,
        PhaseView::Done => 0,
    }
}

/// The cached path is the one being checked, while it is checked.
pub open spec fn consistent(s: InstallerView) -> bool {
    s.phase matches PhaseView::CheckingCache { path, .. } ==> s.cached == Some(path)
}

/// A new installer is consistent.
pub proof fn law_new_installer_consistent(s: InstallerView)
    requires
        s.cached is None,
        s.phase == PhaseView::Idle,
    ensures
        consistent(s),
{
}

/// Every step keeps the installer consistent, and a lookup that ends
/// with a path leaves that path cached for the next lookup.
pub proof fn law_found_path_is_cached(s: InstallerView, e: Event)
    requires
        consistent(s),
        awaits(s.phase, e),
    ensures
        consistent(transition(s, e).0),
        transition(s, e).1.effect matches EffectView::Finish(Ok(p)) ==> transition(s, e).0.cached
            == Some(p),
{
}

/// A lookup ends: each awaited event other than a start brings it nearer
/// its end, and it ends exactly when it says it is finished.
pub proof fn law_lookup_ends(s: InstallerView, e: Event)
    requires
        awaits(s.phase, e),
    ensures
        !(e is Start) ==> remaining_steps(transition(s, e).0.phase) < remaining_steps(s.phase),
        remaining_steps(transition(s, e).0.phase) < 9,
        (transition(s, e).1.effect is Finish) == (transition(s, e).0.phase == PhaseView::Done),
{
}

proof fn lemma_stale_from(entries: Seq<Result<String, String>>, dir: Seq<char>, i: int)
    requires
        0 <= i,
    ensures
        forall|k: int|
            0 <= k < stale_from(entries, dir, i).len() ==> {
                let m = #[trigger] stale_from(entries, dir, i)[k];
                &&& i <= m < entries.len()
                &&& entries[m] matches Ok(name) && is_stale(name@, dir)
            },
    decreases entries.len() - i,
{
    if i < entries.len() {
        lemma_stale_from(entries, dir, i + 1);
        let rest = stale_from(entries, dir, i + 1);
        match entries[i] {
            Ok(name) => if is_stale(name@, dir) {
                let r = seq![i] + rest;
                assert forall|k: int| 0 <= k < r.len() implies {
                    let m = #[trigger] r[k];
                    &&& i <= m < entries.len()
                    &&& entries[m] matches Ok(name) && is_stale(name@, dir)
                } by {
                    if k > 0 {
                        assert(r[k] == rest[k - 1]);
                    }
                }
            },
            Err(_) => {},
        }
    }
}

/// Only directories of other versions of the server are removed: each
/// entry removed is one of the listing, and its name starts with the
/// server's prefix and differs from the directory of the version being
/// installed.
pub proof fn law_only_stale_dirs_removed(s: InstallerView, e: Event)
    requires
        awaits(s.phase, e),
    ensures
        transition(s, e).1.effect matches EffectView::RemoveEntries(v) ==> s.phase matches PhaseView::Listing { dir, .. } && e matches Event::Listed(Ok(entries)) && forall|k: int|
            0 <= k < v.len() ==> {
                let m = #[trigger] v[k];
                &&& 0 <= m < entries@.len()
                &&& entries@[m] matches Ok(name) && is_stale(name@, dir)
            },
{
    if let (PhaseView::Listing { dir, .. }, Event::Listed(Ok(entries))) = (s.phase, e) {
        lemma_stale_from(entries@, dir, 0);
    }
}

/// The file name of the server binary on `platform`.
fn binary_name_of(platform: Platform) -> (r: String)
    ensures
        r@ == binary_name(platform),
{
    match platform {
        Platform::Windows => String::from_str("git_ignore-lsp.exe"),
        _ => String::from_str("git_ignore-lsp"),
    }
}

/// The name of the release asset built for `platform` and `arch`.
fn asset_name_of(platform: Platform, arch: Arch) -> (r: String)
    ensures
        r@ == asset_name(platform, arch),
{
    let mut r = String::from_str("git_ignore-lsp-");
    match arch {
        Arch::Aarch64 => r.append("aarch64"),
        Arch::X8664 => r.append("x86_64"),
        Arch::X86 => r.append("x86"),
    }
    r.append("-");
    match platform {
        Platform::Mac => r.append("apple-darwin"),
        Platform::Linux => r.append("unknown-linux-gnu"),
        Platform::Windows => r.append("pc-windows-msvc"),
    }
    r.append(".tar.gz");
    r
}

proof fn lemma_find_asset(assets: Seq<Asset>, name: Seq<char>, i: int)
    requires
        0 <= i <= assets.len(),
        forall|k: int| 0 <= k < i ==> (#[trigger] assets[k]).name@ != name,
        i == assets.len() || assets[i].name@ == name,
    ensures
        find_asset(assets, name) == if i == assets.len() {
            None::<int>
        } else {
            Some(i)
        },
    decreases i,
{
    if i > 0 {
        lemma_find_asset(assets.drop_first(), name, i - 1);
        assert(assets[0].name@ != name);
    }
}

/// The index of the first asset called `name`, if any.
fn find_asset_index(assets: &Vec<Asset>, name: &String) -> (r: Option<usize>)
    ensures
        match r {
            Some(i) => find_asset(assets@, name@) == Some(i as int) && i < assets@.len(),
            None => find_asset(assets@, name@) is None,
        },
{
    let n = assets.len();
    for i in 0..n
        invariant
            n == assets@.len(),
            forall|k: int| 0 <= k < i ==> (#[trigger] assets@[k]).name@ != name@,
    {
        if assets[i].name == *name {
            proof {
                lemma_find_asset(assets@, name@, i as int);
            }
            return Some(i);
        }
    }
    proof {
        lemma_find_asset(assets@, name@, n as int);
    }
    None
}

/// Whether `name` is the name of an entry left from another version than
/// the one in `dir`.
fn is_stale_entry(name: &String, dir: &String) -> (r: bool)
    ensures
        r == is_stale(name@, dir@),
{
    let c = chars_of(name.as_str());
    let p = chars_of("git_ignore-lsp-");
    if c.len() < p.len() {
        return false;
    }
    let mut i: usize = 0;
    while i < p.len()
        invariant
            i <= p@.len() <= c@.len(),
            p@ == server_prefix(),
            c@ == name@,
            forall|k: int| 0 <= k < i ==> c@[k] == p@[k],
        decreases p@.len() - i,
    {
        if c[i] != p[i] {
            assert(c@.subrange(0, p@.len() as int)[i as int] != p@[i as int]);
            return false;
        }
        i = i + 1;
    }
    assert(c@.subrange(0, p@.len() as int) =~= p@);
    !(*name == *dir)
}

/// The places of the stale entries before the first unreadable one, and
/// why that one could not be read.
fn stale_entries(entries: &Vec<Result<String, String>>, dir: &String) -> (r: (
    Vec<usize>,
    Option<String>,
))
    ensures
        positions(r.0@) == stale_from(entries@, dir@, 0),
        opt_view(r.1) == first_entry_error(entries@),
{
    let mut out: Vec<usize> = Vec::new();
    let n = entries.len();
    assert(entries@.skip(0) =~= entries@);
    for i in 0..n
        invariant
            n == entries@.len(),
            positions(out@) + stale_from(entries@, dir@, i as int) == stale_from(entries@, dir@, 0),
            first_entry_error(entries@.skip(i as int)) == first_entry_error(entries@),
    {
        let ghost rest = entries@.skip(i as int);
        assert(rest[0] == entries@[i as int]);
        assert(rest.drop_first() =~= entries@.skip(i + 1));
        match &entries[i] {
            Ok(name) => {
                if is_stale_entry(name, dir) {
                    let ghost before = positions(out@);
                    out.push(i);
                    assert(positions(out@) =~= before.push(i as int));
                    assert(positions(out@) + stale_from(entries@, dir@, i + 1) =~= before + (seq![
                        i as int,
                    ] + stale_from(entries@, dir@, i + 1)));
                }
            },
            Err(e) => {
                assert(positions(out@) + stale_from(entries@, dir@, i as int) =~= positions(out@));
                return (out, Some(e.clone()));
            },
        }
    }
    assert(positions(out@) + stale_from(entries@, dir@, n as int) =~= positions(out@));
    (out, None)
}

fn finish_with(r: Result<String, String>) -> (c: Command)
    ensures
        c@ == finish(result_view(r)),
{
    Command { status: None, effect: Effect::Finish(r) }
}

fn fetch_release_effect() -> (e: Effect)
    ensures
        e@ == fetch_release(),
{
    Effect::FetchRelease {
        repo: String::from_str("qwerty-dvorak/sort-gitignore"),
        require_assets: true,
        pre_release: false,
    }
}

impl Installer {
    /// An installer that has found nothing yet.
    pub fn new() -> (r: Self)
        ensures
            r@.cached is None,
            r@.phase == PhaseView::Idle,
    {
        Installer { cached_binary_path: None, phase: Phase::Idle }
    }

    /// The path found last, if any.
    pub fn cached_binary_path(&self) -> (r: Option<String>)
        ensures
            opt_view(r) == self@.cached,
    {
        match &self.cached_binary_path {
            Some(p) => Some(p.clone()),
            None => None,
        }
    }

    /// Whether the installer awaits `event` now.
    pub fn awaits(&self, event: &Event) -> (r: bool)
        ensures
            r == awaits(self@.phase, *event),
    {
        match (&self.phase, event) {
            (Phase::Idle, Event::Start(_, _)) => true,
            (Phase::Done, Event::Start(_, _)) => true,
            (Phase::CheckingCache { .. }, Event::FileChecked(_)) => true,
            (Phase::Fetching { .. }, Event::ReleaseFetched(_)) => true,
            (Phase::SearchingPath { .. }, Event::FoundOnPath(_)) => true,
            (Phase::CheckingBinary { .. }, Event::FileChecked(_)) => true,
            (Phase::Downloading { .. }, Event::Downloaded(_)) => true,
            (Phase::Listing { .. }, Event::Listed(_)) => true,
            (Phase::Cleaning { .. }, Event::Removed) => true,
            (Phase::MakingExecutable { .. }, Event::MadeExecutable(_)) => true,
            _ => false,
        }
    }

    /// Takes in what the last command led to, and says what to do next.
    pub fn step(&mut self, event: Event) -> (r: Command)
        requires
            awaits(old(self)@.phase, event),
        ensures
            (final(self)@, r@) == transition(old(self)@, event),
    {
        let mut phase = Phase::Done;
        std::mem::swap(&mut phase, &mut self.phase);
        match event {
            Event::Start(platform, arch) => match &self.cached_binary_path {
                Some(p) => {
                    self.phase = Phase::CheckingCache { path: p.clone(), platform, arch };
                    Command { status: None, effect: Effect::CheckFile(p.clone()) }
                },
                None => {
                    self.phase = Phase::Fetching { platform, arch };
                    Command {
                        status: Some(InstallStatus::CheckingForUpdate),
                        effect: fetch_release_effect(),
                    }
                },
            },
            Event::FileChecked(is_file) => match phase {
                Phase::CheckingCache { path, platform, arch } => {
                    if is_file {
                        finish_with(Ok(path))
                    } else {
                        self.phase = Phase::Fetching { platform, arch };
                        Command {
                            status: Some(InstallStatus::CheckingForUpdate),
                            effect: fetch_release_effect(),
                        }
                    }
                },
                Phase::CheckingBinary { url, dir, path } => {
                    if is_file {
                        self.cached_binary_path = Some(path.clone());
                        Command { status: Some(InstallStatus::Cleared), effect: Effect::Finish(Ok(path)) }
                    } else {
                        self.phase = Phase::Downloading { dir: dir.clone(), path };
                        Command {
                            status: Some(InstallStatus::Downloading),
                            effect: Effect::Download { url, dir },
                        }
                    }
                },
                _ => {
                    proof {
                        assert(false);
                    }
                    finish_with(Err(String::new()))
                },
            },
            Event::ReleaseFetched(fetched) => match phase {
                Phase::Fetching { platform, arch } => match fetched {
                    Err(e) => {
                        let binary = binary_name_of(platform);
                        let mut failure = String::from_str(
                            "failed to fetch GitHub release for qwerty-dvorak/sort-gitignore (",
                        );
                        failure.append(e.as_str());
                        failure.append(")");
                        self.phase = Phase::SearchingPath { failure, binary: binary.clone() };
                        Command { status: None, effect: Effect::FindOnPath(binary) }
                    },
                    Ok(release) => {
                        let name = asset_name_of(platform, arch);
                        match find_asset_index(&release.assets, &name) {
                            None => {
                                let mut failure = String::from_str("no asset found matching ");
                                failure.append(name.as_str());
                                let binary = binary_name_of(platform);
                                self.phase = Phase::SearchingPath { failure, binary: binary.clone() };
                                Command { status: None, effect: Effect::FindOnPath(binary) }
                            },
                            Some(i) => {
                                let mut dir = String::from_str("git_ignore-lsp-");
                                dir.append(release.version.as_str());
                                let binary = binary_name_of(platform);
                                let mut path = dir.clone();
                                path.append("/");
                                path.append(binary.as_str());
                                let url = release.assets[i].download_url.clone();
                                self.phase = Phase::CheckingBinary {
                                    url,
                                    dir,
                                    path: path.clone(),
                                };
                                Command { status: None, effect: Effect::CheckFile(path) }
                            },
                        }
                    },
                },
                _ => {
                    proof {
                        assert(false);
                    }
                    finish_with(Err(String::new()))
                },
            },
            Event::FoundOnPath(found) => match phase {
                Phase::SearchingPath { failure, binary } => match found {
                    Some(p) => {
                        self.cached_binary_path = Some(p.clone());
                        Command { status: Some(InstallStatus::Cleared), effect: Effect::Finish(Ok(p)) }
                    },
                    None => {
                        let mut msg = failure;
                        msg.append("; also could not find `");
                        msg.append(binary.as_str());
                        msg.append("` on PATH");
                        finish_with(Err(msg))
                    },
                },
                _ => {
                    proof {
                        assert(false);
                    }
                    finish_with(Err(String::new()))
                },
            },
            Event::Downloaded(r) => match phase {
                Phase::Downloading { dir, path } => match r {
                    Err(e) => {
                        let mut msg = String::from_str("failed to download git_ignore-lsp: ");
                        msg.append(e.as_str());
                        finish_with(Err(msg))
                    },
                    Ok(_) => {
                        self.phase = Phase::Listing { dir, path };
                        Command { status: None, effect: Effect::ListDir(String::from_str(".")) }
                    },
                },
                _ => {
                    proof {
                        assert(false);
                    }
                    finish_with(Err(String::new()))
                },
            },
            Event::Listed(r) => match phase {
                Phase::Listing { dir, path } => match r {
                    Err(e) => {
                        let mut msg = String::from_str("failed to list extension directory: ");
                        msg.append(e.as_str());
                        finish_with(Err(msg))
                    },
                    Ok(entries) => {
                        let (stale, entry_error) = stale_entries(&entries, &dir);
                        self.phase = Phase::Cleaning { path, entry_error };
                        Command { status: None, effect: Effect::RemoveEntries(stale) }
                    },
                },
                _ => {
                    proof {
                        assert(false);
                    }
                    finish_with(Err(String::new()))
                },
            },
            Event::Removed => match phase {
                Phase::Cleaning { path, entry_error } => match entry_error {
                    Some(e) => finish_with(Err(e)),
                    None => {
                        self.phase = Phase::MakingExecutable { path: path.clone() };
                        Command { status: None, effect: Effect::MakeExecutable(path) }
                    },
                },
                _ => {
                    proof {
                        assert(false);
                    }
                    finish_with(Err(String::new()))
                },
            },
            Event::MadeExecutable(r) => match phase {
                Phase::MakingExecutable { path } => match r {
                    Err(e) => finish_with(Err(e)),
                    Ok(_) => {
                        self.cached_binary_path = Some(path.clone());
                        Command { status: Some(InstallStatus::Cleared), effect: Effect::Finish(Ok(path)) }
                    },
                },
                _ => {
                    proof {
                        assert(false);
                    }
                    finish_with(Err(String::new()))
                },
            },
        }
    }
}

} // verus!
