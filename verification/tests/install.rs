use sort_gitignore::install::{
    Arch, Asset, Command, Effect, Event, InstallStatus, Installer, Platform, Release,
};

fn release(version: &str, names: &[&str]) -> Release {
    Release {
        version: version.to_string(),
        assets: names
            .iter()
            .map(|n| Asset { name: n.to_string(), download_url: format!("https://example.invalid/{}", n) })
            .collect(),
    }
}

fn finished(c: &Command) -> Option<Result<String, String>> {
    match &c.effect {
        Effect::Finish(r) => Some(r.clone()),
        _ => None,
    }
}

const LINUX_ASSET: &str = "git_ignore-lsp-x86_64-unknown-linux-gnu.tar.gz";

/// Runs a fresh lookup on Linux x86-64 up to the check of the release binary.
fn up_to_binary_check(installer: &mut Installer) {
    let c = installer.step(Event::Start(Platform::Linux, Arch::X8664));
    assert!(matches!(c.status, Some(InstallStatus::CheckingForUpdate)));
    assert!(matches!(&c.effect, Effect::FetchRelease { repo, require_assets: true, pre_release: false } if repo == "qwerty-dvorak/sort-gitignore"));
    let c = installer.step(Event::ReleaseFetched(Ok(release("v1.2.0", &["other.zip", LINUX_ASSET]))));
    assert!(c.status.is_none());
    assert!(matches!(&c.effect, Effect::CheckFile(p) if p == "git_ignore-lsp-v1.2.0/git_ignore-lsp"));
}

#[test]
fn full_download_then_cached() {
    let mut installer = Installer::new();
    up_to_binary_check(&mut installer);
    let c = installer.step(Event::FileChecked(false));
    assert!(matches!(c.status, Some(InstallStatus::Downloading)));
    assert!(matches!(&c.effect, Effect::Download { url, dir } if url == &format!("https://example.invalid/{}", LINUX_ASSET) && dir == "git_ignore-lsp-v1.2.0"));
    let c = installer.step(Event::Downloaded(Ok(())));
    assert!(matches!(&c.effect, Effect::ListDir(d) if d == "."));
    let entries = vec![
        Ok("git_ignore-lsp-v1.1.0".to_string()),
        Ok("git_ignore-lsp-v1.2.0".to_string()),
        Ok("other".to_string()),
        Ok("git_ignore-lsp".to_string()),
    ];
    let entries = {
        let mut e = entries;
        e.push(Ok("git_ignore-lsp-v0.9.0".to_string()));
        e
    };
    let c = installer.step(Event::Listed(Ok(entries)));
    assert!(matches!(&c.effect, Effect::RemoveEntries(v) if v == &vec![0usize, 4]));
    let c = installer.step(Event::Removed);
    assert!(matches!(&c.effect, Effect::MakeExecutable(p) if p == "git_ignore-lsp-v1.2.0/git_ignore-lsp"));
    let c = installer.step(Event::MadeExecutable(Ok(())));
    assert!(matches!(c.status, Some(InstallStatus::Cleared)));
    assert_eq!(finished(&c), Some(Ok("git_ignore-lsp-v1.2.0/git_ignore-lsp".to_string())));
    assert_eq!(installer.cached_binary_path().as_deref(), Some("git_ignore-lsp-v1.2.0/git_ignore-lsp"));

    // The next lookup checks the cached path first.
    let c = installer.step(Event::Start(Platform::Linux, Arch::X8664));
    assert!(c.status.is_none());
    assert!(matches!(&c.effect, Effect::CheckFile(p) if p == "git_ignore-lsp-v1.2.0/git_ignore-lsp"));
    let c = installer.step(Event::FileChecked(true));
    assert!(c.status.is_none());
    assert_eq!(finished(&c), Some(Ok("git_ignore-lsp-v1.2.0/git_ignore-lsp".to_string())));
}

#[test]
fn missing_cached_file_leads_to_release_check() {
    let mut installer = Installer::new();
    installer.step(Event::Start(Platform::Mac, Arch::Aarch64));
    installer.step(Event::ReleaseFetched(Err("offline".to_string())));
    installer.step(Event::FoundOnPath(Some("gone".to_string())));
    let c = installer.step(Event::Start(Platform::Mac, Arch::Aarch64));
    assert!(matches!(&c.effect, Effect::CheckFile(p) if p == "gone"));
    let c = installer.step(Event::FileChecked(false));
    assert!(matches!(c.status, Some(InstallStatus::CheckingForUpdate)));
    assert!(matches!(&c.effect, Effect::FetchRelease { .. }));
}

#[test]
fn binary_already_unpacked_is_used() {
    let mut installer = Installer::new();
    up_to_binary_check(&mut installer);
    let c = installer.step(Event::FileChecked(true));
    assert!(matches!(c.status, Some(InstallStatus::Cleared)));
    assert_eq!(finished(&c), Some(Ok("git_ignore-lsp-v1.2.0/git_ignore-lsp".to_string())));
    assert_eq!(installer.cached_binary_path().as_deref(), Some("git_ignore-lsp-v1.2.0/git_ignore-lsp"));
}

#[test]
fn release_failure_falls_back_to_path() {
    let mut installer = Installer::new();
    installer.step(Event::Start(Platform::Windows, Arch::X86));
    let c = installer.step(Event::ReleaseFetched(Err("rate limited".to_string())));
    assert!(matches!(&c.effect, Effect::FindOnPath(n) if n == "git_ignore-lsp.exe"));
    let c = installer.step(Event::FoundOnPath(Some("C:\\bin\\git_ignore-lsp.exe".to_string())));
    assert!(matches!(c.status, Some(InstallStatus::Cleared)));
    assert_eq!(finished(&c), Some(Ok("C:\\bin\\git_ignore-lsp.exe".to_string())));
    assert_eq!(installer.cached_binary_path().as_deref(), Some("C:\\bin\\git_ignore-lsp.exe"));
}

#[test]
fn release_failure_and_nothing_on_path() {
    let mut installer = Installer::new();
    installer.step(Event::Start(Platform::Windows, Arch::X86));
    installer.step(Event::ReleaseFetched(Err("rate limited".to_string())));
    let c = installer.step(Event::FoundOnPath(None));
    assert!(c.status.is_none());
    assert_eq!(
        finished(&c),
        Some(Err("failed to fetch GitHub release for qwerty-dvorak/sort-gitignore (rate limited); also could not find `git_ignore-lsp.exe` on PATH".to_string()))
    );
    assert!(installer.cached_binary_path().is_none());
}

#[test]
fn no_asset_for_platform_falls_back_to_path() {
    let mut installer = Installer::new();
    installer.step(Event::Start(Platform::Mac, Arch::Aarch64));
    let c = installer.step(Event::ReleaseFetched(Ok(release("v1", &[LINUX_ASSET]))));
    assert!(c.status.is_none());
    assert!(matches!(&c.effect, Effect::FindOnPath(n) if n == "git_ignore-lsp"));
    let c = installer.step(Event::FoundOnPath(Some("/usr/local/bin/git_ignore-lsp".to_string())));
    assert!(matches!(c.status, Some(InstallStatus::Cleared)));
    assert_eq!(finished(&c), Some(Ok("/usr/local/bin/git_ignore-lsp".to_string())));
    assert_eq!(installer.cached_binary_path().as_deref(), Some("/usr/local/bin/git_ignore-lsp"));
}

#[test]
fn no_asset_and_nothing_on_path() {
    let mut installer = Installer::new();
    installer.step(Event::Start(Platform::Mac, Arch::Aarch64));
    installer.step(Event::ReleaseFetched(Ok(release("v1", &[LINUX_ASSET]))));
    let c = installer.step(Event::FoundOnPath(None));
    assert!(c.status.is_none());
    assert_eq!(
        finished(&c),
        Some(Err("no asset found matching git_ignore-lsp-aarch64-apple-darwin.tar.gz; also could not find `git_ignore-lsp` on PATH".to_string()))
    );
    assert!(installer.cached_binary_path().is_none());
}

#[test]
fn asset_names_per_platform() {
    for (platform, arch, name, binary) in [
        (Platform::Windows, Arch::X8664, "git_ignore-lsp-x86_64-pc-windows-msvc.tar.gz", "git_ignore-lsp.exe"),
        (Platform::Linux, Arch::Aarch64, "git_ignore-lsp-aarch64-unknown-linux-gnu.tar.gz", "git_ignore-lsp"),
        (Platform::Mac, Arch::X86, "git_ignore-lsp-x86-apple-darwin.tar.gz", "git_ignore-lsp"),
    ] {
        let mut installer = Installer::new();
        installer.step(Event::Start(platform, arch));
        let c = installer.step(Event::ReleaseFetched(Ok(release("0.3", &[name]))));
        let expected = format!("git_ignore-lsp-0.3/{}", binary);
        assert!(matches!(&c.effect, Effect::CheckFile(p) if p == &expected), "asset {}", name);
    }
}

#[test]
fn download_failure() {
    let mut installer = Installer::new();
    up_to_binary_check(&mut installer);
    installer.step(Event::FileChecked(false));
    let c = installer.step(Event::Downloaded(Err("boom".to_string())));
    assert_eq!(finished(&c), Some(Err("failed to download git_ignore-lsp: boom".to_string())));
}

#[test]
fn listing_failure() {
    let mut installer = Installer::new();
    up_to_binary_check(&mut installer);
    installer.step(Event::FileChecked(false));
    installer.step(Event::Downloaded(Ok(())));
    let c = installer.step(Event::Listed(Err("denied".to_string())));
    assert_eq!(finished(&c), Some(Err("failed to list extension directory: denied".to_string())));
}

#[test]
fn unreadable_entry_stops_cleanup() {
    let mut installer = Installer::new();
    up_to_binary_check(&mut installer);
    installer.step(Event::FileChecked(false));
    installer.step(Event::Downloaded(Ok(())));
    let entries = vec![
        Ok("git_ignore-lsp-old".to_string()),
        Err("bad entry".to_string()),
        Ok("git_ignore-lsp-older".to_string()),
    ];
    let c = installer.step(Event::Listed(Ok(entries)));
    assert!(matches!(&c.effect, Effect::RemoveEntries(v) if v == &vec![0usize]));
    let c = installer.step(Event::Removed);
    assert_eq!(finished(&c), Some(Err("bad entry".to_string())));
    assert!(installer.cached_binary_path().is_none());
}

#[test]
fn make_executable_failure() {
    let mut installer = Installer::new();
    up_to_binary_check(&mut installer);
    installer.step(Event::FileChecked(false));
    installer.step(Event::Downloaded(Ok(())));
    installer.step(Event::Listed(Ok(vec![])));
    installer.step(Event::Removed);
    let c = installer.step(Event::MadeExecutable(Err("read-only".to_string())));
    assert_eq!(finished(&c), Some(Err("read-only".to_string())));
}

#[test]
fn awaits_only_what_was_asked() {
    let mut installer = Installer::new();
    assert!(installer.awaits(&Event::Start(Platform::Linux, Arch::X8664)));
    assert!(!installer.awaits(&Event::FileChecked(true)));
    installer.step(Event::Start(Platform::Linux, Arch::X8664));
    assert!(installer.awaits(&Event::ReleaseFetched(Err(String::new()))));
    assert!(!installer.awaits(&Event::Removed));
    assert!(!installer.awaits(&Event::Start(Platform::Linux, Arch::X8664)));
}
