//! The installer session: its phases, its configuration and the decisions
//! taken on a phase change.
use vstd::prelude::*;

use crate::manifest::{renamed_forest, required_set, ComponentList};
use crate::ids::{canonical, id_set};

verus! {

/// Name of the directory tried inside a non-empty installation path.
pub const PRODUCT_DIR: &'static str = "Flashpoint";

/// A phase of the installer.
#[allow(non_camel_case_types)]
#[derive(Clone, Copy, Debug, PartialEq, Eq, Structural)]
pub enum InstallerView {
    SETUP,
    SETUPSELECT,
    INSTALLATION,
    FINISHED,
}

/// A platform that can be installed for.
#[allow(non_camel_case_types)]
#[derive(Clone, Copy, Debug, PartialEq, Eq, Structural)]
pub enum OperatingSystem {
    LINUX,
    WINDOWS,
    MACOS,
}

/// What can go wrong in a session operation.
#[derive(Debug)]
pub enum Error {
    /// A filesystem failure, with its message.
    Io(String),
    PoisonError(String),
    ReadConfigError(String),
    GeneralError(String),
}

pub open spec fn error_text(e: Error) -> Seq<char> {
    match e {
        Error::Io(m) => m@,
        Error::PoisonError(_) => "the mutex was poisoned"@,
        Error::ReadConfigError(m) => "error reading config file: "@ + m@,
        Error::GeneralError(m) => m@,
    }
}

impl Error {
    /// The message shown for the error.
    pub fn message(&self) -> (r: String)
        ensures
            r@ == error_text(*self),
    {
        match self {
            Error::Io(m) => m.clone(),
            Error::PoisonError(_) => {
                proof {
                    reveal_strlit("the mutex was poisoned");
                }
                "the mutex was poisoned".to_owned()
            },
            Error::ReadConfigError(m) => {
                let mut r = "error reading config file: ".to_owned();
                r.append(m.as_str());
                proof {
                    reveal_strlit("error reading config file: ");
                }
                r
            },
            Error::GeneralError(m) => m.clone(),
        }
    }
}

/// Request to change the installation path.
pub struct SetInstallationPath {
    pub installation_path: String,
}

/// Request to change the phase.
pub struct ChangeView {
    pub view: InstallerView,
}

/// The settings of one platform.
pub struct OsConfig {
    pub default_path: String,
    pub relative_executable: String,
    /// Channel name and manifest address, one entry per name.
    pub channels: Vec<(String, String)>,
    pub default_channel: String,
}

/// The installer's settings.
pub struct AppConfig {
    pub name: String,
    pub windows: Option<OsConfig>,
    pub linux: Option<OsConfig>,
    pub macos: Option<OsConfig>,
}

/// The address of channel `name`, where `channels` lists it; the first entry
/// of that name counts.
pub open spec fn channel_address(channels: Seq<(String, String)>, name: Seq<char>) -> Option<Seq<char>>
    decreases channels.len(),
{
    if channels.len() == 0 {
        None
    } else if channels[0].0@ == name {
        Some(channels[0].1@)
    } else {
        channel_address(channels.drop_first(), name)
    }
}

impl OsConfig {
    /// The address of the channel called `name`.
    pub fn channel(&self, name: &String) -> (r: Option<String>)
        ensures
            match r {
                Some(u) => channel_address(self.channels@, name@) == Some(u@),
                None => channel_address(self.channels@, name@) is None,
            },
    {
        let mut i: usize = 0;
        assert(self.channels@.subrange(0, self.channels@.len() as int) =~= self.channels@);
        while i < self.channels.len()
            invariant
                i <= self.channels@.len(),
                channel_address(self.channels@, name@) == channel_address(
                    self.channels@.subrange(i as int, self.channels@.len() as int),
                    name@,
                ),
            decreases self.channels@.len() - i,
        {
            let ghost rest = self.channels@.subrange(i as int, self.channels@.len() as int);
            assert(rest.drop_first() =~= self.channels@.subrange(i + 1, self.channels@.len() as int));
            if self.channels[i].0 == *name {
                return Some(self.channels[i].1.clone());
            }
            i = i + 1;
        }
        assert(self.channels@.subrange(i as int, self.channels@.len() as int) =~= Seq::empty());
        None
    }
}

/// Address of the manifest of the stable channel.
pub const STABLE_URL: &'static str = "https://nexus-dev.unstable.life/repository/components-test/components.xml";

impl AppConfig {
    /// The settings used when there is no settings file: Windows only, with
    /// a stable channel.
    pub fn new() -> (r: AppConfig)
        ensures
            r.name@ == "Flashpoint Launcher"@,
            r.linux is None,
            r.macos is None,
            r.windows matches Some(w) && w.default_path@ == "C:/Flashpoint"@
                && w.relative_executable@ == "./Launcher/Flashpoint.exe"@
                && w.default_channel@ == "Stable"@ && w.channels@.len() == 1
                && w.channels@[0].0@ == "Stable"@ && w.channels@[0].1@ == STABLE_URL@,
    {
        let mut channels: Vec<(String, String)> = Vec::new();
        channels.push(("Stable".to_owned(), STABLE_URL.to_owned()));
        proof {
            reveal_strlit("Stable");
            reveal_strlit("Flashpoint Launcher");
            reveal_strlit("C:/Flashpoint");
            reveal_strlit("./Launcher/Flashpoint.exe");
            assert(channels@[0].0@ == "Stable"@);
        }
        AppConfig {
            name: "Flashpoint Launcher".to_owned(),
            windows: Some(
                OsConfig {
                    default_path: "C:/Flashpoint".to_owned(),
                    relative_executable: "./Launcher/Flashpoint.exe".to_owned(),
                    default_channel: "Stable".to_owned(),
                    channels: channels,
                },
            ),
            linux: None,
            macos: None,
        }
    }

    /// The settings of a platform, if it has any.
    pub fn for_platform(&self, os: OperatingSystem) -> (r: &Option<OsConfig>)
        ensures
            r == platform_config(*self, os),
    {
        match os {
            OperatingSystem::LINUX => &self.linux,
            OperatingSystem::WINDOWS => &self.windows,
            OperatingSystem::MACOS => &self.macos,
        }
    }
}

pub open spec fn platform_config(c: AppConfig, os: OperatingSystem) -> Option<OsConfig> {
    match os {
        OperatingSystem::LINUX => c.linux,
        OperatingSystem::WINDOWS => c.windows,
        OperatingSystem::MACOS => c.macos,
    }
}

/// The session: phase, platform, target and the current manifest.
pub struct AppState {
    pub fatal_error: Option<String>,
    pub view: InstallerView,
    pub operating_system: OperatingSystem,
    pub installation_target: OperatingSystem,
    pub installation_path: String,
    pub installation_channel: String,
    pub components: ComponentList,
    pub config: AppConfig,
}

/// What a requested phase change asks for before the phase may change.
#[derive(Clone, Copy, Debug, PartialEq, Eq, Structural)]
pub enum Transition {
    /// Validate the installation path, then fetch and set up the manifest.
    FetchManifest,
    /// Start installing the selected components.
    StartInstall,
    /// Nothing: the installation has finished.
    Finish,
}

/// The phase changes that are allowed, and what each asks for.
pub open spec fn transition_of(from: InstallerView, to: InstallerView) -> Option<Transition> {
    match (from, to) {
        (InstallerView::SETUP, InstallerView::SETUPSELECT) => Some(Transition::FetchManifest),
        (InstallerView::SETUPSELECT, InstallerView::INSTALLATION) => Some(Transition::StartInstall),
        (InstallerView::INSTALLATION, InstallerView::FINISHED) => Some(Transition::Finish),
        _ => None,
    }
}

pub open spec fn invalid_transition() -> Seq<char> {
    "Invalid view transition"@
}

pub open spec fn path_taken() -> Seq<char> {
    "Installation path already contains files or a Flashpoint directory"@
}

pub open spec fn no_platform() -> Seq<char> {
    "Selected platform does not have an installation candidate"@
}

pub open spec fn no_channel() -> Seq<char> {
    "Selected channel does not exist"@
}

fn general(text: &str) -> (r: Error)
    ensures
        r matches Error::GeneralError(m) && m@ == text@,
{
    Error::GeneralError(text.to_owned())
}

/// Decides whether the phase may go from `from` to `to`, and what must be
/// done first.
pub fn plan_view_change(from: InstallerView, to: InstallerView) -> (r: Result<Transition, Error>)
    ensures
        match transition_of(from, to) {
            Some(t) => r == Ok::<Transition, Error>(t),
            None => r matches Err(Error::GeneralError(m)) && m@ == invalid_transition(),
        },
{
    proof {
        reveal_strlit("Invalid view transition");
    }
    match (from, to) {
        (InstallerView::SETUP, InstallerView::SETUPSELECT) => Ok(Transition::FetchManifest),
        (InstallerView::SETUPSELECT, InstallerView::INSTALLATION) => Ok(Transition::StartInstall),
        (InstallerView::INSTALLATION, InstallerView::FINISHED) => Ok(Transition::Finish),
        _ => Err(general("Invalid view transition")),
    }
}

/// Picks the installation path: `path` if it is missing or empty, else
/// `fallback` (the product directory inside it) if that is missing or empty.
pub fn choose_install_path(path: &str, path_is_free: bool, fallback: &str, fallback_is_free: bool) -> (r: Result<String, Error>)
    ensures
        path_is_free ==> (r matches Ok(p) && p@ == path@),
        !path_is_free && fallback_is_free ==> (r matches Ok(p) && p@ == fallback@),
        !path_is_free && !fallback_is_free ==> (r matches Err(Error::GeneralError(m)) && m@ == path_taken()),
{
    proof {
        reveal_strlit("Installation path already contains files or a Flashpoint directory");
    }
    if path_is_free {
        Ok(path.to_owned())
    } else if fallback_is_free {
        Ok(fallback.to_owned())
    } else {
        Err(general("Installation path already contains files or a Flashpoint directory"))
    }
}

impl AppState {
    /// A fresh session on host `os`, with the default settings.
    pub fn new(os: OperatingSystem) -> (r: AppState)
        ensures
            r.fatal_error is None,
            r.view == InstallerView::SETUP,
            r.operating_system == os,
            r.installation_target == os,
            r.installation_path@ == "./Flashpoint"@,
            r.installation_channel@ == "Stable"@,
            r.components.categories@.len() == 0,
            r.components.selected@.len() == 0,
            r.components.required@.len() == 0,
    {
        proof {
            reveal_strlit("./Flashpoint");
            reveal_strlit("Stable");
        }
        AppState {
            fatal_error: None,
            view: InstallerView::SETUP,
            operating_system: os,
            installation_target: os,
            installation_path: "./Flashpoint".to_owned(),
            installation_channel: "Stable".to_owned(),
            components: ComponentList::new(),
            config: AppConfig::new(),
        }
    }

    /// Aims the installation at the configured platform: Linux and macOS
    /// take their default path when configured and fall back to Windows
    /// otherwise.
    pub fn adjust_installation_target(&mut self)
        ensures
            match old(self).installation_target {
                OperatingSystem::LINUX => match old(self).config.linux {
                    Some(c) => final(self).installation_path == c.default_path
                        && final(self).installation_target == OperatingSystem::LINUX,
                    None => final(self).installation_target == OperatingSystem::WINDOWS
                        && final(self).installation_path == old(self).installation_path,
                },
                OperatingSystem::MACOS => match old(self).config.macos {
                    Some(c) => final(self).installation_path == c.default_path
                        && final(self).installation_target == OperatingSystem::MACOS,
                    None => final(self).installation_target == OperatingSystem::WINDOWS
                        && final(self).installation_path == old(self).installation_path,
                },
                OperatingSystem::WINDOWS => final(self).installation_target == OperatingSystem::WINDOWS
                    && final(self).installation_path == old(self).installation_path,
            },
            final(self).view == old(self).view,
            final(self).installation_channel == old(self).installation_channel,
            final(self).components == old(self).components,
            final(self).config == old(self).config,
            final(self).fatal_error == old(self).fatal_error,
            final(self).operating_system == old(self).operating_system,
    {
        match self.installation_target {
            OperatingSystem::LINUX => {
                match &self.config.linux {
                    Some(linux) => {
                        self.installation_path = linux.default_path.clone();
                    },
                    None => {
                        self.installation_target = OperatingSystem::WINDOWS;
                    },
                }
            },
            OperatingSystem::MACOS => {
                match &self.config.macos {
                    Some(macos) => {
                        self.installation_path = macos.default_path.clone();
                    },
                    None => {
                        self.installation_target = OperatingSystem::WINDOWS;
                    },
                }
            },
            OperatingSystem::WINDOWS => {},
        }
    }

    /// The manifest address for the current target platform and channel.
    pub fn channel_url(&self) -> (r: Result<String, Error>)
        ensures
            match platform_config(self.config, self.installation_target) {
                None => r matches Err(Error::GeneralError(m)) && m@ == no_platform(),
                Some(c) => match channel_address(c.channels@, self.installation_channel@) {
                    Some(u) => if u.len() == 0 {
                        r matches Err(Error::GeneralError(m)) && m@ == no_channel()
                    } else {
                        r matches Ok(v) && v@ == u
                    },
                    None => r matches Err(Error::GeneralError(m)) && m@ == no_channel(),
                },
            },
    {
        proof {
            reveal_strlit("Selected platform does not have an installation candidate");
            reveal_strlit("Selected channel does not exist");
        }
        match self.config.for_platform(self.installation_target) {
            None => Err(general("Selected platform does not have an installation candidate")),
            Some(c) => match c.channel(&self.installation_channel) {
                Some(u) => {
                    if u.unicode_len() == 0 {
                        Err(general("Selected channel does not exist"))
                    } else {
                        Ok(u)
                    }
                },
                None => Err(general("Selected channel does not exist")),
            },
        }
    }

    /// The checks of the move from path selection to component selection,
    /// in order: the installation path (or the product directory inside
    /// it), then the manifest address of the target platform and channel.
    /// Gives the path to keep and the address to fetch; changes nothing.
    pub fn prepare_selection(&self, path_is_free: bool, fallback: &str, fallback_is_free: bool) -> (r: Result<(String, String), Error>)
        ensures
            !path_is_free && !fallback_is_free ==> (r matches Err(Error::GeneralError(m)) && m@ == path_taken()),
            path_is_free || fallback_is_free ==> match platform_config(self.config, self.installation_target) {
                None => r matches Err(Error::GeneralError(m)) && m@ == no_platform(),
                Some(c) => match channel_address(c.channels@, self.installation_channel@) {
                    Some(u) => if u.len() == 0 {
                        r matches Err(Error::GeneralError(m)) && m@ == no_channel()
                    } else {
                        r matches Ok((p, v)) && v@ == u && p@ == (if path_is_free {
                            self.installation_path@
                        } else {
                            fallback@
                        })
                    },
                    None => r matches Err(Error::GeneralError(m)) && m@ == no_channel(),
                },
            },
    {
        let path = choose_install_path(self.installation_path.as_str(), path_is_free, fallback, fallback_is_free)?;
        let url = self.channel_url()?;
        Ok((path, url))
    }

    /// Completes the move from path selection to component selection: keeps
    /// the chosen path, sets the fetched manifest up and makes it current.
    pub fn enter_selection(&mut self, path: String, manifest: ComponentList)
        requires
            old(self).view == InstallerView::SETUP,
        ensures
            final(self).view == InstallerView::SETUPSELECT,
            final(self).installation_path == path,
            renamed_forest(manifest.categories@, final(self).components.categories@),
            canonical(final(self).components.required@, required_set(final(self).components.categories@)),
            canonical(
                final(self).components.selected@,
                id_set(manifest.selected@).union(required_set(final(self).components.categories@)),
            ),
            final(self).components.url == manifest.url,
            final(self).installation_target == old(self).installation_target,
            final(self).installation_channel == old(self).installation_channel,
            final(self).operating_system == old(self).operating_system,
            final(self).fatal_error == old(self).fatal_error,
            final(self).config == old(self).config,
    {
        let mut m = manifest;
        m.setup();
        self.components = m;
        self.installation_path = path;
        self.view = InstallerView::SETUPSELECT;
    }

    /// Moves to `to` once what the transition asked for has been done.
    pub fn commit_view(&mut self, to: InstallerView)
        requires
            transition_of(old(self).view, to) is Some,
        ensures
            final(self).view == to,
            final(self).installation_path == old(self).installation_path,
            final(self).components == old(self).components,
            final(self).installation_target == old(self).installation_target,
            final(self).installation_channel == old(self).installation_channel,
            final(self).operating_system == old(self).operating_system,
            final(self).fatal_error == old(self).fatal_error,
            final(self).config == old(self).config,
    {
        self.view = to;
    }
}

} // verus!
