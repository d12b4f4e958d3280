use bootstrapper::manifest::{Category, Component, ComponentList};
use bootstrapper::session::{
    choose_install_path, plan_view_change, AppConfig, AppState, Error, InstallerView,
    OperatingSystem, OsConfig, Transition,
};

fn general(e: Error) -> String {
    match e {
        Error::GeneralError(m) => m,
        other => panic!("unexpected error {:?}", other),
    }
}

#[test]
fn allowed_transitions() {
    assert_eq!(plan_view_change(InstallerView::SETUP, InstallerView::SETUPSELECT).unwrap(), Transition::FetchManifest);
    assert_eq!(plan_view_change(InstallerView::SETUPSELECT, InstallerView::INSTALLATION).unwrap(), Transition::StartInstall);
    assert_eq!(plan_view_change(InstallerView::INSTALLATION, InstallerView::FINISHED).unwrap(), Transition::Finish);
}

#[test]
fn rejected_transitions() {
    for (from, to) in [
        (InstallerView::SETUP, InstallerView::INSTALLATION),
        (InstallerView::SETUP, InstallerView::SETUP),
        (InstallerView::SETUPSELECT, InstallerView::FINISHED),
        (InstallerView::INSTALLATION, InstallerView::SETUP),
        (InstallerView::FINISHED, InstallerView::SETUP),
    ] {
        assert_eq!(general(plan_view_change(from, to).unwrap_err()), "Invalid view transition");
    }
}

#[test]
fn path_and_fallback_taken() {
    let mut state = AppState::new(OperatingSystem::WINDOWS);
    state.installation_path = "/x".to_owned();
    let step = plan_view_change(state.view, InstallerView::SETUPSELECT).unwrap();
    assert_eq!(step, Transition::FetchManifest);
    let r = choose_install_path(&state.installation_path, false, "/x/Flashpoint", false);
    assert_eq!(general(r.unwrap_err()), "Installation path already contains files or a Flashpoint directory");
    assert_eq!(state.view, InstallerView::SETUP);
    assert_eq!(state.installation_path, "/x");
}

#[test]
fn path_choice() {
    assert_eq!(choose_install_path("/x", true, "/x/Flashpoint", false).unwrap(), "/x");
    assert_eq!(choose_install_path("/x", false, "/x/Flashpoint", true).unwrap(), "/x/Flashpoint");
}

#[test]
fn default_session() {
    let s = AppState::new(OperatingSystem::LINUX);
    assert_eq!(s.view, InstallerView::SETUP);
    assert_eq!(s.installation_path, "./Flashpoint");
    assert_eq!(s.installation_channel, "Stable");
    assert!(s.fatal_error.is_none());
    assert_eq!(s.config.name, "Flashpoint Launcher");
}

#[test]
fn channel_resolution() {
    let s = AppState::new(OperatingSystem::WINDOWS);
    assert_eq!(
        s.channel_url().unwrap(),
        "https://nexus-dev.unstable.life/repository/components-test/components.xml"
    );
    let mut t = AppState::new(OperatingSystem::WINDOWS);
    t.installation_channel = "Beta".to_owned();
    assert_eq!(general(t.channel_url().unwrap_err()), "Selected channel does not exist");
    let mut u = AppState::new(OperatingSystem::LINUX);
    u.installation_target = OperatingSystem::LINUX;
    assert_eq!(general(u.channel_url().unwrap_err()), "Selected platform does not have an installation candidate");
    let mut v = AppState::new(OperatingSystem::WINDOWS);
    if let Some(w) = v.config.windows.as_mut() {
        w.channels.push(("Empty".to_owned(), String::new()));
    }
    v.installation_channel = "Empty".to_owned();
    assert_eq!(general(v.channel_url().unwrap_err()), "Selected channel does not exist");
}

#[test]
fn target_adjustment() {
    let mut s = AppState::new(OperatingSystem::LINUX);
    s.adjust_installation_target();
    assert_eq!(s.installation_target, OperatingSystem::WINDOWS);
    assert_eq!(s.installation_path, "./Flashpoint");

    let mut t = AppState::new(OperatingSystem::MACOS);
    t.config.macos = Some(OsConfig {
        default_path: "/Applications/Flashpoint".to_owned(),
        relative_executable: String::new(),
        channels: vec![],
        default_channel: "Stable".to_owned(),
    });
    t.adjust_installation_target();
    assert_eq!(t.installation_target, OperatingSystem::MACOS);
    assert_eq!(t.installation_path, "/Applications/Flashpoint");

    let mut w = AppState::new(OperatingSystem::WINDOWS);
    w.adjust_installation_target();
    assert_eq!(w.installation_path, "./Flashpoint");
}

#[test]
fn entering_selection_sets_the_manifest_up() {
    let mut s = AppState::new(OperatingSystem::WINDOWS);
    let mut m = ComponentList::new();
    m.categories = vec![Category {
        id: "c".to_owned(),
        name: String::new(),
        description: String::new(),
        subcategories: vec![],
        components: vec![Component {
            id: "k".to_owned(),
            raw_id: String::new(),
            name: String::new(),
            description: String::new(),
            date_modified: String::new(),
            download_size: 1,
            install_size: 1,
            path: None,
            hash: "00000000".to_owned(),
            depends: None,
            required: true,
            installed: false,
        }],
        required: false,
    }];
    s.enter_selection("/new".to_owned(), m);
    assert_eq!(s.view, InstallerView::SETUPSELECT);
    assert_eq!(s.installation_path, "/new");
    assert_eq!(s.components.required, vec!["c".to_owned(), "c-k".to_owned()]);
    assert_eq!(s.components.selected, vec!["c".to_owned(), "c-k".to_owned()]);
    s.commit_view(InstallerView::INSTALLATION);
    assert_eq!(s.view, InstallerView::INSTALLATION);
}

#[test]
fn error_messages() {
    assert_eq!(Error::GeneralError("boom".to_owned()).message(), "boom");
    assert_eq!(Error::Io("disk".to_owned()).message(), "disk");
    assert_eq!(Error::PoisonError("x".to_owned()).message(), "the mutex was poisoned");
    assert_eq!(Error::ReadConfigError("bad".to_owned()).message(), "error reading config file: bad");
}

#[test]
fn default_config() {
    let c = AppConfig::new();
    assert!(c.linux.is_none() && c.macos.is_none());
    let w = c.windows.unwrap();
    assert_eq!(w.default_path, "C:/Flashpoint");
    assert_eq!(w.channel(&"Stable".to_owned()).unwrap(), "https://nexus-dev.unstable.life/repository/components-test/components.xml");
    assert!(w.channel(&"Other".to_owned()).is_none());
}

#[test]
fn selection_checks_in_order() {
    let mut s = AppState::new(OperatingSystem::WINDOWS);
    s.installation_path = "/x".to_owned();
    let (path, url) = s.prepare_selection(false, "/x/Flashpoint", true).unwrap();
    assert_eq!(path, "/x/Flashpoint");
    assert_eq!(url, "https://nexus-dev.unstable.life/repository/components-test/components.xml");
    s.installation_channel = "Nope".to_owned();
    assert_eq!(general(s.prepare_selection(false, "/x/Flashpoint", false).unwrap_err()), "Installation path already contains files or a Flashpoint directory");
    assert_eq!(general(s.prepare_selection(true, "/x/Flashpoint", false).unwrap_err()), "Selected channel does not exist");
    assert_eq!(s.installation_path, "/x");
}
