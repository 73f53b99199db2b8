use badger::config::Config;
use badger::ctx::Ctx;
use badger::host::{Entry, Host, Kind};
use badger::pkg::{Backend, InstalledPackage};
use badger::pkg::desktop::{scan, Category, DesktopApp};
use badger::pkg::recommend::{
    overlaps, recommendations, AppEntry, Kind as Hint, Recommendation,
};
use badger::runner::CmdOutput;
use badger::safety::protected::SafetyEnv;

/// A machine made up for a test: every path has its parents, and a directory
/// lists what was put in it.
struct World {
    host: Host,
}

const NOW: i64 = 1_700_000_000_000_000_000;
const DAY: i64 = 86_400_000_000_000;

impl World {
    fn new() -> World {
        let mut host = Host::new();
        host.now = NOW;
        let mut world = World { host };
        world.dir(HOME);
        world
    }

    fn add(&mut self, path: &str, kind: Kind, size: u64, text: Option<&str>) {
        if self.host.find(path).is_some() {
            return;
        }
        if let Some((parent, name)) = path.rsplit_once('/') {
            let parent = if parent.is_empty() { "/" } else { parent };
            if path != "/" {
                self.add(parent, Kind::Dir, 0, None);
                for entry in self.host.entries.iter_mut() {
                    if entry.path == parent {
                        entry.names.get_or_insert_with(Vec::new).push(name.to_string());
                    }
                }
            }
        }
        let ino = self.host.entries.len() as u64 + 1;
        self.host.entries.push(Entry {
            path: path.to_string(),
            kind,
            leads_to_dir: kind == Kind::Dir,
            leads_to_file: kind == Kind::File,
            names: if kind == Kind::Dir { Some(Vec::new()) } else { None },
            size,
            modified: Some(NOW),
            text: text.map(|t| t.to_string()),
            uid: 1000,
            dev: 1,
            ino,
        });
        self.host.resolved.push((path.to_string(), path.to_string()));
    }

    fn dir(&mut self, path: &str) {
        self.add(path, Kind::Dir, 0, None);
    }

    fn file(&mut self, path: &str, size: u64) {
        self.add(path, Kind::File, size, None);
    }

    fn text(&mut self, path: &str, contents: &str) {
        self.add(path, Kind::File, contents.len() as u64, Some(contents));
    }

    fn entry(&mut self, path: &str) -> &mut Entry {
        self.host.entries.iter_mut().find(|e| e.path == path).unwrap()
    }

    fn sized_dir(&mut self, path: &str, size: u64) {
        self.add(path, Kind::Dir, size, None);
        self.entry(path).size = size;
    }

    fn age(&mut self, path: &str, days: i64) {
        self.entry(path).modified = Some(NOW - days * DAY);
    }
}

const ROOT: &str = "/sandbox/root";
const HOME: &str = "/sandbox/root/home/user";

fn s(list: &[&str]) -> Vec<String> {
    list.iter().map(|x| x.to_string()).collect()
}

fn home(rel: &str) -> String {
    format!("{HOME}/{rel}")
}

fn ctx() -> Ctx {
    Ctx {
        root: ROOT.to_string(),
        home: HOME.to_string(),
        config_dir: "/sandbox/config".to_string(),
        state_dir: "/sandbox/state".to_string(),
        dry_run: false,
        debug: false,
        config: Config::default(),
        sandboxed: true,
        available_commands: None,
        fake_command_output: None,
    }
}

fn env() -> SafetyEnv {
    SafetyEnv {
        root: ROOT.to_string(),
        home: HOME.to_string(),
        mount_points: Vec::new(),
        euid: 1000,
    }
}

fn output(stdout: &str) -> CmdOutput {
    CmdOutput { success: true, stdout: stdout.to_string(), stderr: String::new() }
}

fn system(name: &str) -> String {
    format!("{ROOT}/usr/share/applications/{name}")
}

fn launchers(path: &str, contents: &str) -> Vec<DesktopApp> {
    let mut w = World::new();
    w.text(path, contents);
    scan(&ctx(), &w.host)
}

#[test]
fn test_scan_finds_a_normal_system_entry() {
    let path = system("firefox.desktop");
    let apps = launchers(&path, "[Desktop Entry]\nName=Firefox\nExec=firefox\n");
    assert_eq!(apps.len(), 1);
    assert_eq!(apps[0].display_name, "Firefox");
    assert_eq!(apps[0].desktop_file, path);
    assert_eq!(apps[0].flatpak_id, None);
}

#[test]
fn test_scan_skips_no_display_entries() {
    let text = "[Desktop Entry]\nName=Helper\nNoDisplay=true\n";
    assert!(launchers(&system("helper.desktop"), text).is_empty());
}

#[test]
fn test_scan_skips_hidden_entries() {
    let text = "[Desktop Entry]\nName=Old\nHidden=true\n";
    assert!(launchers(&system("old.desktop"), text).is_empty());
}

#[test]
fn test_scan_skips_entries_missing_name() {
    assert!(launchers(&system("noname.desktop"), "[Desktop Entry]\nExec=noname\n").is_empty());
}

#[test]
fn test_scan_ignores_localized_name_variants() {
    let apps = launchers(&system("app.desktop"), "[Desktop Entry]\nName[fr]=Le Foo\nName=Foo\n");
    assert_eq!(apps.len(), 1);
    assert_eq!(apps[0].display_name, "Foo");
}

#[test]
fn only_the_first_desktop_entry_section_counts() {
    let text = "[Other]\nName=No\n[Desktop Entry]\nName=Foo\n[Desktop Action x]\nName=Bar\n\
                [Desktop Entry]\nName=Baz\nHidden=true\n";
    let apps = launchers(&system("app.desktop"), text);
    assert_eq!(apps.len(), 1);
    assert_eq!(apps[0].display_name, "Foo");
}

#[test]
fn test_scan_finds_user_entry() {
    let path = home(".local/share/applications/myapp.desktop");
    let apps = launchers(&path, "[Desktop Entry]\nName=My App\n");
    assert_eq!(apps.len(), 1);
    assert_eq!(apps[0].display_name, "My App");
}

#[test]
fn test_scan_flatpak_export_reads_x_flatpak_key() {
    let path =
        format!("{ROOT}/var/lib/flatpak/exports/share/applications/org.foo.App.desktop");
    let apps = launchers(&path, "[Desktop Entry]\nName=Foo App\nX-Flatpak=org.foo.App\n");
    assert_eq!(apps.len(), 1);
    assert_eq!(apps[0].flatpak_id, Some("org.foo.App".to_string()));
}

#[test]
fn test_scan_flatpak_export_falls_back_to_filename_for_id() {
    let path = home(".local/share/flatpak/exports/share/applications/org.bar.App.desktop");
    let apps = launchers(&path, "[Desktop Entry]\nName=Bar App\n");
    assert_eq!(apps.len(), 1);
    assert_eq!(apps[0].flatpak_id, Some("org.bar.App".to_string()));
}

#[test]
fn test_scan_ignores_non_desktop_files() {
    assert!(launchers(&system("readme.txt"), "not a desktop file").is_empty());
}

#[test]
fn test_scan_missing_dirs_yield_no_apps() {
    assert!(scan(&ctx(), &World::new().host).is_empty());
}

#[test]
fn test_scan_skips_malformed_file_without_desktop_entry_section() {
    assert!(launchers(&system("broken.desktop"), "not an ini file at all\n").is_empty());
}

fn category(categories: &str) -> Option<Category> {
    let text = format!("[Desktop Entry]\nName=App\n{categories}");
    launchers(&system("app.desktop"), &text)[0].main_category
}

#[test]
fn test_scan_parses_a_recognized_category() {
    assert_eq!(category("Categories=Network;WebBrowser;\n"), Some(Category::WebBrowser));
}

#[test]
fn test_scan_picks_the_first_recognized_category_skipping_unknown_ones() {
    assert_eq!(category("Categories=GTK;Utility;Video;AudioVideo;\n"), Some(Category::Video));
}

#[test]
fn test_scan_no_categories_line_yields_no_main_category() {
    assert_eq!(category(""), None);
}

#[test]
fn test_scan_categories_with_no_recognized_entries_yields_no_main_category() {
    assert_eq!(category("Categories=GTK;Utility;\n"), None);
}

fn pacman_pkg(name: &str) -> InstalledPackage {
    InstalledPackage {
        backend: Backend::Pacman,
        id: name.to_string(),
        name: name.to_string(),
        version: "1".to_string(),
        size_bytes: None,
        aur: false,
    }
}

fn flatpak_pkg(id: &str, name: &str) -> InstalledPackage {
    InstalledPackage {
        backend: Backend::Flatpak,
        id: id.to_string(),
        name: name.to_string(),
        version: "1".to_string(),
        size_bytes: None,
        aur: false,
    }
}

fn app(display_name: &str, package_index: usize) -> AppEntry {
    AppEntry { display_name: display_name.to_string(), package_index }
}

fn desktop_app(name: &str, main_category: Option<Category>) -> DesktopApp {
    DesktopApp {
        display_name: name.to_string(),
        desktop_file: format!("/usr/share/applications/{}.desktop", name.to_lowercase()),
        flatpak_id: None,
        main_category,
    }
}

fn kinds_for(recs: &[Recommendation], index: usize) -> Vec<Hint> {
    recs.iter().filter(|r| r.package_index == index).map(|r| r.kind).collect()
}

fn aged_dir(world: &mut World, base: &str, name: &str, days: i64) {
    let path = home(&format!("{base}/{name}"));
    world.dir(&path);
    world.age(&path, days);
}

fn hints(
    apps: &Vec<AppEntry>,
    packages: &Vec<InstalledPackage>,
    launchers: &Vec<DesktopApp>,
    world: &World,
) -> Vec<Recommendation> {
    recommendations(apps, packages, launchers, &ctx(), &Config::default(), &world.host)
}

#[test]
fn test_flatpak_and_pacman_firefox_are_flagged_as_duplicates_of_each_other() {
    let packages = vec![pacman_pkg("firefox"), flatpak_pkg("org.mozilla.firefox", "Firefox")];
    let apps = vec![app("Firefox", 0), app("Firefox", 1)];
    let recs = hints(&apps, &packages, &vec![], &World::new());
    assert_eq!(kinds_for(&recs, 0), vec![Hint::Duplicate { other_backend: Backend::Flatpak }]);
    assert_eq!(kinds_for(&recs, 1), vec![Hint::Duplicate { other_backend: Backend::Pacman }]);
}

#[test]
fn test_name_normalization_ignores_case_spaces_dashes_and_underscores() {
    let packages = vec![pacman_pkg("foo-app"), flatpak_pkg("org.example.foo_app", "Foo App")];
    let apps = vec![app("foo-app", 0), app("Foo App", 1)];
    let recs = hints(&apps, &packages, &vec![], &World::new());
    assert_eq!(kinds_for(&recs, 0).len(), 1, "must match despite formatting");
    assert_eq!(kinds_for(&recs, 1).len(), 1);
}

#[test]
fn test_two_backends_but_different_identity_are_not_duplicates() {
    let packages = vec![pacman_pkg("firefox"), flatpak_pkg("org.gimp.GIMP", "GIMP")];
    let apps = vec![app("Firefox", 0), app("GIMP", 1)];
    let recs = hints(&apps, &packages, &vec![], &World::new());
    assert!(kinds_for(&recs, 0).is_empty());
    assert!(kinds_for(&recs, 1).is_empty());
}

#[test]
fn test_same_identity_same_backend_is_not_a_duplicate() {
    let packages = vec![pacman_pkg("foo"), pacman_pkg("foo-alt")];
    let apps = vec![app("Foo", 0), app("Foo", 1)];
    let recs = hints(&apps, &packages, &vec![], &World::new());
    assert!(kinds_for(&recs, 0).is_empty());
    assert!(kinds_for(&recs, 1).is_empty());
}

#[test]
fn test_unused_recommended_when_only_the_cache_dir_exists_and_is_stale() {
    let mut w = World::new();
    aged_dir(&mut w, ".cache", "foo", 180);
    let recs = hints(&vec![app("Foo", 0)], &vec![pacman_pkg("foo")], &vec![], &w);
    assert_eq!(kinds_for(&recs, 0), vec![Hint::Unused { months: 6 }]);
}

#[test]
fn test_no_cache_or_config_dir_yields_no_unused_recommendation() {
    let recs = hints(&vec![app("Foo", 0)], &vec![pacman_pkg("foo")], &vec![], &World::new());
    assert!(kinds_for(&recs, 0).is_empty());
}

#[test]
fn test_a_recently_touched_dir_blocks_the_unused_recommendation_even_if_another_is_stale() {
    let mut w = World::new();
    aged_dir(&mut w, ".cache", "foo", 200);
    aged_dir(&mut w, ".config", "foo", 1);
    let recs = hints(&vec![app("Foo", 0)], &vec![pacman_pkg("foo")], &vec![], &w);
    assert!(kinds_for(&recs, 0).is_empty());
}

#[test]
fn test_unused_days_config_override_is_respected() {
    let mut w = World::new();
    aged_dir(&mut w, ".cache", "foo", 20);
    let mut config = Config::default();
    config.uninstall.unused_days = 10;
    let packages = vec![pacman_pkg("foo")];
    let apps = vec![app("Foo", 0)];
    let recs = recommendations(&apps, &packages, &vec![], &ctx(), &config, &w.host);
    assert_eq!(kinds_for(&recs, 0), vec![Hint::Unused { months: 1 }]);
}

#[test]
fn test_unused_at_exactly_the_threshold_day_boundary_is_recommended() {
    let mut w = World::new();
    let threshold = Config::default().uninstall.unused_days;
    aged_dir(&mut w, ".cache", "foo", threshold as i64);
    let recs = hints(&vec![app("Foo", 0)], &vec![pacman_pkg("foo")], &vec![], &w);
    assert!(!kinds_for(&recs, 0).is_empty());
}

#[test]
fn test_fresh_dir_under_the_threshold_yields_no_recommendation() {
    let mut w = World::new();
    aged_dir(&mut w, ".cache", "foo", 5);
    let recs = hints(&vec![app("Foo", 0)], &vec![pacman_pkg("foo")], &vec![], &w);
    assert!(kinds_for(&recs, 0).is_empty());
}

fn overlap(most_used: bool) -> Vec<Hint> {
    vec![Hint::Overlap { category: Category::WebBrowser, count: 3, most_used }]
}

fn three_browsers() -> Vec<DesktopApp> {
    vec![
        desktop_app("Alpha", Some(Category::WebBrowser)),
        desktop_app("Beta", Some(Category::WebBrowser)),
        desktop_app("Gamma", Some(Category::WebBrowser)),
    ]
}

fn three_apps() -> Vec<AppEntry> {
    vec![app("Alpha", 0), app("Beta", 1), app("Gamma", 2)]
}

fn three_packages() -> Vec<InstalledPackage> {
    vec![pacman_pkg("alpha"), pacman_pkg("beta"), pacman_pkg("gamma")]
}

#[test]
fn test_exactly_three_apps_in_a_category_all_get_overlap() {
    let packages = vec![pacman_pkg("a"), pacman_pkg("b"), pacman_pkg("c")];
    let recs = hints(&three_apps(), &packages, &three_browsers(), &World::new());
    for i in 0..3 {
        assert_eq!(
            kinds_for(&recs, i),
            overlap(false),
            "no cache/config dirs exist for any member, so nobody is most_used"
        );
    }
}

#[test]
fn test_only_two_apps_in_a_category_get_no_overlap() {
    let packages = vec![pacman_pkg("a"), pacman_pkg("b")];
    let apps = vec![app("Alpha", 0), app("Beta", 1)];
    let mut two = three_browsers();
    two.pop();
    assert!(hints(&apps, &packages, &two, &World::new()).is_empty());
}

#[test]
fn test_app_with_no_known_category_never_gets_overlap() {
    let packages = vec![pacman_pkg("a"), pacman_pkg("b"), pacman_pkg("c")];
    let mut list = three_browsers();
    list[2].main_category = None;
    let recs = hints(&three_apps(), &packages, &list, &World::new());
    assert!(kinds_for(&recs, 2).is_empty());
}

fn ambiguous(file: &str, category: Category) -> DesktopApp {
    DesktopApp {
        display_name: "Ambiguous".to_string(),
        desktop_file: format!("/usr/share/applications/{file}"),
        flatpak_id: None,
        main_category: Some(category),
    }
}

#[test]
fn test_overlap_category_for_a_duplicated_display_name_is_independent_of_input_order() {
    let apps = vec![app("Ambiguous", 0), app("Beta", 1), app("Gamma", 2)];
    let packages = vec![pacman_pkg("ambiguous"), pacman_pkg("beta"), pacman_pkg("gamma")];
    let host = World::new().host;
    let first = vec![
        ambiguous("a.desktop", Category::WebBrowser),
        ambiguous("b.desktop", Category::Email),
        desktop_app("Beta", Some(Category::WebBrowser)),
        desktop_app("Gamma", Some(Category::WebBrowser)),
    ];
    let recs_1 = overlaps(&apps, &packages, &first, &ctx(), &host);
    let second = vec![
        ambiguous("b.desktop", Category::Email),
        ambiguous("a.desktop", Category::WebBrowser),
        desktop_app("Beta", Some(Category::WebBrowser)),
        desktop_app("Gamma", Some(Category::WebBrowser)),
    ];
    let recs_2 = overlaps(&apps, &packages, &second, &ctx(), &host);
    assert_eq!(kinds_for(&recs_1, 0), kinds_for(&recs_2, 0));
    assert_eq!(kinds_for(&recs_1, 0), overlap(false));
}

#[test]
fn test_most_used_marks_the_group_member_with_the_freshest_activity() {
    let mut w = World::new();
    aged_dir(&mut w, ".cache", "alpha", 100);
    aged_dir(&mut w, ".cache", "beta", 10);
    aged_dir(&mut w, ".cache", "gamma", 200);
    let recs = overlaps(&three_apps(), &three_packages(), &three_browsers(), &ctx(), &w.host);
    assert_eq!(kinds_for(&recs, 1), overlap(true));
    for i in [0, 2] {
        assert_eq!(kinds_for(&recs, i), overlap(false));
    }
}

#[test]
fn test_most_used_tie_goes_to_the_first_member_in_apps_order() {
    let mut w = World::new();
    aged_dir(&mut w, ".cache", "alpha", 50);
    aged_dir(&mut w, ".cache", "beta", 50);
    let recs = overlaps(&three_apps(), &three_packages(), &three_browsers(), &ctx(), &w.host);
    assert_eq!(
        kinds_for(&recs, 0),
        overlap(true),
        "alpha comes first in apps order, so it wins the tie over beta"
    );
    assert_eq!(kinds_for(&recs, 1), overlap(false));
}

#[test]
fn test_recommendations_is_empty_for_no_apps() {
    assert!(hints(&vec![], &vec![], &vec![], &World::new()).is_empty());
}
