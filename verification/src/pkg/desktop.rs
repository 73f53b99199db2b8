//! `.desktop` launchers for the uninstall picker's Applications view.

use vstd::prelude::*;

use crate::ctx::Ctx;
use crate::host::Host;
use crate::paths;
use crate::text;

verus! {

broadcast use vstd::seq::group_seq_axioms;

/// The `Categories=` entries that apps are grouped by, deliberately few.
#[derive(Debug, Clone, Copy, PartialEq, Eq, Hash, Structural)]
pub enum Category {
    WebBrowser,
    Email,
    AudioVideo,
    Audio,
    Video,
    TextEditor,
    IDE,
    FileManager,
    TerminalEmulator,
    Graphics,
    Game,
}

impl Category {
    pub open spec fn named(raw: Seq<char>) -> Option<Category> {
        if raw == "WebBrowser"@ {
            Some(Category::WebBrowser)
        } else if raw == "Email"@ {
            Some(Category::Email)
        } else if raw == "AudioVideo"@ {
            Some(Category::AudioVideo)
        } else if raw == "Audio"@ {
            Some(Category::Audio)
        } else if raw == "Video"@ {
            Some(Category::Video)
        } else if raw == "TextEditor"@ {
            Some(Category::TextEditor)
        } else if raw == "IDE"@ {
            Some(Category::IDE)
        } else if raw == "FileManager"@ {
            Some(Category::FileManager)
        } else if raw == "TerminalEmulator"@ {
            Some(Category::TerminalEmulator)
        } else if raw == "Graphics"@ {
            Some(Category::Graphics)
        } else if raw == "Game"@ {
            Some(Category::Game)
        } else {
            None
        }
    }

    pub fn parse(raw: &str) -> (r: Option<Category>)
        ensures
            r == Category::named(raw@),
    {
        if text::same(raw, "WebBrowser") {
            Some(Category::WebBrowser)
        } else if text::same(raw, "Email") {
            Some(Category::Email)
        } else if text::same(raw, "AudioVideo") {
            Some(Category::AudioVideo)
        } else if text::same(raw, "Audio") {
            Some(Category::Audio)
        } else if text::same(raw, "Video") {
            Some(Category::Video)
        } else if text::same(raw, "TextEditor") {
            Some(Category::TextEditor)
        } else if text::same(raw, "IDE") {
            Some(Category::IDE)
        } else if text::same(raw, "FileManager") {
            Some(Category::FileManager)
        } else if text::same(raw, "TerminalEmulator") {
            Some(Category::TerminalEmulator)
        } else if text::same(raw, "Graphics") {
            Some(Category::Graphics)
        } else if text::same(raw, "Game") {
            Some(Category::Game)
        } else {
            None
        }
    }
}

/// The first of these entries that names a category.
pub open spec fn first_category(entries: Seq<Seq<char>>, from: int) -> Option<Category>
    decreases entries.len() - from,
{
    if from < 0 || from >= entries.len() {
        None
    } else {
        match Category::named(text::trim(entries[from])) {
            Some(category) => Some(category),
            None => first_category(entries, from + 1),
        }
    }
}

/// The first entry of a `Categories=` value that is one of the fixed set.
pub open spec fn category_in(categories: Seq<char>) -> Option<Category> {
    first_category(text::fields(categories, ';'), 0)
}

pub fn main_category(categories: &str) -> (r: Option<Category>)
    ensures
        r == category_in(categories@),
{
    let entries = text::split(categories, ';');
    let ghost all = text::texts(entries@);
    let mut i: usize = 0;
    while i < entries.len()
        invariant
            i <= entries.len(),
            all == text::texts(entries@),
            all == text::fields(categories@, ';'),
            first_category(all, 0) == first_category(all, i as int),
        decreases entries.len() - i,
    {
        assert(all[i as int] == entries@[i as int]@);
        let entry = text::trimmed(entries[i].as_str());
        if let Some(category) = Category::parse(entry.as_str()) {
            return Some(category);
        }
        i += 1;
    }
    None
}

/// One launcher that is shown to people: not `NoDisplay` or `Hidden`, and
/// with a plain `Name=`.
#[derive(Debug, PartialEq)]
pub struct DesktopApp {
    pub display_name: String,
    pub desktop_file: String,
    /// The flatpak application ID of a flatpak export: `X-Flatpak=` if
    /// present, else the name of the file, one `<app-id>.desktop` per app.
    pub flatpak_id: Option<String>,
    pub main_category: Option<Category>,
}

/// A launcher as a mathematical value.
pub struct AppModel {
    pub display_name: Seq<char>,
    pub desktop_file: Seq<char>,
    pub flatpak_id: Option<Seq<char>>,
    pub main_category: Option<Category>,
}

impl View for DesktopApp {
    type V = AppModel;

    open spec fn view(&self) -> AppModel {
        AppModel {
            display_name: self.display_name@,
            desktop_file: self.desktop_file@,
            flatpak_id: text::opt_text(self.flatpak_id),
            main_category: self.main_category,
        }
    }
}

pub open spec fn desktop_apps(v: Seq<DesktopApp>) -> Seq<AppModel> {
    Seq::new(v.len(), |i: int| v[i]@)
}

// ------------------------------------------------------------------- the file

/// What the `[Desktop Entry]` section of a file says.
pub struct ParsedEntry {
    pub name: Option<String>,
    pub no_display: bool,
    pub hidden: bool,
    pub x_flatpak: Option<String>,
    pub categories: Option<String>,
}

/// That as a mathematical value.
pub struct EntryModel {
    pub name: Option<Seq<char>>,
    pub no_display: bool,
    pub hidden: bool,
    pub x_flatpak: Option<Seq<char>>,
    pub categories: Option<Seq<char>>,
}

impl View for ParsedEntry {
    type V = EntryModel;

    open spec fn view(&self) -> EntryModel {
        EntryModel {
            name: text::opt_text(self.name),
            no_display: self.no_display,
            hidden: self.hidden,
            x_flatpak: text::opt_text(self.x_flatpak),
            categories: text::opt_text(self.categories),
        }
    }
}

/// Whether the first `n` lines open the `[Desktop Entry]` section at all.
pub open spec fn has_section(lines: Seq<Seq<char>>, n: int) -> bool
    decreases n,
{
    n > 0 && (has_section(lines, n - 1) || text::trim(lines[n - 1]) == "[Desktop Entry]"@)
}

/// Whether the line after the first `n` belongs to that section. It ends for
/// good at the next header, whichever that is.
pub open spec fn in_section(lines: Seq<Seq<char>>, n: int) -> bool
    decreases n,
{
    if n <= 0 {
        false
    } else {
        let line = text::trim(lines[n - 1]);
        if text::starts_with(line, "["@) {
            line == "[Desktop Entry]"@ && !has_section(lines, n - 1)
        } else {
            in_section(lines, n - 1)
        }
    }
}

/// What a `key=value` line of the section sets.
pub open spec fn with_key(e: EntryModel, key: Seq<char>, value: Seq<char>) -> EntryModel {
    if key == "Name"@ {
        EntryModel { name: Some(value), ..e }
    } else if key == "NoDisplay"@ {
        EntryModel { no_display: text::same_but_case(value, "true"@), ..e }
    } else if key == "Hidden"@ {
        EntryModel { hidden: text::same_but_case(value, "true"@), ..e }
    } else if key == "X-Flatpak"@ {
        EntryModel { x_flatpak: Some(value), ..e }
    } else if key == "Categories"@ {
        EntryModel { categories: Some(value), ..e }
    } else {
        e
    }
}

/// The entry after the first `n` lines.
pub open spec fn entry_upto(lines: Seq<Seq<char>>, n: int) -> EntryModel
    decreases n,
{
    if n <= 0 {
        EntryModel {
            name: None,
            no_display: false,
            hidden: false,
            x_flatpak: None,
            categories: None,
        }
    } else {
        let e = entry_upto(lines, n - 1);
        let line = text::trim(lines[n - 1]);
        if text::starts_with(line, "["@) || !in_section(lines, n - 1) {
            e
        } else {
            match text::halves(line, "="@) {
                Some((key, value)) => with_key(e, text::trim(key), text::trim(value)),
                None => e,
            }
        }
    }
}

/// The `[Desktop Entry]` section of a file, where it has one.
pub open spec fn entry_in(contents: Seq<char>) -> Option<EntryModel> {
    let lines = text::lines(contents);
    if has_section(lines, lines.len() as int) {
        Some(entry_upto(lines, lines.len() as int))
    } else {
        None
    }
}

fn apply(entry: &mut ParsedEntry, key: &str, value: String)
    ensures
        final(entry)@ == with_key(old(entry)@, key@, value@),
{
    if text::same(key, "Name") {
        entry.name = Some(value);
    } else if text::same(key, "NoDisplay") {
        entry.no_display = text::equal_but_case(value.as_str(), "true");
    } else if text::same(key, "Hidden") {
        entry.hidden = text::equal_but_case(value.as_str(), "true");
    } else if text::same(key, "X-Flatpak") {
        entry.x_flatpak = Some(value);
    } else if text::same(key, "Categories") {
        entry.categories = Some(value);
    }
}

/// Reads the `[Desktop Entry]` section alone: plain `Name=` (a localized
/// `Name[xx]=` is another key), `NoDisplay=`, `Hidden=`, `X-Flatpak=`,
/// `Categories=`. `None` where the file has no such section.
pub fn parse_entry(contents: &str) -> (r: Option<ParsedEntry>)
    ensures
        match r {
            Some(entry) => entry_in(contents@) == Some(entry@),
            None => entry_in(contents@) is None,
        },
{
    let list = text::split_lines(contents);
    let ghost all = text::texts(list@);
    let mut entry = ParsedEntry {
        name: None,
        no_display: false,
        hidden: false,
        x_flatpak: None,
        categories: None,
    };
    let mut inside = false;
    let mut seen = false;
    let mut i: usize = 0;
    while i < list.len()
        invariant
            i <= list.len(),
            all == text::texts(list@),
            inside == in_section(all, i as int),
            seen == has_section(all, i as int),
            entry@ == entry_upto(all, i as int),
        decreases list.len() - i,
    {
        assert(all[i as int] == list@[i as int]@);
        let line = text::trimmed(list[i].as_str());
        proof {
            reveal_strlit("[");
            reveal_strlit("[Desktop Entry]");
            if line@ == "[Desktop Entry]"@ {
                assert(line@.subrange(0, 1) =~= "["@);
            }
        }
        if text::has_prefix(line.as_str(), "[") {
            inside = !seen && text::same(line.as_str(), "[Desktop Entry]");
            seen = seen || inside;
        } else if inside {
            if let Some((key, value)) = text::cut_at(line.as_str(), "=") {
                let key = text::trimmed(key.as_str());
                let value = text::trimmed(value.as_str());
                apply(&mut entry, key.as_str(), value);
            }
        }
        i += 1;
    }
    if seen {
        Some(entry)
    } else {
        None
    }
}

/// The launcher that the file `path`, named `name`, makes.
pub open spec fn launcher(
    contents: Seq<char>,
    path: Seq<char>,
    name: Seq<char>,
    is_flatpak_export: bool,
) -> Option<AppModel> {
    match entry_in(contents) {
        Some(e) if !e.no_display && !e.hidden && e.name is Some => Some(
            AppModel {
                display_name: e.name->Some_0,
                desktop_file: path,
                flatpak_id: match e.x_flatpak {
                    Some(id) => Some(id),
                    None => if is_flatpak_export {
                        Some(paths::stem(name))
                    } else {
                        None
                    },
                },
                main_category: match e.categories {
                    Some(categories) => category_in(categories),
                    None => None,
                },
            },
        ),
        _ => None,
    }
}

pub open spec fn opt_app(o: Option<DesktopApp>) -> Option<AppModel> {
    match o {
        Some(app) => Some(app@),
        None => None,
    }
}

pub fn parse_desktop_file(
    contents: &str,
    path: &str,
    name: &str,
    is_flatpak_export: bool,
) -> (r: Option<DesktopApp>)
    ensures
        opt_app(r) == launcher(contents@, path@, name@, is_flatpak_export),
{
    let entry = match parse_entry(contents) {
        Some(entry) => entry,
        None => {
            return None;
        },
    };
    if entry.no_display || entry.hidden {
        return None;
    }
    let display_name = match entry.name {
        Some(name) => name,
        None => {
            return None;
        },
    };
    let flatpak_id = match entry.x_flatpak {
        Some(id) => Some(id),
        None => if is_flatpak_export {
            Some(paths::stem_of(name))
        } else {
            None
        },
    };
    let category = match entry.categories {
        Some(categories) => main_category(categories.as_str()),
        None => None,
    };
    Some(
        DesktopApp {
            display_name,
            desktop_file: path.to_owned(),
            flatpak_id,
            main_category: category,
        },
    )
}

// ----------------------------------------------------------------- directories

/// The launcher that the entry `name` of `dir` makes, if it is a readable
/// `.desktop` file with one.
pub open spec fn launcher_at(
    dir: Seq<char>,
    name: Seq<char>,
    is_flatpak_export: bool,
    host: &Host,
) -> Option<AppModel> {
    let path = paths::joined(dir, name);
    if paths::extension(name) == Some("desktop"@) {
        match host.contents(path) {
            Some(contents) => launcher(contents, path, name, is_flatpak_export),
            None => None,
        }
    } else {
        None
    }
}

pub open spec fn launchers_upto(
    dir: Seq<char>,
    names: Seq<Seq<char>>,
    n: int,
    is_flatpak_export: bool,
    host: &Host,
) -> Seq<AppModel>
    decreases n,
{
    if n <= 0 {
        Seq::empty()
    } else {
        let before = launchers_upto(dir, names, n - 1, is_flatpak_export, host);
        match launcher_at(dir, names[n - 1], is_flatpak_export, host) {
            Some(app) => before.push(app),
            None => before,
        }
    }
}

pub open spec fn launchers_in(dir: Seq<char>, is_flatpak_export: bool, host: &Host) -> Seq<
    AppModel,
> {
    match host.listing(dir) {
        Some(names) => launchers_upto(dir, names, names.len() as int, is_flatpak_export, host),
        None => Seq::empty(),
    }
}

pub fn scan_dir(dir: &str, is_flatpak_export: bool, host: &Host) -> (r: Vec<DesktopApp>)
    ensures
        desktop_apps(r@) == launchers_in(dir@, is_flatpak_export, host),
{
    let mut out: Vec<DesktopApp> = Vec::new();
    assert(desktop_apps(out@) =~= Seq::empty());
    if let Some(names) = host.list(dir) {
        let ghost all = text::texts(names@);
        let mut i: usize = 0;
        while i < names.len()
            invariant
                i <= names.len(),
                all == text::texts(names@),
                desktop_apps(out@) == launchers_upto(
                    dir@,
                    all,
                    i as int,
                    is_flatpak_export,
                    host,
                ),
            decreases names.len() - i,
        {
            let name = names[i].as_str();
            assert(all[i as int] == name@);
            let ghost had = out@;
            let is_desktop = match paths::extension_of(name) {
                Some(ext) => text::same(ext.as_str(), "desktop"),
                None => false,
            };
            if is_desktop {
                let path = paths::join(dir, name);
                if let Some(contents) = host.read(path.as_str()) {
                    if let Some(app) = parse_desktop_file(
                        contents.as_str(),
                        path.as_str(),
                        name,
                        is_flatpak_export,
                    ) {
                        out.push(app);
                        assert(desktop_apps(out@) =~= desktop_apps(had).push(app@));
                    }
                }
            }
            i += 1;
        }
    }
    out
}

/// The directories of launchers, and whether flatpak exports to them: the
/// system's, the user's, and flatpak's two.
pub open spec fn launcher_dirs(ctx: &Ctx) -> Seq<(Seq<char>, bool)> {
    seq![
        (paths::joined(ctx.root@, "usr/share/applications"@), false),
        (paths::joined(ctx.home@, ".local/share/applications"@), false),
        (paths::joined(ctx.root@, "var/lib/flatpak/exports/share/applications"@), true),
        (paths::joined(ctx.home@, ".local/share/flatpak/exports/share/applications"@), true),
    ]
}

pub open spec fn dir_views(v: Seq<(String, bool)>) -> Seq<(Seq<char>, bool)> {
    Seq::new(v.len(), |i: int| (v[i].0@, v[i].1))
}

pub fn dirs(ctx: &Ctx) -> (r: Vec<(String, bool)>)
    ensures
        dir_views(r@) == launcher_dirs(ctx),
{
    let out = vec![
        (paths::join(ctx.root.as_str(), "usr/share/applications"), false),
        (paths::join(ctx.home.as_str(), ".local/share/applications"), false),
        (paths::join(ctx.root.as_str(), "var/lib/flatpak/exports/share/applications"), true),
        (paths::join(ctx.home.as_str(), ".local/share/flatpak/exports/share/applications"), true),
    ];
    assert(dir_views(out@) =~= launcher_dirs(ctx));
    out
}

pub open spec fn launchers_among(dirs: Seq<(Seq<char>, bool)>, n: int, host: &Host) -> Seq<
    AppModel,
>
    decreases n,
{
    if n <= 0 {
        Seq::empty()
    } else {
        launchers_among(dirs, n - 1, host) + launchers_in(dirs[n - 1].0, dirs[n - 1].1, host)
    }
}

/// Every launcher below the well-known application directories. Files that
/// do not make one are skipped silently.
pub fn scan(ctx: &Ctx, host: &Host) -> (r: Vec<DesktopApp>)
    ensures
        desktop_apps(r@) == launchers_among(launcher_dirs(ctx), 4, host),
{
    let list = dirs(ctx);
    let ghost all = dir_views(list@);
    let mut out: Vec<DesktopApp> = Vec::new();
    let mut i: usize = 0;
    assert(desktop_apps(out@) =~= Seq::empty());
    assert(all.len() == list.len());
    while i < list.len()
        invariant
            i <= list.len(),
            all == dir_views(list@),
            desktop_apps(out@) == launchers_among(all, i as int, host),
        decreases list.len() - i,
    {
        assert(all[i as int] == (list@[i as int].0@, list@[i as int].1));
        let mut more = scan_dir(list[i].0.as_str(), list[i].1, host);
        let ghost had = out@;
        let ghost got = more@;
        out.append(&mut more);
        assert(desktop_apps(out@) =~= desktop_apps(had) + desktop_apps(got));
        i += 1;
    }
    out
}

// ------------------------------------------------------------------------ laws


/// A file starts to tell of its launcher behind the `[Desktop Entry]` header,
/// and stops for good at the next header.
pub proof fn law_the_entry_ends_at_the_next_header(
    lines: Seq<Seq<char>>,
    other: Seq<char>,
    n: int,
)
    requires
        lines.len() > 1,
        lines[0] == "[Desktop Entry]"@,
        lines[1] == "["@ + other + "]"@,
        1 <= n <= lines.len(),
    ensures
        has_section(lines, n),
        in_section(lines, 1),
        n >= 2 ==> !in_section(lines, n),
        n >= 2 ==> entry_upto(lines, n) == entry_upto(lines, 1),
    decreases n,
{
    reveal_strlit("[Desktop Entry]");
    reveal_strlit("[");
    reveal_strlit("]");
    let head = "[Desktop Entry]"@;
    assert(head[0] == '[' && head.last() == ']');
    assert(text::bare(head));
    text::lemma_trim_of_bare(head);
    assert(head.subrange(0, 1) =~= "["@);
    let next = lines[1];
    assert(next[0] == '[' && next.last() == ']');
    assert(text::bare(next));
    text::lemma_trim_of_bare(next);
    assert(next.subrange(0, 1) =~= "["@);
    assert(!has_section(lines, 0));
    assert(has_section(lines, 1));
    assert(in_section(lines, 1));
    if n >= 3 {
        law_the_entry_ends_at_the_next_header(lines, other, n - 1);
    } else if n == 2 {
        assert(has_section(lines, 2));
        assert(!in_section(lines, 2));
    }
}

/// In the section of a launcher each line sets its own key and leaves the
/// others as they were; a later line wins over an earlier one.
pub proof fn law_each_line_sets_its_key(
    lines: Seq<Seq<char>>,
    key: Seq<char>,
    value: Seq<char>,
)
    requires
        in_section(lines, lines.len() as int),
        text::one_word(key),
        key[0] != '[',
        !key.contains('='),
        value.len() > 0,
        text::bare(value),
    ensures
        ({
            let n = lines.len() as int;
            let old = entry_upto(lines, n);
            let more = lines.push(key + "="@ + value);
            let new = entry_upto(more, n + 1);
            &&& in_section(more, n + 1)
            &&& new.name == if key == "Name"@ {
                Some(value)
            } else {
                old.name
            }
            &&& new.no_display == if key == "NoDisplay"@ {
                text::same_but_case(value, "true"@)
            } else {
                old.no_display
            }
            &&& new.hidden == if key == "Hidden"@ {
                text::same_but_case(value, "true"@)
            } else {
                old.hidden
            }
            &&& new.x_flatpak == if key == "X-Flatpak"@ {
                Some(value)
            } else {
                old.x_flatpak
            }
            &&& new.categories == if key == "Categories"@ {
                Some(value)
            } else {
                old.categories
            }
        }),
{
    let n = lines.len() as int;
    let line = key + "="@ + value;
    let more = lines.push(line);
    lemma_same_start(lines, more, n);
    reveal_strlit("=");
    reveal_strlit("[");
    assert("="@ =~= seq!['=']);
    assert("["@ =~= seq!['[']);
    assert(more[n] == line);
    assert(!text::white(key[0]));
    assert(line[0] == key[0]);
    assert(line.last() == value.last());
    assert(text::bare(line));
    text::lemma_trim_of_bare(line);
    if text::starts_with(line, "["@) {
        assert(line.subrange(0, 1)[0] == line[0]);
        assert("["@[0] == '[');
    }
    assert(line =~= key + seq!['='] + value);
    text::law_halves_at_the_first(key, '=', value);
    assert(!text::white(key[key.len() - 1]));
    assert(text::bare(key));
    text::lemma_trim_of_bare(key);
    text::lemma_trim_of_bare(value);
    reveal_strlit("Name");
    reveal_strlit("NoDisplay");
    reveal_strlit("Hidden");
    reveal_strlit("X-Flatpak");
    reveal_strlit("Categories");
    assert("Name"@.len() == 4 && "NoDisplay"@.len() == 9 && "Hidden"@.len() == 6);
    assert("X-Flatpak"@.len() == 9 && "Categories"@.len() == 10);
    assert("X-Flatpak"@[0] == 'X' && "NoDisplay"@[0] == 'N');
}

proof fn lemma_same_start(a: Seq<Seq<char>>, b: Seq<Seq<char>>, n: int)
    requires
        0 <= n <= a.len() <= b.len(),
        forall|i: int| 0 <= i < n ==> a[i] == b[i],
    ensures
        has_section(a, n) == has_section(b, n),
        in_section(a, n) == in_section(b, n),
        entry_upto(a, n) == entry_upto(b, n),
    decreases n,
{
    if n > 0 {
        lemma_same_start(a, b, n - 1);
    }
}

/// A launcher is one that has a name and is neither hidden nor kept from
/// display; it is shown by that name. A flatpak goes by the id told, or by
/// the name of its exported file.
pub proof fn law_launchers_are_shown_by_name(
    contents: Seq<char>,
    path: Seq<char>,
    name: Seq<char>,
    exported: bool,
)
    ensures
        ({
            let e = entry_in(contents);
            let app = launcher(contents, path, name, exported);
            &&& app is Some <==> e is Some && e->0.name is Some && !e->0.no_display
                && !e->0.hidden
            &&& app is Some ==> {
                &&& Some(app->0.display_name) == e->0.name
                &&& app->0.desktop_file == path
                &&& e->0.x_flatpak is Some ==> app->0.flatpak_id == e->0.x_flatpak
                &&& e->0.x_flatpak is None && exported ==> app->0.flatpak_id == Some(
                    paths::stem(name),
                )
                &&& e->0.x_flatpak is None && !exported ==> app->0.flatpak_id is None
                &&& e->0.categories is None ==> app->0.main_category is None
                &&& e->0.categories is Some ==> app->0.main_category == category_in(
                    e->0.categories->0,
                )
            }
        }),
{
}

/// The first known category of the list is the main one.
pub proof fn law_the_first_known_category_counts(entries: Seq<Seq<char>>, from: int, k: int)
    requires
        0 <= from <= k < entries.len(),
        forall|i: int|
            from <= i < k ==> Category::named(text::trim(#[trigger] entries[i])) is None,
        Category::named(text::trim(entries[k])) is Some,
    ensures
        first_category(entries, from) == Category::named(text::trim(entries[k])),
    decreases k - from,
{
    if from < k {
        law_the_first_known_category_counts(entries, from + 1, k);
    }
}

/// Every launcher in one of the four directories is found.
pub proof fn law_all_directories_are_searched(ctx: &Ctx, host: &Host, d: int, j: int)
    requires
        ctx.home@.len() > 0,
        ctx.home@.last() != '/',
        ctx.root@.len() > 0,
        ctx.root@.last() != '/',
        0 <= d < 4,
        ({
            let dir = if d == 0 {
                ctx.root@ + "/usr/share/applications"@
            } else if d == 1 {
                ctx.home@ + "/.local/share/applications"@
            } else if d == 2 {
                ctx.root@ + "/var/lib/flatpak/exports/share/applications"@
            } else {
                ctx.home@ + "/.local/share/flatpak/exports/share/applications"@
            };
            &&& host.listing(dir) is Some
            &&& 0 <= j < host.listing(dir)->0.len()
            &&& launcher_at(dir, host.listing(dir)->0[j], d >= 2, host) is Some
        }),
    ensures
        ({
            let dir = if d == 0 {
                ctx.root@ + "/usr/share/applications"@
            } else if d == 1 {
                ctx.home@ + "/.local/share/applications"@
            } else if d == 2 {
                ctx.root@ + "/var/lib/flatpak/exports/share/applications"@
            } else {
                ctx.home@ + "/.local/share/flatpak/exports/share/applications"@
            };
            launchers_among(launcher_dirs(ctx), 4, host).contains(
                launcher_at(dir, host.listing(dir)->0[j], d >= 2, host)->0,
            )
        }),
{
    reveal_strlit("/");
    reveal_strlit("usr/share/applications");
    reveal_strlit("/usr/share/applications");
    reveal_strlit(".local/share/applications");
    reveal_strlit("/.local/share/applications");
    reveal_strlit("var/lib/flatpak/exports/share/applications");
    reveal_strlit("/var/lib/flatpak/exports/share/applications");
    reveal_strlit(".local/share/flatpak/exports/share/applications");
    reveal_strlit("/.local/share/flatpak/exports/share/applications");
    let root = ctx.root@;
    let home = ctx.home@;
    assert(paths::joined(root, "usr/share/applications"@) =~= root + "/usr/share/applications"@);
    assert(paths::joined(home, ".local/share/applications"@) =~= home
        + "/.local/share/applications"@);
    assert(paths::joined(root, "var/lib/flatpak/exports/share/applications"@) =~= root
        + "/var/lib/flatpak/exports/share/applications"@);
    assert(paths::joined(home, ".local/share/flatpak/exports/share/applications"@) =~= home
        + "/.local/share/flatpak/exports/share/applications"@);
    let dirs = launcher_dirs(ctx);
    let names = host.listing(dirs[d].0)->0;
    lemma_launcher_found(dirs[d].0, names, names.len() as int, dirs[d].1, host, j);
    lemma_launcher_among(
        dirs,
        4,
        host,
        d,
        launcher_at(dirs[d].0, names[j], dirs[d].1, host)->0,
    );
}

proof fn lemma_launcher_found(
    dir: Seq<char>,
    names: Seq<Seq<char>>,
    n: int,
    exported: bool,
    host: &Host,
    j: int,
)
    requires
        0 <= j < n <= names.len(),
        launcher_at(dir, names[j], exported, host) is Some,
    ensures
        launchers_upto(dir, names, n, exported, host).contains(
            launcher_at(dir, names[j], exported, host)->0,
        ),
    decreases n,
{
    let x = launcher_at(dir, names[j], exported, host)->0;
    let before = launchers_upto(dir, names, n - 1, exported, host);
    let now = launchers_upto(dir, names, n, exported, host);
    if j < n - 1 {
        lemma_launcher_found(dir, names, n - 1, exported, host, j);
        let k = choose|k: int| 0 <= k < before.len() && before[k] == x;
        assert(now[k] == x);
    } else {
        assert(now[before.len() as int] == x);
    }
}

proof fn lemma_launcher_among(
    dirs: Seq<(Seq<char>, bool)>,
    n: int,
    host: &Host,
    d: int,
    x: AppModel,
)
    requires
        0 <= d < n <= dirs.len(),
        launchers_in(dirs[d].0, dirs[d].1, host).contains(x),
    ensures
        launchers_among(dirs, n, host).contains(x),
    decreases n,
{
    let before = launchers_among(dirs, n - 1, host);
    let more = launchers_in(dirs[n - 1].0, dirs[n - 1].1, host);
    let now = launchers_among(dirs, n, host);
    if d < n - 1 {
        lemma_launcher_among(dirs, n - 1, host, d, x);
        let k = choose|k: int| 0 <= k < before.len() && before[k] == x;
        assert(now[k] == x);
    } else {
        let k = choose|k: int| 0 <= k < more.len() && more[k] == x;
        assert(now[before.len() + k] == x);
    }
}

} // verus!
