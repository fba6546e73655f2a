use waylauncher::desktop_entry::{search_query, DesktopEntryObject};
use waylauncher::scanner::{file_stem, has_desktop_extension, parse_entry, sort_by_name, AppCatalog};

const FIREFOX: &str = "[Desktop Entry]
Type=Application
Name=Firefox
Name[de]=Feuerfuchs
GenericName=Web Browser
Comment=Browse the Web
Icon=firefox
Exec=firefox %u
Categories=Network;WebBrowser;
";

fn locales(ls: &[&str]) -> Vec<String> {
    ls.iter().map(|s| s.to_string()).collect()
}

fn entry(name: &str) -> DesktopEntryObject {
    DesktopEntryObject::new(name, "", "", "", "run", "/x.desktop", "", false)
}

#[test]
fn parses_application_entry() {
    let e = parse_entry("/usr/share/applications/firefox.desktop", FIREFOX, &locales(&[])).unwrap();
    assert_eq!(e.name(), "Firefox");
    assert_eq!(e.generic_name(), "Web Browser");
    assert_eq!(e.comment(), "Browse the Web");
    assert_eq!(e.icon(), "firefox");
    assert_eq!(e.exec(), "firefox %u");
    assert_eq!(e.desktop_file_path(), "/usr/share/applications/firefox.desktop");
    assert_eq!(e.categories(), "Network;WebBrowser;");
    assert!(!e.terminal());
    assert_eq!(e.search_string(), "firefox web browser browse the web network;webbrowser;");
}

#[test]
fn uses_translation_for_locale() {
    let e = parse_entry("/a/firefox.desktop", FIREFOX, &locales(&["de_DE"])).unwrap();
    assert_eq!(e.name(), "Feuerfuchs");
    assert_eq!(e.comment(), "Browse the Web");
}

#[test]
fn rejects_hidden_and_nodisplay() {
    let hidden = format!("{}Hidden=true\n", FIREFOX);
    assert!(parse_entry("/a/f.desktop", &hidden, &locales(&[])).is_none());
    let nodisplay = format!("{}NoDisplay=true\n", FIREFOX);
    assert!(parse_entry("/a/f.desktop", &nodisplay, &locales(&[])).is_none());
    let shown = format!("{}NoDisplay=false\n", FIREFOX);
    assert!(parse_entry("/a/f.desktop", &shown, &locales(&[])).is_some());
}

#[test]
fn rejects_non_applications() {
    let link = "[Desktop Entry]\nType=Link\nName=Site\nExec=x\n";
    assert!(parse_entry("/a/l.desktop", link, &locales(&[])).is_none());
    let untyped = "[Desktop Entry]\nName=Site\nExec=x\n";
    assert!(parse_entry("/a/l.desktop", untyped, &locales(&[])).is_none());
}

#[test]
fn requires_name_and_exec() {
    let no_exec = "[Desktop Entry]\nType=Application\nName=App\n";
    assert!(parse_entry("/a/a.desktop", no_exec, &locales(&[])).is_none());
    let empty_name = "[Desktop Entry]\nType=Application\nName=\nExec=app\n";
    assert!(parse_entry("/a/a.desktop", empty_name, &locales(&[])).is_none());
}

#[test]
fn terminal_flag_and_defaults() {
    let t = "[Desktop Entry]\nType=Application\nName=Top\nExec=htop\nTerminal=true\n";
    let e = parse_entry("/a/htop.desktop", t, &locales(&[])).unwrap();
    assert!(e.terminal());
    assert_eq!(e.generic_name(), "");
    assert_eq!(e.comment(), "");
    assert_eq!(e.icon(), "");
    assert_eq!(e.categories(), "");
    assert_eq!(e.search_string(), "top   ");
}

#[test]
fn rejects_undecodable_file() {
    assert!(parse_entry("/a/bad.desktop", "not an entry line\n", &locales(&[])).is_none());
}

#[test]
fn search_string_is_lower_case() {
    let e = DesktopEntryObject::new("GIMP", "Image Editor", "Create Images", "gimp", "gimp %U", "/g.desktop", "Graphics;", false);
    assert_eq!(e.search_string(), "gimp image editor create images graphics;");
    assert!(e.matches_query(""));
    assert!(e.matches_query("image ed"));
    assert!(e.matches_query(&search_query("GRAPHICS")));
    assert!(!e.matches_query("IMAGE"));
    assert!(!e.matches_query("inkscape"));
}

#[test]
fn file_stems_and_extensions() {
    assert_eq!(file_stem("firefox.desktop"), "firefox");
    assert_eq!(file_stem("org.gnome.Nautilus.desktop"), "org.gnome.Nautilus");
    assert_eq!(file_stem(".hidden"), ".hidden");
    assert_eq!(file_stem("noext"), "noext");
    assert_eq!(file_stem(".."), "..");
    assert_eq!(file_stem(""), "");
    assert!(has_desktop_extension("a.desktop"));
    assert!(!has_desktop_extension(".desktop"));
    assert!(!has_desktop_extension("a.desktop.bak"));
    assert!(!has_desktop_extension("desktop"));
    for name in ["a.desktop", ".desktop", "x.y.desktop", "a.", "plain", ".a.b"] {
        let p = std::path::Path::new(name);
        assert_eq!(file_stem(name), p.file_stem().map(|s| s.to_str().unwrap()).unwrap_or(""), "{}", name);
        assert_eq!(has_desktop_extension(name), p.extension().and_then(|e| e.to_str()) == Some("desktop"), "{}", name);
    }
}

#[test]
fn catalog_keeps_first_entry_per_id() {
    let mut c = AppCatalog::new();
    assert!(c.wants("firefox"));
    c.record("firefox".to_string(), entry("Firefox (user)"));
    assert!(!c.wants("firefox"));
    c.record("firefox".to_string(), entry("Firefox (system)"));
    assert!(!c.wants(""));
    c.record(String::new(), entry("Nameless"));
    c.record("alacritty".to_string(), entry("Alacritty"));
    assert_eq!(c.len(), 2);
    let sorted = c.into_sorted_entries();
    let names: Vec<&str> = sorted.iter().map(|e| e.name()).collect();
    assert_eq!(names, vec!["Alacritty", "Firefox (user)"]);
}

#[test]
fn sorts_case_insensitively_and_stably() {
    let input = vec![entry("beta"), entry("Alpha"), entry("BETA"), entry("alpha"), entry("Gamma")];
    let sorted = sort_by_name(input);
    let names: Vec<&str> = sorted.iter().map(|e| e.name()).collect();
    assert_eq!(names, vec!["Alpha", "alpha", "beta", "BETA", "Gamma"]);
}

#[test]
fn sorts_empty_list() {
    assert!(sort_by_name(Vec::new()).is_empty());
}
