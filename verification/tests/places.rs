use doxsearch::desktop::clipboard_calls;
use doxsearch::desktop::desktop_manager;
use doxsearch::desktop::detect_linux_file_manager;
use doxsearch::desktop::get_user_home_dir;
use doxsearch::desktop::handler_manager;
use doxsearch::desktop::os_file_manager_name;
use doxsearch::desktop::printed_path;
use doxsearch::desktop::quick_folder;
use doxsearch::desktop::reveal_failure_message;
use doxsearch::desktop::reveal_fallback;
use doxsearch::desktop::reveal_plan;
use doxsearch::desktop::user_documents_places;
use doxsearch::desktop::user_downloads_places;
use doxsearch::desktop::LinuxFileManager;
use doxsearch::desktop::OperatingSystem;
use doxsearch::desktop::ProgramCall;
use doxsearch::desktop::QuickFolder;
use doxsearch::language::AppLanguage;
use doxsearch::locations::path_to_file_uri;
use doxsearch::locations::resolve_directory_path;
use doxsearch::locations::trim;
use doxsearch::locations::truncate_path;
use doxsearch::locations::typed_directory;
use doxsearch::options::SearchOptions;
use doxsearch::order::rank_keys;
use doxsearch::order::Rank;
use doxsearch::path::clean_path;
use doxsearch::path::FilePath;
use doxsearch::scan::candidate_of;
use doxsearch::scan::document_kind;
use doxsearch::scan::keeps_entry;
use doxsearch::scan::matches_type;
use doxsearch::scan::max_depth;
use doxsearch::scan::raw_extension;
use doxsearch::scan::DocumentKind;
use doxsearch::scan::EntryType;
use doxsearch::scan::WalkedEntry;
use std::path::Path;

const SAMPLES: [&str; 36] = [
    "",
    "/",
    "//",
    ".",
    "..",
    "./",
    "/.",
    "/..",
    "./.",
    "a",
    "a/",
    "a//",
    "/a",
    "//a",
    "/a/",
    "a/b",
    "a//b",
    "a/./b",
    "./a",
    "./a/b/.",
    "a/..",
    "a/../b",
    "../a",
    "/a/b.txt",
    "/a/b.tar.gz",
    ".hidden",
    ".hidden.txt",
    "a.",
    "..a",
    "...",
    "a/.txt",
    "/ä/ö.TXT",
    "a b/c d",
    "/a/b/../c",
    "a/b/c.txt/",
    "/.a/./.b",
];

fn text(p: &FilePath) -> String {
    p.to_text()
}

#[test]
fn paths_are_taken_apart_as_the_standard_library_does() {
    for s in SAMPLES {
        let ours = FilePath::from_text(s);
        let theirs = Path::new(s);
        assert_eq!(
            ours.file_name().map(|n| String::from_utf8(n).unwrap()),
            theirs.file_name().map(|n| n.to_str().unwrap().to_string()),
            "name of {:?}",
            s
        );
        assert_eq!(
            ours.extension().map(|n| String::from_utf8(n).unwrap()),
            theirs.extension().map(|n| n.to_str().unwrap().to_string()),
            "extension of {:?}",
            s
        );
        assert_eq!(
            ours.parent().map(|p| text(&p)),
            theirs.parent().map(|p| p.to_str().unwrap().to_string()),
            "parent of {:?}",
            s
        );
        for t in SAMPLES {
            let other = FilePath::from_text(t);
            assert_eq!(
                text(&ours.join(&other)),
                theirs.join(t).to_str().unwrap(),
                "{:?} below {:?}",
                t,
                s
            );
            assert_eq!(ours.same_as(&other), theirs == Path::new(t), "{:?} and {:?}", s, t);
            let rank = rank_keys(&ours.key(), &other.key());
            assert_eq!(rank == Rank::Before, theirs < Path::new(t), "{:?} < {:?}", s, t);
            assert_eq!(rank == Rank::After, theirs > Path::new(t), "{:?} > {:?}", s, t);
        }
    }
}

#[test]
fn verbatim_paths_are_cleaned() {
    assert_eq!(text(&clean_path(FilePath::from_text("\\\\?\\C:\\a"))), "C:\\a");
    assert_eq!(text(&clean_path(FilePath::from_text("/a\\\\?\\b"))), "/a\\\\?\\b");
    let broken = FilePath::from_bytes(b"/a\xff".to_vec());
    assert_eq!(clean_path(broken).bytes, b"/a\xff".to_vec());
    let verbatim = FilePath::from_bytes(b"\\\\?\\a\xff".to_vec());
    assert_eq!(text(&clean_path(verbatim)), "a\u{fffd}");
}

#[test]
fn typed_directories() {
    let home = FilePath::from_text("/home/me");
    let resolve = |input: &str| text(&resolve_directory_path(input, &home, None));
    assert_eq!(resolve(""), ".");
    assert_eq!(resolve("  \"\" "), ".");
    assert_eq!(resolve("~"), "/home/me");
    assert_eq!(resolve(" ~/docs "), "/home/me/docs");
    assert_eq!(resolve("~\\docs"), "/home/me/docs");
    assert_eq!(resolve("~docs"), "~docs");
    assert_eq!(resolve("'\"/a b/\"'"), "/a b/");
    assert_eq!(resolve("\" /a\""), " /a");
    assert_eq!(resolve("~//etc"), "/etc");
    assert_eq!(resolve("\\\\?\\C:"), "C:");
    let canonical = Some(FilePath::from_text("\\\\?\\D:\\x"));
    assert_eq!(text(&resolve_directory_path("y", &home, canonical)), "D:\\x");
    let ignored = Some(FilePath::from_text("/x"));
    assert_eq!(text(&resolve_directory_path(" ", &home, ignored)), ".");
    assert!(typed_directory("'", &home).is_none());
    assert_eq!(trim(" \ta b\n"), "a b");
    assert_eq!(trim("\u{3000}"), "");
}

#[test]
fn long_paths_are_cut() {
    assert_eq!(truncate_path("/a/b", 4), "/a/b");
    assert_eq!(truncate_path("/a/b/c", 5), "...b/c".split_at(0).1.replace("b/", "/"));
    assert_eq!(truncate_path("äöåäöå", 5), "...öå");
    assert_eq!(truncate_path("abcdef", 3), "...");
    assert_eq!(truncate_path("abcdef", 0), "...");
    assert_eq!(truncate_path("", 0), "");
    let long = "/home/user/documents/projects/archive/2024";
    let cut = truncate_path(long, 36);
    assert_eq!(cut.chars().count(), 36);
    assert!(cut.starts_with("...") && long.ends_with(&cut[3..]));
}

#[test]
fn uris_of_paths() {
    let uri = |s: &str| path_to_file_uri(&FilePath::from_text(s));
    assert_eq!(uri("/a-b_c.d~/E9"), "file:///a-b_c.d~/E9");
    assert_eq!(uri("/a b%ä"), "file:///a%20b%25%C3%A4");
    assert_eq!(uri(""), "file://");
    assert_ne!(uri("/%20"), uri("/ "));
}

#[test]
fn file_managers_are_detected() {
    let detect = detect_linux_file_manager;
    assert_eq!(detect(Some(b"org.kde.Dolphin.desktop\n"), None, None), LinuxFileManager::Dolphin);
    assert_eq!(
        detect(Some(b"org.gnome.Nautilus.desktop"), Some("KDE"), None),
        LinuxFileManager::Nautilus
    );
    assert_eq!(detect(Some(b"nemo.desktop"), None, None), LinuxFileManager::Nemo);
    assert_eq!(detect(Some(b"THUNAR"), None, None), LinuxFileManager::Thunar);
    assert_eq!(detect(Some(b"other"), Some("plasma"), None), LinuxFileManager::Dolphin);
    assert_eq!(detect(None, Some("ubuntu:GNOME"), Some("kde")), LinuxFileManager::Nautilus);
    assert_eq!(detect(None, None, Some("cinnamon")), LinuxFileManager::Nemo);
    assert_eq!(detect(Some(b""), Some("XFCE"), None), LinuxFileManager::Thunar);
    assert_eq!(detect(None, Some(""), Some("kde")), LinuxFileManager::Generic);
    assert_eq!(detect(None, None, None), LinuxFileManager::Generic);
    assert_eq!(handler_manager("gnome"), Some(LinuxFileManager::Nautilus));
    assert_eq!(handler_manager("Dolphin"), None);
    assert_eq!(desktop_manager("kde"), LinuxFileManager::Generic);
}

#[test]
fn file_managers_have_names() {
    let fi = AppLanguage::Finnish;
    let en = AppLanguage::English;
    let linux = |m: LinuxFileManager, l: AppLanguage| {
        os_file_manager_name(OperatingSystem::Linux, m, l)
    };
    assert_eq!(linux(LinuxFileManager::Dolphin, fi), "Dolphin");
    assert_eq!(linux(LinuxFileManager::Nautilus, fi), "Tiedostot (Nautilus)");
    assert_eq!(linux(LinuxFileManager::Nautilus, en), "Files (Nautilus)");
    assert_eq!(linux(LinuxFileManager::Nemo, en), "Nemo");
    assert_eq!(linux(LinuxFileManager::Thunar, en), "Thunar");
    assert_eq!(linux(LinuxFileManager::Generic, fi), "Tiedostonhallinta");
    assert_eq!(linux(LinuxFileManager::Generic, en), "File Manager");
    let other = LinuxFileManager::Nemo;
    assert_eq!(os_file_manager_name(OperatingSystem::MacOs, other, fi), "Finder");
    assert_eq!(os_file_manager_name(OperatingSystem::Windows, other, fi), "Resurssienhallinta");
    assert_eq!(os_file_manager_name(OperatingSystem::Windows, other, en), "File Explorer");
    assert_eq!(os_file_manager_name(OperatingSystem::Other, other, en), "File Manager");
}

#[test]
fn directories_of_the_user() {
    assert_eq!(text(&get_user_home_dir(Some("/h"), Some("/p"))), "/h");
    assert_eq!(text(&get_user_home_dir(None, Some("/p"))), "/p");
    assert_eq!(text(&get_user_home_dir(None, None)), ".");
    let home = FilePath::from_text("/h");
    let shown = |v: Vec<FilePath>| v.iter().map(|p| p.to_text()).collect::<Vec<String>>();
    let linux = OperatingSystem::Linux;
    assert_eq!(
        shown(user_documents_places(linux, Some(b"/docs \n"), None, &home)),
        vec!["/docs", "/h/Documents"]
    );
    assert_eq!(
        shown(user_documents_places(linux, Some(b" \n"), Some("/p"), &home)),
        vec!["/h/Documents"]
    );
    assert_eq!(
        shown(user_documents_places(
            OperatingSystem::Windows,
            Some(b"/x"),
            Some("C:\\Users\\me"),
            &FilePath::from_text("D:\\")
        )),
        vec![
            "C:\\Users\\me\\OneDrive\\Documents",
            "C:\\Users\\me\\Documents",
            "D:\\Documents"
        ]
    );
    let places = |home: &str| {
        let home = FilePath::from_text(home);
        shown(user_downloads_places(OperatingSystem::Windows, Some(b"/dl"), &home))
    };
    assert_eq!(places("C:"), vec!["C:Downloads"]);
    assert_eq!(places("C:/x/"), vec!["C:/x/Downloads"]);
    assert_eq!(places("."), vec![".\\Downloads"]);
    assert_eq!(places(""), vec!["Downloads"]);
    assert_eq!(
        shown(user_documents_places(OperatingSystem::MacOs, Some(b"/x"), Some("/p"), &home)),
        vec!["/h/Documents"]
    );
    assert_eq!(
        shown(user_downloads_places(linux, Some(b"/dl"), &home)),
        vec!["/dl", "/h/Downloads"]
    );
    assert_eq!(
        shown(user_downloads_places(OperatingSystem::Other, Some(b"/dl"), &home)),
        vec!["/h/Downloads"]
    );
    assert!(printed_path(b"\n").is_none());
    assert_eq!(quick_folder("home"), QuickFolder::Home);
    assert_eq!(quick_folder("dl"), QuickFolder::Downloads);
    assert_eq!(quick_folder("docs"), QuickFolder::Documents);
    assert_eq!(quick_folder("?"), QuickFolder::Documents);
}

fn call_text(c: &ProgramCall) -> String {
    let mut s = c.program.clone();
    for a in &c.args {
        s.push(' ');
        s.push_str(std::str::from_utf8(a).unwrap());
    }
    s
}

#[test]
fn files_are_shown_in_file_managers() {
    let file = FilePath::from_text("/a/b c");
    let plan = |os: OperatingSystem, m: LinuxFileManager| {
        reveal_plan(os, m, &file)
            .iter()
            .map(|c| (call_text(c), c.waits))
            .collect::<Vec<(String, bool)>>()
    };
    let bus = (
        "dbus-send --session --dest=org.freedesktop.FileManager1 --type=method_call \
         /org/freedesktop/FileManager1 org.freedesktop.FileManager1.ShowItems \
         array:string:file:///a/b%20c string:"
            .to_string(),
        true,
    );
    let linux = OperatingSystem::Linux;
    assert_eq!(
        plan(linux, LinuxFileManager::Dolphin),
        vec![("dolphin --select /a/b c".to_string(), false), bus.clone()]
    );
    assert_eq!(
        plan(linux, LinuxFileManager::Nautilus),
        vec![("nautilus --select /a/b c".to_string(), false), bus.clone()]
    );
    assert_eq!(
        plan(linux, LinuxFileManager::Nemo),
        vec![("nemo /a/b c".to_string(), false), bus.clone()]
    );
    assert_eq!(plan(linux, LinuxFileManager::Thunar), vec![bus.clone()]);
    let any = LinuxFileManager::Generic;
    assert_eq!(plan(OperatingSystem::MacOs, any), vec![("open -R /a/b c".to_string(), true)]);
    assert_eq!(
        plan(OperatingSystem::Windows, any),
        vec![("explorer /select,/a/b c".to_string(), true)]
    );
    assert!(plan(OperatingSystem::Other, any).is_empty());
    assert_eq!(text(&reveal_fallback(&file)), "/a");
    assert_eq!(text(&reveal_fallback(&FilePath::from_text("/"))), "/");
    assert_eq!(
        reveal_failure_message(OperatingSystem::Windows, "e"),
        "Failed to open in Explorer: e"
    );
    assert_eq!(reveal_failure_message(OperatingSystem::MacOs, "e"), "Failed to open in Finder: e");
    assert_eq!(reveal_failure_message(linux, "e"), "Failed to open folder: e");
}

#[test]
fn clipboards() {
    let programs = |os: OperatingSystem| {
        clipboard_calls(os).iter().map(call_text).collect::<Vec<String>>()
    };
    assert_eq!(
        programs(OperatingSystem::Linux),
        vec!["wl-copy", "xclip -selection clipboard", "xsel --clipboard --input"]
    );
    assert_eq!(programs(OperatingSystem::MacOs), vec!["pbcopy"]);
    assert_eq!(programs(OperatingSystem::Windows), vec!["clip"]);
    assert!(programs(OperatingSystem::Other).is_empty());
}

fn entry_type(is_dir: bool, is_file: bool, link: bool, to_dir: bool, to_file: bool) -> EntryType {
    EntryType {
        is_dir,
        is_file,
        is_symlink: link,
        leads_to_dir: to_dir,
        leads_to_file: to_file,
    }
}

#[test]
fn entries_that_are_walked_to() {
    let mut opts = SearchOptions::default();
    let dir = entry_type(true, false, false, false, false);
    let file = entry_type(false, true, false, false, false);
    let dir_link = entry_type(false, false, true, true, false);
    let file_link = entry_type(false, false, true, false, true);
    let pipe = entry_type(false, false, false, false, false);
    let keeps = |name: &str, t: EntryType, opts: &SearchOptions| {
        keeps_entry(&FilePath::from_text(name), t, opts)
    };
    for name in ["node_modules", "target", "__pycache__", "venv", "build"] {
        assert!(!keeps(name, dir, &opts));
        assert!(!keeps(name, dir_link, &opts));
        assert!(keeps(name, pipe, &opts));
    }
    assert!(keeps("Target", dir, &opts));
    assert!(!keeps(".git", dir, &opts));
    assert!(!keeps(".a.txt", file, &opts));
    assert!(keeps("a.TXT", file, &opts));
    assert!(keeps("a.txt", file_link, &opts));
    assert!(!keeps("a.rs", file, &opts));
    assert!(!keeps("txt", file, &opts));
    opts.search_hidden = true;
    assert!(keeps(".git", dir, &opts));
    assert!(keeps(".a.txt", file, &opts));
    for name in [
        ".venv", ".cargo", ".rustup", ".local", ".cache", ".var", ".mozilla", ".steam", ".wine",
        ".flatpak",
    ] {
        assert!(!keeps(name, dir, &opts), "{}", name);
    }
    opts.search_txt = false;
    assert!(!keeps("a.txt", file, &opts));
    assert_eq!(max_depth(&opts), usize::MAX);
    opts.recursive = false;
    assert_eq!(max_depth(&opts), 1);
}

#[test]
fn kinds_of_documents() {
    let cases = [
        (DocumentKind::Docx, vec!["docx", "docm", "dotx", "dotm"]),
        (DocumentKind::Odt, vec!["odt", "ott", "ods", "odp"]),
        (DocumentKind::FlatOdt, vec!["fodt", "fods"]),
        (DocumentKind::Pdf, vec!["pdf"]),
        (DocumentKind::PlainText, vec!["txt", "text"]),
    ];
    for (kind, exts) in cases {
        for ext in exts {
            assert_eq!(document_kind(ext), Some(kind));
            let mut opts = SearchOptions::default();
            assert!(matches_type(ext, &opts));
            match kind {
                DocumentKind::Docx => opts.search_docx = false,
                DocumentKind::Odt | DocumentKind::FlatOdt => opts.search_odt = false,
                DocumentKind::Pdf => opts.search_pdf = false,
                DocumentKind::PlainText => opts.search_txt = false,
            }
            assert!(!matches_type(ext, &opts));
        }
    }
    for ext in ["", "DOCX", "doc", "md"] {
        assert_eq!(document_kind(ext), None);
    }
    assert_eq!(raw_extension(&FilePath::from_bytes(b"a.\xff".to_vec())), "");
    assert_eq!(raw_extension(&FilePath::from_text("a.TxT")), "TxT");
}

#[test]
fn candidates_by_type_and_size() {
    let mut opts = SearchOptions::default();
    let entry = |path: &str, size: Option<u64>| WalkedEntry {
        path: FilePath::from_text(path),
        entry_type: entry_type(false, true, false, false, false),
        size,
    };
    let found = candidate_of(&entry("\\\\?\\/d/A.PDF", None), &opts).unwrap();
    assert_eq!(text(&found.path), "/d/A.PDF");
    assert_eq!(found.ext, "pdf");
    assert!(candidate_of(&entry("/d/a.rs", None), &opts).is_none());
    opts.max_file_size_mb = Some(10);
    assert!(candidate_of(&entry("/a.txt", Some(10 * 1024 * 1024)), &opts).is_some());
    assert!(candidate_of(&entry("/a.txt", Some(10 * 1024 * 1024 + 1)), &opts).is_none());
    assert!(candidate_of(&entry("/a.txt", None), &opts).is_some());
    opts.max_file_size_mb = Some(u64::MAX);
    assert!(candidate_of(&entry("/a.txt", Some(u64::MAX)), &opts).is_some());
    let directory = WalkedEntry {
        path: FilePath::from_text("/a.txt"),
        entry_type: entry_type(true, false, false, false, false),
        size: None,
    };
    assert!(candidate_of(&directory, &opts).is_none());
}

#[test]
fn uris_give_paths_back() {
    for path in ["", "/", "/a b/%25", "/ä/ö.txt", "relative/ü~", "/a?b#c&d=e"] {
        let uri = path_to_file_uri(&FilePath::from_text(path));
        let encoded = uri.strip_prefix("file://").unwrap().as_bytes();
        let mut bytes = Vec::new();
        let mut i = 0;
        while i < encoded.len() {
            if encoded[i] == b'%' {
                let digits = std::str::from_utf8(&encoded[i + 1..i + 3]).unwrap();
                bytes.push(u8::from_str_radix(digits, 16).unwrap());
                i += 3;
            } else {
                bytes.push(encoded[i]);
                i += 1;
            }
        }
        assert_eq!(String::from_utf8(bytes).unwrap(), path);
    }
}
