//! The desktop that the program runs on: its file manager, directories and clipboard.

use crate::folding;
use crate::language;
use crate::language::AppLanguage;
use crate::locations;
use crate::path;
use crate::path::FilePath;
use crate::text;
use vstd::prelude::*;
use vstd::string::*;
use vstd::utf8::*;

verus! {

/// An operating system.
#[derive(Clone, Copy, Debug, PartialEq, Eq, Structural)]
pub enum OperatingSystem {
    Linux,
    MacOs,
    Windows,
    Other,
}

/// A file manager of Linux desktops.
#[derive(Clone, Copy, Debug, PartialEq, Eq, Structural)]
pub enum LinuxFileManager {
    Dolphin,
    Nautilus,
    Nemo,
    Thunar,
    Generic,
}

/// The file manager that the handler of directories, in lower case, names.
pub open spec fn manager_of_handler(lowered: Seq<char>) -> Option<LinuxFileManager> {
    if text::occurs_in("dolphin"@, lowered) {
        Some(LinuxFileManager::Dolphin)
    } else if text::occurs_in("nautilus"@, lowered) || text::occurs_in("gnome"@, lowered) {
        Some(LinuxFileManager::Nautilus)
    } else if text::occurs_in("nemo"@, lowered) {
        Some(LinuxFileManager::Nemo)
    } else if text::occurs_in("thunar"@, lowered) {
        Some(LinuxFileManager::Thunar)
    } else {
        None
    }
}

/// The file manager of a desktop, given its name in upper case.
pub open spec fn manager_of_desktop(upper: Seq<char>) -> LinuxFileManager {
    if text::occurs_in("KDE"@, upper) || text::occurs_in("PLASMA"@, upper) {
        LinuxFileManager::Dolphin
    } else if text::occurs_in("GNOME"@, upper) {
        LinuxFileManager::Nautilus
    } else if text::occurs_in("CINNAMON"@, upper) {
        LinuxFileManager::Nemo
    } else if text::occurs_in("XFCE"@, upper) {
        LinuxFileManager::Thunar
    } else {
        LinuxFileManager::Generic
    }
}

/// The first of two settings that is there, or the empty text.
pub open spec fn desktop_setting(current: Option<Seq<char>>, session: Option<Seq<char>>) -> Seq<
    char,
> {
    match (current, session) {
        (Some(s), _) => s,
        (None, Some(s)) => s,
        (None, None) => Seq::empty(),
    }
}

/// The file manager, given what `xdg-mime` printed as the handler of directories, where it
/// ran, and the settings that name the desktop.
pub open spec fn detected_manager(
    handler: Option<Seq<u8>>,
    current: Option<Seq<char>>,
    session: Option<Seq<char>>,
) -> LinuxFileManager {
    let named = match handler {
        Some(printed) => manager_of_handler(folding::lowercase(text::text_of_bytes(printed))),
        None => None,
    };
    match named {
        Some(manager) => manager,
        None => manager_of_desktop(folding::uppercase(desktop_setting(current, session))),
    }
}

/// The file manager that the handler of directories, in lower case, names.
pub fn handler_manager(lowered: &str) -> (r: Option<LinuxFileManager>)
    ensures
        r == manager_of_handler(lowered@),
{
    if text::contains_text(lowered, "dolphin") {
        Some(LinuxFileManager::Dolphin)
    } else if text::contains_text(lowered, "nautilus") || text::contains_text(lowered, "gnome") {
        Some(LinuxFileManager::Nautilus)
    } else if text::contains_text(lowered, "nemo") {
        Some(LinuxFileManager::Nemo)
    } else if text::contains_text(lowered, "thunar") {
        Some(LinuxFileManager::Thunar)
    } else {
        None
    }
}

/// The file manager of a desktop, given its name in upper case.
pub fn desktop_manager(upper: &str) -> (r: LinuxFileManager)
    ensures
        r == manager_of_desktop(upper@),
{
    if text::contains_text(upper, "KDE") || text::contains_text(upper, "PLASMA") {
        LinuxFileManager::Dolphin
    } else if text::contains_text(upper, "GNOME") {
        LinuxFileManager::Nautilus
    } else if text::contains_text(upper, "CINNAMON") {
        LinuxFileManager::Nemo
    } else if text::contains_text(upper, "XFCE") {
        LinuxFileManager::Thunar
    } else {
        LinuxFileManager::Generic
    }
}

/// Bytes that are there or not.
pub open spec fn bytes_option(b: Option<&[u8]>) -> Option<Seq<u8>> {
    match b {
        Some(b) => Some(b@),
        None => None,
    }
}

/// The file manager, given what `xdg-mime` printed as the handler of directories, where it
/// ran, and the values of `XDG_CURRENT_DESKTOP` and `DESKTOP_SESSION`.
pub fn detect_linux_file_manager(
    handler: Option<&[u8]>,
    current: Option<&str>,
    session: Option<&str>,
) -> (r: LinuxFileManager)
    ensures
        r == detected_manager(
            bytes_option(handler),
            language::text_option(current),
            language::text_option(session),
        ),
{
    if let Some(printed) = handler {
        let mut shown = String::new();
        text::push_bytes(&mut shown, printed);
        assert(shown@ =~= text::text_of_bytes(printed@));
        if let Some(manager) = handler_manager(folding::to_lower(shown.as_str()).as_str()) {
            return manager;
        }
    }
    let setting = match (current, session) {
        (Some(s), _) => s,
        (None, Some(s)) => s,
        (None, None) => "",
    };
    proof {
        reveal_strlit("");
        assert(""@ =~= Seq::<char>::empty());
    }
    desktop_manager(folding::to_upper(setting).as_str())
}

/// What the file manager is called.
pub open spec fn manager_name(
    os: OperatingSystem,
    manager: LinuxFileManager,
    lang: AppLanguage,
) -> Seq<char> {
    match os {
        OperatingSystem::MacOs => "Finder"@,
        OperatingSystem::Windows => language::localized_text(
            lang,
            "Resurssienhallinta"@,
            "File Explorer"@,
        ),
        OperatingSystem::Linux => match manager {
            LinuxFileManager::Dolphin => "Dolphin"@,
            LinuxFileManager::Nautilus => language::localized_text(
                lang,
                "Tiedostot (Nautilus)"@,
                "Files (Nautilus)"@,
            ),
            LinuxFileManager::Nemo => "Nemo"@,
            LinuxFileManager::Thunar => "Thunar"@,
            LinuxFileManager::Generic => language::localized_text(
                lang,
                "Tiedostonhallinta"@,
                "File Manager"@,
            ),
        },
        OperatingSystem::Other => language::localized_text(
            lang,
            "Tiedostonhallinta"@,
            "File Manager"@,
        ),
    }
}

/// What the file manager is called. On systems other than Linux, `manager` counts for
/// nothing.
pub fn os_file_manager_name(
    os: OperatingSystem,
    manager: LinuxFileManager,
    lang: AppLanguage,
) -> (r: &'static str)
    ensures
        r@ == manager_name(os, manager, lang),
{
    match os {
        OperatingSystem::MacOs => "Finder",
        OperatingSystem::Windows => language::localized(
            lang,
            "Resurssienhallinta",
            "File Explorer",
        ),
        OperatingSystem::Linux => match manager {
            LinuxFileManager::Dolphin => "Dolphin",
            LinuxFileManager::Nautilus => language::localized(
                lang,
                "Tiedostot (Nautilus)",
                "Files (Nautilus)",
            ),
            LinuxFileManager::Nemo => "Nemo",
            LinuxFileManager::Thunar => "Thunar",
            LinuxFileManager::Generic => language::localized(
                lang,
                "Tiedostonhallinta",
                "File Manager",
            ),
        },
        OperatingSystem::Other => language::localized(lang, "Tiedostonhallinta", "File Manager"),
    }
}

/// The home directory, given the values of `HOME` and `USERPROFILE`.
pub fn get_user_home_dir(home: Option<&str>, user_profile: Option<&str>) -> (r: FilePath)
    ensures
        r@ == match (home, user_profile) {
            (Some(s), _) => s.spec_bytes(),
            (None, Some(s)) => s.spec_bytes(),
            (None, None) => ".".spec_bytes(),
        },
{
    match (home, user_profile) {
        (Some(s), _) => FilePath::from_text(s),
        (None, Some(s)) => FilePath::from_text(s),
        (None, None) => FilePath::from_text("."),
    }
}

/// The path that a program printed, unless it printed nothing.
pub open spec fn printed(output: Seq<u8>) -> Option<Seq<u8>> {
    let t = locations::trimmed(text::text_of_bytes(output), false);
    if t.len() == 0 {
        None
    } else {
        Some(encode_utf8(t))
    }
}

/// The path that a program printed, unless it printed nothing.
pub fn printed_path(output: &[u8]) -> (r: Option<FilePath>)
    ensures
        match r {
            Some(p) => printed(output@) == Some(p@),
            None => printed(output@) is None,
        },
{
    let mut shown = String::new();
    text::push_bytes(&mut shown, output);
    assert(shown@ =~= text::text_of_bytes(output@));
    let t = locations::trim(shown.as_str());
    if t.as_str().is_empty() {
        None
    } else {
        Some(FilePath::from_text(t.as_str()))
    }
}

/// The views of paths.
pub open spec fn paths(v: Seq<FilePath>) -> Seq<Seq<u8>> {
    v.map_values(|p: FilePath| p@)
}

/// The path that a program printed, as a list.
pub open spec fn printed_list(output: Option<Seq<u8>>) -> Seq<Seq<u8>> {
    match output {
        Some(b) => match printed(b) {
            Some(p) => seq![p],
            None => Seq::empty(),
        },
        None => Seq::empty(),
    }
}

/// A directory on Windows is a drive alone, which stands before a name without a separator.
pub open spec fn is_drive(dir: Seq<u8>) -> bool {
    dir.len() == 2 && (0x41 <= dir[0] <= 0x5a || 0x61 <= dir[0] <= 0x7a) && dir[1] == 0x3a
}

/// A name in a directory, with the separator of the system.
pub open spec fn below(os: OperatingSystem, dir: Seq<u8>, name: Seq<u8>) -> Seq<u8> {
    match os {
        OperatingSystem::Windows => if dir.len() > 0 && dir.last() != 0x5c && dir.last() != 0x2f
            && !is_drive(dir) {
            dir.push(0x5c) + name
        } else {
            dir + name
        },
        _ => path::joined(dir, name),
    }
}

/// A name in a directory, with the separator of the system.
fn place_below(os: OperatingSystem, dir: &FilePath, name: &str) -> (r: FilePath)
    ensures
        r@ == below(os, dir@, name.spec_bytes()),
{
    match os {
        OperatingSystem::Windows => {
            let mut place = dir.duplicate();
            let len: usize = place.bytes.len();
            let drive = len == 2 && ((0x41 <= place.bytes[0] && place.bytes[0] <= 0x5a) || (0x61
                <= place.bytes[0] && place.bytes[0] <= 0x7a)) && place.bytes[1] == 0x3a;
            if len > 0 && place.bytes[len - 1] != 0x5c && place.bytes[len - 1] != 0x2f && !drive {
                place.bytes.push(0x5c);
            }
            let mut rest = FilePath::from_text(name);
            place.bytes.append(&mut rest.bytes);
            assert(place@ =~= below(os, dir@, name.spec_bytes()));
            place
        },
        _ => dir.join(&FilePath::from_text(name)),
    }
}

/// Where documents of the user may be, the best place first.
pub open spec fn documents_places(
    os: OperatingSystem,
    xdg: Option<Seq<u8>>,
    user_profile: Option<Seq<char>>,
    home: Seq<u8>,
) -> Seq<Seq<u8>> {
    let first = match os {
        OperatingSystem::Linux => printed_list(xdg),
        OperatingSystem::Windows => match user_profile {
            Some(profile) => seq![
                below(
                    os,
                    below(os, encode_utf8(profile), "OneDrive".spec_bytes()),
                    "Documents".spec_bytes(),
                ),
                below(os, encode_utf8(profile), "Documents".spec_bytes()),
            ],
            None => Seq::empty(),
        },
        _ => Seq::empty(),
    };
    first.push(below(os, home, "Documents".spec_bytes()))
}

/// Where downloads of the user may be, the best place first.
pub open spec fn downloads_places(
    os: OperatingSystem,
    xdg: Option<Seq<u8>>,
    home: Seq<u8>,
) -> Seq<Seq<u8>> {
    let first = match os {
        OperatingSystem::Linux => printed_list(xdg),
        _ => Seq::empty(),
    };
    first.push(below(os, home, "Downloads".spec_bytes()))
}

fn push_printed(places: &mut Vec<FilePath>, output: Option<&[u8]>)
    requires
        old(places)@.len() == 0,
    ensures
        paths(final(places)@) == printed_list(bytes_option(output)),
{
    if let Some(b) = output {
        if let Some(p) = printed_path(b) {
            places.push(p);
        }
    }
    assert(paths(places@) =~= printed_list(bytes_option(output)));
}

/// Where documents of the user may be. The first of these places that exists is the one, and
/// the home directory where none does. `xdg` is what `xdg-user-dir DOCUMENTS` printed, where
/// it succeeded; `user_profile` is the value of `USERPROFILE`.
pub fn user_documents_places(
    os: OperatingSystem,
    xdg: Option<&[u8]>,
    user_profile: Option<&str>,
    home: &FilePath,
) -> (r: Vec<FilePath>)
    ensures
        paths(r@) == documents_places(
            os,
            bytes_option(xdg),
            language::text_option(user_profile),
            home@,
        ),
{
    let mut places: Vec<FilePath> = Vec::new();
    match os {
        OperatingSystem::Linux => {
            push_printed(&mut places, xdg);
        },
        OperatingSystem::Windows => {
            if let Some(profile) = user_profile {
                let profile = FilePath::from_text(profile);
                let one_drive = place_below(os, &profile, "OneDrive");
                places.push(place_below(os, &one_drive, "Documents"));
                places.push(place_below(os, &profile, "Documents"));
            }
        },
        _ => {},
    }
    let ghost first = paths(places@);
    places.push(place_below(os, home, "Documents"));
    assert(paths(places@) =~= first.push(below(os, home@, "Documents".spec_bytes())));
    assert(paths(places@) =~= documents_places(
        os,
        bytes_option(xdg),
        language::text_option(user_profile),
        home@,
    ));
    places
}

/// Where downloads of the user may be. The first of these places that exists is the one, and
/// the home directory where none does. `xdg` is what `xdg-user-dir DOWNLOAD` printed, where it
/// succeeded.
pub fn user_downloads_places(os: OperatingSystem, xdg: Option<&[u8]>, home: &FilePath) -> (r: Vec<
    FilePath,
>)
    ensures
        paths(r@) == downloads_places(os, bytes_option(xdg), home@),
{
    let mut places: Vec<FilePath> = Vec::new();
    match os {
        OperatingSystem::Linux => {
            push_printed(&mut places, xdg);
        },
        _ => {},
    }
    let ghost first = paths(places@);
    places.push(place_below(os, home, "Downloads"));
    assert(paths(places@) =~= first.push(below(os, home@, "Downloads".spec_bytes())));
    assert(paths(places@) =~= downloads_places(os, bytes_option(xdg), home@));
    places
}

/// A directory of the user that can be chosen at once.
#[derive(Clone, Copy, Debug, PartialEq, Eq, Structural)]
pub enum QuickFolder {
    Home,
    Documents,
    Downloads,
}

/// The directory that a button chooses, by the button's name.
pub fn quick_folder(target: &str) -> (r: QuickFolder)
    ensures
        r == if target@ == "home"@ {
            QuickFolder::Home
        } else if target@ == "dl"@ {
            QuickFolder::Downloads
        } else {
            QuickFolder::Documents
        },
{
    if text::same_text(target, "home") {
        QuickFolder::Home
    } else if text::same_text(target, "dl") {
        QuickFolder::Downloads
    } else {
        QuickFolder::Documents
    }
}

/// A program to run, with its arguments as bytes.
#[derive(Debug)]
pub struct ProgramCall {
    pub program: String,
    pub args: Vec<Vec<u8>>,
    /// The call succeeds once the program ends well. Otherwise it succeeds once the program
    /// started.
    pub waits: bool,
}

/// The mathematical view of a `ProgramCall`.
pub struct CallView {
    pub program: Seq<char>,
    pub args: Seq<Seq<u8>>,
    pub waits: bool,
}

impl View for ProgramCall {
    type V = CallView;

    open spec fn view(&self) -> CallView {
        CallView {
            program: self.program@,
            args: self.args@.map_values(|a: Vec<u8>| a@),
            waits: self.waits,
        }
    }
}

/// The views of calls.
pub open spec fn calls(v: Seq<ProgramCall>) -> Seq<CallView> {
    v.map_values(|c: ProgramCall| c@)
}

fn one_call(program: &str, args: Vec<Vec<u8>>, waits: bool) -> (r: ProgramCall)
    ensures
        r@ == (CallView {
            program: program@,
            args: args@.map_values(|a: Vec<u8>| a@),
            waits,
        }),
{
    ProgramCall { program: program.to_owned(), args, waits }
}

fn arg(s: &str) -> (r: Vec<u8>)
    ensures
        r@ == s.spec_bytes(),
{
    FilePath::from_text(s).bytes
}

fn one_arg(a: Vec<u8>) -> (r: Vec<Vec<u8>>)
    ensures
        r@.map_values(|a: Vec<u8>| a@) == seq![a@],
{
    let mut r: Vec<Vec<u8>> = Vec::new();
    r.push(a);
    assert(r@.map_values(|a: Vec<u8>| a@) =~= seq![a@]);
    r
}

fn two_args(a: Vec<u8>, b: Vec<u8>) -> (r: Vec<Vec<u8>>)
    ensures
        r@.map_values(|a: Vec<u8>| a@) == seq![a@, b@],
{
    let mut r: Vec<Vec<u8>> = Vec::new();
    r.push(a);
    r.push(b);
    assert(r@.map_values(|a: Vec<u8>| a@) =~= seq![a@, b@]);
    r
}

/// The call by which a file manager itself shows a file, where it can.
pub open spec fn manager_call(manager: LinuxFileManager, file: Seq<u8>) -> Seq<CallView> {
    match manager {
        LinuxFileManager::Dolphin => seq![
            CallView {
                program: "dolphin"@,
                args: seq!["--select".spec_bytes(), file],
                waits: false,
            },
        ],
        LinuxFileManager::Nautilus => seq![
            CallView {
                program: "nautilus"@,
                args: seq!["--select".spec_bytes(), file],
                waits: false,
            },
        ],
        LinuxFileManager::Nemo => seq![
            CallView { program: "nemo"@, args: seq![file], waits: false },
        ],
        _ => Seq::empty(),
    }
}

/// The call by which any file manager on the session bus shows a file.
pub open spec fn bus_call(file: Seq<u8>) -> CallView {
    CallView {
        program: "dbus-send"@,
        args: seq![
            "--session".spec_bytes(),
            "--dest=org.freedesktop.FileManager1".spec_bytes(),
            "--type=method_call".spec_bytes(),
            "/org/freedesktop/FileManager1".spec_bytes(),
            "org.freedesktop.FileManager1.ShowItems".spec_bytes(),
            encode_utf8("array:string:"@ + locations::file_uri(file)),
            "string:".spec_bytes(),
        ],
        waits: true,
    }
}

/// The calls by which a file is shown in the file manager, tried one after the other until
/// one succeeds.
pub open spec fn reveal_calls(
    os: OperatingSystem,
    manager: LinuxFileManager,
    file: Seq<u8>,
) -> Seq<CallView> {
    match os {
        OperatingSystem::Linux => manager_call(manager, file).push(bus_call(file)),
        OperatingSystem::MacOs => seq![
            CallView { program: "open"@, args: seq!["-R".spec_bytes(), file], waits: true },
        ],
        OperatingSystem::Windows => seq![
            CallView {
                program: "explorer"@,
                args: seq![encode_utf8("/select,"@ + path::path_text(file))],
                waits: true,
            },
        ],
        OperatingSystem::Other => Seq::empty(),
    }
}

/// The directory that is opened where no call succeeds.
pub open spec fn reveal_directory(file: Seq<u8>) -> Seq<u8> {
    match path::parent_of(file) {
        Some(dir) => dir,
        None => file,
    }
}

/// What is said where the directory cannot be opened either.
pub open spec fn reveal_failure(os: OperatingSystem) -> Seq<char> {
    match os {
        OperatingSystem::Windows => "Failed to open in Explorer: "@,
        OperatingSystem::MacOs => "Failed to open in Finder: "@,
        _ => "Failed to open folder: "@,
    }
}

fn call_of_bus(file: &FilePath) -> (r: ProgramCall)
    ensures
        r@ == bus_call(file@),
{
    let mut item = "array:string:".to_owned();
    item.push_str(locations::path_to_file_uri(file).as_str());
    let mut args: Vec<Vec<u8>> = Vec::new();
    args.push(arg("--session"));
    args.push(arg("--dest=org.freedesktop.FileManager1"));
    args.push(arg("--type=method_call"));
    args.push(arg("/org/freedesktop/FileManager1"));
    args.push(arg("org.freedesktop.FileManager1.ShowItems"));
    args.push(arg(item.as_str()));
    args.push(arg("string:"));
    assert(args@.map_values(|a: Vec<u8>| a@) =~= bus_call(file@).args);
    one_call("dbus-send", args, true)
}

/// The calls by which a file is shown in the file manager. On Linux, `file` is the canonical
/// path.
pub fn reveal_plan(os: OperatingSystem, manager: LinuxFileManager, file: &FilePath) -> (r: Vec<
    ProgramCall,
>)
    ensures
        calls(r@) == reveal_calls(os, manager, file@),
{
    let mut plan: Vec<ProgramCall> = Vec::new();
    match os {
        OperatingSystem::Linux => {
            match manager {
                LinuxFileManager::Dolphin => {
                    let args = two_args(arg("--select"), file.duplicate().bytes);
                    plan.push(one_call("dolphin", args, false));
                },
                LinuxFileManager::Nautilus => {
                    let args = two_args(arg("--select"), file.duplicate().bytes);
                    plan.push(one_call("nautilus", args, false));
                },
                LinuxFileManager::Nemo => {
                    plan.push(one_call("nemo", one_arg(file.duplicate().bytes), false));
                },
                _ => {},
            }
            let ghost first = calls(plan@);
            assert(first =~= manager_call(manager, file@));
            plan.push(call_of_bus(file));
            assert(calls(plan@) =~= first.push(bus_call(file@)));
        },
        OperatingSystem::MacOs => {
            plan.push(one_call("open", two_args(arg("-R"), file.duplicate().bytes), true));
        },
        OperatingSystem::Windows => {
            let mut selected = "/select,".to_owned();
            selected.push_str(file.to_text().as_str());
            plan.push(one_call("explorer", one_arg(arg(selected.as_str())), true));
        },
        OperatingSystem::Other => {},
    }
    assert(calls(plan@) =~= reveal_calls(os, manager, file@));
    plan
}

/// The directory that is opened where no call succeeds.
pub fn reveal_fallback(file: &FilePath) -> (r: FilePath)
    ensures
        r@ == reveal_directory(file@),
{
    match file.parent() {
        Some(dir) => dir,
        None => file.duplicate(),
    }
}

/// What is said where the directory cannot be opened either.
pub fn reveal_failure_message(os: OperatingSystem, error: &str) -> (r: String)
    ensures
        r@ == reveal_failure(os) + error@,
{
    let mut r = match os {
        OperatingSystem::Windows => "Failed to open in Explorer: ".to_owned(),
        OperatingSystem::MacOs => "Failed to open in Finder: ".to_owned(),
        _ => "Failed to open folder: ".to_owned(),
    };
    r.push_str(error);
    r
}

/// The calls by which a text is put on the clipboard, by its standard input. The first program
/// that starts is the one.
pub open spec fn copy_calls(os: OperatingSystem) -> Seq<CallView> {
    match os {
        OperatingSystem::Linux => seq![
            CallView { program: "wl-copy"@, args: Seq::empty(), waits: true },
            CallView {
                program: "xclip"@,
                args: seq!["-selection".spec_bytes(), "clipboard".spec_bytes()],
                waits: true,
            },
            CallView {
                program: "xsel"@,
                args: seq!["--clipboard".spec_bytes(), "--input".spec_bytes()],
                waits: true,
            },
        ],
        OperatingSystem::MacOs => seq![
            CallView { program: "pbcopy"@, args: Seq::empty(), waits: true },
        ],
        OperatingSystem::Windows => seq![
            CallView { program: "clip"@, args: Seq::empty(), waits: true },
        ],
        OperatingSystem::Other => Seq::empty(),
    }
}

fn no_args() -> (r: Vec<Vec<u8>>)
    ensures
        r@.map_values(|a: Vec<u8>| a@) == Seq::<Seq<u8>>::empty(),
{
    let r: Vec<Vec<u8>> = Vec::new();
    assert(r@.map_values(|a: Vec<u8>| a@) =~= Seq::<Seq<u8>>::empty());
    r
}

/// The calls by which a text is put on the clipboard.
pub fn clipboard_calls(os: OperatingSystem) -> (r: Vec<ProgramCall>)
    ensures
        calls(r@) == copy_calls(os),
{
    let mut plan: Vec<ProgramCall> = Vec::new();
    match os {
        OperatingSystem::Linux => {
            plan.push(one_call("wl-copy", no_args(), true));
            plan.push(one_call("xclip", two_args(arg("-selection"), arg("clipboard")), true));
            plan.push(one_call("xsel", two_args(arg("--clipboard"), arg("--input")), true));
        },
        OperatingSystem::MacOs => {
            plan.push(one_call("pbcopy", no_args(), true));
        },
        OperatingSystem::Windows => {
            plan.push(one_call("clip", no_args(), true));
        },
        OperatingSystem::Other => {},
    }
    assert(calls(plan@) =~= copy_calls(os));
    plan
}

/// A handler of directories names its file manager, whatever stands around the name. Where it
/// holds several of the names, the first of Dolphin, Nautilus, Nemo and Thunar counts.
pub proof fn handlers_name_managers(before: Seq<char>, after: Seq<char>, lowered: Seq<char>)
    ensures
        manager_of_handler(before + "dolphin"@ + after) == Some(LinuxFileManager::Dolphin),
        manager_of_handler(lowered) == Some(LinuxFileManager::Dolphin) <==> text::occurs_in(
            "dolphin"@,
            lowered,
        ),
        manager_of_handler(lowered) == Some(LinuxFileManager::Nautilus) <==> !text::occurs_in(
            "dolphin"@,
            lowered,
        ) && (text::occurs_in("nautilus"@, lowered) || text::occurs_in("gnome"@, lowered)),
        manager_of_handler(lowered) == Some(LinuxFileManager::Nemo) <==> !text::occurs_in(
            "dolphin"@,
            lowered,
        ) && !text::occurs_in("nautilus"@, lowered) && !text::occurs_in("gnome"@, lowered)
            && text::occurs_in("nemo"@, lowered),
        manager_of_handler(lowered) == Some(LinuxFileManager::Thunar) <==> !text::occurs_in(
            "dolphin"@,
            lowered,
        ) && !text::occurs_in("nautilus"@, lowered) && !text::occurs_in("gnome"@, lowered)
            && !text::occurs_in("nemo"@, lowered) && text::occurs_in("thunar"@, lowered),
        manager_of_handler(lowered) != Some(LinuxFileManager::Generic),
{
    text::occurring_is_between("dolphin"@, lowered, before, after);
}

/// A desktop has its file manager: KDE and Plasma have Dolphin, GNOME has Nautilus, Cinnamon
/// has Nemo and Xfce has Thunar. Others have one of which nothing is known.
pub proof fn desktops_have_managers(before: Seq<char>, after: Seq<char>, upper: Seq<char>)
    ensures
        manager_of_desktop(before + "KDE"@ + after) == LinuxFileManager::Dolphin,
        manager_of_desktop(upper) == LinuxFileManager::Dolphin <==> text::occurs_in("KDE"@, upper)
            || text::occurs_in("PLASMA"@, upper),
        manager_of_desktop(upper) == LinuxFileManager::Nautilus <==> !text::occurs_in("KDE"@, upper)
            && !text::occurs_in("PLASMA"@, upper) && text::occurs_in("GNOME"@, upper),
        manager_of_desktop(upper) == LinuxFileManager::Nemo <==> !text::occurs_in("KDE"@, upper)
            && !text::occurs_in("PLASMA"@, upper) && !text::occurs_in("GNOME"@, upper)
            && text::occurs_in("CINNAMON"@, upper),
        manager_of_desktop(upper) == LinuxFileManager::Thunar <==> !text::occurs_in("KDE"@, upper)
            && !text::occurs_in("PLASMA"@, upper) && !text::occurs_in("GNOME"@, upper)
            && !text::occurs_in("CINNAMON"@, upper) && text::occurs_in("XFCE"@, upper),
{
    text::occurring_is_between("KDE"@, upper, before, after);
}

/// The handler of directories comes before the desktop, and the current desktop before the
/// session.
pub proof fn handler_comes_before_desktop(
    t: Seq<char>,
    current: Option<Seq<char>>,
    session: Option<Seq<char>>,
    s: Seq<char>,
    manager: LinuxFileManager,
)
    ensures
        manager_of_handler(folding::lowercase(t)) == Some(manager) ==> detected_manager(
            Some(encode_utf8(t)),
            current,
            session,
        ) == manager,
        manager_of_handler(folding::lowercase(t)) is None ==> detected_manager(
            Some(encode_utf8(t)),
            current,
            session,
        ) == detected_manager(None, current, session),
        detected_manager(None, Some(s), session) == manager_of_desktop(folding::uppercase(s)),
        detected_manager(None, None, Some(s)) == manager_of_desktop(folding::uppercase(s)),
{
    text::lemma_text_of_encoded(t);
}

/// On Linux a file is shown by the desktop's own file manager where that can, and else by the
/// session bus, which is asked last and gets the URI of the file. The others are asked with
/// the path of the file.
pub proof fn files_are_shown_by_their_manager(manager: LinuxFileManager, file: Seq<u8>)
    ensures
        ({
            let plan = reveal_calls(OperatingSystem::Linux, manager, file);
            &&& plan.last().program == "dbus-send"@
            &&& plan.last().waits
            &&& plan.last().args.len() == 7
            &&& plan.last().args[5] == encode_utf8("array:string:"@ + locations::file_uri(file))
            &&& plan.len() == if manager == LinuxFileManager::Dolphin || manager
                == LinuxFileManager::Nautilus || manager == LinuxFileManager::Nemo {
                2int
            } else {
                1
            }
            &&& plan.len() == 2 ==> plan[0].args.last() == file && !plan[0].waits
            &&& manager == LinuxFileManager::Dolphin ==> plan[0].program == "dolphin"@
                && plan[0].args[0] == "--select".spec_bytes()
            &&& manager == LinuxFileManager::Nautilus ==> plan[0].program == "nautilus"@
                && plan[0].args[0] == "--select".spec_bytes()
            &&& manager == LinuxFileManager::Nemo ==> plan[0].program == "nemo"@
                && plan[0].args.len() == 1
        }),
        reveal_calls(OperatingSystem::MacOs, manager, file).len() == 1,
        reveal_calls(OperatingSystem::MacOs, manager, file)[0].args.last() == file,
        reveal_calls(OperatingSystem::MacOs, manager, file)[0].program == "open"@,
        reveal_calls(OperatingSystem::Windows, manager, file).len() == 1,
        reveal_calls(OperatingSystem::Windows, manager, file)[0].program == "explorer"@,
        reveal_calls(OperatingSystem::Windows, manager, file)[0].args == seq![
            encode_utf8("/select,"@ + path::path_text(file)),
        ],
        reveal_calls(OperatingSystem::Other, manager, file).len() == 0,
{
}

/// Where no program shows a file, its directory is opened: that of a file in a directory is
/// that directory.
pub proof fn directory_of_a_file_is_opened(dir: Seq<u8>, name: Seq<u8>)
    requires
        name.len() > 0,
        !name.contains(0x2f),
        name != seq![0x2eu8],
        name != seq![0x2eu8, 0x2eu8],
    ensures
        path::path_key(reveal_directory(path::joined(dir, name))) == path::path_key(dir),
{
    path::joining_adds_a_name(dir, name);
}

/// The path that a program prints counts without the white space around it, and none counts
/// where it prints nothing else.
pub proof fn printed_paths_are_trimmed(left: Seq<char>, t: Seq<char>, right: Seq<char>)
    requires
        text::is_blank(left),
        text::is_blank(right),
        t.len() > 0 ==> !text::is_white_space(t[0]) && !text::is_white_space(t.last()),
    ensures
        printed(encode_utf8(left + t + right)) == if t.len() > 0 {
            Some(encode_utf8(t))
        } else {
            None
        },
{
    text::lemma_text_of_encoded(left + t + right);
    locations::trimming_takes_both_ends(left, t, right, false);
}

/// The places for documents and downloads: on Linux what the desktop names comes first, and
/// below the home directory there is always one, which comes last.
pub proof fn places_end_below_home(
    xdg: Seq<u8>,
    profile: Option<Seq<char>>,
    home: Seq<u8>,
    p: Seq<u8>,
)
    requires
        printed(xdg) == Some(p),
    ensures
        documents_places(OperatingSystem::Linux, Some(xdg), profile, home) == seq![
            p,
            path::joined(home, "Documents".spec_bytes()),
        ],
        downloads_places(OperatingSystem::Linux, Some(xdg), home) == seq![
            p,
            path::joined(home, "Downloads".spec_bytes()),
        ],
        documents_places(OperatingSystem::Linux, None, profile, home) == seq![
            path::joined(home, "Documents".spec_bytes()),
        ],
        downloads_places(OperatingSystem::Linux, None, home) == seq![
            path::joined(home, "Downloads".spec_bytes()),
        ],
        documents_places(OperatingSystem::MacOs, Some(xdg), profile, home) == seq![
            path::joined(home, "Documents".spec_bytes()),
        ],
        downloads_places(OperatingSystem::MacOs, Some(xdg), home) == seq![
            path::joined(home, "Downloads".spec_bytes()),
        ],
{
    assert(documents_places(OperatingSystem::Linux, Some(xdg), profile, home) =~= seq![
        p,
        path::joined(home, "Documents".spec_bytes()),
    ]);
    assert(downloads_places(OperatingSystem::Linux, Some(xdg), home) =~= seq![
        p,
        path::joined(home, "Downloads".spec_bytes()),
    ]);
    assert(documents_places(OperatingSystem::Linux, None, profile, home) =~= seq![
        path::joined(home, "Documents".spec_bytes()),
    ]);
    assert(downloads_places(OperatingSystem::Linux, None, home) =~= seq![
        path::joined(home, "Downloads".spec_bytes()),
    ]);
    assert(documents_places(OperatingSystem::MacOs, Some(xdg), profile, home) =~= seq![
        path::joined(home, "Documents".spec_bytes()),
    ]);
    assert(downloads_places(OperatingSystem::MacOs, Some(xdg), home) =~= seq![
        path::joined(home, "Downloads".spec_bytes()),
    ]);
}

/// On Windows a name stands behind its directory and a backslash, unless the directory ends
/// with a separator or is a drive alone.
pub proof fn backslashes_part_windows_paths(dir: Seq<u8>, name: Seq<u8>)
    requires
        dir.len() > 2,
    ensures
        dir.last() != 92 && dir.last() != 47 ==> below(OperatingSystem::Windows, dir, name) == dir
            + seq![92u8] + name,
        dir.last() == 92 || dir.last() == 47 ==> below(OperatingSystem::Windows, dir, name) == dir
            + name,
{
    assert(dir.push(92) =~= dir + seq![92u8]);
}

/// What file managers are called: by their own names where they have one, in every language.
pub proof fn managers_have_names(manager: LinuxFileManager, lang: AppLanguage)
    ensures
        manager_name(OperatingSystem::MacOs, manager, lang) == "Finder"@,
        manager_name(OperatingSystem::Windows, manager, lang) == language::localized_text(
            lang,
            "Resurssienhallinta"@,
            "File Explorer"@,
        ),
        manager == LinuxFileManager::Dolphin ==> manager_name(OperatingSystem::Linux, manager, lang)
            == "Dolphin"@,
        manager == LinuxFileManager::Nautilus ==> manager_name(OperatingSystem::Linux, manager, lang)
            == language::localized_text(lang, "Tiedostot (Nautilus)"@, "Files (Nautilus)"@),
        manager == LinuxFileManager::Nemo ==> manager_name(OperatingSystem::Linux, manager, lang)
            == "Nemo"@,
        manager == LinuxFileManager::Thunar ==> manager_name(OperatingSystem::Linux, manager, lang)
            == "Thunar"@,
        manager == LinuxFileManager::Generic ==> manager_name(OperatingSystem::Linux, manager, lang)
            == language::localized_text(lang, "Tiedostonhallinta"@, "File Manager"@),
        manager_name(OperatingSystem::Other, manager, lang) == language::localized_text(
            lang,
            "Tiedostonhallinta"@,
            "File Manager"@,
        ),
{
}

/// How the session bus is asked to show a file: by a method of the file manager's interface,
/// with the URI of the file and an empty startup identifier.
pub proof fn session_bus_is_asked_by_uri(file: Seq<u8>)
    ensures
        bus_call(file).args =~= seq![
            "--session".spec_bytes(),
            "--dest=org.freedesktop.FileManager1".spec_bytes(),
            "--type=method_call".spec_bytes(),
            "/org/freedesktop/FileManager1".spec_bytes(),
            "org.freedesktop.FileManager1.ShowItems".spec_bytes(),
            encode_utf8("array:string:"@ + locations::file_uri(file)),
            "string:".spec_bytes(),
        ],
{
}

/// What is said where a directory cannot be opened, by system, and which programs put a text
/// on the clipboard: on Linux that of Wayland first, and then those of X11.
pub proof fn systems_have_their_programs(os: OperatingSystem)
    ensures
        reveal_failure(os) == match os {
            OperatingSystem::Windows => "Failed to open in Explorer: "@,
            OperatingSystem::MacOs => "Failed to open in Finder: "@,
            OperatingSystem::Linux | OperatingSystem::Other => "Failed to open folder: "@,
        },
        copy_calls(os).map_values(|c: CallView| c.program) =~= match os {
            OperatingSystem::Linux => seq!["wl-copy"@, "xclip"@, "xsel"@],
            OperatingSystem::MacOs => seq!["pbcopy"@],
            OperatingSystem::Windows => seq!["clip"@],
            OperatingSystem::Other => Seq::<Seq<char>>::empty(),
        },
        forall|i: int| 0 <= i < copy_calls(os).len() ==> (#[trigger] copy_calls(os)[i]).waits,
        os == OperatingSystem::Linux ==> copy_calls(os)[0].args.len() == 0 && copy_calls(os)[1].args
            =~= seq!["-selection".spec_bytes(), "clipboard".spec_bytes()] && copy_calls(os)[2].args
            =~= seq!["--clipboard".spec_bytes(), "--input".spec_bytes()],
        os == OperatingSystem::MacOs || os == OperatingSystem::Windows ==> copy_calls(
            os,
        )[0].args.len() == 0,
{
}

/// The places for documents on Windows: those of the profile first, with OneDrive before
/// them, and behind them the one below the home directory. A drive alone takes no separator.
pub proof fn windows_places_begin_in_the_profile(
    xdg: Option<Seq<u8>>,
    profile: Seq<char>,
    home: Seq<u8>,
    letter: u8,
    name: Seq<u8>,
)
    requires
        65 <= letter <= 90 || 97 <= letter <= 122,
    ensures
        documents_places(OperatingSystem::Windows, xdg, Some(profile), home) =~= seq![
            below(
                OperatingSystem::Windows,
                below(OperatingSystem::Windows, encode_utf8(profile), "OneDrive".spec_bytes()),
                "Documents".spec_bytes(),
            ),
            below(OperatingSystem::Windows, encode_utf8(profile), "Documents".spec_bytes()),
            below(OperatingSystem::Windows, home, "Documents".spec_bytes()),
        ],
        documents_places(OperatingSystem::Windows, xdg, None, home) =~= seq![
            below(OperatingSystem::Windows, home, "Documents".spec_bytes()),
        ],
        downloads_places(OperatingSystem::Windows, xdg, home) =~= seq![
            below(OperatingSystem::Windows, home, "Downloads".spec_bytes()),
        ],
        below(OperatingSystem::Windows, seq![letter, 58u8], name) =~= seq![letter, 58u8] + name,
        below(OperatingSystem::Windows, Seq::empty(), name) =~= name,
{
}

/// Where the desktop names no place, only the one below the home directory is left.
pub proof fn blank_output_names_no_place(xdg: Seq<u8>, profile: Option<Seq<char>>, home: Seq<u8>)
    requires
        printed(xdg) is None,
    ensures
        documents_places(OperatingSystem::Linux, Some(xdg), profile, home) =~= seq![
            path::joined(home, "Documents".spec_bytes()),
        ],
        downloads_places(OperatingSystem::Linux, Some(xdg), home) =~= seq![
            path::joined(home, "Downloads".spec_bytes()),
        ],
{
}

} // verus!
