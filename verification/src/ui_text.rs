//! The texts of the user interface.

use crate::language;
use crate::language::AppLanguage;
use vstd::prelude::*;

verus! {

/// The texts of the user interface in one language.
#[derive(Clone, Copy, Debug)]
pub struct UiTexts {
    pub subtitle: &'static str,
    pub dir_label: &'static str,
    pub browse: &'static str,
    pub home: &'static str,
    pub docs: &'static str,
    pub downloads: &'static str,
    pub query_label: &'static str,
    pub query_hint: &'static str,
    pub settings_label: &'static str,
    pub ignore_case: &'static str,
    pub recursive: &'static str,
    pub search_hidden: &'static str,
    pub use_cache: &'static str,
    pub clear_cache: &'static str,
    pub filetypes_label: &'static str,
    pub all_filetypes: &'static str,
    pub date_range: &'static str,
    pub max_size: &'static str,
    pub context_size: &'static str,
    pub search: &'static str,
    pub searching: &'static str,
    pub cancel: &'static str,
    pub clear: &'static str,
    pub save_results: &'static str,
    pub results_header: &'static str,
    pub open: &'static str,
    pub open_file: &'static str,
    pub folder: &'static str,
    pub show_in_folder: &'static str,
    pub copy_path: &'static str,
    pub copy: &'static str,
    pub empty_prompt: &'static str,
    pub no_matches: &'static str,
    pub select_file: &'static str,
    pub recent_folders: &'static str,
}

/// The texts of the user interface in a language.
pub fn ui_texts(lang: AppLanguage) -> (r: UiTexts)
    ensures
        r.subtitle@ == language::localized_text(
            lang,
            "| Etsi tekstiä DOCX-, ODT-, PDF- ja tekstitiedostoista"@,
            "| Search text in DOCX, ODT, PDF and TXT files"@,
        ),
        r.dir_label@ == language::localized_text(lang, "Hakemisto"@, "Directory"@),
        r.browse@ == language::localized_text(lang, "Selaa..."@, "Browse..."@),
        r.home@ == language::localized_text(lang, "~ Koti"@, "~ Home"@),
        r.docs@ == language::localized_text(lang, "Asiakirjat"@, "Documents"@),
        r.downloads@ == language::localized_text(lang, "Lataukset"@, "Downloads"@),
        r.query_label@ == language::localized_text(lang, "Hakusana"@, "Search term"@),
        r.query_hint@ == language::localized_text(
            lang,
            "Kirjoita hakusana..."@,
            "Type search term..."@,
        ),
        r.settings_label@ == language::localized_text(lang, "Asetukset"@, "Settings"@),
        r.ignore_case@ == language::localized_text(
            lang,
            "Älä huomioi kirjainkokoa"@,
            "Ignore case"@,
        ),
        r.recursive@ == language::localized_text(lang, "Rekursiivinen haku"@, "Recursive search"@),
        r.search_hidden@ == language::localized_text(
            lang,
            "Hae piilokansioista"@,
            "Search hidden folders"@,
        ),
        r.use_cache@ == language::localized_text(lang, "Käytä välimuistia"@, "Use memory cache"@),
        r.clear_cache@ == language::localized_text(lang, "Tyhjennä"@, "Clear"@),
        r.filetypes_label@ == language::localized_text(lang, "Tiedostotyypit:"@, "File types:"@),
        r.all_filetypes@ == language::localized_text(lang, "Kaikki"@, "All"@),
        r.date_range@ == language::localized_text(lang, "Aikarajaus:"@, "Date range:"@),
        r.max_size@ == language::localized_text(lang, "Maksimikoko:"@, "Max size:"@),
        r.context_size@ == language::localized_text(lang, "Kontekstin pituus:"@, "Context size:"@),
        r.search@ == language::localized_text(lang, "Hae"@, "Search"@),
        r.searching@ == language::localized_text(lang, "Haetaan..."@, "Searching..."@),
        r.cancel@ == language::localized_text(lang, "Peruuta"@, "Cancel"@),
        r.clear@ == language::localized_text(lang, "Tyhjennä"@, "Clear"@),
        r.save_results@ == language::localized_text(
            lang,
            "Tallenna tulokset..."@,
            "Save results..."@,
        ),
        r.results_header@ == language::localized_text(lang, "Tiedostot"@, "Files"@),
        r.open@ == language::localized_text(lang, "Avaa"@, "Open"@),
        r.open_file@ == language::localized_text(lang, "Avaa tiedosto"@, "Open File"@),
        r.folder@ == language::localized_text(lang, "Kansio"@, "Folder"@),
        r.show_in_folder@ == language::localized_text(lang, "Näytä kansiossa"@, "Show in Folder"@),
        r.copy_path@ == language::localized_text(lang, "Kopioi polku"@, "Copy Path"@),
        r.copy@ == language::localized_text(lang, "Kopioi"@, "Copy"@),
        r.empty_prompt@ == language::localized_text(
            lang,
            "Kirjoita hakusana ja paina Hae"@,
            "Enter search term and press Search"@,
        ),
        r.no_matches@ == language::localized_text(
            lang,
            "Ei osumia hakusanalle"@,
            "No matches found for"@,
        ),
        r.select_file@ == language::localized_text(
            lang,
            "Valitse tiedosto listasta"@,
            "Select a file from the list"@,
        ),
        r.recent_folders@ == language::localized_text(
            lang,
            "Viimeisimmät kansiot..."@,
            "Recent folders..."@,
        ),
{
    UiTexts {
        subtitle: language::localized(
            lang,
            "| Etsi tekstiä DOCX-, ODT-, PDF- ja tekstitiedostoista",
            "| Search text in DOCX, ODT, PDF and TXT files",
        ),
        dir_label: language::localized(lang, "Hakemisto", "Directory"),
        browse: language::localized(lang, "Selaa...", "Browse..."),
        home: language::localized(lang, "~ Koti", "~ Home"),
        docs: language::localized(lang, "Asiakirjat", "Documents"),
        downloads: language::localized(lang, "Lataukset", "Downloads"),
        query_label: language::localized(lang, "Hakusana", "Search term"),
        query_hint: language::localized(lang, "Kirjoita hakusana...", "Type search term..."),
        settings_label: language::localized(lang, "Asetukset", "Settings"),
        ignore_case: language::localized(lang, "Älä huomioi kirjainkokoa", "Ignore case"),
        recursive: language::localized(lang, "Rekursiivinen haku", "Recursive search"),
        search_hidden: language::localized(lang, "Hae piilokansioista", "Search hidden folders"),
        use_cache: language::localized(lang, "Käytä välimuistia", "Use memory cache"),
        clear_cache: language::localized(lang, "Tyhjennä", "Clear"),
        filetypes_label: language::localized(lang, "Tiedostotyypit:", "File types:"),
        all_filetypes: language::localized(lang, "Kaikki", "All"),
        date_range: language::localized(lang, "Aikarajaus:", "Date range:"),
        max_size: language::localized(lang, "Maksimikoko:", "Max size:"),
        context_size: language::localized(lang, "Kontekstin pituus:", "Context size:"),
        search: language::localized(lang, "Hae", "Search"),
        searching: language::localized(lang, "Haetaan...", "Searching..."),
        cancel: language::localized(lang, "Peruuta", "Cancel"),
        clear: language::localized(lang, "Tyhjennä", "Clear"),
        save_results: language::localized(lang, "Tallenna tulokset...", "Save results..."),
        results_header: language::localized(lang, "Tiedostot", "Files"),
        open: language::localized(lang, "Avaa", "Open"),
        open_file: language::localized(lang, "Avaa tiedosto", "Open File"),
        folder: language::localized(lang, "Kansio", "Folder"),
        show_in_folder: language::localized(lang, "Näytä kansiossa", "Show in Folder"),
        copy_path: language::localized(lang, "Kopioi polku", "Copy Path"),
        copy: language::localized(lang, "Kopioi", "Copy"),
        empty_prompt: language::localized(
            lang,
            "Kirjoita hakusana ja paina Hae",
            "Enter search term and press Search",
        ),
        no_matches: language::localized(lang, "Ei osumia hakusanalle", "No matches found for"),
        select_file: language::localized(
            lang,
            "Valitse tiedosto listasta",
            "Select a file from the list",
        ),
        recent_folders: language::localized(lang, "Viimeisimmät kansiot...", "Recent folders..."),
    }
}

/// What the user is told at a point of the program's course.
#[derive(Clone, Copy, Debug, PartialEq, Eq, Structural)]
pub enum Notice {
    /// A text was put on the clipboard.
    Copied,
    /// There are no results to save.
    NothingToSave,
    /// A search was cancelled.
    Cancelled,
    /// A search begins to walk the directory.
    Scanning,
}

/// What the user is told.
pub open spec fn notice_view(notice: Notice, lang: AppLanguage) -> Seq<char> {
    match notice {
        Notice::Copied => language::localized_text(
            lang,
            "Kopioitu leikepöydälle!"@,
            "Copied to clipboard!"@,
        ),
        Notice::NothingToSave => language::localized_text(
            lang,
            "Ei tallennettavia tuloksia."@,
            "No results to save."@,
        ),
        Notice::Cancelled => language::localized_text(
            lang,
            "Haku peruutettu."@,
            "Search cancelled."@,
        ),
        Notice::Scanning => language::localized_text(
            lang,
            "Käydään hakemistoa läpi..."@,
            "Scanning directory..."@,
        ),
    }
}

/// What the user is told.
pub fn notice_text(notice: Notice, lang: AppLanguage) -> (r: &'static str)
    ensures
        r@ == notice_view(notice, lang),
{
    match notice {
        Notice::Copied => language::localized(
            lang,
            "Kopioitu leikepöydälle!",
            "Copied to clipboard!",
        ),
        Notice::NothingToSave => language::localized(
            lang,
            "Ei tallennettavia tuloksia.",
            "No results to save.",
        ),
        Notice::Cancelled => language::localized(lang, "Haku peruutettu.", "Search cancelled."),
        Notice::Scanning => language::localized(
            lang,
            "Käydään hakemistoa läpi...",
            "Scanning directory...",
        ),
    }
}

/// The message for a directory that is not there.
pub fn directory_not_found(dir: &str, lang: AppLanguage) -> (r: String)
    ensures
        r@ == language::localized_text(lang, "Hakemistoa ei löydy: "@, "Directory not found: "@)
            + dir@,
{
    let mut r = language::localized(lang, "Hakemistoa ei löydy: ", "Directory not found: ").to_owned();
    r.push_str(dir);
    r
}

/// The message for results that were saved.
pub fn results_saved(file: &str, lang: AppLanguage) -> (r: String)
    ensures
        r@ == language::localized_text(lang, "Tulokset tallennettu: "@, "Results saved to: "@)
            + file@,
{
    let mut r = language::localized(lang, "Tulokset tallennettu: ", "Results saved to: ").to_owned();
    r.push_str(file);
    r
}

/// The message for results that could not be saved.
pub fn saving_failed(error: &str, lang: AppLanguage) -> (r: String)
    ensures
        r@ == language::localized_text(lang, "Tallennus epäonnistui: "@, "Failed to save: "@)
            + error@,
{
    let mut r = language::localized(lang, "Tallennus epäonnistui: ", "Failed to save: ").to_owned();
    r.push_str(error);
    r
}

/// What the user is told of the course of things, in both languages.
pub proof fn notices_are_told_in_both_languages(lang: AppLanguage)
    ensures
        notice_view(Notice::Copied, lang) == language::localized_text(
            lang,
            "Kopioitu leikepöydälle!"@,
            "Copied to clipboard!"@,
        ),
        notice_view(Notice::NothingToSave, lang) == language::localized_text(
            lang,
            "Ei tallennettavia tuloksia."@,
            "No results to save."@,
        ),
        notice_view(Notice::Cancelled, lang) == language::localized_text(
            lang,
            "Haku peruutettu."@,
            "Search cancelled."@,
        ),
        notice_view(Notice::Scanning, lang) == language::localized_text(
            lang,
            "Käydään hakemistoa läpi..."@,
            "Scanning directory..."@,
        ),
{
}

} // verus!
