//! The languages of the user interface.

use crate::folding;
use crate::text;
use vstd::prelude::*;

verus! {

/// A language of the user interface.
#[derive(Clone, Copy, Debug, PartialEq, Eq, Structural)]
pub enum AppLanguage {
    Finnish,
    English,
}

/// The first setting that is there, or the empty text.
pub open spec fn locale_setting(
    lc_all: Option<Seq<char>>,
    lc_messages: Option<Seq<char>>,
    lang: Option<Seq<char>>,
) -> Seq<char> {
    match (lc_all, lc_messages, lang) {
        (Some(s), _, _) => s,
        (None, Some(s), _) => s,
        (None, None, Some(s)) => s,
        _ => Seq::empty(),
    }
}

/// The language that a locale, put in lower case, asks for.
pub open spec fn language_of(lowered: Seq<char>) -> AppLanguage {
    if "fi"@.is_prefix_of(lowered) {
        AppLanguage::Finnish
    } else {
        AppLanguage::English
    }
}

/// The text of an optional string.
pub open spec fn text_option(s: Option<&str>) -> Option<Seq<char>> {
    match s {
        Some(s) => Some(s@),
        None => None,
    }
}

impl AppLanguage {
    /// The language of a locale in lower case.
    pub fn of_locale(lowered: &str) -> (r: Self)
        ensures
            r == language_of(lowered@),
    {
        if text::begins_with(lowered, "fi") {
            AppLanguage::Finnish
        } else {
            AppLanguage::English
        }
    }

    /// The language that the environment asks for, by the values of `LC_ALL`, `LC_MESSAGES`
    /// and `LANG`, the first of which that is set counts.
    pub fn detect_from_system(
        lc_all: Option<&str>,
        lc_messages: Option<&str>,
        lang: Option<&str>,
    ) -> (r: Self)
        ensures
            r == language_of(
                folding::lowercase(
                    locale_setting(text_option(lc_all), text_option(lc_messages), text_option(lang)),
                ),
            ),
    {
        let setting = match (lc_all, lc_messages, lang) {
            (Some(s), _, _) => s,
            (None, Some(s), _) => s,
            (None, None, Some(s)) => s,
            (None, None, None) => "",
        };
        proof {
            reveal_strlit("");
            assert(""@ =~= Seq::<char>::empty());
        }
        AppLanguage::of_locale(folding::to_lower(setting).as_str())
    }

    /// The name of a language in that language.
    pub fn label(&self) -> (r: &'static str)
        ensures
            r@ == label_text(*self),
    {
        match self {
            AppLanguage::Finnish => "Suomi",
            AppLanguage::English => "English",
        }
    }

    /// The language that a label chooses; what is no label chooses Finnish.
    pub fn from_label(label: &str) -> (r: Self)
        ensures
            r == labelled_language(label@),
    {
        if text::same_text(label, "English") {
            AppLanguage::English
        } else {
            AppLanguage::Finnish
        }
    }
}

/// One of two texts, by language.
pub fn localized<'a>(lang: AppLanguage, finnish: &'a str, english: &'a str) -> (r: &'a str)
    ensures
        r@ == localized_text(lang, finnish@, english@),
{
    match lang {
        AppLanguage::Finnish => finnish,
        AppLanguage::English => english,
    }
}

/// One of two texts, by language.
pub open spec fn localized_text(
    lang: AppLanguage,
    finnish: Seq<char>,
    english: Seq<char>,
) -> Seq<char> {
    match lang {
        AppLanguage::Finnish => finnish,
        AppLanguage::English => english,
    }
}

/// The name of a language in that language.
pub open spec fn label_text(lang: AppLanguage) -> Seq<char> {
    localized_text(lang, "Suomi"@, "English"@)
}

/// The language that a label chooses.
pub open spec fn labelled_language(label: Seq<char>) -> AppLanguage {
    if label == "English"@ {
        AppLanguage::English
    } else {
        AppLanguage::Finnish
    }
}

/// Choosing the label of a language chooses that language.
pub proof fn label_selects_language(lang: AppLanguage)
    ensures
        labelled_language(label_text(lang)) == lang,
{
    reveal_strlit("Suomi");
    reveal_strlit("English");
    assert("Suomi"@.len() == 5 && "English"@.len() == 7);
}

/// A locale asks for Finnish where it begins with `fi`, and every other one asks for English.
pub proof fn locales_that_begin_with_fi_are_finnish(lowered: Seq<char>)
    ensures
        language_of(lowered) == AppLanguage::Finnish <==> lowered.len() >= 2 && lowered[0] == 'f'
            && lowered[1] == 'i',
        language_of(lowered) == AppLanguage::Finnish || language_of(lowered)
            == AppLanguage::English,
{
    reveal_strlit("fi");
    if lowered.len() >= 2 && lowered[0] == 'f' && lowered[1] == 'i' {
        assert("fi"@ =~= lowered.subrange(0, 2));
    }
    if "fi"@.is_prefix_of(lowered) {
        assert(lowered.subrange(0, 2)[0] == 'f' && lowered.subrange(0, 2)[1] == 'i');
    }
}

/// The first setting that is there counts, whatever those behind it say; an empty one is there.
pub proof fn first_setting_counts(
    s: Seq<char>,
    one: Option<Seq<char>>,
    other: Option<Seq<char>>,
)
    ensures
        locale_setting(Some(s), one, other) == s,
        locale_setting(None, Some(s), other) == s,
        locale_setting(None, None, Some(s)) == s,
        locale_setting(None, None, None).len() == 0,
{
}

/// Languages are named in themselves, and only the label of English chooses English.
pub proof fn labels_of_languages(label: Seq<char>, finnish: Seq<char>, english: Seq<char>)
    ensures
        label_text(AppLanguage::Finnish) == seq!['S', 'u', 'o', 'm', 'i'],
        label_text(AppLanguage::English) == seq!['E', 'n', 'g', 'l', 'i', 's', 'h'],
        labelled_language(label) == AppLanguage::English <==> label == seq![
            'E',
            'n',
            'g',
            'l',
            'i',
            's',
            'h',
        ],
        localized_text(AppLanguage::Finnish, finnish, english) == finnish,
        localized_text(AppLanguage::English, finnish, english) == english,
{
    reveal_strlit("Suomi");
    reveal_strlit("English");
    assert("Suomi"@ =~= seq!['S', 'u', 'o', 'm', 'i']);
    assert("English"@ =~= seq!['E', 'n', 'g', 'l', 'i', 's', 'h']);
}

} // verus!
