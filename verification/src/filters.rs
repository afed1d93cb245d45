//! The choices that the user has: how results are sorted, and which files are searched.

use crate::language;
use crate::language::AppLanguage;
use crate::time;
use crate::time::Timestamp;
use vstd::prelude::*;

verus! {

/// How results are sorted.
#[derive(Clone, Copy, Debug, PartialEq, Eq, Structural)]
pub enum SortOrder {
    /// The file changed last comes first.
    DateDesc,
    /// The file changed first comes first.
    DateAsc,
    /// By file name.
    Name,
    /// The file with most matches comes first.
    Matches,
}

/// How recently a file must have been changed.
#[derive(Clone, Copy, Debug, PartialEq, Eq, Structural)]
pub enum DateFilter {
    All,
    Last24Hours,
    Last7Days,
    Last30Days,
    LastYear,
}

/// How large a file may be.
#[derive(Clone, Copy, Debug, PartialEq, Eq, Structural)]
pub enum SizeFilter {
    NoLimit,
    Max10MB,
    Max50MB,
    Max100MB,
}

/// The views of strings.
pub open spec fn labels(v: Seq<String>) -> Seq<Seq<char>> {
    v.map_values(|s: String| s@)
}

/// The choices of how results are sorted, in the order of their indices.
pub open spec fn sort_labels(lang: AppLanguage) -> Seq<Seq<char>> {
    match lang {
        AppLanguage::Finnish => seq![
            "Päivämäärä (Uusin ensin)"@,
            "Päivämäärä (Vanhin ensin)"@,
            "Nimi (A-Z)"@,
            "Osumien määrä"@,
        ],
        AppLanguage::English => seq![
            "Date (Newest first)"@,
            "Date (Oldest first)"@,
            "Name (A-Z)"@,
            "Match count"@,
        ],
    }
}

/// The choices of how recent a file must be, in the order of their indices.
pub open spec fn date_labels(lang: AppLanguage) -> Seq<Seq<char>> {
    match lang {
        AppLanguage::Finnish => seq![
            "Kaikki ajat"@,
            "Viimeiset 24 tuntia"@,
            "Viimeiset 7 päivää"@,
            "Viimeiset 30 päivää"@,
            "Viimeinen vuosi"@,
        ],
        AppLanguage::English => seq![
            "All time"@,
            "Last 24 hours"@,
            "Last 7 days"@,
            "Last 30 days"@,
            "Last year"@,
        ],
    }
}

/// The choices of how large a file may be, in the order of their indices.
pub open spec fn size_labels(lang: AppLanguage) -> Seq<Seq<char>> {
    match lang {
        AppLanguage::Finnish => seq![
            "Ei kokorajoitusta"@,
            "Enintään 10 MB"@,
            "Enintään 50 MB"@,
            "Enintään 100 MB"@,
        ],
        AppLanguage::English => seq!["No size limit"@, "Max 10 MB"@, "Max 50 MB"@, "Max 100 MB"@],
    }
}

fn four(a: &str, b: &str, c: &str, d: &str) -> (r: Vec<String>)
    ensures
        labels(r@) == seq![a@, b@, c@, d@],
{
    let mut r: Vec<String> = Vec::new();
    r.push(a.to_owned());
    r.push(b.to_owned());
    r.push(c.to_owned());
    r.push(d.to_owned());
    assert(labels(r@) =~= seq![a@, b@, c@, d@]);
    r
}

/// The seconds that a choice goes back from now.
pub open spec fn seconds_back(filter: DateFilter) -> Option<int> {
    match filter {
        DateFilter::All => None,
        DateFilter::Last24Hours => Some(86_400),
        DateFilter::Last7Days => Some(604_800),
        DateFilter::Last30Days => Some(2_592_000),
        DateFilter::LastYear => Some(31_536_000),
    }
}

impl SortOrder {
    /// The choice at an index. What is no index chooses the first.
    pub fn from_index(index: i32) -> (r: SortOrder)
        ensures
            r == if index == 1 {
                SortOrder::DateAsc
            } else if index == 2 {
                SortOrder::Name
            } else if index == 3 {
                SortOrder::Matches
            } else {
                SortOrder::DateDesc
            },
    {
        if index == 1 {
            SortOrder::DateAsc
        } else if index == 2 {
            SortOrder::Name
        } else if index == 3 {
            SortOrder::Matches
        } else {
            SortOrder::DateDesc
        }
    }

    /// The choices, in the order of their indices.
    pub fn options(lang: AppLanguage) -> (r: Vec<String>)
        ensures
            labels(r@) == sort_labels(lang),
    {
        match lang {
            AppLanguage::Finnish => four(
                "Päivämäärä (Uusin ensin)",
                "Päivämäärä (Vanhin ensin)",
                "Nimi (A-Z)",
                "Osumien määrä",
            ),
            AppLanguage::English => four(
                "Date (Newest first)",
                "Date (Oldest first)",
                "Name (A-Z)",
                "Match count",
            ),
        }
    }
}

impl DateFilter {
    /// The choice at an index. What is no index chooses the first.
    pub fn from_index(index: i32) -> (r: DateFilter)
        ensures
            r == if index == 1 {
                DateFilter::Last24Hours
            } else if index == 2 {
                DateFilter::Last7Days
            } else if index == 3 {
                DateFilter::Last30Days
            } else if index == 4 {
                DateFilter::LastYear
            } else {
                DateFilter::All
            },
    {
        if index == 1 {
            DateFilter::Last24Hours
        } else if index == 2 {
            DateFilter::Last7Days
        } else if index == 3 {
            DateFilter::Last30Days
        } else if index == 4 {
            DateFilter::LastYear
        } else {
            DateFilter::All
        }
    }

    /// The choices, in the order of their indices.
    pub fn options(lang: AppLanguage) -> (r: Vec<String>)
        ensures
            labels(r@) == date_labels(lang),
    {
        let (mut r, last) = match lang {
            AppLanguage::Finnish => (
                four(
                    "Kaikki ajat",
                    "Viimeiset 24 tuntia",
                    "Viimeiset 7 päivää",
                    "Viimeiset 30 päivää",
                ),
                "Viimeinen vuosi",
            ),
            AppLanguage::English => (
                four("All time", "Last 24 hours", "Last 7 days", "Last 30 days"),
                "Last year",
            ),
        };
        let ghost first = labels(r@);
        r.push(last.to_owned());
        assert(labels(r@) =~= first.push(last@));
        assert(labels(r@) =~= date_labels(lang));
        r
    }

    /// The point in time after which a file must have been changed, given the time now.
    pub fn to_system_time(self, now: Timestamp) -> (r: Option<Timestamp>)
        ensures
            r == match seconds_back(self) {
                Some(s) => time::seconds_before(now, s),
                None => None,
            },
    {
        match self {
            DateFilter::All => None,
            DateFilter::Last24Hours => now.minus_seconds(24 * 3600),
            DateFilter::Last7Days => now.minus_seconds(7 * 24 * 3600),
            DateFilter::Last30Days => now.minus_seconds(30 * 24 * 3600),
            DateFilter::LastYear => now.minus_seconds(365 * 24 * 3600),
        }
    }
}

impl SizeFilter {
    /// The choice at an index. What is no index chooses the first.
    pub fn from_index(index: i32) -> (r: SizeFilter)
        ensures
            r == if index == 1 {
                SizeFilter::Max10MB
            } else if index == 2 {
                SizeFilter::Max50MB
            } else if index == 3 {
                SizeFilter::Max100MB
            } else {
                SizeFilter::NoLimit
            },
    {
        if index == 1 {
            SizeFilter::Max10MB
        } else if index == 2 {
            SizeFilter::Max50MB
        } else if index == 3 {
            SizeFilter::Max100MB
        } else {
            SizeFilter::NoLimit
        }
    }

    /// The choices, in the order of their indices.
    pub fn options(lang: AppLanguage) -> (r: Vec<String>)
        ensures
            labels(r@) == size_labels(lang),
    {
        match lang {
            AppLanguage::Finnish => four(
                "Ei kokorajoitusta",
                "Enintään 10 MB",
                "Enintään 50 MB",
                "Enintään 100 MB",
            ),
            AppLanguage::English => four("No size limit", "Max 10 MB", "Max 50 MB", "Max 100 MB"),
        }
    }

    /// The limit in megabytes.
    pub fn to_mb(self) -> (r: Option<u64>)
        ensures
            r == match self {
                SizeFilter::NoLimit => None::<u64>,
                SizeFilter::Max10MB => Some(10u64),
                SizeFilter::Max50MB => Some(50u64),
                SizeFilter::Max100MB => Some(100u64),
            },
    {
        match self {
            SizeFilter::NoLimit => None,
            SizeFilter::Max10MB => Some(10),
            SizeFilter::Max50MB => Some(50),
            SizeFilter::Max100MB => Some(100),
        }
    }
}

/// How far the choices of dates go back: a day, a week, thirty days and a year of 365 days, in
/// seconds, from whatever time it is now. All files count without a choice.
pub proof fn dates_go_back_by_days(filter: DateFilter, days: int)
    requires
        match filter {
            DateFilter::All => days == 0,
            DateFilter::Last24Hours => days == 1,
            DateFilter::Last7Days => days == 7,
            DateFilter::Last30Days => days == 30,
            DateFilter::LastYear => days == 365,
        },
    ensures
        days == 0 ==> seconds_back(filter) is None,
        days > 0 ==> seconds_back(filter) == Some(days * 24 * 60 * 60),
{
}

/// The choices in the order of the indices by which they are chosen, each in both languages.
pub proof fn choices_are_in_order(lang: AppLanguage)
    ensures
        sort_labels(lang) == seq![
            language::localized_text(lang, "Päivämäärä (Uusin ensin)"@, "Date (Newest first)"@),
            language::localized_text(lang, "Päivämäärä (Vanhin ensin)"@, "Date (Oldest first)"@),
            language::localized_text(lang, "Nimi (A-Z)"@, "Name (A-Z)"@),
            language::localized_text(lang, "Osumien määrä"@, "Match count"@),
        ],
        date_labels(lang) == seq![
            language::localized_text(lang, "Kaikki ajat"@, "All time"@),
            language::localized_text(lang, "Viimeiset 24 tuntia"@, "Last 24 hours"@),
            language::localized_text(lang, "Viimeiset 7 päivää"@, "Last 7 days"@),
            language::localized_text(lang, "Viimeiset 30 päivää"@, "Last 30 days"@),
            language::localized_text(lang, "Viimeinen vuosi"@, "Last year"@),
        ],
        size_labels(lang) == seq![
            language::localized_text(lang, "Ei kokorajoitusta"@, "No size limit"@),
            language::localized_text(lang, "Enintään 10 MB"@, "Max 10 MB"@),
            language::localized_text(lang, "Enintään 50 MB"@, "Max 50 MB"@),
            language::localized_text(lang, "Enintään 100 MB"@, "Max 100 MB"@),
        ],
{
}

} // verus!
