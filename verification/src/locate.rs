//! Steam game location: which of the installed games is meant.

use vstd::prelude::*;

use crate::number::{parse_u32, show_u64};
use crate::text::{chars_of, contains, ends_with, is_whitespace, to_ascii_lower};
use crate::{number, text};

verus! {

/// `chars` without whitespace.
pub open spec fn without_space(chars: Seq<char>) -> Seq<char>
    decreases chars.len(),
{
    if chars.len() == 0 {
        Seq::empty()
    } else if text::is_space(chars.last()) {
        without_space(chars.drop_last())
    } else {
        without_space(chars.drop_last()).push(chars.last())
    }
}

/// The form in which names are compared: ASCII letters in lower case, no
/// whitespace.
pub open spec fn search_form(s: Seq<char>) -> Seq<char> {
    without_space(text::ascii_lower(s))
}

/// The form in which names are compared: ASCII letters in lower case, no
/// whitespace.
#[verifier::loop_isolation(false)]
pub fn search_transform(input: &str) -> (out: String)
    ensures
        out@ == search_form(input@),
{
    let lower = to_ascii_lower(input);
    let chars = chars_of(lower.as_str());
    let mut out = String::new();
    let mut i: usize = 0;
    while i < chars.len()
        invariant
            i <= chars@.len(),
            out@ == without_space(chars@.take(i as int)),
        decreases chars@.len() - i,
    {
        assert(chars@.take(i + 1).drop_last() =~= chars@.take(i as int));
        if !is_whitespace(chars[i]) {
            out.push(chars[i]);
        }
        i += 1;
    }
    assert(chars@.take(i as int) =~= chars@);
    out
}

/// An installed steam app.
#[derive(Debug, PartialEq, Eq)]
pub struct SteamApp {
    pub app_id: u32,
    pub name: Option<String>,
    pub install_dir: String,
}

impl SteamApp {
    /// The name, or the install directory for an app without one.
    pub open spec fn title_text(self) -> Seq<char> {
        match self.name {
            Some(name) => name@,
            None => self.install_dir@,
        }
    }

    /// The name, or the install directory for an app without one.
    pub fn title(&self) -> (r: String)
        ensures
            r@ == self.title_text(),
    {
        match &self.name {
            Some(name) => name.clone(),
            None => self.install_dir.clone(),
        }
    }
}

/// What a game is looked up by.
#[derive(Debug, PartialEq, Eq)]
pub enum Needle {
    AppId(u32),
    Name(String),
}

/// What a game is looked up by: its app id if it reads as one, else its name.
pub fn needle_for(game: &str) -> (r: Needle)
    ensures
        match number::unsigned_value(search_form(game@), u32::MAX as int) {
            Some(id) => r matches Needle::AppId(app_id) && app_id == id,
            None => r matches Needle::Name(name) && name@ == search_form(game@),
        },
{
    let needle = search_transform(game);
    match parse_u32(needle.as_str()) {
        Some(app_id) => Needle::AppId(app_id),
        None => Needle::Name(needle),
    }
}

/// Whether an app's title contains the needle.
pub open spec fn app_matches(app: SteamApp, needle: Seq<char>) -> bool {
    text::has_text(search_form(app.title_text()), needle)
}

/// How far an app's title is from the needle that it contains: the closest match
/// has the least to spare.
pub open spec fn app_score(app: SteamApp) -> nat {
    vstd::utf8::encode_utf8(search_form(app.title_text())).len()
}

/// The first of the closest matches among apps.
pub open spec fn best_among(apps: Seq<SteamApp>, needle: Seq<char>) -> Option<int>
    decreases apps.len(),
{
    if apps.len() == 0 {
        None
    } else {
        let before = best_among(apps.drop_last(), needle);
        let last = apps.len() - 1;
        if !app_matches(apps[last], needle) {
            before
        } else {
            match before {
                Some(i) => if app_score(apps[last]) < app_score(apps[i]) {
                    Some(last)
                } else {
                    before
                },
                None => Some(last),
            }
        }
    }
}

/// The app that is meant: of the first library that has a match, the first of the
/// closest matches.
pub open spec fn found_in(libraries: Seq<Vec<SteamApp>>, needle: Seq<char>) -> Option<(int, int)>
    decreases libraries.len(),
{
    if libraries.len() == 0 {
        None
    } else {
        match found_in(libraries.drop_last(), needle) {
            Some(found) => Some(found),
            None => match best_among(libraries.last()@, needle) {
                Some(app) => Some((libraries.len() - 1, app)),
                None => None,
            },
        }
    }
}

/// A position as contracts speak of it.
pub open spec fn index_opt(i: Option<usize>) -> Option<int> {
    match i {
        Some(i) => Some(i as int),
        None => None,
    }
}

/// The first of the closest matches among apps.
#[verifier::loop_isolation(false)]
pub fn best_match(apps: &Vec<SteamApp>, needle: &str) -> (r: Option<usize>)
    ensures
        index_opt(r) == best_among(apps@, needle@),
{
    let mut best: Option<usize> = None;
    let mut best_score: usize = 0;
    let mut i: usize = 0;
    while i < apps.len()
        invariant
            i <= apps@.len(),
            index_opt(best) == best_among(apps@.take(i as int), needle@),
            best matches Some(b) ==> b < i && best_score == app_score(apps@[b as int]),
        decreases apps@.len() - i,
    {
        assert(apps@.take(i + 1).drop_last() =~= apps@.take(i as int));
        let name = search_transform(apps[i].title().as_str());
        if contains(name.as_str(), needle) {
            let score: usize = name.as_str().as_bytes().len();
            let closer: bool = match best {
                Some(_) => score < best_score,
                None => true,
            };
            if closer {
                best = Some(i);
                best_score = score;
            }
        }
        i += 1;
    }
    assert(apps@.take(i as int) =~= apps@);
    best
}

/// The installed game that is meant: the position of its library, and its own in
/// that library.
#[verifier::loop_isolation(false)]
pub fn find_game(libraries: &Vec<Vec<SteamApp>>, needle: &str) -> (r: Option<(usize, usize)>)
    ensures
        match r {
            Some((library, app)) => found_in(libraries@, needle@) == Some(
                (library as int, app as int),
            ),
            None => found_in(libraries@, needle@) is None,
        },
{
    let mut i: usize = 0;
    while i < libraries.len()
        invariant
            i <= libraries@.len(),
            found_in(libraries@.take(i as int), needle@) is None,
        decreases libraries@.len() - i,
    {
        assert(libraries@.take(i + 1).drop_last() =~= libraries@.take(i as int));
        if let Some(app) = best_match(&libraries[i], needle) {
            proof {
                lemma_found_stays(libraries@, needle@, i + 1);
            }
            return Some((i, app));
        }
        i += 1;
    }
    assert(libraries@.take(i as int) =~= libraries@);
    None
}

proof fn lemma_found_stays(libraries: Seq<Vec<SteamApp>>, needle: Seq<char>, n: int)
    requires
        0 <= n <= libraries.len(),
        found_in(libraries.take(n), needle) is Some,
    ensures
        found_in(libraries, needle) == found_in(libraries.take(n), needle),
    decreases libraries.len() - n,
{
    if n == libraries.len() {
        assert(libraries.take(n) =~= libraries);
    } else {
        assert(libraries.take(n + 1).drop_last() =~= libraries.take(n));
        lemma_found_stays(libraries, needle, n + 1);
    }
}

/// What is said when there is no game with an app id.
pub fn no_app_id(app_id: u32) -> (e: String)
    ensures
        e@ == Seq::<char>::empty() + "no steam game with app id "@ + number::decimal(
            app_id as nat,
        ),
{
    let mut e = String::new();
    e.append("no steam game with app id ");
    e.append(show_u64(app_id as u64).as_str());
    e
}

/// What is said when no game matches.
pub fn no_game(game: &str) -> (e: String)
    ensures
        e@ == Seq::<char>::empty() + "no steam game matching '"@ + game@ + "'"@,
{
    let mut e = String::new();
    e.append("no steam game matching '");
    e.append(game);
    e.append("'");
    e
}

/// What is said of a game that is no unity game.
pub fn no_data_dir(app: &SteamApp, install_dir: &str) -> (e: String)
    ensures
        e@ == Seq::<char>::empty() + "'"@ + app.title_text()
            + "' has no unity `*_Data` directory at "@ + install_dir@,
{
    let mut e = String::new();
    e.append("'");
    e.append(app.title().as_str());
    e.append("' has no unity `*_Data` directory at ");
    e.append(install_dir);
    e
}

/// An entry of a directory; its name as far as that is text.
#[derive(Debug, PartialEq, Eq)]
pub struct DirEntry {
    pub name: Option<String>,
    pub is_dir: bool,
}

/// Whether an entry is a unity data directory.
pub open spec fn is_data_dir(entry: DirEntry) -> bool {
    entry.is_dir && (entry.name matches Some(name) && text::finishes_with(name@, "_Data"@))
}

/// The first `*_Data` directory among the entries of an install directory, if any.
pub fn find_unity_data_dir(entries: &Vec<DirEntry>) -> (r: Option<usize>)
    ensures
        match r {
            Some(i) => i < entries@.len() && is_data_dir(entries@[i as int]) && forall|k: int|
                0 <= k < i ==> !is_data_dir(#[trigger] entries@[k]),
            None => forall|k: int| 0 <= k < entries@.len() ==> !is_data_dir(#[trigger] entries@[k]),
        },
{
    let mut i: usize = 0;
    while i < entries.len()
        invariant
            i <= entries@.len(),
            forall|k: int| 0 <= k < i ==> !is_data_dir(#[trigger] entries@[k]),
        decreases entries@.len() - i,
    {
        let named: bool = match &entries[i].name {
            Some(name) => ends_with(name.as_str(), "_Data"),
            None => false,
        };
        if named && entries[i].is_dir {
            return Some(i);
        }
        i += 1;
    }
    None
}

/// If there is a match, one is found; and what is found matches, better than or
/// as well as any other match.
pub proof fn best_match_is_best(apps: Seq<SteamApp>, needle: Seq<char>)
    ensures
        match best_among(apps, needle) {
            Some(b) => {
                &&& 0 <= b < apps.len()
                &&& app_matches(apps[b], needle)
                &&& forall|i: int|
                    0 <= i < apps.len() && app_matches(#[trigger] apps[i], needle) ==> app_score(
                        apps[b],
                    ) <= app_score(apps[i])
            },
            None => forall|i: int|
                0 <= i < apps.len() ==> !app_matches(#[trigger] apps[i], needle),
        },
    decreases apps.len(),
{
    if apps.len() > 0 {
        let before = apps.drop_last();
        best_match_is_best(before, needle);
        assert forall|i: int| 0 <= i < before.len() implies before[i] == #[trigger] apps[i] by {}
    }
}

} // verus!
