//! The command line: which puzzles to play or to save, one after another,
//! and under which name a puzzle is saved.

use crate::text::{same_text, texts, to_chars};
use vstd::prelude::*;
use vstd::string::StringExecFns;

verus! {

/// The part of a puzzle page's address that holds the puzzle's date: the
/// eight digits are the date.
pub const BEE_PATTERN: &'static str = "Bee_([0-9]{8}).html";

/// The address of the page with the puzzle of the day.
pub const TODAYS_PAGE: &'static str = "https://nytbee.com";

/// What the `regex` crate finds for `pattern` in `text`: the part of `text`
/// that the group with the number `group` took in the first match. There
/// is none where `pattern` is no valid pattern, where nothing in `text`
/// matches, where the pattern has no such group, and where the group took
/// no part in the match.
pub uninterp spec fn regex_capture(pattern: Seq<char>, text: Seq<char>, group: usize) -> Option<Seq<char>>;

/// The string's characters, where there is a string.
pub open spec fn text_of(s: Option<String>) -> Option<Seq<char>> {
    match s {
        Some(s) => Some(s@),
        None => None,
    }
}

/// `regex::Regex::new` on `pattern`, `Regex::captures` on `text` and
/// `Captures::get` on `group`: the text of that group in the first match,
/// as a string of its own.
#[verifier::external_body]
fn capture(pattern: &str, text: &str, group: usize) -> (r: Option<String>)
    ensures
        text_of(r) == regex_capture(pattern@, text@, group),
{
    let re = match regex::Regex::new(pattern) {
        Ok(re) => re,
        Err(_) => return None,
    };
    let found = match re.captures(text) {
        Some(found) => found,
        None => return None,
    };
    match found.get(group) {
        Some(part) => Some(part.as_str().to_string()),
        None => None,
    }
}

/// The name of the save file for the date `stamp`.
pub open spec fn save_name(stamp: Seq<char>) -> Seq<char> {
    stamp + ".bumble"@
}

/// The name of the save file of a page: by the date that was found in the
/// page's address, or else by the date of today.
pub open spec fn default_name(date: Option<Seq<char>>, today: Seq<char>) -> Seq<char> {
    match date {
        Some(date) => save_name(date),
        None => save_name(today),
    }
}

/// The name of the save file for the date `stamp`.
pub fn save_file_name(stamp: &str) -> (r: String)
    ensures
        r@ == save_name(stamp@),
{
    String::from_str(stamp).concat(".bumble")
}

/// The name of the save file of a page, given the date that was found in
/// the page's address, if one was found, and the date of today.
pub fn name_for(date: Option<String>, today: &str) -> (r: String)
    ensures
        r@ == default_name(text_of(date), today@),
{
    match date {
        Some(date) => save_file_name(date.as_str()),
        None => save_file_name(today),
    }
}

/// The name of the save file of the page at `url`, where the command line
/// gives none.
pub fn default_save_name(url: &str, today: &str) -> (r: String)
    ensures
        r@ == default_name(regex_capture(BEE_PATTERN@, url@, 1), today@),
{
    name_for(capture(BEE_PATTERN, url, 1), today)
}

/// One thing that the command line asks for.
#[derive(Debug, PartialEq, Eq)]
pub enum Invocation {
    /// Fetch the page at `url`, play unless `save_only`, and save to `path`.
    Web { url: String, path: String, save_only: bool },
    /// Load the save file at `path`, play, and save to it.
    File { path: String },
    /// The command line is wrong at the argument number `token`: say how
    /// the program is used, and end.
    Usage { token: usize },
}

/// An invocation as a plain value.
pub ghost enum Invoked {
    Web { url: Seq<char>, path: Seq<char>, save_only: bool },
    File { path: Seq<char> },
    Usage { token: int },
}

impl View for Invocation {
    type V = Invoked;

    open spec fn view(&self) -> Invoked {
        match *self {
            Invocation::Web { url, path, save_only } => Invoked::Web {
                url: url@,
                path: path@,
                save_only,
            },
            Invocation::File { path } => Invoked::File { path: path@ },
            Invocation::Usage { token } => Invoked::Usage { token: token as int },
        }
    }
}

/// `arg` is a flag, not a value: it starts with the mark of the flags.
pub open spec fn is_flag(arg: Seq<char>) -> bool {
    arg.len() > 0 && arg[0] == '_'
}

/// What the arguments ask for at place `at`, and the place of what comes
/// next. `_w` and `_s` take an address and, if a value follows, the path
/// of the save file; `_f` takes the path of a save file. Behind a wrong
/// argument nothing comes next.
pub open spec fn invoked(args: Seq<Seq<char>>, at: int, today: Seq<char>) -> (Invoked, int) {
    let stop = args.len() as int;
    if args[at] == "_w"@ || args[at] == "_s"@ {
        if at + 1 >= args.len() || is_flag(args[at + 1]) {
            (Invoked::Usage { token: at + 1 }, stop)
        } else if at + 2 < args.len() && !is_flag(args[at + 2]) {
            (
                Invoked::Web {
                    url: args[at + 1],
                    path: args[at + 2],
                    save_only: args[at] == "_s"@,
                },
                at + 3,
            )
        } else {
            (
                Invoked::Web {
                    url: args[at + 1],
                    path: default_name(regex_capture(BEE_PATTERN@, args[at + 1], 1), today),
                    save_only: args[at] == "_s"@,
                },
                at + 2,
            )
        }
    } else if args[at] == "_f"@ {
        if at + 1 < args.len() && !is_flag(args[at + 1]) {
            (Invoked::File { path: args[at + 1] }, at + 2)
        } else {
            (Invoked::Usage { token: at + 1 }, stop)
        }
    } else {
        (Invoked::Usage { token: at }, stop)
    }
}

/// What a command line without arguments asks for: the puzzle of today,
/// from its save file where there is one, else from its page.
pub open spec fn invoked_bare(today: Seq<char>, saved: bool) -> Invoked {
    if saved {
        Invoked::File { path: save_name(today) }
    } else {
        Invoked::Web { url: TODAYS_PAGE@, path: save_name(today), save_only: false }
    }
}

/// Whether `arg` is a flag.
pub fn starts_flag(arg: &str) -> (r: bool)
    ensures
        r == is_flag(arg@),
{
    let chars = to_chars(arg);
    chars.len() > 0 && chars[0] == '_'
}

/// What the arguments ask for at place `at`, and the place of what comes
/// next.
pub fn next_invocation(args: &Vec<String>, at: usize, today: &str) -> (r: (Invocation, usize))
    requires
        at < args.len(),
    ensures
        (r.0@, r.1 as int) == invoked(texts(args@), at as int, today@),
        at < r.1 <= args.len(),
{
    let token = args[at].as_str();
    let saves = same_text(token, "_s");
    if saves || same_text(token, "_w") {
        if at + 1 >= args.len() || starts_flag(args[at + 1].as_str()) {
            return (Invocation::Usage { token: at + 1 }, args.len());
        }
        let url = args[at + 1].clone();
        if at + 2 < args.len() && !starts_flag(args[at + 2].as_str()) {
            (Invocation::Web { url, path: args[at + 2].clone(), save_only: saves }, at + 3)
        } else {
            let path = default_save_name(url.as_str(), today);
            (Invocation::Web { url, path, save_only: saves }, at + 2)
        }
    } else if same_text(token, "_f") {
        if at + 1 < args.len() && !starts_flag(args[at + 1].as_str()) {
            (Invocation::File { path: args[at + 1].clone() }, at + 2)
        } else {
            (Invocation::Usage { token: at + 1 }, args.len())
        }
    } else {
        (Invocation::Usage { token: at }, args.len())
    }
}

/// What a command line without arguments asks for; `saved` says whether
/// the save file of today is there.
pub fn bare_invocation(today: &str, saved: bool) -> (r: Invocation)
    ensures
        r@ == invoked_bare(today@, saved),
{
    let path = save_file_name(today);
    if saved {
        Invocation::File { path }
    } else {
        Invocation::Web { url: String::from_str(TODAYS_PAGE), path, save_only: false }
    }
}

} // verus!
