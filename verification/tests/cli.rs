use bumbling::cli::{
    bare_invocation, default_save_name, name_for, next_invocation, save_file_name, starts_flag,
    Invocation, BEE_PATTERN, TODAYS_PAGE,
};

fn args(list: &[&str]) -> Vec<String> {
    list.iter().map(|a| a.to_string()).collect()
}

fn web(url: &str, path: &str, save_only: bool) -> Invocation {
    Invocation::Web { url: url.to_string(), path: path.to_string(), save_only }
}

fn file(path: &str) -> Invocation {
    Invocation::File { path: path.to_string() }
}

const TODAY: &str = "20240305";

#[test]
fn the_save_file_is_named_by_the_date() {
    assert_eq!(save_file_name("20240305"), "20240305.bumble");
    assert_eq!(save_file_name(""), ".bumble");
}

#[test]
fn the_date_in_the_address_names_the_save_file() {
    assert_eq!(BEE_PATTERN, "Bee_([0-9]{8}).html");
    assert_eq!(default_save_name("https://nytbee.com/Bee_20240102.html", TODAY), "20240102.bumble");
    assert_eq!(default_save_name("Bee_19991231.html", TODAY), "19991231.bumble");
    assert_eq!(default_save_name("x/Bee_20240102xhtml?Bee_20200202.html", TODAY), "20240102.bumble");
}

#[test]
fn without_a_date_in_the_address_today_names_the_save_file() {
    assert_eq!(default_save_name("https://nytbee.com", TODAY), "20240305.bumble");
    assert_eq!(default_save_name("https://nytbee.com/Bee_2024010.html", TODAY), "20240305.bumble");
    assert_eq!(default_save_name("https://nytbee.com/bee_20240102.html", TODAY), "20240305.bumble");
    assert_eq!(default_save_name("", TODAY), "20240305.bumble");
}

#[test]
fn a_found_date_goes_before_today() {
    assert_eq!(name_for(Some("20240102".to_string()), TODAY), "20240102.bumble");
    assert_eq!(name_for(None, TODAY), "20240305.bumble");
}

#[test]
fn a_flag_starts_with_the_mark() {
    assert!(starts_flag("_w"));
    assert!(starts_flag("_"));
    assert!(starts_flag("_anything"));
    assert!(!starts_flag(""));
    assert!(!starts_flag("w_"));
    assert!(!starts_flag("-w"));
}

#[test]
fn web_takes_an_address_and_a_path() {
    let a = args(&["bumbling", "_w", "http://x/Bee_20240102.html", "my.save", "_f", "old.save"]);
    assert_eq!(
        next_invocation(&a, 1, TODAY),
        (web("http://x/Bee_20240102.html", "my.save", false), 4)
    );
    assert_eq!(next_invocation(&a, 4, TODAY), (file("old.save"), 6));
}

#[test]
fn web_without_a_path_takes_the_default_name() {
    let a = args(&["bumbling", "_w", "http://x/Bee_20240102.html"]);
    assert_eq!(
        next_invocation(&a, 1, TODAY),
        (web("http://x/Bee_20240102.html", "20240102.bumble", false), 3)
    );
    let a = args(&["bumbling", "_s", "http://x/", "_f", "old.save"]);
    assert_eq!(next_invocation(&a, 1, TODAY), (web("http://x/", "20240305.bumble", true), 3));
    assert_eq!(next_invocation(&a, 3, TODAY), (file("old.save"), 5));
}

#[test]
fn save_only_is_the_flag_s() {
    let a = args(&["bumbling", "_s", "http://x/", "p"]);
    assert_eq!(next_invocation(&a, 1, TODAY), (web("http://x/", "p", true), 4));
    let a = args(&["bumbling", "_w", "http://x/", "p"]);
    assert_eq!(next_invocation(&a, 1, TODAY), (web("http://x/", "p", false), 4));
}

#[test]
fn a_missing_address_is_a_wrong_use() {
    let a = args(&["bumbling", "_w"]);
    assert_eq!(next_invocation(&a, 1, TODAY), (Invocation::Usage { token: 2 }, 2));
    let a = args(&["bumbling", "_s", "_f", "x"]);
    assert_eq!(next_invocation(&a, 1, TODAY), (Invocation::Usage { token: 2 }, 4));
}

#[test]
fn a_missing_path_is_a_wrong_use() {
    let a = args(&["bumbling", "_f"]);
    assert_eq!(next_invocation(&a, 1, TODAY), (Invocation::Usage { token: 2 }, 2));
    let a = args(&["bumbling", "_f", "_w", "x"]);
    assert_eq!(next_invocation(&a, 1, TODAY), (Invocation::Usage { token: 2 }, 4));
}

#[test]
fn an_unknown_argument_is_a_wrong_use() {
    let a = args(&["bumbling", "play", "_f", "x"]);
    assert_eq!(next_invocation(&a, 1, TODAY), (Invocation::Usage { token: 1 }, 4));
    let a = args(&["bumbling", "_f", "x", "_x"]);
    assert_eq!(next_invocation(&a, 3, TODAY), (Invocation::Usage { token: 3 }, 4));
    let a = args(&["bumbling", ""]);
    assert_eq!(next_invocation(&a, 1, TODAY), (Invocation::Usage { token: 1 }, 2));
    let a = args(&["_W"]);
    assert_eq!(next_invocation(&a, 0, TODAY), (Invocation::Usage { token: 0 }, 1));
}

#[test]
fn without_arguments_the_puzzle_of_today_is_played() {
    assert_eq!(TODAYS_PAGE, "https://nytbee.com");
    assert_eq!(bare_invocation(TODAY, true), file("20240305.bumble"));
    assert_eq!(
        bare_invocation(TODAY, false),
        web("https://nytbee.com", "20240305.bumble", false)
    );
}
