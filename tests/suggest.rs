use command_config_parser::suggest::{contains_str, get_suggestions, suggestions_for};

#[test]
fn suggestions_match_lowercased_query() {
    assert_eq!(
        get_suggestions("calc"),
        vec!["calc → calc.exe", "calculator → calc.exe"]
    );
    assert_eq!(
        get_suggestions("CALC"),
        vec!["calc → calc.exe", "calculator → calc.exe"]
    );
    assert_eq!(
        get_suggestions("GitHub"),
        vec!["github → https://www.github.com"]
    );
}

#[test]
fn programs_come_before_sites() {
    assert_eq!(
        get_suggestions("e"),
        vec![
            "notepad → notepad.exe",
            "powershell → powershell.exe",
            "explorer → explorer.exe",
            "chrome → chrome.exe",
            "firefox → firefox.exe",
            "edge → msedge.exe",
            "taskmanager → taskmgr.exe",
            "google → https://www.google.com",
            "youtube → https://www.youtube.com",
            "stackoverflow → https://stackoverflow.com",
            "reddit → https://www.reddit.com",
            "twitter → https://www.twitter.com",
            "facebook → https://www.facebook.com",
        ]
    );
}

#[test]
fn unmatched_query_offers_to_run_it() {
    assert_eq!(get_suggestions("Zzz top"), vec!["Run: Zzz top"]);
}

#[test]
fn empty_query_lists_every_target() {
    let all = get_suggestions("");
    assert_eq!(all.len(), 20);
    assert_eq!(all[0], "notepad → notepad.exe");
    assert_eq!(all[19], "facebook → https://www.facebook.com");
}

#[test]
fn suggestions_use_the_given_lowered_form() {
    assert_eq!(
        suggestions_for("X", "x"),
        vec!["explorer → explorer.exe", "firefox → firefox.exe"]
    );
    assert_eq!(suggestions_for("X", "X"), vec!["Run: X"]);
}

#[test]
fn substring_search() {
    assert!(contains_str("taskmanager", "man"));
    assert!(contains_str("abc", ""));
    assert!(contains_str("abc", "abc"));
    assert!(!contains_str("abc", "abcd"));
    assert!(!contains_str("abc", "ac"));
    assert!(contains_str("caf\u{e9}", "\u{e9}"));
}
