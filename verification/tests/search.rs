use minigrep::lines::{lines, split_first_line};
use minigrep::matcher::{run, search, search_case_insensitive};
use minigrep::substring::{bytes_contain, contains};
use minigrep::utf8::{bytes_eq, split_at_boundary, str_eq};
use minigrep::Config;

#[test]
fn case_sensitive() {
    let query = "duct";
    let contents = "\
Rust:
safe, fast, productive.
Pick three.
Duct tape.";

    assert_eq!(vec!["safe, fast, productive."], search(query, contents));
}

#[test]
fn case_insensitive() {
    let query = "rUsT";
    let contents = "\
Rust:
safe, fast, productive.
Pick three.
Trust me.";

    assert_eq!(
        vec!["Rust:", "Trust me."],
        search_case_insensitive(query, contents)
    );
}

#[test]
fn case_sensitive_skips_other_case() {
    let contents = "Rust:\nsafe, fast, productive.\nPick three.\nDuct tape.";
    assert_eq!(search("Duct", contents), vec!["Duct tape."]);
    assert_eq!(search("DUCT", contents), Vec::<&str>::new());
}

#[test]
fn case_insensitive_folds_both_sides() {
    let contents = "Rust:\nsafe, fast, productive.\nPick three.\nDuct tape.";
    assert_eq!(
        search_case_insensitive("DUCT", contents),
        vec!["safe, fast, productive.", "Duct tape."]
    );
    assert_eq!(search_case_insensitive("pick", contents), vec!["Pick three."]);
    assert_eq!(search_case_insensitive("PICK", "pick one"), vec!["pick one"]);
}

#[test]
fn case_insensitive_beyond_ascii() {
    let contents = "ÄPFEL und Birnen\nnur birnen\nÄpfel allein";
    assert_eq!(
        search_case_insensitive("äpfel", contents),
        vec!["ÄPFEL und Birnen", "Äpfel allein"]
    );
    assert_eq!(search("äpfel", contents), Vec::<&str>::new());
}

#[test]
fn empty_query_returns_every_line() {
    let contents = "one\n\ntwo\r\nthree\n";
    let all = vec!["one", "", "two", "three"];
    assert_eq!(search("", contents), all);
    assert_eq!(search_case_insensitive("", contents), all);
    assert_eq!(search("", contents), lines(contents));
}

#[test]
fn empty_contents_match_nothing() {
    assert_eq!(search("x", ""), Vec::<&str>::new());
    assert_eq!(search("", ""), Vec::<&str>::new());
    assert_eq!(search_case_insensitive("x", ""), Vec::<&str>::new());
    assert_eq!(search_case_insensitive("", ""), Vec::<&str>::new());
}

#[test]
fn no_match_is_empty() {
    assert_eq!(search("zebra", "one\ntwo\nthree"), Vec::<&str>::new());
    assert_eq!(
        search_case_insensitive("zebra", "one\ntwo\nthree"),
        Vec::<&str>::new()
    );
}

#[test]
fn search_twice_gives_the_same() {
    let contents = "alpha\nbeta\nalphabet\ngamma\n";
    let first = search("alpha", contents);
    let second = search("alpha", contents);
    assert_eq!(first, vec!["alpha", "alphabet"]);
    assert_eq!(first, second);
    let third = search_case_insensitive("ALPHA", contents);
    let fourth = search_case_insensitive("ALPHA", contents);
    assert_eq!(third, vec!["alpha", "alphabet"]);
    assert_eq!(third, fourth);
}

#[test]
fn repeated_lines_are_all_returned_in_order() {
    let contents = "b match\na match\nskip\nb match\na match";
    assert_eq!(
        search("match", contents),
        vec!["b match", "a match", "b match", "a match"]
    );
}

#[test]
fn matches_are_slices_of_the_contents() {
    let contents = String::from("first line\r\nsecond\nthe last line");
    let found = search("line", &contents);
    assert_eq!(found, vec!["first line", "the last line"]);
    assert_eq!(found[0], &contents[0..10]);
    assert_eq!(found[1], &contents[19..]);
    for line in found {
        assert!(contents.contains(line));
        assert!(!line.contains('\n'));
    }
}

#[test]
fn query_with_line_feed_never_matches() {
    assert_eq!(search("a\nb", "a\nb"), Vec::<&str>::new());
}

#[test]
fn lines_drop_their_endings() {
    assert_eq!(lines(""), Vec::<&str>::new());
    assert_eq!(lines("one"), vec!["one"]);
    assert_eq!(lines("one\n"), vec!["one"]);
    assert_eq!(lines("one\ntwo"), vec!["one", "two"]);
    assert_eq!(lines("one\r\ntwo\r\n"), vec!["one", "two"]);
    assert_eq!(lines("\n"), vec![""]);
    assert_eq!(lines("\n\n"), vec!["", ""]);
    assert_eq!(lines("\r\n"), vec![""]);
    assert_eq!(lines("one\n\ntwo"), vec!["one", "", "two"]);
}

#[test]
fn lines_keep_a_carriage_return_without_line_feed() {
    assert_eq!(lines("one\r"), vec!["one\r"]);
    assert_eq!(lines("one\rtwo\n"), vec!["one\rtwo"]);
    assert_eq!(lines("one\r\r\n"), vec!["one\r"]);
    assert_eq!(lines("\r"), vec!["\r"]);
}

#[test]
fn lines_agree_with_the_standard_library() {
    let texts = vec![
        "",
        "\n",
        "\r",
        "\r\n",
        "\n\r",
        "a",
        "a\n",
        "a\r\n",
        "a\n\n",
        "a\nb",
        "a\r\nb\r\n",
        "a\r\r\nb",
        "\n\na\n\n",
        "grüße\nπ ≈ 3\r\n日本語\n",
        "🦀\n🦀🦀\r\n",
        "tab\there\nnul\0there\n",
    ];
    for text in texts {
        let expected: Vec<&str> = text.lines().collect();
        assert_eq!(lines(text), expected);
    }
}

#[test]
fn split_first_line_cuts_after_the_ending() {
    assert_eq!(split_first_line(""), ("", ""));
    assert_eq!(split_first_line("one"), ("one", ""));
    assert_eq!(split_first_line("one\n"), ("one", ""));
    assert_eq!(split_first_line("one\ntwo\nthree"), ("one", "two\nthree"));
    assert_eq!(split_first_line("one\r\ntwo"), ("one", "two"));
    assert_eq!(split_first_line("\ntwo"), ("", "two"));
    assert_eq!(split_first_line("é\r\nü"), ("é", "ü"));
}

#[test]
fn contains_finds_contiguous_runs_only() {
    assert!(contains("safe, fast, productive.", "duct"));
    assert!(!contains("Duct tape.", "duct"));
    assert!(contains("abc", ""));
    assert!(contains("", ""));
    assert!(!contains("", "a"));
    assert!(contains("abc", "abc"));
    assert!(!contains("abc", "abcd"));
    assert!(contains("abc", "c"));
    assert!(contains("abc", "a"));
    assert!(!contains("abc", "ac"));
    assert!(contains("aab", "ab"));
    assert!(contains("grüße", "üß"));
    assert!(!contains("grüße", "us"));
    assert!(contains("日本語", "本"));
}

#[test]
fn contains_agrees_with_the_standard_library() {
    let texts = vec![
        "", "a", "ab", "ba", "aab", "abab", "é", "aé", "éa", "日本", "本", "🦀a🦀",
    ];
    for haystack in &texts {
        for needle in &texts {
            assert_eq!(contains(haystack, needle), haystack.contains(needle));
        }
    }
}

#[test]
fn bytes_contain_compares_byte_for_byte() {
    assert!(bytes_contain(&[1, 2, 3, 4], &[2, 3]));
    assert!(bytes_contain(&[1, 2, 3, 4], &[4]));
    assert!(bytes_contain(&[1, 2, 3, 4], &[]));
    assert!(!bytes_contain(&[1, 2, 3, 4], &[3, 2]));
    assert!(!bytes_contain(&[1, 2], &[1, 2, 3]));
    assert!(bytes_contain(&[], &[]));
}

#[test]
fn equality_of_texts_and_bytes() {
    assert!(str_eq("", ""));
    assert!(str_eq("--case-insensitive", "--case-insensitive"));
    assert!(!str_eq("--case-insensitive", "--case-insensitiv"));
    assert!(!str_eq("--case-insensitive", "--case-Insensitive"));
    assert!(str_eq("grüße", "grüße"));
    assert!(bytes_eq(&[1, 2, 3], &[1, 2, 3]));
    assert!(!bytes_eq(&[1, 2, 3], &[1, 2, 4]));
    assert!(!bytes_eq(&[1, 2, 3], &[1, 2]));
}

#[test]
fn split_at_boundary_cuts_between_characters() {
    assert_eq!(split_at_boundary("aé🦀", 0), ("", "aé🦀"));
    assert_eq!(split_at_boundary("aé🦀", 1), ("a", "é🦀"));
    assert_eq!(split_at_boundary("aé🦀", 3), ("aé", "🦀"));
    assert_eq!(split_at_boundary("aé🦀", 7), ("aé🦀", ""));
}

#[test]
fn run_searches_as_the_configuration_says() {
    let contents = "Rust:\nsafe, fast, productive.\nPick three.\nTrust me.";
    let sensitive = Config {
        query: String::from("rust"),
        filename: String::from("poem.txt"),
        case_sensitive: true,
    };
    assert_eq!(run(&sensitive, contents), vec!["Trust me."]);
    let insensitive = Config {
        query: String::from("rust"),
        filename: String::from("poem.txt"),
        case_sensitive: false,
    };
    assert_eq!(run(&insensitive, contents), vec!["Rust:", "Trust me."]);
}
