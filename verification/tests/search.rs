use minigrep::{run, search, search_case_insensitive, Config};

#[test]
fn cast_sensitive() {
    let query = "duct";
    let contents = "\
Rust:
safe, fast, productive.
Duct three.";

    assert_eq!(vec!["safe, fast, productive."], minigrep::search(query, contents));
}

#[test]
fn cast_insensitive() {
    let query = "RusT";
    let contents = "\
Rust:
safe, fast, productive.
Pick three.
Trust me.";

    assert_eq!(
        vec!["Rust:", "Trust me."],
        minigrep::search_case_insensitive(query, contents)
    );
}

#[test]
fn empty_query_returns_every_line() {
    let contents = "Rust:\nsafe, fast, productive.\n\nPick three.";
    assert_eq!(
        vec!["Rust:", "safe, fast, productive.", "", "Pick three."],
        search("", contents)
    );
    assert_eq!(
        vec!["Rust:", "safe, fast, productive.", "", "Pick three."],
        search_case_insensitive("", contents)
    );
}

#[test]
fn no_match_is_an_empty_result() {
    let none: Vec<&str> = Vec::new();
    assert_eq!(none, search("xyz", "Rust:\nsafe, fast, productive."));
    assert_eq!(none, search_case_insensitive("xyz", "Rust:\nsafe, fast, productive."));
}

#[test]
fn empty_text_has_no_lines() {
    let none: Vec<&str> = Vec::new();
    assert_eq!(none, search("", ""));
    assert_eq!(none, search("a", ""));
    assert_eq!(none, search_case_insensitive("", ""));
}

#[test]
fn final_line_feed_adds_no_line() {
    assert_eq!(vec!["one", "two"], search("", "one\ntwo\n"));
    assert_eq!(vec!["one", "two", ""], search("", "one\ntwo\n\n"));
    assert_eq!(vec![""], search("", "\n"));
}

#[test]
fn carriage_return_before_line_feed_ends_the_line() {
    assert_eq!(vec!["one", "two"], search("", "one\r\ntwo\r\n"));
    assert_eq!(vec!["", "x"], search("", "\r\nx"));
    let none: Vec<&str> = Vec::new();
    assert_eq!(none, search("\r", "one\r\ntwo\r\n"));
}

#[test]
fn lone_carriage_return_stays_in_the_line() {
    assert_eq!(vec!["one\rtwo"], search("", "one\rtwo"));
    assert_eq!(vec!["one\r"], search("", "one\r"));
    assert_eq!(vec!["one\r", "two"], search("", "one\r\r\ntwo"));
    assert_eq!(vec!["one\r"], search("\r", "one\r\r\ntwo"));
}

#[test]
fn lines_agree_with_the_standard_library() {
    let texts = [
        "",
        "\n",
        "\r",
        "\r\n",
        "\n\r",
        "a",
        "a\n",
        "a\r\n",
        "a\r",
        "a\n\nb",
        "a\r\n\r\nb\r",
        "\n\na\n",
        "grüße\r\nπ\n日本語\r",
        "a\rb\nc",
    ];
    for text in texts.iter() {
        let expected: Vec<&str> = text.lines().collect();
        assert_eq!(expected, search("", text));
    }
}

#[test]
fn matching_is_by_whole_query() {
    assert_eq!(vec!["abcabd"], search("abd", "abcabd\nab d\nabc"));
    assert_eq!(vec!["aab"], search("ab", "aab\nba"));
    assert_eq!(vec!["needle"], search("needle", "needl\nneedle\needle"));
    let none: Vec<&str> = Vec::new();
    assert_eq!(none, search("one\ntwo", "one\ntwo"));
}

#[test]
fn matching_agrees_with_the_standard_library() {
    let contents = "alpha beta\nbeta gamma\ngamma delta\naaab\nabab\nπρσ στ\n日本語\n";
    let queries = ["a", "beta", "ab", "aab", "abb", "ma d", " ", "σ σ", "本", "ρσ", "z", "alpha beta gamma"];
    for query in queries.iter() {
        let expected: Vec<&str> = contents.lines().filter(|line| line.contains(query)).collect();
        assert_eq!(expected, search(query, contents));
    }
}

#[test]
fn multibyte_text_is_searched_by_character() {
    let contents = "naïve café\nnaive cafe\nÀ votre santé";
    assert_eq!(vec!["naïve café"], search("ï", contents));
    assert_eq!(vec!["naïve café", "À votre santé"], search("é", contents));
    assert_eq!(vec!["À votre santé"], search_case_insensitive("à", contents));
    assert_eq!(vec!["naïve café"], search_case_insensitive("CAFÉ", contents));
}

#[test]
fn folding_follows_unicode_mappings() {
    assert_eq!(vec!["Straße"], search_case_insensitive("STRASSE", "Straße\nStrand"));
    assert_eq!(vec!["Straße"], search_case_insensitive("ss", "Straße\nStrand"));
    assert_eq!(vec!["ΣΊΣΥΦΟΣ", "σίσυφος"], search_case_insensitive("σ", "ΣΊΣΥΦΟΣ\nσίσυφος\nabc"));
}

#[test]
fn folding_agrees_with_the_standard_library() {
    let contents = "Rust:\nTRUST me\nrUsTy nail\nßtraße\nǆ ǅ Ǆ\nı İ i I\nﬁn FIN\nplain";
    let queries = ["rust", "RUST", "ss", "ǅ", "i", "İ", "fi", "FI", "", "plain "];
    for query in queries.iter() {
        let expected: Vec<&str> = contents
            .lines()
            .filter(|line| line.to_uppercase().contains(&query.to_uppercase()))
            .collect();
        assert_eq!(expected, search_case_insensitive(query, contents));
    }
}

#[test]
fn ignoring_case_finds_what_the_exact_search_finds() {
    let contents = "Rust:\nsafe, fast, productive.\nPick three.\nTrust me.\nrust never sleeps";
    let queries = ["rust", "Rust", "RUST", "t", "T", "", "e.", "zzz"];
    for query in queries.iter() {
        let exact = search(query, contents);
        let wider = search_case_insensitive(query, contents);
        let kept: Vec<&str> = wider.iter().copied().filter(|line| line.contains(query)).collect();
        assert_eq!(exact, kept);
        for line in exact.iter() {
            assert!(wider.contains(line));
        }
    }
    assert_eq!(vec!["Trust me.", "rust never sleeps"], search("rust", contents));
    assert_eq!(
        vec!["Rust:", "Trust me.", "rust never sleeps"],
        search_case_insensitive("rust", contents)
    );
}

#[test]
fn searching_twice_gives_the_same_lines() {
    let contents = "Rust:\nsafe, fast, productive.\nDuct three.";
    assert_eq!(search("duct", contents), search("duct", contents));
    assert_eq!(
        search_case_insensitive("duct", contents),
        search_case_insensitive("duct", contents)
    );
    assert_eq!(
        vec!["safe, fast, productive.", "Duct three."],
        search_case_insensitive("duct", contents)
    );
}

#[test]
fn results_are_slices_of_the_text() {
    let contents = String::from("first\r\nsecond\nthird");
    let found = search("", &contents);
    let start = contents.as_ptr() as usize;
    let offsets: Vec<usize> = found.iter().map(|line| line.as_ptr() as usize - start).collect();
    assert_eq!(vec![0, 7, 14], offsets);
}

#[test]
fn config_takes_query_and_filename() {
    let args = vec![
        String::from("minigrep"),
        String::from("duct"),
        String::from("poem.txt"),
    ];
    let config = Config::new(&args, false).unwrap();
    assert_eq!("duct", config.query);
    assert_eq!("poem.txt", config.filename);
    assert!(config.is_case_sensitive);
    let config = Config::new(&args, true).unwrap();
    assert_eq!("duct", config.query);
    assert_eq!("poem.txt", config.filename);
    assert!(!config.is_case_sensitive);
}

#[test]
fn config_ignores_further_arguments() {
    let args = vec![
        String::from("minigrep"),
        String::from("duct"),
        String::from("poem.txt"),
        String::from("more"),
    ];
    let config = Config::new(&args, false).unwrap();
    assert_eq!("duct", config.query);
    assert_eq!("poem.txt", config.filename);
}

#[test]
fn config_needs_two_arguments() {
    let none: Vec<String> = Vec::new();
    assert_eq!(Some("Not enough arguments."), Config::new(&none, false).err());
    let name_only = vec![String::from("minigrep")];
    assert_eq!(Some("Not enough arguments."), Config::new(&name_only, false).err());
    let no_filename = vec![String::from("minigrep"), String::from("duct")];
    assert_eq!(Some("Not enough arguments."), Config::new(&no_filename, false).err());
    assert_eq!(Some("Not enough arguments."), Config::new(&no_filename, true).err());
}

#[test]
fn run_searches_in_the_configured_mode() {
    let contents = "Rust:\nsafe, fast, productive.\nPick three.\nTrust me.";
    let args = vec![
        String::from("minigrep"),
        String::from("RusT"),
        String::from("poem.txt"),
    ];
    let exact = Config::new(&args, false).unwrap();
    let none: Vec<&str> = Vec::new();
    assert_eq!(none, run(&exact, contents));
    let folded = Config::new(&args, true).unwrap();
    assert_eq!(vec!["Rust:", "Trust me."], run(&folded, contents));
}
