use minigrep::{matching_lines, search, search_case_insensitive, Config};

#[test]
fn one_result() {
    let query = "duct";
    let content = "\
Rust:
safe, fast, productive.
Pick three.
Duct tape.";

    assert_eq!(vec!["safe, fast, productive."], search(query, content));
}

#[test]
fn case_insensitive() {
    let query = "rUsT";
    let content = "
Rust:
safe, fast, productive.
Pick three.
Trust me.";

    assert_eq!(
        vec!["Rust:", "Trust me."],
        search_case_insensitive(query, content)
    );
}

#[test]
fn build_error_config() {
    let lacked_args: Vec<String> = vec!["hoge".to_string(), "fuga".to_string()];
    let config = Config::new(&lacked_args, false);

    assert_eq!("引数の数が足りません", config.unwrap_err());
}

#[test]
fn build_success_config() {
    let query = "fuga".to_string();
    let filename = "piyo.text".to_string();

    let enough_args: Vec<String> = vec!["hoge".to_string(), query.clone(), filename.clone()];
    let r = Config::new(&enough_args, false);

    let a = r.unwrap();

    assert_eq!(&query, &a.query);
    assert_eq!(&filename, &a.filename);
}

#[test]
fn empty_args_list_is_an_error() {
    let no_args: Vec<String> = Vec::new();
    let config = Config::new(&no_args, false);

    assert_eq!("引数の数が足りません", config.unwrap_err());
}

#[test]
fn env_var_presence_inverts_the_flag() {
    let args: Vec<String> = vec![
        "prog".to_string(),
        "query".to_string(),
        "file.txt".to_string(),
    ];

    let with_var = Config::new(&args, true).unwrap();
    assert_eq!(false, with_var.case_insensitive);

    let without_var = Config::new(&args, false).unwrap();
    assert_eq!(true, without_var.case_insensitive);
}

#[test]
fn empty_query_matches_every_line() {
    let content = "one\ntwo\nthree";

    assert_eq!(vec!["one", "two", "three"], search("", content));
    assert_eq!(vec!["one", "two", "three"], search_case_insensitive("", content));
}

#[test]
fn no_match_returns_empty() {
    let content = "alpha\nbeta";

    assert_eq!(Vec::<&str>::new(), search("gamma", content));
    assert_eq!(Vec::<&str>::new(), search_case_insensitive("gamma", content));
}

#[test]
fn empty_content_returns_empty() {
    assert_eq!(Vec::<&str>::new(), search("a", ""));
    assert_eq!(Vec::<&str>::new(), search("", ""));
}

#[test]
fn trailing_newline_opens_no_empty_line() {
    let content = "match here\nand here\n";

    assert_eq!(vec!["match here", "and here"], search("here", content));
    assert_eq!(vec!["match here", "and here"], search("", content));
}

#[test]
fn duplicates_kept_in_original_order() {
    let content = "same line\nother\nsame line\nlast same line";

    assert_eq!(
        vec!["same line", "same line", "last same line"],
        search("same", content)
    );
}

#[test]
fn case_insensitive_result_contains_the_sensitive_one() {
    let query = "Ru";
    let content = "Rust:\nrusty nail\ntrust\nTRUE Ruby";

    let sensitive = search(query, content);
    let insensitive = search_case_insensitive(query, content);

    assert_eq!(vec!["Rust:", "TRUE Ruby"], sensitive);
    assert_eq!(vec!["Rust:", "rusty nail", "trust", "TRUE Ruby"], insensitive);
    for line in &sensitive {
        assert!(insensitive.contains(line));
    }
}

#[test]
fn dispatch_is_inverted_relative_to_the_flag() {
    let content = "Duct tape.\nsafe, fast, productive.";

    let flag_on = Config {
        query: "duct".to_string(),
        filename: "unused".to_string(),
        case_insensitive: true,
    };
    assert_eq!(vec!["safe, fast, productive."], matching_lines(&flag_on, content));

    let flag_off = Config {
        query: "duct".to_string(),
        filename: "unused".to_string(),
        case_insensitive: false,
    };
    assert_eq!(
        vec!["Duct tape.", "safe, fast, productive."],
        matching_lines(&flag_off, content)
    );
}

#[test]
fn multibyte_characters_are_searched_as_characters() {
    let content = "無関係な行\n引数の数が足りません\n最後の行";

    assert_eq!(vec!["引数の数が足りません"], search("数が足りません", content));
    assert_eq!(Vec::<&str>::new(), search("あ", content));
}

#[test]
fn lowercasing_touches_only_ascii_letters() {
    let content = "MiXeD CaSe LiNe\nÉTÉ stays uppercase";

    assert_eq!(vec!["MiXeD CaSe LiNe"], search_case_insensitive("mixed case", content));
    assert_eq!(Vec::<&str>::new(), search_case_insensitive("été", content));
    assert_eq!(vec!["ÉTÉ stays uppercase"], search_case_insensitive("ÉTÉ STAYS", content));
}
