use memo_tori::config::default_capture_hints;
use memo_tori::paths::AppPaths;
use memo_tori::query::{build_search_plan, SqlValue};
use memo_tori::tags::normalize_tags;
use memo_tori::text::{sort_strings, split_tokens, str_lt, str_starts_with, trim_blanks};

fn strvec(xs: &[&str]) -> Vec<String> {
    xs.iter().map(|s| s.to_string()).collect()
}

#[test]
fn trim_blanks_removes_only_edges() {
    assert_eq!(trim_blanks("  hello world \t\n"), "hello world");
    assert_eq!(trim_blanks(""), "");
    assert_eq!(trim_blanks(" \t "), "");
    assert_eq!(trim_blanks("solid"), "solid");
}

#[test]
fn split_tokens_finds_maximal_runs() {
    assert_eq!(split_tokens("one two  three"), strvec(&["one", "two", "three"]));
    assert_eq!(split_tokens("  padded  "), strvec(&["padded"]));
    assert!(split_tokens("   ").is_empty());
    assert!(split_tokens("").is_empty());
}

#[test]
fn string_order_is_by_code_point() {
    assert!(str_lt("apple", "banana"));
    assert!(!str_lt("banana", "apple"));
    assert!(str_lt("app", "apple"));
    assert!(!str_lt("apple", "apple"));
}

#[test]
fn sorting_strings_orders_ascending() {
    let sorted = sort_strings(strvec(&["pear", "apple", "orange", "apple"]));
    assert_eq!(sorted, strvec(&["apple", "apple", "orange", "pear"]));
}

#[test]
fn prefix_test_matches_characters() {
    assert!(str_starts_with("apple", "app"));
    assert!(str_starts_with("apple", ""));
    assert!(!str_starts_with("app", "apple"));
    assert!(!str_starts_with("banana", "app"));
}

#[test]
fn normalization_trims_lowercases_drops_and_dedupes() {
    assert_eq!(
        normalize_tags(&strvec(&["Home", " home ", "errand", "", "  "])),
        strvec(&["home", "errand"])
    );
    assert_eq!(normalize_tags(&strvec(&["ÉTÉ"])), strvec(&["été"]));
    assert!(normalize_tags(&Vec::new()).is_empty());
}

#[test]
fn search_plan_without_filters() {
    let plan = build_search_plan("", &Vec::new(), 200);
    assert_eq!(
        plan.sql,
        "SELECT n.id, n.content FROM notes n WHERE n.deleted_at IS NULL \
         ORDER BY n.updated_at DESC LIMIT ?"
    );
    assert_eq!(plan.args.len(), 1);
    assert!(matches!(plan.args[0], SqlValue::Int(200)));
}

#[test]
fn search_plan_with_text_only() {
    let plan = build_search_plan("  milk ", &Vec::new(), 50);
    assert_eq!(
        plan.sql,
        "SELECT n.id, n.content FROM notes n \
         JOIN notes_fts ON notes_fts.note_id = n.id \
         WHERE n.deleted_at IS NULL AND notes_fts MATCH ? \
         ORDER BY rank, n.updated_at DESC LIMIT ?"
    );
    assert_eq!(plan.args.len(), 2);
    match &plan.args[0] {
        SqlValue::Text(q) => assert_eq!(q, "milk"),
        _ => panic!("first parameter should be the trimmed query"),
    }
    assert!(matches!(plan.args[1], SqlValue::Int(50)));
}

#[test]
fn search_plan_with_tags_only() {
    let plan = build_search_plan("", &strvec(&["A", "b", "a"]), 10);
    assert_eq!(
        plan.sql,
        "SELECT n.id, n.content FROM notes n \
         JOIN notes_tags nt ON nt.note_id = n.id JOIN tags t ON t.id = nt.tag_id \
         WHERE n.deleted_at IS NULL AND t.name IN (?, ?) \
         GROUP BY n.id HAVING COUNT(DISTINCT t.name) = ? \
         ORDER BY n.updated_at DESC LIMIT ?"
    );
    assert_eq!(plan.args.len(), 4);
    match &plan.args[0] {
        SqlValue::Text(t) => assert_eq!(t, "a"),
        _ => panic!("tag parameter expected"),
    }
    match &plan.args[1] {
        SqlValue::Text(t) => assert_eq!(t, "b"),
        _ => panic!("tag parameter expected"),
    }
    assert!(matches!(plan.args[2], SqlValue::Int(2)));
    assert!(matches!(plan.args[3], SqlValue::Int(10)));
}

#[test]
fn search_plan_with_text_and_tags() {
    let plan = build_search_plan("milk", &strvec(&["home"]), 5);
    assert_eq!(
        plan.sql,
        "SELECT n.id, n.content FROM notes n \
         JOIN notes_fts ON notes_fts.note_id = n.id \
         JOIN notes_tags nt ON nt.note_id = n.id JOIN tags t ON t.id = nt.tag_id \
         WHERE n.deleted_at IS NULL AND notes_fts MATCH ? \
         AND t.name IN (?) GROUP BY n.id HAVING COUNT(DISTINCT t.name) = ? \
         ORDER BY rank, n.updated_at DESC LIMIT ?"
    );
    assert_eq!(plan.args.len(), 4);
}

#[test]
fn default_hints_are_five_prompts() {
    let hints = default_capture_hints();
    assert_eq!(hints.len(), 5);
    assert_eq!(hints[0], "L'idee que je viens d'avoir :");
    assert_eq!(hints[4], "A creuser plus tard :");
}

#[test]
fn app_paths_lay_out_both_files() {
    let paths = AppPaths::under("/data", "/cfg");
    assert_eq!(paths.db_path, "/data/memo-tori/memo-tori.db");
    assert_eq!(paths.config_path, "/cfg/memo-tori/config.toml");
    assert_eq!(AppPaths::data_dir_of("/data"), "/data/memo-tori");
    assert_eq!(AppPaths::config_dir_of("/cfg"), "/cfg/memo-tori");
}

#[test]
fn parse_tags_trims_lowercases_and_keeps_duplicates() {
    assert_eq!(
        memo_tori::input::parse_tags("Home, work ,,HOME"),
        strvec(&["home", "work", "home"])
    );
    assert!(memo_tori::input::parse_tags("").is_empty());
    assert!(memo_tori::input::parse_tags(" , ,").is_empty());
}

#[test]
fn current_fragment_is_the_text_after_the_last_comma() {
    assert_eq!(memo_tori::input::current_tag_fragment("alpha, Be "), "be");
    assert_eq!(memo_tori::input::current_tag_fragment("solo"), "solo");
    assert_eq!(memo_tori::input::current_tag_fragment("done,"), "");
    assert_eq!(memo_tori::input::current_tag_fragment(""), "");
}

#[test]
fn completion_replaces_the_fragment_and_leaves_a_separator() {
    assert_eq!(memo_tori::input::apply_tag_completion("ho", "home"), "home, ");
    assert_eq!(memo_tori::input::apply_tag_completion("work, ho", "home"), "work, home, ");
    assert_eq!(memo_tori::input::apply_tag_completion("", "x"), "x, ");
    assert_eq!(memo_tori::input::apply_tag_completion(",,a , b", "c"), "a, c, ");
}

#[test]
fn note_title_takes_the_first_non_blank_line_clipped() {
    assert_eq!(memo_tori::input::note_title("hello world\nmore"), "hello world");
    assert_eq!(memo_tori::input::note_title("\n   \n  second line  \nrest"), "second line");
    assert_eq!(memo_tori::input::note_title(""), "(empty note)");
    assert_eq!(memo_tori::input::note_title("  \n \t"), "(empty note)");
    let long = "x".repeat(100);
    assert_eq!(memo_tori::input::note_title(&long).len(), 60);
}

#[test]
fn hint_picking_is_by_seed_with_a_fixed_fallback() {
    let hints = strvec(&["one", "two", "three"]);
    assert_eq!(memo_tori::config::pick_hint(&hints, 0), "one");
    assert_eq!(memo_tori::config::pick_hint(&hints, 4), "two");
    assert_eq!(
        memo_tori::config::pick_hint(&Vec::new(), 7),
        "L'idee que je viens d'avoir :"
    );
}
