use memo::selection::parse_selection;
use memo::{FileName, Html, MatchCondition, Memo, MemoEntry, MemoError};

const PLAIN: MatchCondition = MatchCondition { ignore_case: false, match_word: false };

fn entry(name: &str, text: &str) -> MemoEntry {
    let path = format!("/notes/memo/{name}");
    MemoEntry::parse(&path, text, &path).unwrap()
}

fn paths(search: &memo::MemoSearch) -> Vec<String> {
    search.entries().iter().map(|e| e.full_path().to_string()).collect()
}

fn store(root: &str) -> Memo {
    Memo::new(
        root,
        vec![
            entry("2024_1_1_0_0_1.txt", "Plan [work]\nfirst\n"),
            entry("2024_1_1_0_0_2.txt", "Groceries [home]\nmilk\n"),
            entry("2024_1_1_0_0_3.txt", "Deadline [work][urgent]\nsoon\n"),
        ],
    )
}

#[test]
fn file_name_round_trip() {
    let name = FileName::from_time(2024, 3, 7, 9, 5, 0, false);
    let text = name.file_name();
    assert_eq!(text, "2024_3_7_9_5_0.txt");
    let back = FileName::from_file_name(&text).unwrap();
    assert!(back == name);
    let html = FileName::from_time(1999, 12, 31, 23, 59, 59, true);
    assert_eq!(html.file_name(), "1999_12_31_23_59_59.html");
    assert!(FileName::from_file_name(&html.file_name()).unwrap() == html);
}

#[test]
fn file_name_display_is_padded() {
    let name = FileName::from_time(2024, 3, 7, 9, 5, 0, false);
    assert_eq!(name.create_time(), "2024/03/07 09:05:00");
    let short = FileName::from_file_name("7_1_2_3_4_5.txt").unwrap();
    assert_eq!(short.create_time(), "0007/01/02 03:04:05");
}

#[test]
fn file_name_decoding_rules() {
    let plain = FileName::from_file_name("2024_1_2_3_4_5").unwrap();
    assert!(plain == FileName::from_time(2024, 1, 2, 3, 4, 5, false));
    let extra = FileName::from_file_name("draft_2024_1_2_3_4_5.html").unwrap();
    assert!(extra == FileName::from_time(2024, 1, 2, 3, 4, 5, true));
    let in_dir = FileName::from_file_name("/a/b/2024_1_2_3_4_5.txt").unwrap();
    assert!(in_dir == FileName::from_time(2024, 1, 2, 3, 4, 5, false));
    assert_eq!(FileName::from_file_name("2024_1_2_3_4.txt").unwrap_err(), MemoError::InvalidValue);
    assert_eq!(FileName::from_file_name("2024_1_2_3_4_5.md").unwrap_err(), MemoError::InvalidValue);
    assert_eq!(FileName::from_file_name("").unwrap_err(), MemoError::InvalidValue);
    assert_eq!(FileName::from_file_name("/notes/").unwrap_err(), MemoError::InvalidValue);
}

#[test]
fn file_name_now() {
    let now = FileName::create(true);
    assert!(now.file_name().ends_with(".html"));
    assert!(FileName::from_file_name(&now.file_name()).unwrap() == now);
    let negative = FileName::from_time(-44, 3, 15, 0, 0, 0, false);
    assert_eq!(negative.file_name(), "-44_3_15_0_0_0.txt");
}

#[test]
fn tag_extraction() {
    let e = entry("2024_1_1_0_0_0.txt", "Buy milk [errand][home]\nfrom the shop\nsoon\n");
    assert_eq!(e.title(), "Buy milk [errand][home]");
    assert_eq!(e.tags(), "[errand] [home]");
    let odd = entry("2024_1_1_0_0_0.txt", "[] [a b] [ok-1_x] [[x]] [y");
    assert_eq!(odd.tags(), "[ok-1_x] [x]");
    let none = entry("2024_1_1_0_0_0.txt", "no tags here");
    assert_eq!(none.tags(), "");
}

#[test]
fn entry_fields() {
    let e = entry("2024_1_2_3_4_5.txt", "Title [t]\nbody");
    assert_eq!(e.create_time(), "2024/01/02 03:04:05");
    assert_eq!(e.full_path(), "/notes/memo/2024_1_2_3_4_5.txt");
    assert!(e.match_content("body", PLAIN).unwrap());
    assert!(!e.match_content("nothing", PLAIN).unwrap());
}

#[test]
fn empty_title_fails() {
    let p = "/n/2024_1_1_0_0_0.txt";
    assert_eq!(MemoEntry::parse(p, "\nbody\n", p).unwrap_err(), MemoError::Unexpected);
    assert_eq!(MemoEntry::parse(p, "  \t\nbody\n", p).unwrap_err(), MemoError::Unexpected);
    assert_eq!(MemoEntry::parse(p, "", p).unwrap_err(), MemoError::Unexpected);
    let bad = "/n/notes.txt";
    assert_eq!(MemoEntry::parse(bad, "Title", bad).unwrap_err(), MemoError::InvalidValue);
}

#[test]
fn word_boundary_matching() {
    let word = MatchCondition { ignore_case: false, match_word: true };
    let cat = entry("2024_1_1_0_0_0.txt", "Pets\na cat sleeps\n");
    let category = entry("2024_1_1_0_0_1.txt", "Lists\nby category\n");
    assert!(cat.match_any("cat", word).unwrap());
    assert!(!category.match_any("cat", word).unwrap());
    assert!(category.match_any("cat", PLAIN).unwrap());
}

#[test]
fn case_sensitivity() {
    let e = entry("2024_1_1_0_0_0.txt", "Todo [work]\n");
    let exact = MatchCondition { ignore_case: false, match_word: false };
    let loose = MatchCondition { ignore_case: true, match_word: false };
    assert!(!e.match_tag("Work", exact).unwrap());
    assert!(e.match_tag("Work", loose).unwrap());
    assert!(e.match_tag("wor", exact).unwrap());
}

#[test]
fn invalid_key_is_an_error() {
    let e = entry("2024_1_1_0_0_0.txt", "Todo [work]\n");
    assert_eq!(e.match_tag("(", PLAIN).unwrap_err(), MemoError::InvalidValue);
    assert_eq!(e.match_any("[", PLAIN).unwrap_err(), MemoError::InvalidValue);
    let memo = store("/r");
    assert_eq!(memo.find(Some(("(", false, PLAIN))).unwrap_err(), MemoError::InvalidValue);
    assert_eq!(memo.query("work+(", PLAIN).unwrap_err(), MemoError::InvalidValue);
}

#[test]
fn query_evaluation() {
    let memo = store("/r");
    let result = memo.query("work+home-urgent", PLAIN).unwrap();
    assert_eq!(
        paths(&result),
        vec!["/notes/memo/2024_1_1_0_0_1.txt", "/notes/memo/2024_1_1_0_0_2.txt"]
    );
    let left_to_right = memo.query("home+work*urgent", PLAIN).unwrap();
    assert_eq!(paths(&left_to_right), vec!["/notes/memo/2024_1_1_0_0_3.txt"]);
    let decorated = memo.query("+home*", PLAIN).unwrap();
    assert_eq!(paths(&decorated), vec!["/notes/memo/2024_1_1_0_0_2.txt"]);
    let dangling = memo.query("+-home-*", PLAIN).unwrap();
    assert!(dangling.is_empty());
    let spaced = memo.query(" work * urgent ", PLAIN).unwrap();
    assert_eq!(paths(&spaced), vec!["/notes/memo/2024_1_1_0_0_3.txt"]);
    assert!(memo.query("+-*", PLAIN).unwrap().is_empty());
}

#[test]
fn search_combines_tag_and_keys() {
    let memo = store("/r");
    let both = memo.search(Some(" work "), Some("Plan+Groceries"), PLAIN).unwrap();
    assert_eq!(paths(&both), vec!["/notes/memo/2024_1_1_0_0_1.txt"]);
    let tag_only = memo.search(Some("urgent"), None, PLAIN).unwrap();
    assert_eq!(paths(&tag_only), vec!["/notes/memo/2024_1_1_0_0_3.txt"]);
    let all = memo.search(None, None, PLAIN).unwrap();
    assert_eq!(paths(&all).len(), 3);
    let keys_only = memo.search(None, Some("milk"), PLAIN).unwrap();
    assert_eq!(paths(&keys_only), vec!["/notes/memo/2024_1_1_0_0_2.txt"]);
}

#[test]
fn algebra_on_itself() {
    let memo = store("/r");
    let a = memo.find(Some(("work", false, PLAIN))).unwrap();
    assert!(a.union(&a).unwrap() == a);
    assert!(a.intersection(&a).unwrap() == a);
    assert!(a.difference(&a).unwrap().is_empty());
}

#[test]
fn union_commutes_as_sets() {
    let memo = store("/r");
    let a = memo.find(Some(("work", true, PLAIN))).unwrap();
    let b = memo.find(Some(("home|urgent", true, PLAIN))).unwrap();
    let ab = a.union(&b).unwrap();
    let ba = b.union(&a).unwrap();
    assert_eq!(
        paths(&ab),
        vec![
            "/notes/memo/2024_1_1_0_0_1.txt",
            "/notes/memo/2024_1_1_0_0_3.txt",
            "/notes/memo/2024_1_1_0_0_2.txt"
        ]
    );
    let mut x = paths(&ab);
    let mut y = paths(&ba);
    x.sort();
    y.sort();
    assert_eq!(x, y);
    assert!(!(ab == ba));
}

#[test]
fn root_mismatch_fails() {
    let one = store("/r1");
    let two = store("/r2");
    let a = one.find(None).unwrap();
    let b = two.find(None).unwrap();
    assert_eq!(a.union(&b).unwrap_err(), MemoError::InvalidValue);
    assert_eq!(a.difference(&b).unwrap_err(), MemoError::InvalidValue);
    assert_eq!(a.intersection(&b).unwrap_err(), MemoError::InvalidValue);
    assert!(!(a == b));
}

#[test]
fn store_basics() {
    let memo = store("/r");
    assert!(!memo.is_empty());
    assert_eq!(memo.root(), "/r");
    let empty = memo.new_search();
    assert!(empty.is_empty());
    assert_eq!(empty.root(), "/r");
    let kept = memo.find_else(|e| e.title().starts_with('G')).unwrap();
    assert_eq!(paths(&kept), vec!["/notes/memo/2024_1_1_0_0_2.txt"]);
    let narrowed = memo.find(None).unwrap().find_else(|e| e.tags().contains("work")).unwrap();
    assert_eq!(paths(&narrowed).len(), 2);
    assert!(Memo::new("/r", vec![]).is_empty());
}

#[test]
fn html_pieces() {
    assert_eq!(Html::h1("Memo (2)"), "<H1>Memo (2)</H1>");
    assert_eq!(Html::link("t", "/p"), "<a href=/p>t</a>");
    assert_eq!(Html::list(vec!["a\nb", "c"]), "<ul>\n<li>a<br>b</li>\n<li>c</li>\n</ul>\n");
    assert_eq!(Html::list(vec![]), "<ul>\n</ul>\n");
    assert_eq!(Html::clear_html_tags("  <b>Bold</b>   and <i>more</i> ").unwrap(), "Bold and more");
}

#[test]
fn error_messages() {
    assert_eq!(MemoError::InvalidValue.message(), "Invalid value");
    assert_eq!(MemoError::IOError.message(), "IO error");
    assert_eq!(MemoError::Unexpected.message(), "Unexpected error");
}

#[test]
fn selection_answers() {
    assert_eq!(parse_selection("y\n", 3), vec![true, true, true]);
    assert_eq!(parse_selection(" Yes ", 2), vec![true, true]);
    assert_eq!(parse_selection("1,3\n", 4), vec![true, false, true, false]);
    assert_eq!(parse_selection("5-2", 6), vec![false, true, true, true, true, false]);
    assert_eq!(parse_selection("1 - 2, 4", 4), vec![true, true, false, true]);
    assert_eq!(parse_selection("no", 2), vec![false, false]);
    assert_eq!(parse_selection("99999999999999999999999-2", 3), vec![false, true, true]);
    assert_eq!(parse_selection("2-", 3), vec![false, true, false]);
    assert_eq!(parse_selection("", 0), Vec::<bool>::new());
}

#[test]
fn file_name_equality_is_field_wise() {
    let a = FileName::from_file_name("2024_1_2_3_4_5.txt").unwrap();
    let b = FileName::from_file_name("x/2024_1_2_3_4_5").unwrap();
    let c = FileName::from_file_name("2024_1_2_3_4_5.html").unwrap();
    assert!(a == b);
    assert!(!(a == c));
}

#[test]
fn entries_are_equal_by_path() {
    let p = "/n/2024_1_1_0_0_0.txt";
    let a = MemoEntry::parse(p, "One", p).unwrap();
    let b = MemoEntry::parse(p, "Two", p).unwrap();
    let q = "/n/2024_1_1_0_0_1.txt";
    let c = MemoEntry::parse(q, "One", q).unwrap();
    assert!(a == b);
    assert!(!(a == c));
}

#[test]
fn file_name_skips_current_dir_components() {
    let expected = FileName::from_time(2024, 1, 2, 3, 4, 5, false);
    assert!(FileName::from_file_name("2024_1_2_3_4_5.txt/.").unwrap() == expected);
    assert!(FileName::from_file_name("d/2024_1_2_3_4_5.txt/.//./").unwrap() == expected);
    assert!(FileName::from_file_name("./2024_1_2_3_4_5.txt").unwrap() == expected);
    assert_eq!(FileName::from_file_name(".").unwrap_err(), MemoError::InvalidValue);
    assert_eq!(FileName::from_file_name("d/..").unwrap_err(), MemoError::InvalidValue);
    assert_eq!(FileName::from_file_name("/.").unwrap_err(), MemoError::InvalidValue);
}
