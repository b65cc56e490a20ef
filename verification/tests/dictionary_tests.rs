use code_dictionary::cli::AppArgs;
use code_dictionary::dictionary::{contains_text, Dictionary, EditError};
use code_dictionary::index::{Entry, OrderedIndex};
use code_dictionary::text::{fields, rank, split, Rank, Separator};

fn strings(items: &[&str]) -> Vec<String> {
    items.iter().map(|x| String::from(*x)).collect()
}

#[test]
fn rank_orders_by_character() {
    assert_eq!(rank("a", "b"), Rank::Before);
    assert_eq!(rank("b", "a"), Rank::After);
    assert_eq!(rank("ab", "ab"), Rank::Same);
    assert_eq!(rank("a", "ab"), Rank::Before);
    assert_eq!(rank("ab", "a"), Rank::After);
    assert_eq!(rank("", ""), Rank::Same);
    assert_eq!(rank("", "a"), Rank::Before);
    assert_eq!(rank("Z", "a"), Rank::Before);
    assert_eq!(rank("们", "他"), Rank::After);
    assert_eq!(rank("z", "他"), Rank::Before);
}

#[test]
fn split_keeps_empty_fields() {
    assert_eq!(split("a\tb", Separator::Tab), strings(&["a", "b"]));
    assert_eq!(split("a\t\tb", Separator::Tab), strings(&["a", "", "b"]));
    assert_eq!(split("", Separator::Tab), strings(&[""]));
    assert_eq!(split("\t", Separator::Tab), strings(&["", ""]));
    assert_eq!(split("a b", Separator::Tab), strings(&["a b"]));
}

#[test]
fn blank_fields_leave_out_empty_ones() {
    assert_eq!(fields("  x \t y ", Separator::Blank), strings(&["x", "y"]));
    assert_eq!(fields("", Separator::Blank), Vec::<String>::new());
    assert_eq!(fields("   ", Separator::Blank), Vec::<String>::new());
    assert_eq!(fields("他\u{3000}ta1", Separator::Blank), strings(&["他", "ta1"]));
    assert_eq!(fields("a\t\tb", Separator::Tab), strings(&["a", "", "b"]));
}

#[test]
fn added_word_is_found_once() {
    let mut d = Dictionary::new();
    assert_eq!(d.add_word("ta", "他"), Ok(()));
    assert_eq!(d.add_word("ta", "他"), Err(EditError::AlreadyExists));
    assert_eq!(d.add_word("ta", "他"), Err(EditError::AlreadyExists));
    assert_eq!(d.query_words("ta"), strings(&["他"]));
}

#[test]
fn words_keep_their_order() {
    let mut d = Dictionary::new();
    assert_eq!(d.add_word("ta", "他"), Ok(()));
    assert_eq!(d.add_word("ta", "她"), Ok(()));
    assert_eq!(d.add_word("a", "啊"), Ok(()));
    assert_eq!(d.add_word("ta", "它"), Ok(()));
    assert_eq!(d.query_words("ta"), strings(&["他", "她", "它"]));
    assert_eq!(d.query_words("a"), strings(&["啊"]));
    assert_eq!(d.query_words("t"), Vec::<String>::new());
}

#[test]
fn same_word_under_two_codes() {
    let mut d = Dictionary::new();
    assert_eq!(d.add_word("ta", "他"), Ok(()));
    assert_eq!(d.add_word("t", "他"), Ok(()));
    assert_eq!(d.query_words("ta"), strings(&["他"]));
    assert_eq!(d.query_words("t"), strings(&["他"]));
}

#[test]
fn update_replaces_known_code_only() {
    let mut d = Dictionary::new();
    assert_eq!(d.add_word("ta", "他"), Ok(()));
    d.update_words("ta", strings(&["它", "她"]));
    assert_eq!(d.query_words("ta"), strings(&["它", "她"]));
    d.update_words("men", strings(&["们"]));
    assert_eq!(d.query_words("men"), Vec::<String>::new());
    d.update_words("ta", Vec::new());
    assert_eq!(d.query_words("ta"), Vec::<String>::new());
    assert_eq!(d.add_word("ta", "他"), Ok(()));
    assert_eq!(d.query_words("ta"), strings(&["他"]));
}

#[test]
fn file_word_does_not_look_for_duplicates() {
    let mut d = Dictionary::new();
    d.file_word("ta", "他");
    d.file_word("ta", "他");
    assert_eq!(d.query_words("ta"), strings(&["他", "他"]));
}

#[test]
fn index_keeps_keys_ascending() {
    let mut index = OrderedIndex::new();
    index.append("m", "1");
    index.append("a", "2");
    index.append("z", "3");
    index.append("m", "4");
    index.append("ab", "5");
    let keys: Vec<String> = index.entries.iter().map(|e| e.key.clone()).collect();
    assert_eq!(keys, strings(&["a", "ab", "m", "z"]));
    assert_eq!(index.get("m"), strings(&["1", "4"]));
    assert_eq!(index.locate("m"), (2, true));
    assert_eq!(index.locate("b"), (2, false));
    assert_eq!(index.locate("zz"), (4, false));
    assert_eq!(index.locate(""), (0, false));
    assert!(index.replace("z", strings(&["9"])));
    assert!(!index.replace("q", strings(&["9"])));
    assert_eq!(index.get("z"), strings(&["9"]));
    assert_eq!(index.get("q"), Vec::<String>::new());
}

#[test]
fn contains_text_finds_equal_words() {
    assert!(contains_text(&strings(&["他", "她"]), "她"));
    assert!(!contains_text(&strings(&["他", "她"]), "它"));
    assert!(!contains_text(&Vec::new(), "它"));
}

#[test]
fn error_messages() {
    assert_eq!(EditError::AlreadyExists.message(), "Already exists");
    assert_eq!(EditError::NotLoaded.message(), "Not loaded");
}

#[test]
fn app_args_hold_both_paths() {
    let args = AppArgs { dict_path: Some(String::from("a.dict")), char_map_path: None };
    let copy = args.clone();
    assert_eq!(copy.dict_path, Some(String::from("a.dict")));
    assert_eq!(copy.char_map_path, None);
}

#[test]
fn order_is_kept_by_every_edit() {
    let mut d = Dictionary::new();
    assert!(d.is_ordered());
    for (code, word) in [("ta", "他"), ("a", "啊"), ("men", "们"), ("ta", "她"), ("b", "不"), ("", "空")] {
        assert_eq!(d.add_word(code, word), Ok(()));
        assert!(d.is_ordered());
    }
    d.update_words("men", strings(&["门"]));
    assert!(d.is_ordered());
    assert!(d.reverse_index().index.is_ordered());
}

#[test]
fn disorder_is_found() {
    let entry = |key: &str| Entry { key: String::from(key), items: Vec::new() };
    assert!(OrderedIndex { entries: vec![entry("a"), entry("b"), entry("c")] }.is_ordered());
    assert!(!OrderedIndex { entries: vec![entry("a"), entry("c"), entry("b")] }.is_ordered());
    assert!(!OrderedIndex { entries: vec![entry("a"), entry("a")] }.is_ordered());
    assert!(OrderedIndex { entries: vec![entry("a")] }.is_ordered());
}
