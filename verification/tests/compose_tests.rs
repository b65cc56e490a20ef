use code_dictionary::compose::{
    combine_codes, compose_code, compose_code_indexed, consulted_spots, longest, resolve_full,
    CharTable,
};
use code_dictionary::dictionary::Dictionary;

fn sample_table() -> CharTable {
    let mut table = CharTable::new();
    table.insert('他', "ta1");
    table.insert('们', "men2");
    table.insert('的', "de5");
    table.insert('人', "ren3");
    table
}

fn owned(items: &[&str]) -> Vec<String> {
    items.iter().map(|x| String::from(*x)).collect()
}

#[test]
fn two_characters_take_two_letters_each() {
    assert_eq!(compose_code(&sample_table(), "他们"), Some(String::from("tame")));
}

#[test]
fn three_characters_take_one_one_two() {
    assert_eq!(compose_code(&sample_table(), "他们的"), Some(String::from("tmde")));
}

#[test]
fn four_characters_take_first_letters() {
    assert_eq!(compose_code(&sample_table(), "他们的人"), Some(String::from("tmdr")));
}

#[test]
fn five_characters_ignore_the_middle() {
    assert_eq!(compose_code(&sample_table(), "他们的好人"), Some(String::from("tmdr")));
}

#[test]
fn long_word_needs_its_last_character() {
    assert_eq!(compose_code(&sample_table(), "他们的人好"), None);
}

#[test]
fn missing_second_character_gives_none() {
    assert_eq!(compose_code(&sample_table(), "他好"), None);
}

#[test]
fn missing_first_character_gives_none() {
    assert_eq!(compose_code(&sample_table(), "好他"), None);
}

#[test]
fn single_character_is_not_composed() {
    assert_eq!(compose_code(&sample_table(), "他"), None);
}

#[test]
fn empty_word_is_not_composed() {
    assert_eq!(compose_code(&sample_table(), ""), None);
}

#[test]
fn short_codes_are_taken_whole() {
    let mut table = CharTable::new();
    table.insert('a', "x");
    table.insert('b', "yz");
    assert_eq!(compose_code(&table, "ab"), Some(String::from("xyz")));
    assert_eq!(compose_code(&table, "ba"), Some(String::from("yzx")));
}

#[test]
fn composing_twice_gives_the_same_code() {
    let table = sample_table();
    let first = compose_code(&table, "他们的");
    let second = compose_code(&table, "他们的");
    assert_eq!(first, second);
}

#[test]
fn table_insert_overrides() {
    let mut table = CharTable::new();
    table.insert('他', "ta1");
    table.insert('他', "tuo");
    assert_eq!(table.lookup('他'), Some(String::from("tuo")));
    assert_eq!(table.lookup('们'), None);
}

#[test]
fn consulted_spots_by_length() {
    assert_eq!(consulted_spots(0), Vec::<usize>::new());
    assert_eq!(consulted_spots(2), vec![0, 1]);
    assert_eq!(consulted_spots(3), vec![0, 1, 2]);
    assert_eq!(consulted_spots(4), vec![0, 1, 2, 3]);
    assert_eq!(consulted_spots(7), vec![0, 1, 2, 6]);
}

#[test]
fn combine_codes_by_count() {
    assert_eq!(combine_codes(&owned(&["abcd", "efgh"])), "abef");
    assert_eq!(combine_codes(&owned(&["abcd", "efgh", "ijkl"])), "aeij");
    assert_eq!(combine_codes(&owned(&["abcd", "efgh", "ijkl", "mnop"])), "aeim");
    assert_eq!(combine_codes(&owned(&["", "e"])), "e");
}

#[test]
fn longest_takes_the_first_of_equals() {
    assert_eq!(longest(&owned(&["ab", "abc", "abd", "a"])), 1);
    assert_eq!(longest(&owned(&["ab"])), 0);
    assert_eq!(longest(&owned(&["a", "b"])), 0);
}

fn sample_dictionary() -> Dictionary {
    let mut d = Dictionary::new();
    d.file_word("t", "他");
    d.file_word("ta", "他");
    d.file_word("tab", "他");
    d.file_word("tac", "他");
    d.file_word("men", "们");
    d.file_word("m", "们");
    d.file_word("d", "的");
    d.file_word("renx", "人");
    d.file_word("ta", "它");
    d
}

#[test]
fn indexed_single_character_gets_longest_code() {
    let index = sample_dictionary().reverse_index();
    assert_eq!(compose_code_indexed(&index, "他"), Some(String::from("tab")));
    assert_eq!(compose_code_indexed(&index, "它"), Some(String::from("ta")));
}

#[test]
fn indexed_short_best_code_fails() {
    let index = sample_dictionary().reverse_index();
    assert_eq!(compose_code_indexed(&index, "的"), None);
    assert_eq!(compose_code_indexed(&index, "他的"), None);
    assert_eq!(compose_code_indexed(&index, "好"), None);
    assert_eq!(compose_code_indexed(&index, ""), None);
}

#[test]
fn indexed_words_are_composed() {
    let index = sample_dictionary().reverse_index();
    assert_eq!(compose_code_indexed(&index, "他们"), Some(String::from("tame")));
    assert_eq!(compose_code_indexed(&index, "他们人"), Some(String::from("tmre")));
    assert_eq!(compose_code_indexed(&index, "他们人的它"), Some(String::from("tmrt")));
}

#[test]
fn reverse_index_lists_codes_ascending() {
    let index = sample_dictionary().reverse_index();
    assert_eq!(index.candidates("他"), owned(&["t", "ta", "tab", "tac"]));
    assert_eq!(index.candidates("们"), owned(&["m", "men"]));
    assert_eq!(index.candidates("好"), Vec::<String>::new());
}

#[test]
fn full_code_of_one_place() {
    let index = sample_dictionary().reverse_index();
    assert_eq!(resolve_full(&index, "他们", 1), Some(String::from("men")));
    assert_eq!(resolve_full(&index, "他们", 0), Some(String::from("tab")));
    assert_eq!(resolve_full(&index, "他们", 2), None);
    assert_eq!(resolve_full(&index, "他的", 1), None);
}
