use code_dictionary::dictionary::{Dictionary, EditError};
use code_dictionary::format::{
    entry_line, is_sentinel, parse_char_table, parse_dictionary, render, serialize_lines,
};
use code_dictionary::session::Session;

fn lines(items: &[&str]) -> Vec<String> {
    items.iter().map(|x| String::from(*x)).collect()
}

fn sample_file() -> Vec<String> {
    lines(&["# name: sample", "version\t1", "...", "他\tta", "们\tmen", "她\tta", "啊\ta"])
}

#[test]
fn header_ends_with_the_sentinel() {
    let loaded = parse_dictionary(&sample_file());
    assert_eq!(loaded.header, lines(&["# name: sample", "version\t1", "..."]));
    assert_eq!(loaded.dictionary.query_words("ta"), lines(&["他", "她"]));
    assert_eq!(loaded.dictionary.query_words("men"), lines(&["们"]));
    assert_eq!(loaded.dictionary.query_words("a"), lines(&["啊"]));
    assert_eq!(loaded.dictionary.query_words("1"), Vec::<String>::new());
}

#[test]
fn sentinel_alone_gives_no_words() {
    let loaded = parse_dictionary(&lines(&["..."]));
    assert_eq!(loaded.header, lines(&["..."]));
    assert_eq!(loaded.dictionary.index.entries.len(), 0);
    let loaded = parse_dictionary(&lines(&["a\tb", "..."]));
    assert_eq!(loaded.header, lines(&["a\tb", "..."]));
    assert_eq!(loaded.dictionary.index.entries.len(), 0);
}

#[test]
fn file_without_sentinel_is_all_header() {
    let loaded = parse_dictionary(&lines(&["他\tta", "们\tmen"]));
    assert_eq!(loaded.header, lines(&["他\tta", "们\tmen"]));
    assert_eq!(loaded.dictionary.index.entries.len(), 0);
    let loaded = parse_dictionary(&Vec::new());
    assert_eq!(loaded.header, Vec::<String>::new());
    assert_eq!(loaded.dictionary.index.entries.len(), 0);
}

#[test]
fn later_sentinel_lines_belong_to_the_body() {
    let loaded = parse_dictionary(&lines(&["...", "他\tta", "...", "们\tmen"]));
    assert_eq!(loaded.header, lines(&["..."]));
    assert_eq!(loaded.dictionary.query_words("ta"), lines(&["他"]));
    assert_eq!(loaded.dictionary.query_words("men"), lines(&["们"]));
    assert_eq!(loaded.dictionary.index.entries.len(), 2);
}

#[test]
fn malformed_lines_are_dropped() {
    let loaded = parse_dictionary(&lines(&[
        "...",
        "他\tta",
        "",
        "no tab here",
        "a\tb\tc",
        "们\tmen",
        "\t",
    ]));
    let total: usize = loaded.dictionary.index.entries.iter().map(|e| e.items.len()).sum();
    assert_eq!(total, 3);
    assert_eq!(loaded.dictionary.query_words("ta"), lines(&["他"]));
    assert_eq!(loaded.dictionary.query_words("men"), lines(&["们"]));
    assert_eq!(loaded.dictionary.query_words(""), lines(&[""]));
    assert_eq!(loaded.dictionary.query_words("b"), Vec::<String>::new());
}

#[test]
fn load_keeps_duplicates() {
    let loaded = parse_dictionary(&lines(&["...", "他\tta", "他\tta"]));
    assert_eq!(loaded.dictionary.query_words("ta"), lines(&["他", "他"]));
}

#[test]
fn sentinel_is_three_full_stops() {
    assert!(is_sentinel("..."));
    assert!(!is_sentinel(".."));
    assert!(!is_sentinel("...."));
    assert!(!is_sentinel(".a."));
    assert!(!is_sentinel("... "));
    assert!(!is_sentinel(""));
}

#[test]
fn entry_line_puts_the_word_first() {
    assert_eq!(entry_line("他", "ta"), "他\tta");
}

#[test]
fn lines_come_out_by_ascending_code() {
    let loaded = parse_dictionary(&sample_file());
    let out = serialize_lines(&loaded.dictionary, &loaded.header);
    assert_eq!(
        out,
        lines(&["# name: sample", "version\t1", "...", "啊\ta", "们\tmen", "他\tta", "她\tta"])
    );
}

#[test]
fn written_lines_read_back_the_same() {
    let loaded = parse_dictionary(&sample_file());
    let out = serialize_lines(&loaded.dictionary, &loaded.header);
    let again = parse_dictionary(&out);
    assert_eq!(again.header, loaded.header);
    assert_eq!(again.dictionary.index.entries.len(), loaded.dictionary.index.entries.len());
    for (a, b) in again.dictionary.index.entries.iter().zip(loaded.dictionary.index.entries.iter())
    {
        assert_eq!(a.key, b.key);
        assert_eq!(a.items, b.items);
    }
    assert_eq!(serialize_lines(&again.dictionary, &again.header), out);
}

#[test]
fn code_without_words_is_not_written() {
    let mut d = Dictionary::new();
    d.file_word("ta", "他");
    d.file_word("a", "啊");
    d.update_words("a", Vec::new());
    assert_eq!(serialize_lines(&d, &lines(&["..."])), lines(&["...", "他\tta"]));
}

#[test]
fn render_ends_every_line() {
    assert_eq!(render(&lines(&["a", "...", "他\tta"])), "a\n...\n他\tta\n");
    assert_eq!(render(&Vec::new()), "");
    assert_eq!(render(&lines(&[""])), "\n");
}

#[test]
fn table_lines_need_one_character_and_a_code() {
    let table = parse_char_table(&lines(&[
        "他 ta1",
        "们\tmen2",
        "  的   de5  ",
        "人人 ren3",
        "好",
        "",
        "天 tian1 extra",
        "他 tuo1",
        "地\u{3000}di4",
    ]));
    assert_eq!(table.lookup('他'), Some(String::from("tuo1")));
    assert_eq!(table.lookup('们'), Some(String::from("men2")));
    assert_eq!(table.lookup('的'), Some(String::from("de5")));
    assert_eq!(table.lookup('地'), Some(String::from("di4")));
    assert_eq!(table.lookup('人'), None);
    assert_eq!(table.lookup('好'), None);
    assert_eq!(table.lookup('天'), None);
    assert_eq!(table.codes.len(), 4);
}

#[test]
fn nothing_works_before_loading() {
    let mut s = Session::new();
    assert!(s.is_sound());
    assert_eq!(s.query_words("ta"), Err(EditError::NotLoaded));
    assert_eq!(s.add_word("ta", "他"), Err(EditError::NotLoaded));
    assert_eq!(s.update_words("ta", Vec::new()), Err(EditError::NotLoaded));
    assert_eq!(s.compose_code("他们"), Err(EditError::NotLoaded));
    assert_eq!(s.compose_code_indexed("他们"), Err(EditError::NotLoaded));
    assert_eq!(s.save(), Err(EditError::NotLoaded));
    assert_eq!(s.save_lines(), Err(EditError::NotLoaded));
    assert_eq!(s.header_text(), Err(EditError::NotLoaded));
}

#[test]
fn session_edits_and_saves() {
    let mut s = Session::new();
    s.load(&sample_file(), &lines(&["他 ta1", "们 men2", "的 de5"]));
    assert!(s.is_sound());
    assert_eq!(s.header_text(), Ok(String::from("# name: sample\nversion\t1\n...\n")));
    assert_eq!(s.query_words("ta"), Ok(lines(&["他", "她"])));
    assert_eq!(s.add_word("ta", "它"), Ok(()));
    assert_eq!(s.add_word("ta", "它"), Err(EditError::AlreadyExists));
    assert_eq!(s.add_word("de", "的"), Ok(()));
    assert_eq!(s.update_words("a", lines(&["阿", "啊"])), Ok(()));
    assert_eq!(s.update_words("zz", lines(&["阿"])), Ok(()));
    assert_eq!(s.query_words("zz"), Ok(Vec::new()));
    assert_eq!(s.compose_code("他们"), Ok(Some(String::from("tame"))));
    assert_eq!(s.compose_code("他们的"), Ok(Some(String::from("tmde"))));
    assert_eq!(s.compose_code("他好"), Ok(None));
    assert_eq!(s.compose_code_indexed("他们"), Ok(Some(String::from("tame"))));
    assert_eq!(s.compose_code_indexed("啊"), Ok(None));
    assert_eq!(
        s.save(),
        Ok(String::from(
            "# name: sample\nversion\t1\n...\n阿\ta\n啊\ta\n的\tde\n们\tmen\n他\tta\n她\tta\n它\tta\n"
        ))
    );
}

#[test]
fn loading_again_replaces_everything() {
    let mut s = Session::new();
    s.load(&sample_file(), &lines(&["他 ta1"]));
    s.load(&lines(&["...", "好\thao"]), &lines(&["好 hao3"]));
    assert_eq!(s.query_words("ta"), Ok(Vec::new()));
    assert_eq!(s.query_words("hao"), Ok(lines(&["好"])));
    assert_eq!(s.header_text(), Ok(String::from("...\n")));
    assert_eq!(s.compose_code("他好"), Ok(None));
    assert_eq!(s.compose_code("好好"), Ok(Some(String::from("haha"))));
}
