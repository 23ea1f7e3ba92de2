use azookey::dictionary::{validate_entry, UserDictEntry, UserDictionary};

fn entry(reading: &str, word: &str, part_of_speech: &str) -> UserDictEntry {
    UserDictEntry {
        reading: reading.to_string(),
        word: word.to_string(),
        part_of_speech: part_of_speech.to_string(),
    }
}

#[test]
fn tc_n_01_load_valid_tsv_file() {
    let content = "あずーきー\tazooKey\t固有名詞\nてすと\tテスト\t名詞\n";
    let dict = UserDictionary::parse(content);
    assert_eq!(dict.entries.len(), 2);
    assert_eq!(dict.entries[0].reading, "あずーきー");
    assert_eq!(dict.entries[0].word, "azooKey");
    assert_eq!(dict.entries[0].part_of_speech, "固有名詞");
}

#[test]
fn tc_n_02_load_three_column_entry() {
    let dict = UserDictionary::parse("よみ\t単語\t品詞名\n");
    assert_eq!(dict.entries.len(), 1);
    assert_eq!(dict.entries[0].reading, "よみ");
    assert_eq!(dict.entries[0].word, "単語");
    assert_eq!(dict.entries[0].part_of_speech, "品詞名");
}

#[test]
fn tc_n_03_load_two_column_entry() {
    let dict = UserDictionary::parse("よみ\t単語\n");
    assert_eq!(dict.entries.len(), 1);
    assert_eq!(dict.entries[0].part_of_speech, "その他");
}

#[test]
fn tc_n_04_add_entry() {
    let mut dict = UserDictionary::default();
    dict.add_entry(entry("てすと", "テスト", "名詞"));
    assert_eq!(dict.entries.len(), 1);
    assert_eq!(dict.entries[0].reading, "てすと");
}

#[test]
fn tc_n_05_remove_entry() {
    let mut dict = UserDictionary::default();
    dict.add_entry(entry("いち", "一", "数詞"));
    dict.add_entry(entry("に", "二", "数詞"));
    let result = dict.remove_entry(0);
    assert!(result.is_ok());
    assert_eq!(dict.entries.len(), 1);
    assert_eq!(dict.entries[0].reading, "に");
}

#[test]
fn tc_n_06_update_entry() {
    let mut dict = UserDictionary::default();
    dict.add_entry(entry("ふるい", "古い", "形容詞"));
    let result = dict.update_entry(0, entry("あたらしい", "新しい", "形容詞"));
    assert!(result.is_ok());
    assert_eq!(dict.entries[0].reading, "あたらしい");
    assert_eq!(dict.entries[0].word, "新しい");
}

#[test]
fn tc_n_07_save_dictionary() {
    let mut dict = UserDictionary::default();
    dict.add_entry(entry("ほぞん", "保存", "名詞"));
    let content = dict.to_file_content();
    assert!(content.contains("ほぞん\t保存\t名詞"));
}

#[test]
fn tc_a_02_load_empty_file() {
    let dict = UserDictionary::parse("");
    assert!(dict.entries.is_empty());
}

#[test]
fn tc_a_03_load_comments_only_file() {
    let dict = UserDictionary::parse("# これはコメント\n# これもコメント\n\n");
    assert!(dict.entries.is_empty());
}

#[test]
fn tc_a_04_remove_invalid_index() {
    let mut dict = UserDictionary::default();
    dict.add_entry(entry("てすと", "テスト", "名詞"));
    let result = dict.remove_entry(5);
    assert!(result.is_err());
    assert_eq!(result.unwrap_err(), "Invalid index");
}

#[test]
fn tc_a_05_update_invalid_index() {
    let mut dict = UserDictionary::default();
    dict.add_entry(entry("てすと", "テスト", "名詞"));
    let result = dict.update_entry(10, entry("あたらしい", "新しい", "名詞"));
    assert!(result.is_err());
    assert_eq!(result.unwrap_err(), "Invalid index");
}

#[test]
fn tc_a_06_remove_from_empty_dict() {
    let mut dict = UserDictionary::default();
    let result = dict.remove_entry(0);
    assert!(result.is_err());
    assert_eq!(result.unwrap_err(), "Invalid index");
}

#[test]
fn tc_n_08_load_file_with_mixed_content() {
    let content = "# ヘッダーコメント\n\nあいう\t愛羽\t固有名詞\n# 中間コメント\nかきく\t柿食う\t動詞\n\n";
    let dict = UserDictionary::parse(content);
    assert_eq!(dict.entries.len(), 2);
}

#[test]
fn tc_n_09_multiple_add_and_remove() {
    let mut dict = UserDictionary::default();
    dict.add_entry(entry("いち", "一", "数詞"));
    dict.add_entry(entry("に", "二", "数詞"));
    dict.add_entry(entry("さん", "三", "数詞"));
    let _ = dict.remove_entry(1);
    assert_eq!(dict.entries.len(), 2);
    assert_eq!(dict.entries[0].reading, "いち");
    assert_eq!(dict.entries[1].reading, "さん");
}

#[test]
fn tc_n_10_save_and_reload() {
    let mut dict = UserDictionary::default();
    dict.add_entry(entry("てすと", "テスト", "名詞"));
    let content = dict.to_file_content();
    let reloaded = UserDictionary::parse(&content);
    assert_eq!(reloaded.entries.len(), 1);
    assert_eq!(reloaded.entries[0].reading, "てすと");
    assert_eq!(reloaded.entries[0].word, "テスト");
    assert_eq!(reloaded.entries[0].part_of_speech, "名詞");
}

#[test]
fn file_content_has_header_and_one_line_per_entry() {
    let mut dict = UserDictionary::default();
    dict.add_entry(entry("あ", "亜", "名詞"));
    dict.add_entry(entry("い", "伊", "地名"));
    assert_eq!(
        dict.to_file_content(),
        "# ユーザー辞書ファイル\n# 読み<TAB>単語<TAB>品詞\nあ\t亜\t名詞\nい\t伊\t地名\n"
    );
}

#[test]
fn export_content_has_export_header() {
    let mut dict = UserDictionary::default();
    dict.add_entry(entry("あ", "亜", "名詞"));
    assert_eq!(
        dict.to_export_content(),
        "# ユーザー辞書エクスポート\n# 読み<TAB>単語<TAB>品詞\nあ\t亜\t名詞\n"
    );
}

#[test]
fn empty_dictionary_content_is_only_the_header() {
    let dict = UserDictionary::default();
    assert_eq!(dict.to_file_content(), "# ユーザー辞書ファイル\n# 読み<TAB>単語<TAB>品詞\n");
}

#[test]
fn saved_dictionary_reloads_with_same_entries() {
    let mut dict = UserDictionary::default();
    dict.add_entry(entry("あずーきー", "azooKey", "固有名詞"));
    dict.add_entry(entry("", "空読み", ""));
    dict.add_entry(entry("みわ", "Miwa", "人名"));
    let reloaded = UserDictionary::parse(&dict.to_file_content());
    assert_eq!(reloaded.entries.len(), 3);
    for (a, b) in dict.entries.iter().zip(reloaded.entries.iter()) {
        assert_eq!(a.reading, b.reading);
        assert_eq!(a.word, b.word);
        assert_eq!(a.part_of_speech, b.part_of_speech);
    }
}

#[test]
fn exported_dictionary_imports_back() {
    let mut dict = UserDictionary::default();
    dict.add_entry(entry("ぎっとはぶ", "GitHub", "固有名詞"));
    dict.add_entry(entry("せんざい", "Zenzai", "固有名詞"));
    let mut fresh = UserDictionary::default();
    let count = fresh.import_content(&dict.to_export_content()).unwrap();
    assert_eq!(count, 2);
    assert_eq!(fresh.entries[0].word, "GitHub");
    assert_eq!(fresh.entries[1].word, "Zenzai");
}

#[test]
fn import_appends_to_existing_entries_and_counts_only_imported() {
    let mut dict = UserDictionary::default();
    dict.add_entry(entry("いち", "一", "数詞"));
    let count = dict.import_content("# comment\nに\t二\n\nさん\t三\t数詞\n").unwrap();
    assert_eq!(count, 2);
    assert_eq!(dict.entries.len(), 3);
    assert_eq!(dict.entries[0].reading, "いち");
    assert_eq!(dict.entries[1].reading, "に");
    assert_eq!(dict.entries[1].part_of_speech, "その他");
    assert_eq!(dict.entries[2].reading, "さん");
}

#[test]
fn parse_handles_crlf_and_extra_columns() {
    let dict = UserDictionary::parse("よみ\t読み\t名詞\textra\r\nかく\t書く\r\n");
    assert_eq!(dict.entries.len(), 2);
    assert_eq!(dict.entries[0].part_of_speech, "名詞");
    assert_eq!(dict.entries[1].word, "書く");
    assert_eq!(dict.entries[1].part_of_speech, "その他");
}

#[test]
fn parse_skips_single_column_and_whitespace_lines() {
    let dict = UserDictionary::parse("onlyone\n \t \u{3000}\nx\ty\n");
    assert_eq!(dict.entries.len(), 1);
    assert_eq!(dict.entries[0].reading, "x");
    assert_eq!(dict.entries[0].word, "y");
}

#[test]
fn parse_keeps_last_line_without_line_feed() {
    let dict = UserDictionary::parse("a\tb\tc");
    assert_eq!(dict.entries.len(), 1);
    assert_eq!(dict.entries[0].part_of_speech, "c");
}

#[test]
fn remove_last_after_add_restores_dictionary() {
    let mut dict = UserDictionary::default();
    dict.add_entry(entry("いち", "一", "数詞"));
    dict.add_entry(entry("に", "二", "数詞"));
    let n = dict.entries.len();
    assert!(dict.remove_entry(n - 1).is_ok());
    assert_eq!(dict.entries.len(), 1);
    assert_eq!(dict.entries[0].reading, "いち");
}

#[test]
fn validate_rejects_blank_reading() {
    let result = validate_entry(&entry(" \t", "単語", "名詞"));
    assert_eq!(result.unwrap_err(), "読みを入力してください");
}

#[test]
fn validate_rejects_blank_word_after_reading() {
    let result = validate_entry(&entry("よみ", "\u{3000}", "名詞"));
    assert_eq!(result.unwrap_err(), "単語を入力してください");
}

#[test]
fn validate_reports_reading_first_when_both_blank() {
    let result = validate_entry(&entry("", "", ""));
    assert_eq!(result.unwrap_err(), "読みを入力してください");
}

#[test]
fn validate_accepts_entry_with_text() {
    assert!(validate_entry(&entry("よみ", "読み", "")).is_ok());
}

#[test]
fn remove_after_update_same_as_remove() {
    let mut a = UserDictionary::default();
    a.add_entry(entry("いち", "一", "数詞"));
    a.add_entry(entry("に", "二", "数詞"));
    let mut b = a.clone();
    assert!(a.update_entry(0, entry("ぜろ", "零", "数詞")).is_ok());
    assert!(a.remove_entry(0).is_ok());
    assert!(b.remove_entry(0).is_ok());
    assert_eq!(a.entries.len(), b.entries.len());
    assert_eq!(a.entries[0].reading, b.entries[0].reading);
}

fn dict_of(entries: &[(&str, &str, &str)]) -> UserDictionary {
    let mut dict = UserDictionary::default();
    for (r, w, p) in entries {
        dict.add_entry(entry(r, w, p));
    }
    dict
}

#[test]
fn validate_rejects_tab_in_word() {
    let result = validate_entry(&entry("よみ", "a\tb", "名詞"));
    assert_eq!(result.unwrap_err(), "タブや改行は使用できません");
}

#[test]
fn validate_rejects_line_breaks_in_any_field() {
    assert_eq!(validate_entry(&entry("よ\nみ", "読み", "名詞")).unwrap_err(), "タブや改行は使用できません");
    assert_eq!(validate_entry(&entry("よみ", "読み", "名詞\r")).unwrap_err(), "タブや改行は使用できません");
}

#[test]
fn validate_rejects_comment_reading() {
    let result = validate_entry(&entry("#よみ", "読み", "名詞"));
    assert_eq!(result.unwrap_err(), "読みを「#」で始めることはできません");
}

#[test]
fn find_entry_gives_first_matching_position() {
    let dict = dict_of(&[("あ", "亜", "名詞"), ("い", "伊", "地名"), ("い", "伊", "名詞")]);
    assert_eq!(dict.find_entry("い", "伊"), Some(1));
    assert_eq!(dict.find_entry("い", "亜"), None);
    assert_eq!(dict.find_entry("", ""), None);
}

#[test]
fn add_new_entry_refuses_duplicate_pair() {
    let mut dict = dict_of(&[("あずーきー", "azooKey", "固有名詞")]);
    let result = dict.add_new_entry(entry("あずーきー", "azooKey", "名詞"));
    assert_eq!(result.unwrap_err(), "同じ読みと単語の組み合わせが既に登録されています");
    assert_eq!(dict.entries.len(), 1);
    assert_eq!(dict.entries[0].part_of_speech, "固有名詞");
}

#[test]
fn add_new_entry_accepts_same_reading_with_other_word() {
    let mut dict = dict_of(&[("かく", "書く", "動詞")]);
    assert!(dict.add_new_entry(entry("かく", "描く", "動詞")).is_ok());
    assert_eq!(dict.entries.len(), 2);
    assert_eq!(dict.entries[1].word, "描く");
}

#[test]
fn add_new_entry_refuses_invalid_entry_unchanged() {
    let mut dict = UserDictionary::default();
    let result = dict.add_new_entry(entry("よみ", "a\tb", "名詞"));
    assert_eq!(result.unwrap_err(), "タブや改行は使用できません");
    assert!(dict.entries.is_empty());
}

#[test]
fn accepted_entries_read_back_after_save() {
    let mut dict = UserDictionary::default();
    assert!(dict.add_new_entry(entry("みわ", "Miwa", "人名")).is_ok());
    assert!(dict.add_new_entry(entry("せんざい", "Zenzai", "")).is_ok());
    let reloaded = UserDictionary::parse(&dict.to_file_content());
    assert_eq!(reloaded.entries.len(), 2);
    assert_eq!(reloaded.entries[1].word, "Zenzai");
    assert_eq!(reloaded.entries[1].part_of_speech, "");
}

#[test]
fn replace_entry_refuses_pair_of_another_entry() {
    let mut dict = dict_of(&[("あ", "亜", "名詞"), ("い", "伊", "地名")]);
    let result = dict.replace_entry(1, entry("あ", "亜", "地名"));
    assert_eq!(result.unwrap_err(), "同じ読みと単語の組み合わせが既に登録されています");
    assert_eq!(dict.entries[1].word, "伊");
}

#[test]
fn replace_entry_may_keep_its_own_pair() {
    let mut dict = dict_of(&[("あ", "亜", "名詞"), ("い", "伊", "地名")]);
    assert!(dict.replace_entry(1, entry("い", "伊", "名詞")).is_ok());
    assert_eq!(dict.entries[1].part_of_speech, "名詞");
}

#[test]
fn replace_entry_refuses_index_past_end() {
    let mut dict = dict_of(&[("あ", "亜", "名詞")]);
    assert_eq!(dict.replace_entry(3, entry("い", "伊", "")).unwrap_err(), "Invalid index");
}

#[test]
fn import_refuses_line_with_one_field() {
    let mut dict = dict_of(&[("いち", "一", "数詞")]);
    let result = dict.import_content("x");
    assert_eq!(result.unwrap_err(), "不正な形式の行があります");
    assert_eq!(dict.entries.len(), 1);
    assert_eq!(dict.entries[0].reading, "いち");
}

#[test]
fn import_refuses_line_with_blank_reading() {
    let mut dict = UserDictionary::default();
    assert!(dict.import_content("よみ\t読み\n\t単語\n").is_err());
    assert!(dict.entries.is_empty());
}

#[test]
fn checked_parse_skips_comments_and_blank_lines() {
    let dict = UserDictionary::parse_checked("# head\n\n \nよみ\t読み\n").unwrap();
    assert_eq!(dict.entries.len(), 1);
    assert_eq!(dict.entries[0].part_of_speech, "その他");
}
