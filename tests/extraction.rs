use extrair_chaves_de_44_digitos::{
    classify_text, find_keys, get_map, get_map_funcional, get_path, get_string_utf8,
    is_efd_contribuicoes_file, merge_file_results, process_all_efd_files_parallel,
    process_line_for_keys, split_line, KeySet, LineOutcome, MyError, SourceFile,
};

fn keys_of(content: &str) -> Vec<String> {
    get_map("PISCOFINS_TEST.txt", content.as_bytes())
        .expect("extraction succeeds")
        .keys()
        .clone()
}

fn strings(items: &[&str]) -> Vec<String> {
    items.iter().map(|s| s.to_string()).collect()
}

fn source(name: &str, content: &str) -> SourceFile {
    SourceFile {
        name: name.to_string(),
        content: content.as_bytes().to_vec(),
    }
}

#[test]
fn test_get_map_basic_extraction() {
    let file_content = r"
|FIELD1|12345678901234567890123456789012345678901234|FIELD2|
|FIELD3|TEXT_WITH_KEY 22222222222222222222222222222222222222222222 END|FIELD4||KEY 11111111111111111111111111111111111111111111|
|FIELD5|ANOTHER 33333333333333333333333333333333333333333333 KEY_HERE|KEY 4444A444444444444444444444444444444444444444|
|FIELD6|NO_KEY_HERE|FIELD7|
        ";
    let result = keys_of(file_content);
    let expected_keys = strings(&[
        "11111111111111111111111111111111111111111111",
        "12345678901234567890123456789012345678901234",
        "22222222222222222222222222222222222222222222",
        "33333333333333333333333333333333333333333333",
    ]);
    assert_eq!(result, expected_keys);
}

#[test]
fn test_get_map_with_no_keys() {
    let file_content = r"
|FIELD1|SOME TEXT|FIELD2|
|FIELD3|NO DIGITS HERE|FIELD4|
        ";
    let result = get_map("PISCOFINS_NOKEYS.txt", file_content.as_bytes()).unwrap();
    assert!(result.is_empty());
}

#[test]
fn test_get_map_with_duplicate_keys() {
    let file_content = r"

|FIELD1|KEY3 22222222222222222222222222222222222222222222|
|FIELD2|KEY1 11111111111111111111111111111111111111111111|
|FIELD3|KEY2 11111111111111111111111111111111111111111111|
        ";
    let result = get_map("PISCOFINS_DUPLICATES.txt", file_content.as_bytes()).unwrap();
    let expected_keys = strings(&[
        "11111111111111111111111111111111111111111111",
        "22222222222222222222222222222222222222222222",
    ]);
    assert_eq!(result.keys(), &expected_keys);
    assert_eq!(result.len(), 2);
}

#[test]
fn test_get_map_stops_at_9999() {
    let file_content = r"
|FIELD1|11111111111111111111111111111111111111111111|
|9999|IGNORED_FIELD|22222222222222222222222222222222222222222222|
|FIELD3|33333333333333333333333333333333333333333333|
        ";
    let result = get_map("PISCOFINS_9999.txt", file_content.as_bytes()).unwrap();
    let expected_keys = strings(&["11111111111111111111111111111111111111111111"]);
    assert_eq!(result.keys(), &expected_keys);
    assert_eq!(result.len(), 1);
}

#[test]
fn test_get_map_empty_file() {
    let result = get_map("PISCOFINS_EMPTY.txt", b"").unwrap();
    assert!(result.is_empty());
}

#[test]
fn test_get_map_with_different_encodings() {
    let file_content_utf8 = r"
|FIELD1|11111111111111111111111111111111111111111111|
|FIELD_ACCENT|áéíóúÁÉÍÓÚ|
        ";
    let result = get_map("PISCOFINS_UTF8.txt", file_content_utf8.as_bytes()).unwrap();
    assert!(result.contains("11111111111111111111111111111111111111111111"));
}

#[test]
fn windows_1252_line_is_decoded_and_searched() {
    let mut content: Vec<u8> = b"|NOME JOS\xC9|".to_vec();
    content.extend_from_slice(b"55555555555555555555555555555555555555555555|\n");
    let result = get_map("PISCOFINS_1252.txt", &content).unwrap();
    assert_eq!(
        result.keys(),
        &strings(&["55555555555555555555555555555555555555555555"])
    );
}

#[test]
fn windows_1252_fallback_gives_the_right_character() {
    let text = get_string_utf8(b"JOS\xC9", 3, "PISCOFINS_A.txt").unwrap();
    assert_eq!(text, "JOSÉ");
    let text = get_string_utf8("AÇÃO".as_bytes(), 1, "PISCOFINS_A.txt").unwrap();
    assert_eq!(text, "AÇÃO");
}

#[test]
fn split_line_drops_the_outer_pieces_and_trims() {
    let line = " | campo1| campo2 | ...... |campoN | ";
    assert_eq!(
        split_line(line),
        strings(&["campo1", "campo2", "......", "campoN"])
    );
    assert_eq!(split_line("no delimiter"), Vec::<String>::new());
    assert_eq!(split_line("|only"), Vec::<String>::new());
    assert_eq!(split_line("a|b|c"), strings(&["b"]));
}

#[test]
fn concrete_line_yields_its_key() {
    let line = "|FIELD1|12345678901234567890123456789012345678901234|FIELD2|";
    let fields = split_line(line);
    assert_eq!(
        fields,
        strings(&[
            "FIELD1",
            "12345678901234567890123456789012345678901234",
            "FIELD2"
        ])
    );
    assert_eq!(
        find_keys(&fields[1]),
        strings(&["12345678901234567890123456789012345678901234"])
    );
    assert_eq!(
        classify_text(line),
        LineOutcome::KeysFound(strings(&["12345678901234567890123456789012345678901234"]))
    );
}

#[test]
fn only_runs_of_exactly_44_digits_are_keys() {
    let d44 = "1".repeat(44);
    let d43 = "2".repeat(43);
    let d45 = "3".repeat(45);
    assert_eq!(find_keys(&format!("x{}y", d44)), vec![d44.clone()]);
    assert_eq!(find_keys(&d44), vec![d44.clone()]);
    assert!(find_keys(&format!("x{}y", d43)).is_empty());
    assert!(find_keys(&format!("x{}y", d45)).is_empty());
    assert!(find_keys("").is_empty());
}

#[test]
fn adjacent_keys_are_both_found() {
    let a = "1".repeat(44);
    let b = "2".repeat(44);
    assert_eq!(find_keys(&format!("{} {}", a, b)), vec![a.clone(), b.clone()]);
    assert_eq!(find_keys(&format!("{}A{}", a, b)), vec![a.clone(), b.clone()]);
    assert!(find_keys(&format!("{}{}", a, b)).is_empty());
}

#[test]
fn line_outcomes() {
    assert_eq!(classify_text("|9999|22222222222222222222222222222222222222222222|"), LineOutcome::Stop);
    assert_eq!(classify_text("|9999|"), LineOutcome::Stop);
    assert_eq!(classify_text("|A|"), LineOutcome::Skipped);
    assert_eq!(classify_text("plain text"), LineOutcome::Skipped);
    assert_eq!(classify_text("|A|B|"), LineOutcome::KeysFound(Vec::new()));
    assert_eq!(
        process_line_for_keys(b"  |9999|X|  \r", 7, "f.txt"),
        LineOutcome::Stop
    );
}

#[test]
fn two_files_merge_into_sorted_unique_keys() {
    let k = "9".repeat(44);
    let j = "1".repeat(44);
    let files = vec![
        source("PISCOFINS_1.txt", &format!("|A|{}|\n", k)),
        source("PISCOFINS_2.txt", &format!("|A|{}|\n|B|{}|\n", k, j)),
    ];
    let result = process_all_efd_files_parallel(&files).unwrap();
    assert_eq!(result.keys(), &vec![j.clone(), k.clone()]);
    assert_eq!(result.len(), 2);
}

#[test]
fn file_order_does_not_change_the_keys() {
    let a = format!("|A|{}|\n", "3".repeat(44));
    let b = format!("|B|{}|\n|C|{}|\n", "1".repeat(44), "2".repeat(44));
    let c = format!("|D|{}|\n", "1".repeat(44));
    let one = vec![source("1", &a), source("2", &b), source("3", &c)];
    let two = vec![source("3", &c), source("1", &a), source("2", &b)];
    let r1 = process_all_efd_files_parallel(&one).unwrap();
    let r2 = process_all_efd_files_parallel(&two).unwrap();
    assert_eq!(r1.keys(), r2.keys());
    assert_eq!(r1.len(), 3);
}

#[test]
fn extraction_is_repeatable() {
    let files = vec![source("1", &format!("|A|{}|\n", "4".repeat(44)))];
    let r1 = process_all_efd_files_parallel(&files).unwrap();
    let r2 = process_all_efd_files_parallel(&files).unwrap();
    assert_eq!(r1.keys(), r2.keys());
    let content = format!("|A|{} {}|\n", "4".repeat(44), "5".repeat(44));
    assert_eq!(
        get_map_funcional("f", content.as_bytes()).unwrap().keys(),
        get_map("f", content.as_bytes()).unwrap().keys()
    );
}

#[test]
fn no_files_give_no_keys() {
    let result = process_all_efd_files_parallel(&Vec::new()).unwrap();
    assert!(result.is_empty());
}

#[test]
fn merge_reports_the_first_error() {
    let mut ok = KeySet::new();
    ok.insert("1".repeat(44));
    let first = MyError::EncodingError("a".to_string(), 2, "x".to_string(), "y".to_string());
    let second = MyError::EncodingError("b".to_string(), 5, "x".to_string(), "y".to_string());
    let merged = merge_file_results(vec![Ok(ok), Err(first.clone()), Err(second)]);
    assert_eq!(merged.err(), Some(first));
}

#[test]
fn merge_unites_the_sets() {
    let mut a = KeySet::new();
    a.insert("2".repeat(44));
    let mut b = KeySet::new();
    b.insert("1".repeat(44));
    b.insert("2".repeat(44));
    let merged = merge_file_results(vec![Ok(a), Ok(b)]).unwrap();
    assert_eq!(merged.keys(), &vec!["1".repeat(44), "2".repeat(44)]);
}

#[test]
fn key_set_keeps_order_and_uniqueness() {
    let mut s = KeySet::new();
    assert!(s.insert("b".to_string()));
    assert!(s.insert("a".to_string()));
    assert!(!s.insert("b".to_string()));
    assert!(s.insert("ab".to_string()));
    assert_eq!(s.keys(), &strings(&["a", "ab", "b"]));
    assert!(s.contains("ab"));
    assert!(!s.contains("c"));
}

#[test]
fn file_selection() {
    assert!(is_efd_contribuicoes_file("PISCOFINS_2024.txt", true));
    assert!(is_efd_contribuicoes_file("piscofins_2024.TXT", true));
    assert!(is_efd_contribuicoes_file("PisCofins.tXt", true));
    assert!(!is_efd_contribuicoes_file("PISCOFINS_2024.txt", false));
    assert!(!is_efd_contribuicoes_file("PISCOFINS_2024.csv", true));
    assert!(!is_efd_contribuicoes_file("PISCOFINS_2024", true));
    assert!(!is_efd_contribuicoes_file("OTHER_2024.txt", true));
    assert!(!is_efd_contribuicoes_file(".txt", true));
    assert!(!is_efd_contribuicoes_file("PISCOFINS.txt.bak", true));
}

#[test]
fn path_defaults_to_current_directory() {
    assert_eq!(get_path(&None).unwrap(), ".");
    assert_eq!(get_path(&Some("/data".to_string())).unwrap(), "/data");
}
