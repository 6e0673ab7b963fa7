use charcount::counter::Counter;
use charcount::counter::char_count;
use charcount::report::code_label;
use charcount::report::invalid_path_message;
use charcount::report::table_rows;
use charcount::tree::Entry;
use charcount::tree::run;

#[test]
fn code_label_renders_lowercase_hex() {
    assert_eq!(code_label('a'), "U+61;");
    assert_eq!(code_label('A'), "U+41;");
    assert_eq!(code_label('0'), "U+30;");
    assert_eq!(code_label('\u{e9}'), "U+e9;");
    assert_eq!(code_label('\u{2603}'), "U+2603;");
    assert_eq!(code_label('\u{0}'), "U+0;");
    assert_eq!(code_label('\u{10ffff}'), "U+10ffff;");
}

#[test]
fn table_for_aab_sorts_a_before_b() {
    let counter = run(&Entry::File(Some(String::from("aab"))));
    let rows = table_rows(&counter);
    assert_eq!(rows.len(), 2);
    assert_eq!(rows[0].character, 'a');
    assert_eq!(rows[0].counts, 2);
    assert_eq!(rows[0].code, "U+61;");
    assert_eq!(rows[1].character, 'b');
    assert_eq!(rows[1].counts, 1);
    assert_eq!(rows[1].code, "U+62;");
}

#[test]
fn table_is_sorted_by_descending_count() {
    let mut counter = Counter::new();
    char_count("cbbbaac", &mut counter);
    let rows = table_rows(&counter);
    assert_eq!(rows.len(), 3);
    assert_eq!((rows[0].character, rows[0].counts), ('b', 3));
    assert_eq!((rows[1].character, rows[1].counts), ('a', 2));
    assert_eq!((rows[2].character, rows[2].counts), ('c', 2));
}

#[test]
fn equal_counts_are_sorted_by_ascending_code_point() {
    let mut counter = Counter::new();
    char_count("zya", &mut counter);
    let rows = table_rows(&counter);
    assert_eq!(rows.len(), 3);
    assert_eq!(rows[0].character, 'a');
    assert_eq!(rows[1].character, 'y');
    assert_eq!(rows[2].character, 'z');
}

#[test]
fn empty_counter_gives_no_rows() {
    let counter = Counter::new();
    let rows = table_rows(&counter);
    assert_eq!(rows.len(), 0);
}

#[test]
fn invalid_path_message_names_the_path() {
    assert_eq!(invalid_path_message("/no/such"), "/no/such is not a valid path");
    assert_eq!(invalid_path_message(""), " is not a valid path");
}
