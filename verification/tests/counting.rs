use charcount::counter::Counter;
use charcount::counter::IncType;
use charcount::counter::char_count;
use charcount::counter::do_counting;
use charcount::tree::Entry;
use charcount::tree::run;
use charcount::tree::walk_dir;

#[test]
fn new_counter_is_all_zero() {
    let c = Counter::new();
    assert_eq!(c.files_text(), 0);
    assert_eq!(c.files_nontext(), 0);
    assert_eq!(c.directories(), 0);
    assert_eq!(c.chars_total(), 0);
    assert_eq!(c.charmap().len(), 0);
}

#[test]
fn increment_routes_each_kind() {
    let mut c = Counter::new();
    c.increment(IncType::Text);
    c.increment(IncType::NonText);
    c.increment(IncType::NonText);
    c.increment(IncType::Directory);
    c.increment(IncType::Char('x'));
    c.increment(IncType::Char('x'));
    c.increment(IncType::Char('y'));
    assert_eq!(c.files_text(), 1);
    assert_eq!(c.files_nontext(), 2);
    assert_eq!(c.directories(), 1);
    assert_eq!(c.chars_total(), 3);
    assert_eq!(c.count_of('x'), 2);
    assert_eq!(c.count_of('y'), 1);
    assert_eq!(c.count_of('z'), 0);
    assert_eq!(c.charmap().get(&('x' as u32)), Some(&2));
}

#[test]
fn char_count_tallies_in_order() {
    let mut c = Counter::new();
    char_count("hello", &mut c);
    assert_eq!(c.chars_total(), 5);
    assert_eq!(c.count_of('l'), 2);
    assert_eq!(c.count_of('h'), 1);
    assert_eq!(c.files_text(), 0);
}

#[test]
fn char_count_counts_scalar_values_not_bytes() {
    let mut c = Counter::new();
    char_count("\u{e9}\u{2603}", &mut c);
    assert_eq!(c.chars_total(), 2);
    assert_eq!(c.count_of('\u{e9}'), 1);
    assert_eq!(c.count_of('\u{2603}'), 1);
}

#[test]
fn do_counting_classifies_text() {
    let mut c = Counter::new();
    do_counting(&Some(String::from("aab")), &mut c);
    assert_eq!(c.files_text(), 1);
    assert_eq!(c.files_nontext(), 0);
    assert_eq!(c.chars_total(), 3);
    assert_eq!(c.count_of('a'), 2);
    assert_eq!(c.count_of('b'), 1);
}

#[test]
fn do_counting_classifies_nontext() {
    let mut c = Counter::new();
    do_counting(&None, &mut c);
    assert_eq!(c.files_text(), 0);
    assert_eq!(c.files_nontext(), 1);
    assert_eq!(c.chars_total(), 0);
}

#[test]
fn empty_directory_counts_one_directory() {
    let counter = run(&Entry::Directory(Vec::new()));
    assert_eq!(counter.files_text(), 0);
    assert_eq!(counter.files_nontext(), 0);
    assert_eq!(counter.directories(), 1);
    assert_eq!(counter.chars_total(), 0);
}

#[test]
fn single_text_file_aab() {
    let counter = run(&Entry::File(Some(String::from("aab"))));
    assert_eq!(counter.files_text(), 1);
    assert_eq!(counter.files_nontext(), 0);
    assert_eq!(counter.directories(), 0);
    assert_eq!(counter.chars_total(), 3);
}

#[test]
fn single_undecodable_file() {
    let counter = run(&Entry::File(None));
    assert_eq!(counter.files_text(), 0);
    assert_eq!(counter.files_nontext(), 1);
    assert_eq!(counter.directories(), 0);
    assert_eq!(counter.chars_total(), 0);
}

#[test]
fn invalid_path_counts_nothing() {
    let counter = run(&Entry::Other);
    assert_eq!(counter.files_text(), 0);
    assert_eq!(counter.files_nontext(), 0);
    assert_eq!(counter.directories(), 0);
    assert_eq!(counter.chars_total(), 0);
}

#[test]
fn empty_text_file_counts_as_text() {
    let counter = run(&Entry::File(Some(String::new())));
    assert_eq!(counter.files_text(), 1);
    assert_eq!(counter.chars_total(), 0);
}

#[test]
fn nested_tree_counts_every_entry() {
    let tree = Entry::Directory(vec![
        Entry::Directory(vec![Entry::File(Some(String::from("ab")))]),
        Entry::File(None),
        Entry::Other,
        Entry::File(Some(String::from("ba"))),
    ]);
    let counter = run(&tree);
    assert_eq!(counter.files_text(), 2);
    assert_eq!(counter.files_nontext(), 1);
    assert_eq!(counter.directories(), 2);
    assert_eq!(counter.chars_total(), 4);
    assert_eq!(counter.count_of('a'), 2);
    assert_eq!(counter.count_of('b'), 2);
}

#[test]
fn files_text_plus_nontext_is_files_visited() {
    let tree = Entry::Directory(vec![
        Entry::File(Some(String::from("x"))),
        Entry::File(None),
        Entry::File(Some(String::from("yz"))),
        Entry::Other,
        Entry::Directory(vec![Entry::File(None)]),
    ]);
    let counter = run(&tree);
    assert_eq!(counter.files_text() + counter.files_nontext(), 4);
}

#[test]
fn chars_total_is_sum_of_frequencies() {
    let mut c = Counter::new();
    char_count("abracadabra", &mut c);
    let sum: u64 = c.charmap().values().sum();
    assert_eq!(c.chars_total(), sum);
}

#[test]
fn walk_dir_leaves_non_directories_alone() {
    let mut c = Counter::new();
    walk_dir(&Entry::File(Some(String::from("abc"))), &mut c);
    assert_eq!(c.files_text(), 0);
    assert_eq!(c.chars_total(), 0);
    walk_dir(&Entry::Other, &mut c);
    assert_eq!(c.directories(), 0);
}

#[test]
fn running_twice_gives_identical_counts() {
    let tree = Entry::Directory(vec![
        Entry::File(Some(String::from("same old"))),
        Entry::Directory(vec![Entry::File(Some(String::from("same old")))]),
        Entry::File(None),
    ]);
    let a = run(&tree);
    let b = run(&tree);
    assert_eq!(a.files_text(), b.files_text());
    assert_eq!(a.files_nontext(), b.files_nontext());
    assert_eq!(a.directories(), b.directories());
    assert_eq!(a.chars_total(), b.chars_total());
    assert_eq!(a.charmap(), b.charmap());
}
