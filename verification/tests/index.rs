use simsearch::{count_exact, first_position, proximity_cost, Index, Options, PositionMetrics};

fn tokens(index: &Index<u32>, parts: &[&str]) -> Vec<String> {
    index.tokenize(parts)
}

fn positions(index: &Index<u32>, term: &str, id_num: usize) -> Option<Vec<usize>> {
    index
        .postings(term)
        .and_then(|postings| postings.get(&id_num).cloned())
}

fn positions_of(index: &Index<String>, term: &str, id_num: usize) -> Option<Vec<usize>> {
    index
        .postings(term)
        .and_then(|postings| postings.get(&id_num).cloned())
}

fn all_terms(index: &Index<u32>) -> Vec<String> {
    (0..index.term_count())
        .map(|i| index.term_at(i).to_string())
        .collect()
}

#[test]
fn default_options() {
    let options = Options::new();
    assert_eq!(options.max_results(), 10);
    assert!(options.prefix_search_enabled());
    assert!(options.typo_tolerance_enabled());
    assert!(!options.is_case_sensitive());
    assert!(options.extra_separators().is_empty());

    let default = Options::default();
    assert_eq!(default.max_results(), 10);
}

#[test]
fn option_setters_change_one_field() {
    let options = Options::new()
        .limit(3)
        .prefix_search(false)
        .typo_tolerance(false)
        .case_sensitive(true)
        .separators(&['/', ',']);
    assert_eq!(options.max_results(), 3);
    assert!(!options.prefix_search_enabled());
    assert!(!options.typo_tolerance_enabled());
    assert!(options.is_case_sensitive());
    assert_eq!(options.extra_separators(), &['/', ',']);

    let replaced = options.separators(&['.']);
    assert_eq!(replaced.extra_separators(), &['.']);
    assert_eq!(replaced.max_results(), 3);
}

#[test]
fn tokenize_splits_on_whitespace_and_lowercases() {
    let index: Index<u32> = Index::new();
    assert_eq!(
        tokens(&index, &["  The Old\tMAN\nand\u{3000}the  Sea "]),
        vec!["the", "old", "man", "and", "the", "sea"]
    );
    assert!(tokens(&index, &["", "   "]).is_empty());
}

#[test]
fn tokenize_keeps_case_when_case_sensitive() {
    let index: Index<u32> = Index::with_options(Options::new().case_sensitive(true));
    assert_eq!(tokens(&index, &["Old MAN"]), vec!["Old", "MAN"]);
}

#[test]
fn tokenize_uses_extra_separators() {
    let plain: Index<u32> = Index::new();
    assert_eq!(tokens(&plain, &["old/man"]), vec!["old/man"]);

    let index: Index<u32> = Index::with_options(Options::new().separators(&['/', ',']));
    assert_eq!(
        tokens(&index, &["old/man,,and the/sea"]),
        vec!["old", "man", "and", "the", "sea"]
    );
}

#[test]
fn tokenize_concatenates_parts() {
    let index: Index<u32> = Index::new();
    assert_eq!(
        tokens(&index, &["A Game of Thrones", "George R. R. Martin", "fantasy"]),
        vec!["a", "game", "of", "thrones", "george", "r.", "r.", "martin", "fantasy"]
    );
}

#[test]
fn insert_indexes_positions() {
    let mut index: Index<u32> = Index::new();
    index.insert(7, "apple banana apple");

    assert_eq!(index.next_id(), 1);
    assert_eq!(index.id_of(0), Some(&7));
    assert_eq!(index.document_len(0), Some(3));
    assert_eq!(positions(&index, "apple", 0), Some(vec![0, 2]));
    assert_eq!(positions(&index, "banana", 0), Some(vec![1]));
    assert!(index.postings("cherry").is_none());
    assert_eq!(all_terms(&index), vec!["apple", "banana"]);
}

#[test]
fn ids_are_numbered_in_insertion_order() {
    let mut index: Index<&str> = Index::new();
    index.insert("second", "b");
    index.insert("first", "a");
    index.insert("second", "c");

    assert_eq!(index.id_of(0), Some(&"second"));
    assert_eq!(index.id_of(1), Some(&"first"));
    assert_eq!(index.next_id(), 2);
}

#[test]
fn insert_many_updates_existing_content() {
    let mut index: Index<u32> = Index::new();
    index.insert_parts(1, &["old sea", "hemingway"]);
    index.insert_parts(2, &["hemingway"]);
    index.insert_parts(1, &["east of eden", "steinbeck"]);

    let hemingway = index.postings("hemingway").unwrap();
    assert_eq!(hemingway.len(), 1);
    assert_eq!(hemingway.get(&1), Some(&vec![0]));
    assert_eq!(index.id_of(1), Some(&2));
    assert!(index.postings("old").is_none());
    assert!(index.postings("sea").is_none());
    assert_eq!(positions(&index, "steinbeck", 0), Some(vec![3]));
    assert_eq!(index.id_of(0), Some(&1));
    assert_eq!(
        all_terms(&index),
        vec!["east", "eden", "hemingway", "of", "steinbeck"]
    );
}

#[test]
fn insert_many_searches_multiple_fields() {
    let mut index: Index<u32> = Index::new();
    index.insert_parts(1, &["old sea", "hemingway"]);
    index.insert_parts(2, &["old sea", "steinbeck"]);

    let hemingway = index.postings("hemingway").unwrap();
    assert_eq!(hemingway.len(), 1);
    assert_eq!(index.id_of(*hemingway.keys().next().unwrap()), Some(&1));
    assert_eq!(positions(&index, "hemingway", 0), Some(vec![2]));
    assert_eq!(index.postings("sea").unwrap().len(), 2);
}

#[test]
fn insert_many_uses_builtin_tokenizer() {
    let mut index: Index<u32> = Index::with_options(Options::new().separators(&['/']));
    index.insert_parts(1, &["old/man"]);

    assert_eq!(tokens(&index, &["old man"]), vec!["old", "man"]);
    assert_eq!(tokens(&index, &["old/man"]), vec!["old", "man"]);
    assert_eq!(positions(&index, "old", 0), Some(vec![0]));
    assert_eq!(positions(&index, "man", 0), Some(vec![1]));
    assert!(index.postings("old/man").is_none());
}

#[test]
fn insert_equals_insert_parts_with_one_part() {
    let mut a: Index<u32> = Index::new();
    let mut b: Index<u32> = Index::new();
    a.insert(1, "Old Man and the Sea");
    b.insert_parts(1, &["Old Man and the Sea"]);
    assert_eq!(a.document_tokens(0), b.document_tokens(0));
    assert_eq!(all_terms(&a), all_terms(&b));
}

#[test]
fn remove_prunes_reverse_map_entries() {
    let mut index: Index<String> = Index::new();
    let id = "id1".to_string();

    index.insert(id.clone(), "unique-token");
    assert_eq!(positions_of(&index, "unique-token", 0), Some(vec![0]));
    assert_eq!(index.id_of(0), Some(&id));

    index.remove(&id);

    assert!(index.postings("unique-token").is_none());
    assert_eq!(index.term_count(), 0);
}

#[test]
fn remove_keeps_other_entries() {
    let mut index: Index<String> = Index::new();
    let id = "id1".to_string();

    index.insert(id.clone(), "unique-token apple apple");
    index.insert("id2".to_string(), "apple");
    index.remove(&id);

    assert!(index.postings("unique-token").is_none());
    let apple = index.postings("apple").unwrap();
    assert_eq!(apple.len(), 1);
    assert_eq!(apple.get(&1), Some(&vec![0]));
    assert_eq!(index.id_of(0), None);
    assert_eq!(index.id_of(1), Some(&"id2".to_string()));
    assert_eq!(index.document_tokens(0), None);
    assert_eq!(index.term_count(), 1);
}

#[test]
fn removing_missing_id_changes_nothing() {
    let mut index: Index<u32> = Index::new();
    index.insert(1, "apple");
    index.remove(&2);
    assert_eq!(index.id_of(0), Some(&1));
    assert_eq!(index.term_count(), 1);
}

#[test]
fn duplicate_tokens_are_indexed_once_per_entry() {
    let mut index: Index<u32> = Index::new();
    index.insert(1, "apple apple");
    index.remove(&1);
    assert!(index.postings("apple").is_none());
    assert_eq!(index.term_count(), 0);
}

#[test]
fn reinserting_removed_id_takes_next_number() {
    let mut index: Index<u32> = Index::new();
    index.insert(1, "apple");
    index.remove(&1);
    index.insert(1, "apple");
    assert_eq!(index.id_of(1), Some(&1));
    assert_eq!(positions(&index, "apple", 1), Some(vec![0]));
    assert_eq!(index.next_id(), 2);
}

#[test]
fn clear_empties_the_index() {
    let mut index: Index<u32> = Index::with_options(Options::new().limit(4));
    index.insert(1, "apple banana");
    index.insert(2, "cherry");
    index.clear();

    assert_eq!(index.next_id(), 0);
    assert_eq!(index.term_count(), 0);
    assert_eq!(index.id_of(0), None);
    assert_eq!(index.options().max_results(), 4);

    index.insert(3, "date");
    assert_eq!(index.id_of(0), Some(&3));
}

#[test]
fn terms_stay_sorted() {
    let mut index: Index<u32> = Index::new();
    index.insert(1, "pear apple zebra");
    index.insert(2, "apples app mango");
    assert_eq!(
        all_terms(&index),
        vec!["app", "apple", "apples", "mango", "pear", "zebra"]
    );
}

#[test]
fn prefix_terms_lists_terms_with_the_prefix() {
    let mut index: Index<u32> = Index::new();
    index.insert(1, "app apple apples apricot banana ap");

    assert_eq!(index.prefix_terms("app"), vec!["app", "apple", "apples"]);
    assert_eq!(
        index.prefix_terms("ap"),
        vec!["ap", "app", "apple", "apples", "apricot"]
    );
    assert!(index.prefix_terms("").is_empty());
    assert!(index.prefix_terms("c").is_empty());
    assert!(index.prefix_terms("applesauce").is_empty());
}

#[test]
fn proximity_cost_counts_skipped_positions() {
    assert_eq!(proximity_cost(&[]), 0);
    assert_eq!(proximity_cost(&[4]), 0);
    assert_eq!(proximity_cost(&[0, 1]), 0);
    assert_eq!(proximity_cost(&[0, 4]), 3);
    assert_eq!(proximity_cost(&[1, 3, 7]), 4);
}

#[test]
fn first_position_is_the_smallest() {
    assert_eq!(first_position(&[]), usize::MAX);
    assert_eq!(first_position(&[5, 2, 9]), 2);
}

#[test]
fn count_exact_counts_true() {
    assert_eq!(count_exact(&[]), 0);
    assert_eq!(count_exact(&[true, false, true]), 2);
}

#[test]
fn position_metrics_follow_matches() {
    let metrics = PositionMetrics::new();
    assert_eq!(metrics.matched_terms, 0);
    assert_eq!(metrics.first_position, usize::MAX);
    assert_eq!(metrics.last_position, None);

    let metrics = metrics.with_match(2, true).with_match(5, false).with_match(6, true);
    assert_eq!(metrics.matched_terms, 3);
    assert_eq!(metrics.exact_terms, 2);
    assert_eq!(metrics.proximity_cost, proximity_cost(&[2, 5, 6]));
    assert_eq!(metrics.proximity_cost, 2);
    assert_eq!(metrics.first_position, first_position(&[2, 5, 6]));
    assert_eq!(metrics.last_position, Some(6));
}

#[test]
fn collect_matches_lists_sites_by_query_then_candidate() {
    let mut index: Index<u32> = Index::new();
    index.insert(1, "old man and the sea");
    index.insert(2, "sea old");
    index.insert(3, "unrelated");

    let candidates = vec![
        vec!["old".to_string(), "missing".to_string()],
        vec!["sea".to_string(), "man".to_string()],
    ];
    let matches = index.collect_matches(&candidates);

    assert_eq!(matches.len(), 2);
    let first: Vec<(usize, usize, usize)> = matches[&0]
        .iter()
        .map(|site| (site.query_index, site.candidate_index, site.doc_index))
        .collect();
    assert_eq!(first, vec![(0, 0, 0), (1, 0, 4), (1, 1, 1)]);
    let second: Vec<(usize, usize, usize)> = matches[&1]
        .iter()
        .map(|site| (site.query_index, site.candidate_index, site.doc_index))
        .collect();
    assert_eq!(second, vec![(0, 0, 1), (1, 0, 0)]);
    assert!(!matches.contains_key(&2));
}

#[test]
fn collect_matches_without_candidates_is_empty() {
    let mut index: Index<u32> = Index::new();
    index.insert(1, "apple");
    assert!(index.collect_matches(&[]).is_empty());
    assert!(index.collect_matches(&[vec!["pear".to_string()]]).is_empty());
}

fn snapshot(index: &Index<u32>) -> Vec<(String, Vec<(usize, Vec<usize>)>)> {
    all_terms(index)
        .into_iter()
        .map(|term| {
            let mut postings: Vec<(usize, Vec<usize>)> = index
                .postings(&term)
                .unwrap()
                .iter()
                .map(|(n, ps)| (*n, ps.clone()))
                .collect();
            postings.sort();
            (term, postings)
        })
        .collect()
}

#[test]
fn remove_undoes_insert() {
    let mut index: Index<u32> = Index::new();
    index.insert(1, "old man and the sea");
    index.insert(2, "sea old");
    let before = snapshot(&index);

    index.insert(3, "the old pier by the sea");
    assert_ne!(snapshot(&index), before);
    index.remove(&3);

    assert_eq!(snapshot(&index), before);
    assert_eq!(index.id_of(2), None);
    assert_eq!(index.next_id(), 3);
}

#[test]
fn last_insert_wins() {
    let mut twice: Index<u32> = Index::new();
    twice.insert(1, "apple banana");
    twice.insert(1, "cherry apple");

    let mut once: Index<u32> = Index::new();
    once.insert(1, "cherry apple");

    assert_eq!(snapshot(&twice), snapshot(&once));
    assert_eq!(twice.document_tokens(0), once.document_tokens(0));
    assert_eq!(twice.next_id(), once.next_id());
}

#[test]
fn tokens_hold_no_separators() {
    let index: Index<u32> = Index::with_options(Options::new().separators(&['-', '_']));
    for token in tokens(&index, &["a-b_c  d\u{a0}e\u{2028}f--g", "__", "h"]) {
        assert!(!token.is_empty());
        assert!(!token.chars().any(|c| c.is_whitespace() || c == '-' || c == '_'));
    }
    assert_eq!(
        tokens(&index, &["a-b_c  d\u{a0}e\u{2028}f--g", "__", "h"]),
        vec!["a", "b", "c", "d", "e", "f", "g", "h"]
    );
}

#[test]
fn word_is_one_token() {
    let index: Index<u32> = Index::new();
    assert_eq!(tokens(&index, &["hemingway"]), vec!["hemingway"]);
}

#[test]
fn lowercasing_is_unicode_aware() {
    let index: Index<u32> = Index::new();
    assert_eq!(tokens(&index, &["ÉCOLE Straße"]), vec!["école", "straße"]);
}

#[test]
fn whitespace_is_the_unicode_white_space_set() {
    let white_space = |u: u32| {
        (0x9..=0xd).contains(&u)
            || u == 0x20
            || u == 0x85
            || u == 0xa0
            || u == 0x1680
            || (0x2000..=0x200a).contains(&u)
            || u == 0x2028
            || u == 0x2029
            || u == 0x202f
            || u == 0x205f
            || u == 0x3000
    };
    let index: Index<u32> = Index::with_options(Options::new().case_sensitive(true));
    for u in 0..=0x10ffffu32 {
        if let Some(c) = char::from_u32(u) {
            let text = format!("a{}b", c);
            let split = tokens(&index, &[text.as_str()]);
            assert_eq!(split.len() == 2, white_space(u), "U+{:04X}", u);
        }
    }
}

#[test]
fn typo_prefixes_span_the_length_window() {
    assert!(simsearch::typo_prefixes("", "apple").is_empty());
    assert_eq!(simsearch::typo_prefixes("ap", "apple"), vec!["a", "ap", "app", "appl"]);
    assert_eq!(
        simsearch::typo_prefixes("appl", "apple"),
        vec!["app", "appl", "apple"]
    );
    assert_eq!(simsearch::typo_prefixes("a", "xy"), vec!["x", "xy"]);
    assert!(simsearch::typo_prefixes("abcd", "ab").is_empty());
    assert_eq!(simsearch::typo_prefixes("éé", "été"), vec!["é", "ét", "été"]);
}
