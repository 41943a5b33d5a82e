use tau_vault::order::{sort_key, SortKey};
use tau_vault::sorting::{stable_order, Ranked};
use tau_vault::{
    get_order_file_path, is_order_file, list_entries, read_file_order, Entry, FileOrder,
    ORDER_FILE_NAME,
};

fn entry(name: &str, is_dir: bool) -> Entry {
    Entry {
        name: name.to_string(),
        path: format!("docs/{}", name),
        is_dir,
        modified: "1700000000".to_string(),
    }
}

fn record(names: &[&str]) -> FileOrder {
    FileOrder { order: names.iter().map(|n| n.to_string()).collect() }
}

fn names(listing: &[Entry]) -> Vec<String> {
    listing.iter().map(|e| e.name.clone()).collect()
}

#[test]
fn listing_without_record_shows_directories_first_then_by_name() {
    let found = vec![
        entry("b.md", false),
        entry("Zeta", true),
        entry("A.md", false),
        entry("alpha", true),
    ];
    let listing = list_entries(&found, &FileOrder::empty());
    assert_eq!(names(&listing), vec!["alpha", "Zeta", "A.md", "b.md"]);
}

#[test]
fn listing_compares_names_without_regard_to_case() {
    let found = vec![entry("B", false), entry("a", false), entry("C", false)];
    let listing = list_entries(&found, &FileOrder::empty());
    assert_eq!(names(&listing), vec!["a", "B", "C"]);
}

#[test]
fn listing_keeps_every_field_of_an_entry() {
    let found = vec![Entry {
        name: "note.md".to_string(),
        path: "deep/er/note.md".to_string(),
        is_dir: false,
        modified: "42".to_string(),
    }];
    let listing = list_entries(&found, &FileOrder::empty());
    assert_eq!(listing, found);
}

#[test]
fn listing_follows_the_record_and_puts_unranked_entries_last() {
    let found = vec![
        entry("a.md", false),
        entry("b.md", false),
        entry("c.md", false),
        entry("d.md", false),
    ];
    let listing = list_entries(&found, &record(&["c.md", "a.md"]));
    assert_eq!(names(&listing), vec!["c.md", "a.md", "b.md", "d.md"]);
}

#[test]
fn listing_splits_kinds_before_it_looks_at_ranks() {
    let found = vec![
        entry("first.md", false),
        entry("x", true),
        entry("y", true),
        entry("last.md", false),
    ];
    let listing = list_entries(&found, &record(&["first.md", "y", "last.md"]));
    assert_eq!(names(&listing), vec!["y", "x", "first.md", "last.md"]);
}

#[test]
fn a_ranked_entry_comes_before_an_unranked_one_whatever_its_name() {
    let found = vec![entry("aaa.md", false), entry("zzz.md", false)];
    let listing = list_entries(&found, &record(&["zzz.md"]));
    assert_eq!(names(&listing), vec!["zzz.md", "aaa.md"]);
}

#[test]
fn listing_hides_the_sidecar_file() {
    let found = vec![entry(".tau_order.json", false), entry("a.md", false)];
    let listing = list_entries(&found, &record(&[".tau_order.json", "a.md"]));
    assert_eq!(names(&listing), vec!["a.md"]);
    let only = vec![entry(ORDER_FILE_NAME, false)];
    assert!(list_entries(&only, &FileOrder::empty()).is_empty());
}

#[test]
fn listing_shows_files_whose_names_only_end_like_the_sidecar() {
    let found = vec![entry("x.tau_order.json", false)];
    let listing = list_entries(&found, &FileOrder::empty());
    assert_eq!(names(&listing), vec!["x.tau_order.json"]);
}

#[test]
fn entries_that_the_order_does_not_tell_apart_stay_as_found() {
    let one = vec![entry("readme", false), entry("README", false), entry("ReadMe", false)];
    assert_eq!(
        names(&list_entries(&one, &FileOrder::empty())),
        vec!["readme", "README", "ReadMe"]
    );
    let other = vec![entry("ReadMe", false), entry("README", false), entry("readme", false)];
    assert_eq!(
        names(&list_entries(&other, &FileOrder::empty())),
        vec!["ReadMe", "README", "readme"]
    );
}

#[test]
fn a_name_that_a_record_holds_twice_has_its_later_rank() {
    let order = record(&["a", "b", "a"]);
    assert_eq!(order.rank("a"), Some(2));
    assert_eq!(order.rank("b"), Some(1));
    assert_eq!(order.rank("c"), None);
    let found = vec![entry("a", false), entry("b", false)];
    assert_eq!(names(&list_entries(&found, &order)), vec!["b", "a"]);
}

#[test]
fn listing_of_nothing_is_empty() {
    assert!(list_entries(&Vec::new(), &record(&["a"])).is_empty());
}

#[test]
fn a_missing_record_degrades_to_the_empty_record() {
    assert_eq!(read_file_order(None), FileOrder { order: Vec::new() });
    let stored = record(&["a", "b"]);
    assert_eq!(read_file_order(Some(stored.clone())), stored);
}

#[test]
fn the_sidecar_lies_inside_its_directory() {
    assert_eq!(get_order_file_path("/vault/notes"), "/vault/notes/.tau_order.json");
    assert_eq!(get_order_file_path("/vault/notes/"), "/vault/notes/.tau_order.json");
    assert_eq!(get_order_file_path("relative"), "relative/.tau_order.json");
    assert_eq!(get_order_file_path(""), ".tau_order.json");
    assert_eq!(get_order_file_path("/"), "/.tau_order.json");
}

#[test]
fn only_the_exact_name_is_the_sidecar() {
    assert!(is_order_file(".tau_order.json"));
    assert!(!is_order_file("tau_order.json"));
    assert!(!is_order_file("a.tau_order.json"));
    assert!(!is_order_file(".tau_order.json "));
    assert!(!is_order_file(""));
}

#[test]
fn sort_key_folds_the_name_and_looks_up_the_rank() {
    let key = sort_key(true, "ÄbC.MD", &record(&["x", "ÄbC.MD"]));
    assert_eq!(
        key,
        SortKey { is_file: true, rank: Some(1), folded: "äbc.md".chars().collect() }
    );
    let unranked = sort_key(false, "Plain", &FileOrder::empty());
    assert_eq!(
        unranked,
        SortKey { is_file: false, rank: None, folded: "plain".chars().collect() }
    );
}

#[test]
fn keys_follow_the_chain_of_tie_breaks() {
    let key = |is_file: bool, rank: Option<usize>, folded: &str| SortKey {
        is_file,
        rank,
        folded: folded.chars().collect(),
    };
    // directories before files, whatever the rest
    assert!(key(false, None, "z").is_before(&key(true, Some(0), "a")));
    assert!(!key(true, Some(0), "a").is_before(&key(false, None, "z")));
    // two ranks: the ranks decide, the names do not
    assert!(key(true, Some(1), "z").is_before(&key(true, Some(2), "a")));
    assert!(!key(true, Some(2), "a").is_before(&key(true, Some(1), "z")));
    assert!(!key(true, Some(1), "a").is_before(&key(true, Some(1), "b")));
    // one rank: the ranked one first
    assert!(key(true, Some(9), "z").is_before(&key(true, None, "a")));
    assert!(!key(true, None, "a").is_before(&key(true, Some(9), "z")));
    // no rank: the names decide
    assert!(key(true, None, "a").is_before(&key(true, None, "b")));
    assert!(key(true, None, "a").is_before(&key(true, None, "ab")));
    assert!(!key(true, None, "b").is_before(&key(true, None, "a")));
    assert!(!key(true, None, "a").is_before(&key(true, None, "a")));
}

#[test]
fn stable_order_lists_every_index_once_in_ascending_order() {
    let keys: Vec<Option<SortKey>> = ["d", "b", "a", "c", "b", "a"]
        .iter()
        .map(|n| Some(SortKey { is_file: true, rank: None, folded: n.chars().collect() }))
        .collect();
    assert_eq!(stable_order(&keys), vec![2, 5, 1, 4, 3, 0]);
    assert_eq!(stable_order(&Vec::<Option<SortKey>>::new()), Vec::<usize>::new());
}

#[test]
fn stable_order_leaves_out_what_has_no_key() {
    let key = |n: &str| Some(SortKey { is_file: true, rank: None, folded: n.chars().collect() });
    let keys = vec![None, key("b"), None, key("a"), key("b"), None];
    assert_eq!(stable_order(&keys), vec![3, 1, 4]);
    assert_eq!(stable_order(&vec![None::<SortKey>, None]), Vec::<usize>::new());
}

#[test]
fn stable_order_of_many_keys_is_sorted() {
    let mut seed: u64 = 12345;
    let mut keys: Vec<Option<SortKey>> = Vec::new();
    for _ in 0..500 {
        seed = seed.wrapping_mul(6364136223846793005).wrapping_add(1442695040888963407);
        let rank = (seed >> 33) % 50;
        if rank % 7 == 0 {
            keys.push(None);
        } else {
            keys.push(Some(SortKey {
                is_file: rank % 2 == 0,
                rank: Some(rank as usize),
                folded: Vec::new(),
            }));
        }
    }
    let order = stable_order(&keys);
    assert_eq!(order.len(), keys.iter().filter(|k| k.is_some()).count());
    let mut seen = vec![false; keys.len()];
    for &i in &order {
        assert!(!seen[i]);
        seen[i] = true;
    }
    for pair in order.windows(2) {
        let (a, b) = (pair[0], pair[1]);
        let (x, y) = (keys[a].as_ref().unwrap(), keys[b].as_ref().unwrap());
        assert!(!y.is_before(x));
        if !x.is_before(y) {
            assert!(a < b);
        }
    }
}

fn sorted_by_the_chain(found: &[Entry], order: &FileOrder) -> Vec<Entry> {
    let mut ranks = std::collections::HashMap::new();
    for (rank, name) in order.order.iter().enumerate() {
        ranks.insert(name.clone(), rank);
    }
    let mut shown: Vec<&Entry> = found.iter().filter(|e| e.name != ORDER_FILE_NAME).collect();
    shown.sort_by(|a, b| match (a.is_dir, b.is_dir) {
        (true, false) => std::cmp::Ordering::Less,
        (false, true) => std::cmp::Ordering::Greater,
        _ => match (ranks.get(&a.name), ranks.get(&b.name)) {
            (Some(x), Some(y)) => x.cmp(y),
            (Some(_), None) => std::cmp::Ordering::Less,
            (None, Some(_)) => std::cmp::Ordering::Greater,
            (None, None) => a.name.to_lowercase().cmp(&b.name.to_lowercase()),
        },
    });
    shown
        .into_iter()
        .map(|e| Entry {
            name: e.name.clone(),
            path: e.path.clone(),
            is_dir: e.is_dir,
            modified: e.modified.clone(),
        })
        .collect()
}

#[test]
fn listing_agrees_with_a_stable_sort_by_the_chain_of_tie_breaks() {
    let pool = ["a", "A", "b", "B", "ab", "Ab", "é", "É", "z.md", "Z.MD", ".tau_order.json", "ß"];
    let mut seed: u64 = 99;
    let mut next = |bound: usize| {
        seed = seed.wrapping_mul(6364136223846793005).wrapping_add(1442695040888963407);
        ((seed >> 33) % bound as u64) as usize
    };
    for _ in 0..400 {
        let mut found = Vec::new();
        for i in 0..next(9) {
            found.push(Entry {
                name: pool[next(pool.len())].to_string(),
                path: format!("p{}", i),
                is_dir: next(2) == 0,
                modified: format!("{}", i),
            });
        }
        let mut order = Vec::new();
        for _ in 0..next(6) {
            order.push(pool[next(pool.len())].to_string());
        }
        let order = FileOrder { order };
        assert_eq!(list_entries(&found, &order), sorted_by_the_chain(&found, &order));
    }
}
