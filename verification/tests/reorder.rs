use tau_vault::{
    current_order, entry_name, list_entries, move_entry, parse_position, reorder_entries, Entry,
    FileOrder, Position, VaultError,
};

fn list(names: &[&str]) -> Vec<String> {
    names.iter().map(|n| n.to_string()).collect()
}

fn moved(names: &[&str], source: &str, target: &str, position: Position) -> Vec<String> {
    move_entry(list(names), source, target, position).unwrap()
}

#[test]
fn the_name_of_an_entry_is_the_last_segment_of_its_path() {
    assert_eq!(entry_name("notes/daily/today.md"), "today.md");
    assert_eq!(entry_name("notes\\daily\\today.md"), "today.md");
    assert_eq!(entry_name("mixed/kinds\\of.md"), "of.md");
    assert_eq!(entry_name("plain.md"), "plain.md");
    assert_eq!(entry_name("/rooted"), "rooted");
    assert_eq!(entry_name("folder/"), "");
    assert_eq!(entry_name(""), "");
    assert_eq!(entry_name("dir/ünï.md"), "ünï.md");
}

#[test]
fn only_the_word_before_means_before() {
    assert_eq!(parse_position("before"), Position::Before);
    assert_eq!(parse_position("after"), Position::After);
    assert_eq!(parse_position("Before"), Position::After);
    assert_eq!(parse_position(""), Position::After);
    assert_eq!(parse_position("anything"), Position::After);
}

#[test]
fn moving_after_a_later_target() {
    assert_eq!(moved(&["a", "b", "c", "d"], "a", "c", Position::After), list(&["b", "c", "a", "d"]));
    assert_eq!(moved(&["a", "b", "c", "d"], "a", "d", Position::After), list(&["b", "c", "d", "a"]));
    assert_eq!(moved(&["a", "b", "c", "d"], "a", "b", Position::After), list(&["b", "a", "c", "d"]));
}

#[test]
fn moving_after_an_earlier_target() {
    assert_eq!(moved(&["a", "b", "c", "d"], "d", "b", Position::After), list(&["a", "b", "d", "c"]));
    assert_eq!(moved(&["a", "b", "c", "d"], "d", "a", Position::After), list(&["a", "d", "b", "c"]));
    assert_eq!(moved(&["a", "b", "c", "d"], "b", "a", Position::After), list(&["a", "b", "c", "d"]));
}

#[test]
fn moving_before_a_later_target() {
    assert_eq!(moved(&["a", "b", "c", "d"], "a", "c", Position::Before), list(&["b", "a", "c", "d"]));
    assert_eq!(moved(&["a", "b", "c", "d"], "a", "d", Position::Before), list(&["b", "c", "a", "d"]));
    assert_eq!(moved(&["a", "b", "c", "d"], "a", "b", Position::Before), list(&["a", "b", "c", "d"]));
}

#[test]
fn moving_before_an_earlier_target() {
    assert_eq!(moved(&["a", "b", "c", "d"], "d", "b", Position::Before), list(&["a", "d", "b", "c"]));
    assert_eq!(moved(&["a", "b", "c", "d"], "d", "a", Position::Before), list(&["d", "a", "b", "c"]));
    assert_eq!(moved(&["a", "b", "c", "d"], "c", "b", Position::Before), list(&["a", "c", "b", "d"]));
}

#[test]
fn every_move_puts_the_source_next_to_the_target_and_keeps_the_rest() {
    let names = ["a", "b", "c", "d", "e"];
    for s in 0..names.len() {
        for t in 0..names.len() {
            if s == t {
                continue;
            }
            for position in [Position::Before, Position::After] {
                let out = moved(&names, names[s], names[t], position);
                let at_s = out.iter().position(|n| n == names[s]).unwrap();
                let at_t = out.iter().position(|n| n == names[t]).unwrap();
                match position {
                    Position::Before => assert_eq!(at_s + 1, at_t),
                    Position::After => assert_eq!(at_t + 1, at_s),
                }
                let mut rest_out = out.clone();
                rest_out.remove(at_s);
                let mut rest_in = list(&names);
                rest_in.remove(s);
                assert_eq!(rest_out, rest_in);
            }
        }
    }
}

#[test]
fn an_entry_moved_next_to_itself() {
    assert_eq!(moved(&["a", "b", "c"], "b", "b", Position::Before), list(&["a", "b", "c"]));
    assert_eq!(moved(&["a", "b", "c"], "c", "c", Position::Before), list(&["a", "b", "c"]));
    assert_eq!(moved(&["a", "b", "c"], "a", "a", Position::After), list(&["b", "a", "c"]));
    assert_eq!(moved(&["a", "b", "c"], "b", "b", Position::After), list(&["a", "c", "b"]));
}

#[test]
fn the_last_entry_put_after_itself_stays_last() {
    assert_eq!(moved(&["a", "b", "c"], "c", "c", Position::After), list(&["a", "b", "c"]));
    assert_eq!(moved(&["only"], "only", "only", Position::After), list(&["only"]));
    assert_eq!(moved(&["only"], "only", "only", Position::Before), list(&["only"]));
    // the first place of the name counts
    assert_eq!(moved(&["c", "a", "c"], "c", "c", Position::After), list(&["a", "c", "c"]));
}

#[test]
fn a_move_fails_when_source_or_target_is_missing() {
    let expected = |s: &str, t: &str| {
        Err(VaultError::NotFound(format!(
            "Could not find source '{}' or target '{}' in directory",
            s, t
        )))
    };
    assert_eq!(move_entry(list(&["a", "b"]), "x", "a", Position::After), expected("x", "a"));
    assert_eq!(move_entry(list(&["a", "b"]), "a", "y", Position::Before), expected("a", "y"));
    assert_eq!(move_entry(list(&["a", "b"]), "x", "y", Position::After), expected("x", "y"));
    assert_eq!(move_entry(Vec::new(), "a", "b", Position::After), expected("a", "b"));
    assert_eq!(move_entry(list(&["a", "b"]), "", "a", Position::After), expected("", "a"));
}

#[test]
fn the_first_of_equal_names_is_the_one_that_moves() {
    assert_eq!(moved(&["x", "a", "x", "b"], "x", "b", Position::After), list(&["a", "x", "b", "x"]));
}

#[test]
fn the_present_order_goes_by_rank_then_by_name_with_no_split_of_kinds() {
    let names = list(&["b.md", ".tau_order.json", "Folder", "a.md", "c.md"]);
    assert_eq!(
        current_order(&names, &FileOrder::empty()),
        list(&["a.md", "b.md", "c.md", "Folder"])
    );
    let order = FileOrder { order: list(&["c.md", "Folder"]) };
    assert_eq!(current_order(&names, &order), list(&["c.md", "Folder", "a.md", "b.md"]));
}

#[test]
fn reordering_works_on_the_names_that_the_paths_end_in() {
    let names = list(&["b.md", ".tau_order.json", "a.md", "c.md"]);
    let record =
        reorder_entries(&names, &FileOrder::empty(), "notes/c.md", "notes\\a.md", "before")
            .unwrap();
    assert_eq!(record.order, list(&["c.md", "a.md", "b.md"]));
    let record = reorder_entries(&names, &FileOrder::empty(), "a.md", "c.md", "after").unwrap();
    assert_eq!(record.order, list(&["b.md", "c.md", "a.md"]));
}

#[test]
fn reordering_starts_from_the_record_that_governs_the_directory() {
    let names = list(&["a", "b", "c", "d"]);
    let order = FileOrder { order: list(&["d", "c", "b", "a"]) };
    let record = reorder_entries(&names, &order, "a", "d", "after").unwrap();
    assert_eq!(record.order, list(&["d", "a", "c", "b"]));
}

#[test]
fn reordering_never_puts_the_sidecar_into_the_record() {
    let names = list(&[".tau_order.json", "a", "b"]);
    let order = FileOrder { order: list(&[".tau_order.json", "b", "a"]) };
    let record = reorder_entries(&names, &order, "a", "b", "before").unwrap();
    assert_eq!(record.order, list(&["a", "b"]));
    assert_eq!(
        reorder_entries(&names, &order, ".tau_order.json", "a", "after"),
        Err(VaultError::NotFound(
            "Could not find source '.tau_order.json' or target 'a' in directory".to_string()
        ))
    );
}

#[test]
fn reordering_reports_a_name_that_is_not_in_the_directory() {
    let names = list(&["a", "b"]);
    assert_eq!(
        reorder_entries(&names, &FileOrder::empty(), "dir/ghost", "a", "after"),
        Err(VaultError::NotFound(
            "Could not find source 'ghost' or target 'a' in directory".to_string()
        ))
    );
    assert_eq!(
        reorder_entries(&names, &FileOrder::empty(), "a", "dir/", "after"),
        Err(VaultError::NotFound(
            "Could not find source 'a' or target '' in directory".to_string()
        ))
    );
}

#[test]
fn reordering_the_last_entry_after_itself_gives_the_present_order() {
    let names = list(&["b.md", "a.md"]);
    assert_eq!(
        reorder_entries(&names, &FileOrder::empty(), "b.md", "b.md", "after"),
        Ok(FileOrder { order: list(&["a.md", "b.md"]) })
    );
    let names = list(&["a", "b", "c"]);
    assert_eq!(
        reorder_entries(&names, &FileOrder::empty(), "c", "x/c", "after"),
        Ok(FileOrder { order: list(&["a", "b", "c"]) })
    );
    assert_eq!(
        reorder_entries(&names, &FileOrder::empty(), "c", "c", "before"),
        Ok(FileOrder { order: list(&["a", "b", "c"]) })
    );
    assert_eq!(
        reorder_entries(&list(&["only"]), &FileOrder::empty(), "only", "only", "after"),
        Ok(FileOrder { order: list(&["only"]) })
    );
    assert_eq!(
        reorder_entries(&names, &FileOrder::empty(), "zz", "zz", "after"),
        Err(VaultError::NotFound(
            "Could not find source 'zz' or target 'zz' in directory".to_string()
        ))
    );
}

fn entry(name: &str, is_dir: bool) -> Entry {
    Entry { name: name.to_string(), path: name.to_string(), is_dir, modified: "0".to_string() }
}

#[test]
fn after_a_reordering_the_listing_shows_the_source_right_after_the_target() {
    let found = vec![
        entry("gamma.md", false),
        entry("Inbox", true),
        entry("alpha.md", false),
        entry(".tau_order.json", false),
        entry("beta.md", false),
        entry("Archive", true),
        entry("delta.md", false),
    ];
    let names: Vec<String> = found.iter().map(|e| e.name.clone()).collect();
    let record =
        reorder_entries(&names, &FileOrder::empty(), "alpha.md", "gamma.md", "after").unwrap();
    let listing: Vec<String> =
        list_entries(&found, &record).into_iter().map(|e| e.name).collect();
    assert_eq!(
        listing,
        list(&["Archive", "Inbox", "beta.md", "delta.md", "gamma.md", "alpha.md"])
    );
    let at = listing.iter().position(|n| n == "gamma.md").unwrap();
    assert_eq!(listing[at + 1], "alpha.md");
    // once more: nothing moves
    let again = reorder_entries(&names, &record, "alpha.md", "gamma.md", "after").unwrap();
    assert_eq!(again, record);
}

#[test]
fn after_a_reordering_the_listing_shows_the_source_right_before_the_target() {
    let found = vec![entry("a", true), entry("b", true), entry("c", true), entry("n.md", false)];
    let names: Vec<String> = found.iter().map(|e| e.name.clone()).collect();
    let record = reorder_entries(&names, &FileOrder::empty(), "c", "a", "before").unwrap();
    let listing: Vec<String> =
        list_entries(&found, &record).into_iter().map(|e| e.name).collect();
    assert_eq!(listing, list(&["c", "a", "b", "n.md"]));
    let again = reorder_entries(&names, &record, "c", "a", "before").unwrap();
    assert_eq!(again, record);
}
