use tau_vault::sorting::Ranked;
use tau_vault::{
    calculate_similarity, folded_similarity, is_markdown, note_stem, suggest_links, walk_action,
    LinkSuggestion, Note, Score, WalkAction, MAX_SUGGESTIONS,
};

fn note(name: &str) -> Note {
    Note { name: name.to_string(), path: format!("notes/{}.md", name) }
}

fn value(score: Score) -> f64 {
    match score {
        Score::Contains { query_len, name_len } => {
            1.0 - (query_len as f64 / name_len as f64) * 0.5
        }
        Score::Overlap { shared, longest } => shared as f64 / longest as f64,
    }
}

#[test]
fn a_name_that_holds_the_query_scores_by_the_share_of_the_query() {
    assert_eq!(calculate_similarity("Alph", "Alpha"), Score::Contains { query_len: 4, name_len: 5 });
    assert_eq!(
        calculate_similarity("Alph", "Alphabet"),
        Score::Contains { query_len: 4, name_len: 8 }
    );
    assert_eq!(calculate_similarity("note", "note"), Score::Contains { query_len: 4, name_len: 4 });
    assert_eq!(value(calculate_similarity("Alph", "Alpha")), 0.6);
    assert_eq!(value(calculate_similarity("Alph", "Alphabet")), 0.75);
    assert_eq!(value(calculate_similarity("note", "note")), 0.5);
}

#[test]
fn a_name_that_does_not_hold_the_query_scores_by_shared_characters() {
    assert_eq!(calculate_similarity("Alph", "Beta"), Score::Overlap { shared: 1, longest: 4 });
    assert_eq!(calculate_similarity("aab", "a"), Score::Overlap { shared: 2, longest: 3 });
    assert_eq!(calculate_similarity("xyz", "abc"), Score::Overlap { shared: 0, longest: 3 });
    assert_eq!(calculate_similarity("ba", "ab"), Score::Overlap { shared: 2, longest: 2 });
    assert_eq!(calculate_similarity("abc", ""), Score::Overlap { shared: 0, longest: 3 });
    assert_eq!(value(calculate_similarity("Alph", "Beta")), 0.25);
}

#[test]
fn similarity_takes_no_notice_of_case() {
    assert_eq!(calculate_similarity("ALPH", "alpha"), Score::Contains { query_len: 4, name_len: 5 });
    assert_eq!(calculate_similarity("alph", "ALPHA"), Score::Contains { query_len: 4, name_len: 5 });
    assert_eq!(calculate_similarity("ÄB", "xäbx"), Score::Contains { query_len: 3, name_len: 5 });
}

#[test]
fn lengths_are_counted_in_bytes_and_shared_characters_one_by_one() {
    assert_eq!(calculate_similarity("é", "é!"), Score::Contains { query_len: 2, name_len: 3 });
    assert_eq!(calculate_similarity("éa", "aé"), Score::Overlap { shared: 2, longest: 3 });
    assert_eq!(calculate_similarity("日本", "本"), Score::Overlap { shared: 1, longest: 6 });
}

#[test]
fn texts_in_lower_case_are_scored_as_they_stand() {
    assert_eq!(folded_similarity("alph", "alpha"), Score::Contains { query_len: 4, name_len: 5 });
    assert_eq!(folded_similarity("ALPH", "alpha"), Score::Overlap { shared: 0, longest: 5 });
    assert_eq!(folded_similarity("Alph", "Alpha"), Score::Contains { query_len: 4, name_len: 5 });
    assert_eq!(folded_similarity("alph", "ALPHA"), Score::Overlap { shared: 0, longest: 5 });
}

#[test]
fn the_empty_query_is_held_by_every_name() {
    assert_eq!(calculate_similarity("", "abc"), Score::Contains { query_len: 0, name_len: 3 });
    assert_eq!(value(calculate_similarity("", "abc")), 1.0);
    let nothing = calculate_similarity("", "");
    assert_eq!(nothing, Score::Contains { query_len: 0, name_len: 0 });
    assert!(!nothing.is_valid());
    assert!(!nothing.is_above_threshold());
    assert!(value(nothing).is_nan());
}

#[test]
fn scores_compare_as_the_fractions_that_they_are() {
    let scores = [
        Score::Contains { query_len: 4, name_len: 5 },
        Score::Contains { query_len: 4, name_len: 8 },
        Score::Contains { query_len: 0, name_len: 3 },
        Score::Contains { query_len: 3, name_len: 3 },
        Score::Contains { query_len: 1, name_len: 2 },
        Score::Overlap { shared: 1, longest: 4 },
        Score::Overlap { shared: 3, longest: 4 },
        Score::Overlap { shared: 1, longest: 2 },
        Score::Overlap { shared: 0, longest: 7 },
        Score::Overlap { shared: 5, longest: 5 },
        Score::Overlap { shared: 3, longest: 5 },
        Score::Overlap { shared: 2, longest: 3 },
        Score::Overlap { shared: 1, longest: 10 },
        Score::Overlap { shared: 6, longest: 10 },
    ];
    for a in scores {
        for b in scores {
            assert_eq!(a.is_greater(&b), value(a) > value(b), "{:?} {:?}", a, b);
            assert_eq!(a.is_before(&b), a.is_greater(&b));
        }
        assert_eq!(a.is_above_threshold(), value(a) > 0.1, "{:?}", a);
        assert!(a.is_valid());
    }
}

#[test]
fn scores_of_the_greatest_lengths_compare_without_overflow() {
    let big = usize::MAX;
    let a = Score::Contains { query_len: big - 1, name_len: big };
    let b = Score::Contains { query_len: big, name_len: big };
    let c = Score::Overlap { shared: big, longest: big };
    let d = Score::Overlap { shared: big - 1, longest: big };
    let e = Score::Overlap { shared: big / 2, longest: big };
    assert!(a.is_greater(&b));
    assert!(!b.is_greater(&a));
    assert!(c.is_greater(&a) && c.is_greater(&b) && c.is_greater(&d));
    assert!(d.is_greater(&a));
    assert!(!a.is_greater(&d));
    assert!(b.is_greater(&e));
    assert!(!e.is_greater(&b));
    assert!(a.is_above_threshold() && e.is_above_threshold());
}

#[test]
fn a_pair_without_a_score_is_below_every_score() {
    let none = Score::Contains { query_len: 0, name_len: 0 };
    let bad = Score::Overlap { shared: 3, longest: 2 };
    let low = Score::Overlap { shared: 0, longest: 9 };
    assert!(!none.is_valid() && !bad.is_valid() && low.is_valid());
    assert!(low.is_greater(&none) && low.is_greater(&bad));
    assert!(!none.is_greater(&low) && !bad.is_greater(&low));
    assert!(!none.is_greater(&bad) && !bad.is_greater(&none));
    assert!(!none.is_above_threshold() && !bad.is_above_threshold());
}

#[test]
fn suggestions_are_ranked_by_falling_score() {
    let notes = vec![note("Alpha"), note("Alphabet"), note("Beta")];
    let suggestions = suggest_links("Alph", &notes);
    assert_eq!(
        suggestions,
        vec![
            LinkSuggestion {
                note_name: "Alphabet".to_string(),
                note_path: "notes/Alphabet.md".to_string(),
                similarity_score: Score::Contains { query_len: 4, name_len: 8 },
            },
            LinkSuggestion {
                note_name: "Alpha".to_string(),
                note_path: "notes/Alpha.md".to_string(),
                similarity_score: Score::Contains { query_len: 4, name_len: 5 },
            },
            LinkSuggestion {
                note_name: "Beta".to_string(),
                note_path: "notes/Beta.md".to_string(),
                similarity_score: Score::Overlap { shared: 1, longest: 4 },
            },
        ]
    );
    let values: Vec<f64> = suggestions.iter().map(|s| value(s.similarity_score)).collect();
    assert_eq!(values, vec![0.75, 0.6, 0.25]);
}

#[test]
fn a_score_of_one_tenth_or_less_is_dropped() {
    // one shared character of a ten-byte name: exactly one tenth
    let tenth = note("a123456789");
    assert_eq!(
        calculate_similarity("az", &tenth.name),
        Score::Overlap { shared: 1, longest: 10 }
    );
    // one of nine: just above
    let ninth = note("a12345678");
    let notes = vec![tenth, note("qqq"), ninth];
    let names: Vec<String> = suggest_links("az", &notes).into_iter().map(|s| s.note_name).collect();
    assert_eq!(names, vec!["a12345678"]);
}

#[test]
fn at_most_ten_suggestions_are_made_and_equal_scores_keep_their_order() {
    assert_eq!(MAX_SUGGESTIONS, 10);
    let mut notes = Vec::new();
    for i in 0..7 {
        notes.push(Note { name: "same".to_string(), path: format!("first/{}", i) });
    }
    notes.push(Note { name: "sam".to_string(), path: "best".to_string() });
    for i in 0..7 {
        notes.push(Note { name: "SAME".to_string(), path: format!("second/{}", i) });
    }
    let paths: Vec<String> = suggest_links("sam", &notes).into_iter().map(|s| s.note_path).collect();
    assert_eq!(
        paths,
        vec![
            "first/0", "first/1", "first/2", "first/3", "first/4", "first/5", "first/6",
            "second/0", "second/1", "second/2"
        ]
    );
    let few: Vec<String> =
        suggest_links("sam", &notes[5..9].to_vec()).into_iter().map(|s| s.note_path).collect();
    assert_eq!(few, vec!["first/5", "first/6", "second/0", "best"]);
}

#[test]
fn no_notes_no_suggestions() {
    assert!(suggest_links("anything", &Vec::new()).is_empty());
    assert!(suggest_links("", &vec![note("")]).is_empty());
    assert_eq!(suggest_links("", &vec![note("x")]).len(), 1);
}

#[test]
fn notes_are_the_files_with_the_extension_md() {
    assert!(is_markdown("a.md"));
    assert!(is_markdown("archive.tar.md"));
    assert!(is_markdown("..md"));
    assert!(is_markdown("ünï.md"));
    assert!(!is_markdown(".md"));
    assert!(!is_markdown("md"));
    assert!(!is_markdown("a.MD"));
    assert!(!is_markdown("a.Md"));
    assert!(!is_markdown("a.mdx"));
    assert!(!is_markdown("a.md.bak"));
    assert!(!is_markdown("a.m"));
    assert!(!is_markdown("a."));
    assert!(!is_markdown(".."));
    assert!(!is_markdown("."));
    assert!(!is_markdown(""));
    assert!(!is_markdown(".tau_order.json"));
}

#[test]
fn the_name_of_a_note_is_the_stem_of_its_file_name() {
    assert_eq!(note_stem("a.md"), "a");
    assert_eq!(note_stem("Project Alpha.md"), "Project Alpha");
    assert_eq!(note_stem("archive.tar.gz"), "archive.tar");
    assert_eq!(note_stem(".hidden"), ".hidden");
    assert_eq!(note_stem("noext"), "noext");
    assert_eq!(note_stem(".."), "..");
    assert_eq!(note_stem("a."), "a");
    assert_eq!(note_stem("..md"), ".");
    assert_eq!(note_stem(""), "");
    assert_eq!(note_stem("日本語.md"), "日本語");
}

#[test]
fn file_names_are_taken_apart_as_the_standard_library_does() {
    for name in [
        "a.md", "archive.tar.gz", ".hidden", "noext", "a.", "..md", "x.y.z", ".a.b", "...", "a..b",
        "日本語.md", " .md", "a.md ",
    ] {
        let path = std::path::Path::new(name);
        assert_eq!(note_stem(name), path.file_stem().unwrap().to_str().unwrap(), "{}", name);
        assert_eq!(is_markdown(name), path.extension().and_then(|e| e.to_str()) == Some("md"));
    }
}

#[test]
fn a_walk_descends_into_directories_and_reads_notes() {
    assert_eq!(walk_action("folder", true), WalkAction::Descend);
    assert_eq!(walk_action("folder.md", true), WalkAction::Descend);
    assert_eq!(walk_action("note.md", false), WalkAction::Read);
    assert_eq!(walk_action("image.png", false), WalkAction::Skip);
    assert_eq!(walk_action(".tau_order.json", false), WalkAction::Skip);
    assert_eq!(walk_action(".md", false), WalkAction::Skip);
}

#[test]
fn names_that_hold_the_query_come_before_names_that_share_little_with_it() {
    let notes = vec![note("Beta"), note("Alphabet"), note("zzAl"), note("Alpha")];
    let names: Vec<String> =
        suggest_links("Alph", &notes).into_iter().map(|s| s.note_name).collect();
    assert_eq!(names, vec!["Alphabet", "Alpha", "zzAl", "Beta"]);
    assert_eq!(calculate_similarity("Alph", "zzAl"), Score::Overlap { shared: 2, longest: 4 });
}
