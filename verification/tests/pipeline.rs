use rom_dedupe::CatalogRecord;
use rom_dedupe::DedupeError;
use rom_dedupe::NameGroup;
use rom_dedupe::candidate_paths;
use rom_dedupe::filename_of;
use rom_dedupe::group;
use rom_dedupe::join_path;
use rom_dedupe::moves_for_choice;
use rom_dedupe::parse_choice;
use rom_dedupe::resolve_existing;

fn tetris_catalog() -> Vec<CatalogRecord> {
    vec![
        CatalogRecord::new("a/tetris.zip".to_string(), "Tetris".to_string()),
        CatalogRecord::new("b/tetris (alt).zip".to_string(), "Tetris".to_string()),
    ]
}

#[test]
fn keep_second_moves_first() {
    let groups = group(&tetris_catalog()).unwrap();
    assert_eq!(groups.len(), 1);
    let g = &groups[0];
    assert_eq!(g.name, "Tetris");
    assert_eq!(g.filenames, vec!["tetris.zip", "tetris (alt).zip"]);

    let cands = candidate_paths(g, "roms").unwrap();
    assert_eq!(cands, vec!["roms/tetris.zip", "roms/tetris (alt).zip"]);

    // both files are present on disk
    let set = resolve_existing(g, "roms", &vec![true, true]).unwrap();
    assert_eq!(set.name, "Tetris");
    assert_eq!(set.paths, vec!["roms/tetris.zip", "roms/tetris (alt).zip"]);

    let choice = parse_choice("2\n");
    assert_eq!(choice, 2);
    let moves = moves_for_choice(&set, "dups", choice);
    assert_eq!(moves.len(), 1);
    assert_eq!(moves[0].from, "roms/tetris.zip");
    assert_eq!(moves[0].to, "dups/tetris.zip");
}

#[test]
fn empty_input_keeps_first() {
    let groups = group(&tetris_catalog()).unwrap();
    let set = resolve_existing(&groups[0], "roms", &vec![true, true]).unwrap();

    let choice = parse_choice("");
    assert_eq!(choice, 1);
    let moves = moves_for_choice(&set, "dups", choice);
    assert_eq!(moves.len(), 1);
    assert_eq!(moves[0].from, "roms/tetris (alt).zip");
    assert_eq!(moves[0].to, "dups/tetris (alt).zip");
}

#[test]
fn single_filename_is_no_candidate() {
    let records = vec![CatalogRecord::new(
        "p/pacman.zip".to_string(),
        "Pac-Man".to_string(),
    )];
    let groups = group(&records).unwrap();
    assert_eq!(groups.len(), 1);
    assert!(candidate_paths(&groups[0], "roms").is_none());
}

#[test]
fn missing_file_is_excluded() {
    let groups = group(&tetris_catalog()).unwrap();
    // the second catalog entry points at a file that is not on disk, so
    // only one real file remains and there is nothing to resolve
    assert!(resolve_existing(&groups[0], "roms", &vec![true, false]).is_none());
}

#[test]
fn two_of_three_present_still_resolve() {
    let records = vec![
        CatalogRecord::new("a/x.zip".to_string(), "X".to_string()),
        CatalogRecord::new("b/x (u).zip".to_string(), "X".to_string()),
        CatalogRecord::new("c/x (e).zip".to_string(), "X".to_string()),
    ];
    let groups = group(&records).unwrap();
    let set = resolve_existing(&groups[0], "roms", &vec![true, false, true]).unwrap();
    assert_eq!(set.filenames, vec!["x.zip", "x (e).zip"]);
    assert_eq!(set.paths, vec!["roms/x.zip", "roms/x (e).zip"]);
}

#[test]
fn grouping_keeps_first_seen_order_and_duplicates() {
    let records = vec![
        CatalogRecord::new("a/one.zip".to_string(), "One".to_string()),
        CatalogRecord::new("b/two.zip".to_string(), "Two".to_string()),
        CatalogRecord::new("c/one (alt).zip".to_string(), "One".to_string()),
        // the same filename listed twice under one name stays listed twice
        CatalogRecord::new("d/one.zip".to_string(), "One".to_string()),
    ];
    let groups = group(&records).unwrap();
    assert_eq!(groups.len(), 2);
    assert_eq!(groups[0].name, "One");
    assert_eq!(groups[0].filenames, vec!["one.zip", "one (alt).zip", "one.zip"]);
    assert_eq!(groups[1].name, "Two");
    assert_eq!(groups[1].filenames, vec!["two.zip"]);
}

#[test]
fn grouping_is_deterministic() {
    let records = vec![
        CatalogRecord::new("a/one.zip".to_string(), "One".to_string()),
        CatalogRecord::new("b/two.zip".to_string(), "Two".to_string()),
        CatalogRecord::new("c/one (alt).zip".to_string(), "One".to_string()),
    ];
    let first = group(&records).unwrap();
    let second = group(&records).unwrap();
    assert_eq!(first.len(), second.len());
    for (a, b) in first.iter().zip(second.iter()) {
        assert_eq!(a.name, b.name);
        assert_eq!(a.filenames, b.filenames);
    }
}

#[test]
fn malformed_path_aborts_grouping() {
    let records = vec![
        CatalogRecord::new("a/ok.zip".to_string(), "Ok".to_string()),
        CatalogRecord::new("///".to_string(), "Bad".to_string()),
    ];
    match group(&records) {
        Err(DedupeError::MalformedPath { path }) => assert_eq!(path, "///"),
        Ok(_) => panic!("a separator-only path must fail grouping"),
    }
}

#[test]
fn filename_extraction() {
    assert_eq!(filename_of("a/b/c.zip").unwrap(), "c.zip");
    assert_eq!(filename_of("plain.zip").unwrap(), "plain.zip");
    assert_eq!(filename_of("dir/trailing/").unwrap(), "trailing");
    assert!(filename_of("").is_err());
    assert!(filename_of("/").is_err());
    assert!(filename_of("///").is_err());
}

#[test]
fn path_joining() {
    assert_eq!(join_path("", "x.zip"), "x.zip");
    assert_eq!(join_path("roms", "x.zip"), "roms/x.zip");
    assert_eq!(join_path("roms/", "x.zip"), "roms/x.zip");
}

#[test]
fn choice_parsing() {
    assert_eq!(parse_choice("2\n"), 2);
    assert_eq!(parse_choice(" 42 \n"), 42);
    assert_eq!(parse_choice("+7"), 7);
    assert_eq!(parse_choice("0"), 0);
    assert_eq!(parse_choice(""), 1);
    assert_eq!(parse_choice("\n"), 1);
    assert_eq!(parse_choice("abc"), 1);
    assert_eq!(parse_choice("1 2"), 1);
    assert_eq!(parse_choice("+"), 1);
    assert_eq!(parse_choice("-3"), 1);
    // larger than any usize: falls back to the default
    assert_eq!(parse_choice("99999999999999999999999999"), 1);
}

#[test]
fn out_of_range_choice_moves_everything() {
    let groups = group(&tetris_catalog()).unwrap();
    let set = resolve_existing(&groups[0], "roms", &vec![true, true]).unwrap();
    let moves = moves_for_choice(&set, "dups", 9);
    assert_eq!(moves.len(), 2);
    assert_eq!(moves[0].from, "roms/tetris.zip");
    assert_eq!(moves[1].from, "roms/tetris (alt).zip");
}

#[test]
fn empty_catalog_yields_no_groups() {
    let records: Vec<CatalogRecord> = Vec::new();
    let groups = group(&records).unwrap();
    assert!(groups.is_empty());
}

#[test]
fn filenames_from_different_directories_collide_by_name() {
    // two catalog entries whose paths differ only in the directory map to
    // the same filename, and both stay listed
    let records = vec![
        CatalogRecord::new("a/same.zip".to_string(), "Same".to_string()),
        CatalogRecord::new("b/same.zip".to_string(), "Same".to_string()),
    ];
    let groups = group(&records).unwrap();
    assert_eq!(groups[0].filenames, vec!["same.zip", "same.zip"]);
}

#[test]
fn resolve_keeps_group_order() {
    let g = NameGroup {
        name: "G".to_string(),
        filenames: vec!["b.zip".to_string(), "a.zip".to_string(), "c.zip".to_string()],
    };
    let set = resolve_existing(&g, "r", &vec![true, true, true]).unwrap();
    assert_eq!(set.filenames, vec!["b.zip", "a.zip", "c.zip"]);
    assert_eq!(set.paths, vec!["r/b.zip", "r/a.zip", "r/c.zip"]);
}
