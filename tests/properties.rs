use deadnix::edit::{apply_edits, remove_empty_scopes, Edit};
use deadnix::report::{line_starts, locate};
use deadnix::{edit_dead_code, parse, Color, DeadCode, Location, Scope, Settings};

const DEFAULT: Settings = Settings {
    no_lambda_arg: false,
    no_lambda_pattern_names: false,
    no_underscore: false,
    warn_used_underscore: false,
};

fn analyze(content: &str, settings: &Settings) -> Vec<DeadCode> {
    let parsed = parse(content).expect("parse");
    assert_eq!(0, parsed.errors);
    settings.find_dead_code(&parsed.tree)
}

fn names(results: &[DeadCode]) -> Vec<String> {
    results.iter().map(|r| r.binding.name.text.clone()).collect()
}

fn edit(content: &str, settings: &Settings) -> (String, bool) {
    let parsed = parse(content).expect("parse");
    let results = settings.find_dead_code(&parsed.tree);
    edit_dead_code(content, &parsed.tree, &results).expect("edit")
}

#[test]
fn parse_keeps_every_character() {
    let src = "let a = \"äö\"; # note\n in a";
    let parsed = parse(src).expect("parse");
    assert_eq!(0, parsed.errors);
    let text: String = parsed
        .tree
        .elems
        .iter()
        .filter(|e| e.is_token)
        .map(|e| e.text.clone())
        .collect();
    assert_eq!(text, src);
    assert!(parsed.tree.elems.len() > 5);
}

#[test]
fn parse_counts_errors() {
    let parsed = parse("let a = ; in").expect("parse");
    assert!(parsed.errors > 0);
}

#[test]
fn report_is_ordered_by_position() {
    let src = "{ b, a, ... }: let z = 1; y = 2; in c: false";
    let results = analyze(src, &DEFAULT);
    assert_eq!(names(&results), vec!["b", "a", "z", "y", "c"]);
    for pair in results.windows(2) {
        assert!(pair[0].binding.name.start < pair[1].binding.name.start);
    }
}

#[test]
fn analysis_is_deterministic() {
    let src = "let dead1 = dead2; dead2 = dead3; dead3 = 42; in { x, ... }: false";
    assert_eq!(names(&analyze(src, &DEFAULT)), names(&analyze(src, &DEFAULT)));
}

#[test]
fn edit_is_idempotent() {
    let src = "let inherit (x) dead1 alive; dead2 = dead1; in { dead3, ... }: dead4: alive";
    let (out, changed) = edit(src, &DEFAULT);
    assert!(changed);
    assert_eq!(out, "let inherit (x) alive; in { ... }: _dead4: alive");
    assert!(analyze(&out, &DEFAULT).is_empty());
    assert_eq!(edit(&out, &DEFAULT), (out.clone(), false));
}

#[test]
fn apply_edits_keeps_the_rest() {
    let edits = vec![
        Edit { start: 0, end: 6, replacement: String::new() },
        Edit { start: 8, end: 9, replacement: "_x".to_string() },
    ];
    assert_eq!(apply_edits("hello world", &edits), "wo_xld");
    assert_eq!(apply_edits("hello", &Vec::new()), "hello");
}

#[test]
fn apply_edits_counts_characters() {
    let edits = vec![Edit { start: 1, end: 2, replacement: String::new() }];
    assert_eq!(apply_edits("äöü", &edits), "äü");
}

#[test]
fn apply_edits_keeps_an_insertion_before_a_removal() {
    let edits = vec![
        Edit { start: 5, end: 5, replacement: "a".to_string() },
        Edit { start: 5, end: 7, replacement: String::new() },
    ];
    assert_eq!(apply_edits("abcdefg", &edits), "abcdea");
}

#[test]
fn apply_edits_widest_replacement_wins() {
    let edits = vec![
        Edit { start: 1, end: 2, replacement: "X".to_string() },
        Edit { start: 1, end: 4, replacement: "Y".to_string() },
    ];
    assert_eq!(apply_edits("abcdef", &edits), "aYef");
}

#[test]
fn apply_edits_takes_the_widest_of_equal_starts() {
    let edits = vec![
        Edit { start: 2, end: 3, replacement: String::new() },
        Edit { start: 2, end: 5, replacement: String::new() },
    ];
    assert_eq!(apply_edits("abcdefg", &edits), "abfg");
}

#[test]
fn edit_after_multibyte_text() {
    let src = "let a = \"äö\"; dead = 1; in a";
    assert_eq!(edit(src, &DEFAULT), ("let a = \"äö\"; in a".to_string(), true));
}

#[test]
fn cleanup_of_empty_constructs() {
    let parsed = parse("let inherit (x); in y").expect("parse");
    let edits = remove_empty_scopes(&parsed.tree);
    assert_eq!(edits.len(), 2);
    assert_eq!(apply_edits("let inherit (x); in y", &edits), "y");
}

#[test]
fn shadowing_hides_outer_use() {
    let results = analyze("let x = 1; in { x ? 2 }: x", &DEFAULT);
    assert_eq!(names(&results), vec!["x"]);
    assert_eq!(results[0].binding.name.start, 4);
}

#[test]
fn inherit_uses_outer_binding() {
    let results = analyze("let x = 1; in rec { inherit x; y = x; }", &DEFAULT);
    assert!(results.is_empty());
}

#[test]
fn plain_attribute_keys_are_no_use() {
    let results = analyze("let x = 1; y = \"k\"; in { a.x.b = 1; \"${y}\" = 2; }", &DEFAULT);
    assert_eq!(names(&results), vec!["x"]);
}

#[test]
fn setting_no_lambda_arg() {
    let settings = Settings { no_lambda_arg: true, ..DEFAULT };
    assert!(analyze("dead: false", &settings).is_empty());
    assert_eq!(names(&analyze("dead: false", &DEFAULT)), vec!["dead"]);
}

#[test]
fn setting_no_lambda_pattern_names() {
    let settings = Settings { no_lambda_pattern_names: true, ..DEFAULT };
    assert_eq!(names(&analyze("dead0@{ dead, ... }: false", &settings)), vec!["dead0"]);
}

#[test]
fn setting_no_underscore() {
    let settings = Settings { no_underscore: true, ..DEFAULT };
    assert!(analyze("let _dead = 1; in 2", &settings).is_empty());
    assert_eq!(names(&analyze("let _dead = 1; in 2", &DEFAULT)), vec!["_dead"]);
}

#[test]
fn setting_warn_used_underscore() {
    let settings = Settings { warn_used_underscore: true, ..DEFAULT };
    let results = analyze("let _x = 1; in _x", &settings);
    assert_eq!(names(&results), vec!["_x"]);
    assert!(!results[0].unused);
    assert_eq!(results[0].message(), "Used let binding: _x");
}

#[test]
fn rec_attrset_bindings_are_kept() {
    let results = analyze("rec { a = 1; }", &DEFAULT);
    assert!(results.is_empty());
    assert_eq!(edit("rec { a = 1; }", &DEFAULT), ("rec { a = 1; }".to_string(), false));
}

#[test]
fn mutual_use_alone_is_dead() {
    assert_eq!(names(&analyze("let a = b; b = a; in 0", &DEFAULT)), vec!["a", "b"]);
    assert_eq!(edit("let a = b; b = a; in 0", &DEFAULT), ("0".to_string(), true));
    assert!(analyze("let a = b; b = a; in a", &DEFAULT).is_empty());
}

#[test]
fn scope_labels_and_colors() {
    let results = analyze("{ p, ... }@q: r: let s = 1; in false", &DEFAULT);
    let scopes: Vec<(&str, Color)> = results.iter().map(|r| (r.scope.category(), r.scope.color())).collect();
    assert_eq!(
        scopes,
        vec![
            ("lambda pattern", Color::Magenta),
            ("lambda pattern", Color::Magenta),
            ("lambda argument", Color::Cyan),
            ("let binding", Color::Red),
        ]
    );
    assert!(matches!(results[2].scope, Scope::LambdaArg(_, _)));
    assert_eq!(results[3].message(), "Unused let binding: s");
}

#[test]
fn line_starts_and_locations() {
    let text = "ab\ncd\n\nef";
    let offsets = line_starts(text);
    assert_eq!(offsets, vec![0, 3, 6, 7]);
    assert_eq!(locate(text, &offsets, 4, 5), Location { line: 2, column: 2, end_column: 3 });
    assert_eq!(locate(text, &offsets, 0, 2), Location { line: 1, column: 1, end_column: 3 });
    assert_eq!(locate(text, &offsets, 8, 9), Location { line: 4, column: 2, end_column: 3 });
    assert_eq!(locate(text, &offsets, 3, 3), Location { line: 2, column: 1, end_column: 1 });
}

#[test]
fn name_ranges_in_characters() {
    let src = "let a = \"ü\"; dead = 1; in a";
    let results = analyze(src, &DEFAULT);
    assert_eq!(results[0].binding.name.start, 14);
    assert_eq!(results[0].binding.name.char_start, 13);
    assert_eq!(results[0].binding.name.char_end, 17);
}

#[test]
fn empty_source() {
    let parsed = parse("").expect("parse");
    assert!(DEFAULT.find_dead_code(&parsed.tree).is_empty());
}

#[test]
fn lambda_pattern_dead_without_comma() {
    assert_eq!(edit("{ dead }: false", &DEFAULT), ("{}: false".to_string(), true));
    assert_eq!(edit("{ alive, dead }: alive", &DEFAULT), ("{ alive,}: alive".to_string(), true));
    let (out, _) = edit("{ alive, dead }: alive", &DEFAULT);
    assert!(analyze(&out, &DEFAULT).is_empty());
}

fn walk(events: &[(u8, u16, &str)]) -> Vec<(u8, u16, String)> {
    events.iter().map(|(tag, kind, text)| (*tag, *kind, text.to_string())).collect()
}

#[test]
fn from_events_builds_a_tree() {
    let events = walk(&[(0, 75, ""), (0, 58, ""), (2, 44, "x"), (3, 44, ""), (1, 58, ""), (1, 75, "")]);
    let tree = deadnix::Tree::from_events(&events, "x").expect("tree");
    assert_eq!(tree.elems.len(), 3);
    assert_eq!(tree.elems[0].children, vec![1]);
    assert_eq!(tree.elems[1].children, vec![2]);
    assert_eq!(tree.elems[2].parent, Some(1));
    assert_eq!((tree.elems[2].start, tree.elems[2].end), (0, 1));
}

#[test]
fn from_events_rejects_bad_walks() {
    // a token outside any node
    assert!(deadnix::Tree::from_events(&walk(&[(2, 44, "x")]), "x").is_none());
    // leaving a node never entered
    assert!(deadnix::Tree::from_events(&walk(&[(1, 75, "")]), "").is_none());
    // a node left open
    assert!(deadnix::Tree::from_events(&walk(&[(0, 75, "")]), "").is_none());
    // two roots
    assert!(deadnix::Tree::from_events(&walk(&[(0, 75, ""), (1, 75, ""), (0, 75, ""), (1, 75, "")]), "").is_none());
    // tokens that do not spell the text
    assert!(deadnix::Tree::from_events(&walk(&[(0, 75, ""), (2, 44, "x"), (1, 75, "")]), "y").is_none());
    // no events at all
    assert!(deadnix::Tree::from_events(&Vec::new(), "").is_none());
}

#[test]
fn columns_count_characters() {
    let text = "x\n\"äö\" dead";
    let offsets = line_starts(text);
    // "dead" starts at byte 9, character 7 of its line
    assert_eq!(locate(text, &offsets, 9, 13), Location { line: 2, column: 6, end_column: 10 });
}

#[test]
fn edit_reports_unparsable_result() {
    let src = "let a = ; dead = 1; in a";
    let parsed = parse(src).expect("parse");
    let results = DEFAULT.find_dead_code(&parsed.tree);
    assert!(edit_dead_code(src, &parsed.tree, &results).is_err());
}

#[test]
fn same_records_in_another_order() {
    let src = "let inherit (x) dead1 alive; dead2 = 1; in { dead3, ... }: alive";
    let parsed = parse(src).expect("parse");
    let mut results = DEFAULT.find_dead_code(&parsed.tree);
    let forward = edit_dead_code(src, &parsed.tree, &results).expect("edit");
    results.reverse();
    assert_eq!(edit_dead_code(src, &parsed.tree, &results).expect("edit"), forward);
}
