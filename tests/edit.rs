use deadnix::{edit_dead_code, parse, Settings};

fn run(content: &str) -> (String, bool) {
    let ast = parse(content).expect("parse");
    assert_eq!(0, ast.errors);

    let results = Settings {
        no_lambda_arg: false,
        no_lambda_pattern_names: false,
        no_underscore: false,
        warn_used_underscore: false,
    }
    .find_dead_code(&ast.tree);
    edit_dead_code(content, &ast.tree, &results).expect("edit")
}

#[test]
fn edit_tests_let_in_alive() {
    let s = "let alive = 23; in alive".to_string();
    assert_eq!(run(&s), (s, false));
}

#[test]
fn edit_tests_let_in_alive_deep() {
    let s = "let alive = 23; in if true then 42 else { ... }: alive".to_string();
    assert_eq!(run(&s), (s, false));
}

#[test]
fn let_in_alive_dead() {
    let s1 = "let alive = 42; dead = 23; in alive".to_string();
    let s2 = "let alive = 42; in alive".to_string();
    assert_eq!(run(&s1), (s2, true));
}

#[test]
fn let_in_dead_only() {
    let s1 = "let dead = 42; in alive".to_string();
    let s2 = "alive".to_string();
    assert_eq!(run(&s1), (s2, true));
}

#[test]
fn let_inherit_in_alive() {
    let s = "let inherit (x) alive; in alive".to_string();
    assert_eq!(run(&s), (s, false));
}

#[test]
fn let_inherit_in_alive_dead() {
    let s1 = "let inherit alive dead; in alive".to_string();
    let s2 = "let inherit alive; in alive".to_string();
    assert_eq!(run(&s1), (s2, true));
}

#[test]
fn let_inherit_dead_let_alive_in_dead() {
    let s1 = "let inherit dead; alive = true; in alive".to_string();
    let s2 = "let alive = true; in alive".to_string();
    assert_eq!(run(&s1), (s2, true));
}

#[test]
fn let_inherit_in_dead_only() {
    let s1 = "let inherit dead; in alive".to_string();
    let s2 = "alive".to_string();
    assert_eq!(run(&s1), (s2, true));
}

#[test]
fn let_inherit_multi_in_dead_only() {
    let s1 = "let inherit dead1 dead2 dead3; in alive".to_string();
    let s2 = "alive".to_string();
    assert_eq!(run(&s1), (s2, true));
}

#[test]
fn let_dead_only_whitespacing() {
    let s1 = "{ used }: let unused = {}; in used".to_string();
    let s2 = "{ used }: used".to_string();
    assert_eq!(run(&s1), (s2, true));
}

#[test]
fn let_inherit_from_in_alive() {
    let s = "let inherit (x) alive; in alive".to_string();
    assert_eq!(run(&s), (s, false));
}

#[test]
fn let_inherit_from_in_alive_dead() {
    let s1 = "let inherit (x) alive dead; in alive".to_string();
    let s2 = "let inherit (x) alive; in alive".to_string();
    assert_eq!(run(&s1), (s2, true));
}

#[test]
fn let_inherit_from_dead_let_alive_in_dead() {
    let s1 = "let inherit (x) dead; alive = true; in alive".to_string();
    let s2 = "let alive = true; in alive".to_string();
    assert_eq!(run(&s1), (s2, true));
}

#[test]
fn let_inherit_from_in_dead_only() {
    let s1 = "let inherit (x) dead; in alive".to_string();
    let s2 = "alive".to_string();
    assert_eq!(run(&s1), (s2, true));
}

#[test]
fn let_inherit_from_multi_in_dead_only() {
    let s1 = "let inherit (grave) dead1 dead2 dead3; in alive".to_string();
    let s2 = "alive".to_string();
    assert_eq!(run(&s1), (s2, true));
}

#[test]
fn edit_tests_lambda_arg_alive() {
    let s = "alive: alive".to_string();
    assert_eq!(run(&s), (s, false));
}

#[test]
fn edit_tests_lambda_arg_dead() {
    let s1 = "dead: false".to_string();
    let s2 = "_dead: false".to_string();
    assert_eq!(run(&s1), (s2, true));
}

#[test]
fn lambda_arg_anon() {
    let s = "_anon: false".to_string();
    assert_eq!(run(&s), (s, false));
}

#[test]
fn lambda_at_pattern_dead() {
    let s1 = "dead@{ dead2 ? dead, ... }: false".to_string();
    let s2 = "{ ... }: false".to_string();
    assert_eq!(run(&s1), (s2, true));
}

#[test]
fn lambda_lead_at_dead() {
    let s1 = "dead@{ ... }: false".to_string();
    let s2 = "{ ... }: false".to_string();
    assert_eq!(run(&s1), (s2, true));
}

#[test]
fn lambda_trail_at_dead() {
    let s1 = "{ ... }@dead: false".to_string();
    let s2 = "{ ... }: false".to_string();
    assert_eq!(run(&s1), (s2, true));
}

#[test]
fn lambda_lead_at_space_dead() {
    let s1 = "dead @ { ... }: false".to_string();
    let s2 = "{ ... }: false".to_string();
    assert_eq!(run(&s1), (s2, true));
}

#[test]
fn lambda_trail_at_space_dead() {
    let s1 = "{ ... } @ dead: false".to_string();
    let s2 = "{ ... }: false".to_string();
    assert_eq!(run(&s1), (s2, true));
}

#[test]
fn edit_tests_lambda_at_shadowed() {
    let s1 = "dead@{ ... }: dead@{ ... }: dead".to_string();
    let s2 = "{ ... }: dead@{ ... }: dead".to_string();
    assert_eq!(run(&s1), (s2, true));
}

#[test]
fn lambda_pattern_dead() {
    let s1 = "alive@{ dead, ... }: alive".to_string();
    let s2 = "alive@{ ... }: alive".to_string();
    assert_eq!(run(&s1), (s2, true));
}

#[test]
fn lambda_pattern_default_dead() {
    let s1 = "alive@{ dead ? true, ... }: alive".to_string();
    let s2 = "alive@{ ... }: alive".to_string();
    assert_eq!(run(&s1), (s2, true));
}

#[test]
fn lambda_pattern_mixed() {
    let s1 = "dead1@{ dead2, alive, ... }: alive".to_string();
    let s2 = "{ alive, ... }: alive".to_string();
    assert_eq!(run(&s1), (s2, true));
}

#[test]
fn lambda_pattern_dead_multiline() {
    let s1 = "{ alive\n, dead\n, ... }:\nalive".to_string();
    let s2 = "{ alive\n, ... }:\nalive".to_string();
    assert_eq!(run(&s1), (s2, true));
}
