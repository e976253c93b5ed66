use depgraph::errors::CustomError;
use depgraph::executor::{key_to_env_var, parse_prop, CommandConfig, CommandTable};

#[test]
fn command_kinds_answer_their_predicates() {
    let sh = CommandConfig::new_shell_command();
    let ex = CommandConfig::new_exec_command();
    let tp = CommandConfig::new_template();
    assert!(sh.is_shell_command() && !sh.is_exec_command() && !sh.is_template());
    assert!(ex.is_exec_command() && !ex.is_shell_command() && !ex.is_template());
    assert!(tp.is_template() && !tp.is_command());
    assert!(sh.is_command() && ex.is_command());
    assert!(!sh.is_bool_result() && !ex.is_bool_result() && !tp.is_bool_result());
}

#[test]
fn new_command_picks_shell_or_exec() {
    assert!(CommandConfig::new_command(true, false).is_shell_command());
    assert!(CommandConfig::new_command(false, false).is_exec_command());
    assert!(CommandConfig::new_command(true, true).is_bool_result());
}

#[test]
fn set_bool_marks_commands() {
    assert!(CommandConfig::new_shell_command().set_bool().is_bool_result());
    assert!(CommandConfig::new_exec_command().set_bool().is_bool_result());
}

#[test]
fn parse_prop_splits_name_and_command() {
    let p = parse_prop(
        &String::from("version=git describe"),
        CommandConfig::new_exec_command(),
    )
    .unwrap();
    assert_eq!(p.name, "version");
    assert_eq!(p.template, "git describe");
    assert!(p.config.is_exec_command() && !p.config.is_bool_result());
}

#[test]
fn parse_prop_question_mark_marks_boolean_commands() {
    let p = parse_prop(
        &String::from("dirty?=git diff --quiet"),
        CommandConfig::new_shell_command(),
    )
    .unwrap();
    assert_eq!(p.name, "dirty");
    assert_eq!(p.template, "git diff --quiet");
    assert!(p.config.is_bool_result());
}

#[test]
fn parse_prop_keeps_question_mark_on_templates() {
    let p = parse_prop(
        &String::from("label?={{dir}}"),
        CommandConfig::new_template(),
    )
    .unwrap();
    assert_eq!(p.name, "label?");
    assert_eq!(p.template, "{{dir}}");
    assert!(p.config.is_template());
}

#[test]
fn parse_prop_without_equals_is_rejected() {
    match parse_prop(&String::from("no-separator"), CommandConfig::new_template()) {
        Err(CustomError::PropMissingEqualsError { argument }) => {
            assert_eq!(argument, "no-separator");
        }
        _ => panic!("expected a missing-equals error"),
    }
}

#[test]
fn command_table_keeps_registration_order() {
    let mut t = CommandTable::new();
    t.add_command(&String::from("one"), CommandConfig::new_template())
        .unwrap();
    t.add_command(&String::from("two"), CommandConfig::new_shell_command())
        .unwrap();
    assert_eq!(t.len(), 2);
    assert_eq!(t.name_at(0), "one");
    assert_eq!(t.name_at(1), "two");
    assert!(t.config_at(1).is_shell_command());
    assert!(t.config_of(&String::from("one")).unwrap().is_template());
    assert!(t.config_of(&String::from("none")).is_none());
}

#[test]
fn command_table_refuses_duplicate_names() {
    let mut t = CommandTable::new();
    t.add_command(&String::from("x"), CommandConfig::new_template())
        .unwrap();
    match t.add_command(&String::from("x"), CommandConfig::new_exec_command()) {
        Err(CustomError::DuplicatePropertyNameError { name }) => assert_eq!(name, "x"),
        _ => panic!("expected a duplicate-name error"),
    }
    assert_eq!(t.len(), 1);
}

#[test]
fn env_var_names_collapse_and_uppercase() {
    let prefix = String::from("AVOCADO_");
    assert_eq!(
        key_to_env_var(&String::from("tree_sha"), &prefix),
        "AVOCADO_TREE_SHA"
    );
    assert_eq!(
        key_to_env_var(&String::from("my key--v2"), &prefix),
        "AVOCADO_MY_KEY_V2"
    );
    assert_eq!(key_to_env_var(&String::from("!!lead"), &prefix), "AVOCADO__LEAD");
    assert_eq!(key_to_env_var(&String::from(""), &prefix), "AVOCADO_");
}
