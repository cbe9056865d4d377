use code2prompt::variable::{VariableCategory, VariableState};

fn names(v: &[&str]) -> Vec<String> {
    v.iter().map(|s| s.to_string()).collect()
}

#[test]
fn default_state_has_builtin_variables() {
    let s = VariableState::default();
    assert_eq!(s.system_variables.len(), 12);
    assert_eq!(s.system_variables[0].0, "absolute_code_path");
    assert_eq!(s.system_variables[0].1, "Path to the codebase directory");
    assert!(s.system_variables.iter().any(|(k, _)| k == "mod_time"));
    assert!(s.user_variables.is_empty());
    assert!(!s.has_missing_variables());
    assert!(!s.is_editing());
    assert_eq!(s.get_editing_variable(), None);
}

#[test]
fn missing_variables_are_unknown_and_sorted() {
    let mut s = VariableState::default();
    s.set_user_variable("author".to_string(), "me".to_string());
    s.update_missing_variables(&names(&["zeta", "files", "author", "alpha", "Beta"]));
    assert_eq!(s.missing_variables, names(&["Beta", "alpha", "zeta"]));
    assert!(s.has_missing_variables());
    s.update_missing_variables(&names(&["files"]));
    assert!(s.missing_variables.is_empty());
}

#[test]
fn organized_variables_in_category_order() {
    let mut s = VariableState::default();
    s.set_user_variable("author".to_string(), "me".to_string());
    let tv = names(&["author", "todo", "git_diff"]);
    s.update_missing_variables(&tv);
    let v = s.get_organized_variables(&tv);
    assert_eq!(v.len(), 3);
    assert_eq!(v[0].name, "git_diff");
    assert_eq!(v[0].category, VariableCategory::System);
    assert_eq!(v[0].value.as_deref(), Some("(system)"));
    assert_eq!(v[0].description.as_deref(), Some("Git diff output (if enabled)"));
    assert_eq!(v[1].name, "author");
    assert_eq!(v[1].category, VariableCategory::User);
    assert_eq!(v[1].value.as_deref(), Some("me"));
    assert_eq!(v[1].description, None);
    assert_eq!(v[2].name, "todo");
    assert_eq!(v[2].category, VariableCategory::Missing);
    assert_eq!(v[2].value, None);
    assert_eq!(v[2].description.as_deref(), Some("⚠️ Not defined"));
}

#[test]
fn set_user_variable_replaces_value() {
    let mut s = VariableState::default();
    s.set_user_variable("k".to_string(), "1".to_string());
    s.set_user_variable("j".to_string(), "2".to_string());
    s.set_user_variable("k".to_string(), "3".to_string());
    assert_eq!(s.user_variables.len(), 2);
    assert_eq!(s.user_variables[0], ("k".to_string(), "3".to_string()));
    assert_eq!(s.user_variables[1], ("j".to_string(), "2".to_string()));
}

#[test]
fn editing_round_trip() {
    let mut s = VariableState::default();
    s.editing_variable = Some("title".to_string());
    s.show_variable_input = true;
    assert!(s.is_editing());
    assert_eq!(s.get_editing_variable(), Some(&"title".to_string()));
    s.add_char_to_input('h');
    s.add_char_to_input('i');
    s.add_char_to_input('!');
    s.remove_char_from_input();
    assert_eq!(s.get_input_content(), "hi");
    let done = s.finish_editing();
    assert_eq!(done, Some(("title".to_string(), "hi".to_string())));
    assert_eq!(s.user_variables, vec![("title".to_string(), "hi".to_string())]);
    assert!(!s.is_editing());
    assert_eq!(s.get_input_content(), "");
    assert_eq!(s.finish_editing(), None);
}

#[test]
fn remove_char_on_empty_input_is_harmless() {
    let mut s = VariableState::default();
    s.remove_char_from_input();
    assert_eq!(s.get_input_content(), "");
}

#[test]
fn cancel_editing_discards_input() {
    let mut s = VariableState::default();
    s.editing_variable = Some("x".to_string());
    s.show_variable_input = true;
    s.add_char_to_input('a');
    s.cancel_editing();
    assert_eq!(s.get_editing_variable(), None);
    assert_eq!(s.get_input_content(), "");
    assert!(!s.is_editing());
    assert!(s.user_variables.is_empty());
}

#[test]
fn cursor_moves_to_first_entry() {
    let mut s = VariableState::default();
    s.cursor = 5;
    s.move_to_first_missing_variable();
    assert_eq!(s.cursor, 0);
}
