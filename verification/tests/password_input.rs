use arkana::paths::path_is_absolute;
use arkana::password::{password_key, password_length, render_password_input, KeyInput, PasswordAction};
use arkana::paths::resolve_path;
use std::path::PathBuf;

#[test]
fn typing_and_erasing_characters() {
    let mut password = Vec::new();
    assert_eq!(password_key(&mut password, KeyInput::Char('a')), PasswordAction::Continue);
    assert_eq!(password_key(&mut password, KeyInput::Char('é')), PasswordAction::Continue);
    assert_eq!(password_key(&mut password, KeyInput::Char('😀')), PasswordAction::Continue);
    assert_eq!(password, "aé😀".as_bytes().to_vec());
    assert_eq!(password_length(&password), 3);
    assert_eq!(password_key(&mut password, KeyInput::Backspace), PasswordAction::Continue);
    assert_eq!(password, "aé".as_bytes().to_vec());
    assert_eq!(password_length(&password), 2);
}

#[test]
fn backspace_on_empty_password_does_nothing() {
    let mut password = Vec::new();
    assert_eq!(password_key(&mut password, KeyInput::Backspace), PasswordAction::Continue);
    assert!(password.is_empty());
}

#[test]
fn enter_submits_and_escape_cancels() {
    let mut password = b"pw".to_vec();
    assert_eq!(password_key(&mut password, KeyInput::Enter), PasswordAction::Submit);
    assert_eq!(password_key(&mut password, KeyInput::Esc), PasswordAction::Cancel);
    assert_eq!(password_key(&mut password, KeyInput::Other), PasswordAction::Continue);
    assert_eq!(password, b"pw".to_vec());
}

#[test]
fn prompt_shows_one_star_per_character() {
    assert_eq!(render_password_input(0), "Enter password: ");
    assert_eq!(render_password_input(3), "Enter password: ***");
}

#[test]
fn resolve_path_makes_paths_absolute() {
    let base = PathBuf::from("/work/dir");
    assert!(resolve_path(&base, None).unwrap().is_none());
    assert_eq!(resolve_path(&base, Some(PathBuf::from("a/../b.txt"))).unwrap(), Some(PathBuf::from("/work/dir/b.txt")));
    assert_eq!(resolve_path(&base, Some(PathBuf::from("/abs/x"))).unwrap(), Some(PathBuf::from("/abs/x")));
}

#[test]
fn absolute_bases_are_recognised() {
    assert!(path_is_absolute(&PathBuf::from("/work")));
    assert!(!path_is_absolute(&PathBuf::from("work")));
    let base = PathBuf::from("/work");
    assert_eq!(resolve_path(&base, Some(PathBuf::from("./a/../b.txt"))).unwrap(), Some(PathBuf::from("/work/b.txt")));
}
