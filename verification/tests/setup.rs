use notez::config::Config;
use notez::setup::{
    daily_dir_name, default_daily, default_editor, default_quick, default_root, default_root_with, is_back_answer, prompt_value,
    quick_dir_name, step_rule_len, SetupStep, SetupWizard,
};

fn config() -> Config {
    Config {
        notez_root: "/srv/notes".into(),
        quick_notes_dir: "00_inbox".into(),
        daily_logs_dir: "01_journal".into(),
        editor: "hx".into(),
        has_fzf: true,
        has_rg: true,
        has_yazi: false,
    }
}

#[test]
fn prompt_answers_fall_back_to_default() {
    assert_eq!(prompt_value(Some("  my-notes \n"), "quick-notes"), "my-notes");
    assert_eq!(prompt_value(Some("   "), "quick-notes"), "quick-notes");
    assert_eq!(prompt_value(None, "quick-notes"), "quick-notes");
    assert_eq!(prompt_value(Some("\u{a0}\tmy notes\u{3000}\u{2029}"), "quick-notes"), "my notes");
    assert_eq!(prompt_value(Some("\u{200b}x"), "quick-notes"), "\u{200b}x");
    assert!(is_back_answer("b"));
    assert!(!is_back_answer("back"));
}

#[test]
fn wizard_defaults_come_from_existing_config() {
    let c = config();
    assert_eq!(default_quick(Some(&c)), "inbox");
    assert_eq!(default_daily(Some(&c)), "journal");
    assert_eq!(default_quick(None), "quick-notes");
    assert_eq!(default_daily(None), "daily-logs");
    assert_eq!(default_editor(Some(&c), Some("vim")), "hx");
    assert_eq!(default_editor(None, Some("emacs")), "emacs");
    assert_eq!(default_editor(None, None), "vim");
    assert_eq!(default_root(Some(&c)), Some("/srv/notes".to_string()));
    if let Some(r) = default_root(None) {
        assert!(r.ends_with("/notez"));
    }
}

#[test]
fn proposed_root_from_home_directory() {
    let c = config();
    assert_eq!(default_root_with(Some(&c), Some("/home/ann")), Some("/srv/notes".to_string()));
    assert_eq!(default_root_with(None, Some("/home/ann")), Some("/home/ann/notez".to_string()));
    assert_eq!(default_root_with(None, Some("/home/ann/")), Some("/home/ann/notez".to_string()));
    assert_eq!(default_root_with(None, None), None);
}

#[test]
fn wizard_names_and_rule() {
    assert_eq!(quick_dir_name("My Inbox"), "00_my-inbox");
    assert_eq!(daily_dir_name("Work Log!"), "01_work-log");
    assert_eq!(step_rule_len(7), 27);
    assert_eq!(step_rule_len(40), 0);
}

#[test]
fn wizard_walks_forward_and_back() {
    let mut w = SetupWizard::new("/srv/notes".into());
    assert_eq!(w.step, SetupStep::Welcome);
    w.welcome_done();
    assert_eq!(w.step, SetupStep::Root);
    assert!(!w.answer_root(false, "b"));
    assert_eq!(w.step, SetupStep::Welcome);
    w.welcome_done();
    assert!(w.answer_root(true, ""));
    assert_eq!(w.root_dir, "/srv/notes");
    w.root_checked(false, false);
    assert_eq!(w.step, SetupStep::Root);
    w.root_checked(false, true);
    assert_eq!(w.step, SetupStep::Check);
    w.answer_check(true);
    w.answer_quick("b");
    assert_eq!(w.step, SetupStep::Check);
    w.answer_check(true);
    w.answer_quick("Quick Notes");
    assert_eq!(w.quick_name, "00_quick-notes");
    w.answer_daily("Daily Logs");
    assert_eq!(w.daily_name, "01_daily-logs");
    w.tools_found(String::new(), true, false, true);
    assert!(w.needs_editor);
    assert_eq!(w.step, SetupStep::Tools);
    w.answer_editor("nano");
    assert_eq!(w.step, SetupStep::Confirm);
    assert!(w.answer_confirm(false).is_none());
    assert_eq!(w.step, SetupStep::Root);
    w.root_checked(true, false);
    w.answer_check(true);
    w.answer_quick("q");
    w.answer_daily("d");
    w.tools_found("vim".into(), false, true, false);
    assert_eq!(w.step, SetupStep::Confirm);
    let c = w.answer_confirm(true).unwrap();
    assert_eq!(w.step, SetupStep::Finished);
    assert_eq!(c.notez_root, "/srv/notes");
    assert_eq!(c.quick_notes_dir, "00_q");
    assert_eq!(c.daily_logs_dir, "01_d");
    assert_eq!(c.editor, "vim");
    assert!(!c.has_fzf && c.has_rg && !c.has_yazi);
}
