use proxyctl_rs::profile::{
    add_shell_name, expand_profile_path, managed_profile_content, push_unique_path, select_profile,
    shell_profile_candidates, strip_managed_block, MANAGED_END, MANAGED_START,
};

fn exports(v: &[&str]) -> Vec<String> {
    v.iter().map(|s| s.to_string()).collect()
}

#[test]
fn block_is_appended_after_one_blank_line() {
    let out = managed_profile_content("export A=1\n\n\n", &exports(&["export http_proxy=\"x\""]));
    assert_eq!(
        out,
        format!("export A=1\n\n{MANAGED_START}\nexport http_proxy=\"x\"\n{MANAGED_END}\n")
    );
    let out = managed_profile_content("", &exports(&["e"]));
    assert_eq!(out, format!("{MANAGED_START}\ne\n{MANAGED_END}\n"));
}

#[test]
fn writing_twice_gives_the_same_content() {
    let e = exports(&["export http_proxy=\"x\"", "export HTTP_PROXY=\"x\""]);
    let once = managed_profile_content("alias ll='ls -l'\n", &e);
    let twice = managed_profile_content(&once, &e);
    assert_eq!(once, twice);
}

#[test]
fn zero_exports_remove_the_block() {
    let once = managed_profile_content("alias ll='ls -l'\n", &exports(&["e"]));
    let removed = managed_profile_content(&once, &exports(&[]));
    assert_eq!(removed, "alias ll='ls -l'\n");
    assert!(!removed.contains(MANAGED_START));
}

#[test]
fn new_exports_replace_the_block() {
    let once = managed_profile_content("x\n", &exports(&["a"]));
    let replaced = managed_profile_content(&once, &exports(&["b"]));
    assert_eq!(replaced, format!("x\n\n{MANAGED_START}\nb\n{MANAGED_END}\n"));
    assert_eq!(replaced.matches(MANAGED_START).count(), 1);
}

#[test]
fn strip_takes_surrounding_newlines() {
    let text = format!("a\n\n{MANAGED_START}\nX\n{MANAGED_END}\n\nb");
    assert_eq!(strip_managed_block(&text), ("a\nb".to_string(), true));
    let text = format!("a\n\n{MANAGED_START}\nexport A=1\n{MANAGED_END}\nb\n");
    assert_eq!(strip_managed_block(&text), ("a\nb\n".to_string(), true));
    let text = format!("{MANAGED_START}\nexport A=1\n{MANAGED_END}\n");
    assert_eq!(strip_managed_block(&text), (String::new(), true));
    assert_eq!(strip_managed_block("plain\n"), ("plain\n".to_string(), false));
    let open = format!("a\n{MANAGED_START}\n");
    assert_eq!(strip_managed_block(&open), (open.clone(), false));
}

#[test]
fn profile_paths_are_made_absolute() {
    assert_eq!(expand_profile_path(" ~/.zshrc ", "/home/u"), "/home/u/.zshrc");
    assert_eq!(expand_profile_path("/etc/profile", "/home/u"), "/etc/profile");
    assert_eq!(expand_profile_path("rc/bash", "/home/u/"), "/home/u/rc/bash");
}

#[test]
fn shell_profiles_and_selection() {
    let zsh = shell_profile_candidates("ZSH");
    assert_eq!(zsh, vec![".zshenv".to_string(), ".zprofile".to_string(), ".zshrc".to_string()]);
    assert!(shell_profile_candidates("fish").is_empty());
    assert_eq!(select_profile(&zsh, &vec![false, true, true]), Some(1));
    assert_eq!(select_profile(&zsh, &vec![false, false, false]), Some(0));
    assert_eq!(select_profile(&vec![], &vec![]), None);
}

#[test]
fn unique_paths_and_shell_names() {
    let mut paths = vec!["/a".to_string()];
    push_unique_path(&mut paths, "/a".to_string());
    push_unique_path(&mut paths, "/b".to_string());
    assert_eq!(paths, vec!["/a".to_string(), "/b".to_string()]);
    let mut names: Vec<String> = Vec::new();
    add_shell_name(&mut names, "Zsh");
    add_shell_name(&mut names, "zsh");
    add_shell_name(&mut names, "");
    add_shell_name(&mut names, "bash");
    assert_eq!(names, vec!["Zsh".to_string(), "bash".to_string()]);
}
