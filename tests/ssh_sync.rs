use proxyctl_rs::hosts::parse_hosts;
use proxyctl_rs::ssh::{
    apply_add, apply_removal, determine_block_indent, find_block_end, host_is_configured,
    host_patterns_from_line, is_host_line, ssh_state, SshState,
};

const LINE: &str = "ProxyCommand /usr/bin/nc -X connect -x p.example:1 %h %p";

#[test]
fn conflicting_block_is_refused() {
    let hosts = parse_hosts("h", "h1 proxy=a.example:1\nh2 proxy=b.example:2\n").unwrap();
    let doc = "Host h1 h2\n    User x\n";
    let err = apply_add(doc, &hosts, "d.example:3").unwrap_err();
    assert_eq!(err.host_line, "Host h1 h2");
    assert!(err.message().contains("Host h1 h2"));
}

#[test]
fn same_proxy_for_every_pattern_is_no_conflict() {
    let hosts = parse_hosts("h", "h1\nh2\n").unwrap();
    let (out, changed) = apply_add("Host h1 h2\n", &hosts, "p.example:1").unwrap();
    assert!(changed);
    assert_eq!(out, format!("Host h1 h2\n    {LINE}\n"));
}

#[test]
fn indentation_follows_the_block() {
    let hosts = parse_hosts("h", "h1\n").unwrap();
    let (out, _) = apply_add("Host h1\n\tUser x\n", &hosts, "p.example:1").unwrap();
    assert_eq!(out, format!("Host h1\n\t{LINE}\n\tUser x\n"));
    let (out, _) = apply_add("Host h1\n# note\n\n  User x\n", &hosts, "p.example:1").unwrap();
    assert_eq!(out, format!("Host h1\n  {LINE}\n# note\n\n  User x\n"));
    let (out, _) = apply_add("Host h1\n\t# note\n  User x\n", &hosts, "p.example:1").unwrap();
    assert_eq!(out, format!("Host h1\n  {LINE}\n\t# note\n  User x\n"));
}

#[test]
fn other_blocks_keep_their_bytes() {
    let hosts = parse_hosts("h", "a\n").unwrap();
    let doc = "# preamble\nHost a\n  User x\nHost b\n\tUser y  \n\n";
    let (out, _) = apply_add(doc, &hosts, "p.example:1").unwrap();
    assert_eq!(out, format!("# preamble\nHost a\n  {LINE}\n  User x\nHost b\n\tUser y  \n\n"));
}

#[test]
fn existing_directive_is_replaced() {
    let hosts = parse_hosts("h", "h1\n").unwrap();
    let doc = "Host h1\n    User x\n    proxycommand ssh -W %h:%p jump\n";
    let (out, changed) = apply_add(doc, &hosts, "p.example:1").unwrap();
    assert!(changed);
    assert_eq!(out, format!("Host h1\n    User x\n    {LINE}\n"));
}

#[test]
fn override_proxy_and_case_insensitive_patterns() {
    let hosts = parse_hosts("h", "H1.Example proxy=o.example:9\n").unwrap();
    let (out, _) = apply_add("host h1.example\n", &hosts, "p.example:1").unwrap();
    assert_eq!(
        out,
        "host h1.example\n    ProxyCommand /usr/bin/nc -X connect -x o.example:9 %h %p\n"
    );
}

#[test]
fn removal_keeps_foreign_directives() {
    let hosts = parse_hosts("h", "h1\n").unwrap();
    let doc = format!("Host h1\n    {LINE}\n    ProxyCommand ssh -W %h:%p jump\n");
    let (out, changed) = apply_removal(&doc, &hosts);
    assert!(changed);
    assert_eq!(out, "Host h1\n    ProxyCommand ssh -W %h:%p jump\n");
}

#[test]
fn removal_collapses_a_lone_blank_line() {
    let hosts = parse_hosts("h", "h1\n").unwrap();
    let doc = format!("Host h1\n    {LINE}\n\nHost h2\n");
    let (out, _) = apply_removal(&doc, &hosts);
    assert_eq!(out, "Host h1\nHost h2\n");
}

#[test]
fn removal_collapses_doubled_blank_lines() {
    let hosts = parse_hosts("h", "h1\n").unwrap();
    let doc = format!("Host h1\n    {LINE}\n\n\n    User x\n");
    let (out, _) = apply_removal(&doc, &hosts);
    assert_eq!(out, "Host h1\n\n    User x\n");
}

#[test]
fn removal_without_directives_changes_nothing() {
    let hosts = parse_hosts("h", "h1\n").unwrap();
    let (out, changed) = apply_removal("Host h1\n    User x\n", &hosts);
    assert!(!changed);
    assert_eq!(out, "Host h1\n    User x\n");
}

#[test]
fn empty_document() {
    let hosts = parse_hosts("h", "h1\n").unwrap();
    let (out, changed) = apply_add("", &hosts, "p.example:1").unwrap();
    assert!(!changed);
    assert_eq!(out, "");
    let (out, _) = apply_add("Host h1", &hosts, "p.example:1").unwrap();
    assert_eq!(out, format!("Host h1\n    {LINE}\n"));
}

#[test]
fn line_helpers() {
    assert!(is_host_line("  HOST a b"));
    assert!(!is_host_line("Hostname a"));
    assert_eq!(host_patterns_from_line("Host a  b"), vec!["a".to_string(), "b".to_string()]);
    let lines: Vec<String> = vec!["Host a".into(), "  User x".into(), "host b".into()];
    assert_eq!(find_block_end(&lines, 1), 2);
    assert_eq!(find_block_end(&lines, 3), 3);
    assert_eq!(determine_block_indent(&lines, 1, 2), "  ");
    assert_eq!(determine_block_indent(&lines, 2, 2), "    ");
}

#[test]
fn configured_hosts_and_state() {
    let lines: Vec<String> = vec![
        "Host a.example b.example".into(),
        format!("    {LINE}"),
        "Host c.example".into(),
        "    ProxyCommand ssh -W %h:%p jump".into(),
    ];
    assert!(host_is_configured(&lines, "B.EXAMPLE"));
    assert!(!host_is_configured(&lines, "c.example"));
    assert!(!host_is_configured(&lines, "d.example"));
    assert_eq!(ssh_state(false, true, 1, 0), SshState::HostsFileMissing);
    assert_eq!(ssh_state(true, false, 1, 0), SshState::ConfigMissing);
    assert_eq!(ssh_state(true, true, 0, 0), SshState::NoHosts);
    assert_eq!(ssh_state(true, true, 2, 0), SshState::Configured);
    assert_eq!(ssh_state(true, true, 2, 1), SshState::PartiallyConfigured);
}
