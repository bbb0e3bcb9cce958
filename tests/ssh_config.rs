use proxyctl_rs::hosts::parse_hosts;
use proxyctl_rs::ssh::{apply_add, apply_removal};

fn proxy_line(proxy_host: &str) -> String {
    format!("ProxyCommand /usr/bin/nc -X connect -x {proxy_host} %h %p")
}

#[test]
fn ssh_add_adds_proxy_command_for_matching_hosts() {
    let proxy_host = "proxy.example.com:8080";
    let hosts = parse_hosts("hosts.txt", "host1.oracle.com\nHOST2.oracle.com\n").unwrap();
    let original = "Host host1.oracle.com\n    User alice\n\nHost unmatched\n    User bob\n";

    let (updated, changed) = apply_add(original, &hosts, proxy_host).expect("add hosts");
    assert!(changed);
    assert!(updated.contains(&proxy_line(proxy_host)));
    assert!(updated.contains("Host host1.oracle.com"));
    assert!(updated.contains("Host unmatched"));

    // the text handed in is what a backup holds
    let backup = original.to_string();
    assert_eq!(
        backup,
        "Host host1.oracle.com\n    User alice\n\nHost unmatched\n    User bob\n"
    );
    assert_eq!(
        updated,
        format!(
            "Host host1.oracle.com\n    {}\n    User alice\n\nHost unmatched\n    User bob\n",
            proxy_line(proxy_host)
        )
    );
}

#[test]
fn ssh_remove_removes_proxy_command_but_preserves_other_hosts() {
    let proxy_host = "proxy.example.com:8080";
    let proxy_line_with_indent = format!("    {}\n", proxy_line(proxy_host));

    let initial = format!(
        "Host host1.oracle.com\n    User alice\n{proxy_line_with_indent}\nHost host2.oracle.com\n    User bob\n{proxy_line_with_indent}\nHost other\n    User carol\n"
    );
    let hosts = parse_hosts("hosts.txt", "host1.oracle.com\nhost2.oracle.com\n").unwrap();

    let (updated, changed) = apply_removal(&initial, &hosts);
    assert!(changed);
    assert!(!updated.contains(&proxy_line(proxy_host)));
    assert!(updated.contains("Host other"));
}

#[test]
fn ssh_add_and_remove_are_idempotent() {
    let proxy_host = "proxy.example.com:8080";
    let hosts = parse_hosts("hosts.txt", "host1.oracle.com\n").unwrap();
    let initial = "Host host1.oracle.com\n    User alice\n".to_string();

    let (first_config, _) = apply_add(&initial, &hosts, proxy_host).expect("first add");

    // ensure repeated add doesn't duplicate proxy line
    let (second_config, changed) = apply_add(&first_config, &hosts, proxy_host).expect("second add");
    assert!(!changed);
    assert_eq!(first_config, second_config);

    // ensure remove eliminates proxy line
    let (first_remove, _) = apply_removal(&second_config, &hosts);
    assert!(!first_remove.contains(&proxy_line(proxy_host)));

    // re-add to confirm remove idempotence
    let (readded, _) = apply_add(&first_remove, &hosts, proxy_host).expect("re-add");
    let (second_remove, _) = apply_removal(&readded, &hosts);
    assert_eq!(first_remove, second_remove);
    assert_eq!(second_remove, initial);
}
