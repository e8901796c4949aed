use threatflux_string_analysis::{Categorizer, DefaultCategorizer};

fn names(value: &str) -> Vec<String> {
    DefaultCategorizer::new().categorize(value).into_iter().map(|c| c.name).collect()
}

fn has(value: &str, label: &str) -> bool {
    names(value).iter().any(|n| n == label)
}

#[test]
fn every_string_has_a_category() {
    for s in ["", " ", "just some text", "https://example.com", "\u{0}", "x"] {
        assert!(!names(s).is_empty());
    }
}

#[test]
fn generic_is_given_only_when_nothing_else_applies() {
    assert_eq!(names("just some text"), vec!["generic".to_string()]);
    assert_eq!(names(""), vec!["generic".to_string()]);
    assert!(!has("https://example.com", "generic"));
    assert!(!has("/usr/bin/bash", "generic"));
}

#[test]
fn categories_come_in_the_order_of_the_rules() {
    assert_eq!(names("/usr/bin/bash"), vec!["path".to_string(), "command".to_string()]);
    assert_eq!(
        names("C:\\Windows\\System32\\cmd.exe"),
        vec!["path".to_string(), "command".to_string()]
    );
    assert_eq!(
        names("http://host/HKEY_CURRENT_USER/lib.dll"),
        vec!["url".to_string(), "registry".to_string(), "library".to_string()]
    );
}

#[test]
fn url_needs_the_scheme_delimiter() {
    assert!(has("ftp://host", "url"));
    assert!(has("x://", "url"));
    assert!(!has("example.com/path", "url"));
    assert!(!has("http:/host", "url"));
}

#[test]
fn ipv4_is_four_groups_of_one_to_three_digits() {
    assert!(has("192.168.1.1", "ip_address"));
    assert!(has("0.0.0.0", "ip_address"));
    assert!(has("999.999.999.999", "ip_address"));
    assert!(!has("1.2.3", "ip_address"));
    assert!(!has("1.2.3.4.5", "ip_address"));
    assert!(!has("1234.1.1.1", "ip_address"));
    assert!(!has("1..2.3", "ip_address"));
    assert!(!has("1.2.3.4 ", "ip_address"));
    assert!(!has("a.b.c.d", "ip_address"));
    assert!(!has("1.2.3.", "ip_address"));
}

#[test]
fn ipv6_is_eight_groups_of_one_to_four_hex_digits() {
    assert!(has("2001:0db8:85a3:0000:0000:8a2e:0370:7334", "ip_address"));
    assert!(has("1:2:3:4:5:6:7:8", "ip_address"));
    assert!(has("FE80:0:0:0:0:0:0:1", "ip_address"));
    assert!(!has("1:2:3:4:5:6:7", "ip_address"));
    assert!(!has("1:2:3:4:5:6:7:8:9", "ip_address"));
    assert!(!has("12345:2:3:4:5:6:7:8", "ip_address"));
    assert!(!has("g:2:3:4:5:6:7:8", "ip_address"));
}

#[test]
fn email_needs_a_local_part_and_a_domain_with_an_inner_dot() {
    assert!(has("test@example.com", "email"));
    assert!(has("a@b.c", "email"));
    assert!(has("first last@mail.example.org", "email"));
    assert!(!has("@example.com", "email"));
    assert!(!has("test@example", "email"));
    assert!(!has("test@.com", "email"));
    assert!(!has("test@example.", "email"));
    assert!(!has("test@exa mple.com", "email"));
    assert!(!has("a@b@c", "email"));
    assert!(has("a@b@c.d", "email"));
}

#[test]
fn path_is_known_by_its_beginning() {
    assert!(has("/usr/bin/bash", "path"));
    assert!(has("/", "path"));
    assert!(has("~/notes.txt", "path"));
    assert!(has("./run.sh", "path"));
    assert!(has("../up", "path"));
    assert!(has("\\\\server\\share", "path"));
    assert!(has("C:\\Windows", "path"));
    assert!(has("d:/data", "path"));
    assert!(!has("C:", "path"));
    assert!(!has("1:\\x", "path"));
    assert!(!has("dir/file", "path"));
    assert!(!has("HKEY_LOCAL_MACHINE\\Software", "path"));
}

#[test]
fn registry_is_known_by_its_hive() {
    assert!(has("HKEY_LOCAL_MACHINE\\Software", "registry"));
    assert!(has("HKLM\\Software\\Microsoft", "registry"));
    assert!(has("HKCU\\Environment", "registry"));
    assert!(has("key: HKCR\\.txt", "registry"));
    assert!(!has("HKLM", "registry"));
    assert!(!has("hkey_local_machine", "registry"));
}

#[test]
fn library_is_known_by_its_suffix_in_any_case() {
    assert!(has("kernel32.dll", "library"));
    assert!(has("KERNEL32.DLL", "library"));
    assert!(has("libc.so", "library"));
    assert!(has("libc.so.6", "library"));
    assert!(has("libfoo.dylib", "library"));
    assert!(has("ntfs.sys", "library"));
    assert!(!has("dll", "library"));
    assert!(!has("kernel32.dll.txt", "library"));
}

#[test]
fn api_call_is_a_pascal_case_identifier() {
    assert!(has("CreateProcess", "api_call"));
    assert!(has("VirtualAllocEx", "api_call"));
    assert!(has("ReadFile2", "api_call"));
    assert!(!has("Hello", "api_call"));
    assert!(!has("createProcess", "api_call"));
    assert!(!has("CREATE", "api_call"));
    assert!(!has("Create Process", "api_call"));
    assert!(!has("Create_Process", "api_call"));
    assert!(!has("", "api_call"));
}

#[test]
fn command_is_a_system_program_or_a_shell_invocation() {
    assert!(has("/bin/ls", "command"));
    assert!(has("/usr/sbin/sshd", "command"));
    assert!(has("cmd.exe /c whoami", "command"));
    assert!(has("CMD.EXE /C dir", "command"));
    assert!(has("PowerShell -enc AAAA", "command"));
    assert!(has("bash -c 'id'", "command"));
    assert!(has("#!/bin/sh", "command"));
    assert!(!has("command", "command"));
    assert!(!has("/home/user/bin/tool", "command"));
}

#[test]
fn categorizer_gives_no_severity() {
    for c in DefaultCategorizer::new().categorize("/bin/ls") {
        assert_eq!(c.severity, None);
    }
}
