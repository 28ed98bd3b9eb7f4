use network_scanner::{
    db_directory_in, db_path_in, degraded_db_path, get_db_directory, get_db_path, load_hosts,
    load_services, save_host, save_service, store_path_in, HOSTS_DB_FILE, SERVICES_DB_FILE,
};

fn strings(items: &[&str]) -> Vec<String> {
    items.iter().map(|s| s.to_string()).collect()
}

fn sorted(mut items: Vec<String>) -> Vec<String> {
    items.sort();
    items
}

#[test]
fn a_missing_file_is_an_empty_store() {
    assert_eq!(load_hosts(None), Vec::<String>::new());
    assert_eq!(load_services(None), Vec::new());
}

#[test]
fn an_empty_file_is_an_empty_store() {
    assert_eq!(load_hosts(Some("")), Vec::<String>::new());
    assert_eq!(load_services(Some("")), Vec::new());
}

#[test]
fn hosts_are_read_line_by_line() {
    assert_eq!(load_hosts(Some("10.0.0.1\n10.0.0.2\n")), strings(&["10.0.0.1", "10.0.0.2"]));
    assert_eq!(load_hosts(Some("10.0.0.1\n10.0.0.2")), strings(&["10.0.0.1", "10.0.0.2"]));
    assert_eq!(load_hosts(Some("10.0.0.1")), strings(&["10.0.0.1"]));
    assert_eq!(load_hosts(Some("a\r\nb\r\n")), strings(&["a", "b"]));
    assert_eq!(load_hosts(Some("a\n\nb\n")), strings(&["a", "", "b"]));
    assert_eq!(load_hosts(Some("\n")), strings(&[""]));
    assert_eq!(load_hosts(Some("a\r")), strings(&["a\r"]));
    assert_eq!(load_hosts(Some("a\r\r\n")), strings(&["a\r"]));
    assert_eq!(load_hosts(Some(" a \n")), strings(&[" a "]));
}

#[test]
fn a_host_that_occurs_twice_is_loaded_once() {
    assert_eq!(load_hosts(Some("a\nb\na\nc\nb\n")), strings(&["a", "b", "c"]));
    assert_eq!(load_hosts(Some("a\r\na\n")), strings(&["a"]));
}

#[test]
fn the_first_host_creates_the_file() {
    assert_eq!(save_host(None, "192.168.1.1"), Some("192.168.1.1\n".to_string()));
    assert_eq!(save_host(Some(""), "192.168.1.1"), Some("192.168.1.1\n".to_string()));
}

#[test]
fn a_new_host_is_written_last() {
    assert_eq!(
        save_host(Some("10.0.0.1\n10.0.0.2\n"), "10.0.0.3"),
        Some("10.0.0.1\n10.0.0.2\n10.0.0.3\n".to_string())
    );
    assert_eq!(save_host(Some("10.0.0.1"), "10.0.0.3"), Some("10.0.0.1\n10.0.0.3\n".to_string()));
}

#[test]
fn a_known_host_leaves_the_file_untouched() {
    assert_eq!(save_host(Some("10.0.0.1\n10.0.0.2\n"), "10.0.0.1"), None);
    assert_eq!(save_host(Some("10.0.0.1\n10.0.0.2\n"), "10.0.0.2"), None);
    assert_eq!(save_host(Some("10.0.0.1\r\n"), "10.0.0.1"), None);
}

#[test]
fn a_host_is_known_by_its_exact_text() {
    assert_eq!(
        save_host(Some("10.0.0.1\n"), "10.0.0.10"),
        Some("10.0.0.1\n10.0.0.10\n".to_string())
    );
    assert_eq!(save_host(Some("Host\n"), "host"), Some("Host\nhost\n".to_string()));
    assert_eq!(save_host(Some("a \n"), "a"), Some("a \na\n".to_string()));
}

#[test]
fn rewriting_drops_repeated_lines() {
    assert_eq!(save_host(Some("a\nb\na\n"), "c"), Some("a\nb\nc\n".to_string()));
}

#[test]
fn saving_twice_is_saving_once() {
    let first = save_host(None, "172.16.0.9");
    assert_eq!(first, Some("172.16.0.9\n".to_string()));
    let second = save_host(first.as_deref(), "172.16.0.9");
    assert_eq!(second, None);
    assert_eq!(load_hosts(first.as_deref()), strings(&["172.16.0.9"]));

    let contents = "10.0.0.1\n10.0.0.2\n";
    let first = save_host(Some(contents), "10.0.0.3").unwrap();
    assert_eq!(save_host(Some(&first), "10.0.0.3"), None);
    assert_eq!(load_hosts(Some(&first)), strings(&["10.0.0.1", "10.0.0.2", "10.0.0.3"]));
}

#[test]
fn saved_hosts_load_as_the_same_set() {
    let saved = ["10.0.0.7", "10.0.0.3", "10.0.0.7", "192.168.1.1", "::1", "10.0.0.3", ""];
    let mut contents: Option<String> = None;
    for host in saved {
        if let Some(text) = save_host(contents.as_deref(), host) {
            contents = Some(text);
        }
    }
    let loaded = load_hosts(contents.as_deref());
    assert_eq!(loaded.len(), 5);
    assert_eq!(
        sorted(loaded),
        sorted(strings(&["10.0.0.7", "10.0.0.3", "192.168.1.1", "::1", ""]))
    );
}

#[test]
fn services_are_composed_with_colons() {
    assert_eq!(
        save_service(None, "127.0.0.1", 80, "HTTP"),
        Some("127.0.0.1:80:HTTP\n".to_string())
    );
    assert_eq!(save_service(None, "h", 0, "Unknown"), Some("h:0:Unknown\n".to_string()));
    assert_eq!(save_service(None, "h", 65535, "x"), Some("h:65535:x\n".to_string()));
    assert_eq!(save_service(None, "h", 7, ""), Some("h:7:\n".to_string()));
    assert_eq!(save_service(None, "h", 1000, "a:b"), Some("h:1000:a:b\n".to_string()));
    assert_eq!(
        save_service(Some("10.0.0.1:22:SSH\n"), "10.0.0.1", 443, "HTTPS"),
        Some("10.0.0.1:22:SSH\n10.0.0.1:443:HTTPS\n".to_string())
    );
}

#[test]
fn a_known_service_leaves_the_file_untouched() {
    let contents = "10.0.0.1:22:SSH\n10.0.0.1:443:HTTPS\n";
    assert_eq!(save_service(Some(contents), "10.0.0.1", 22, "SSH"), None);
    assert_eq!(save_service(Some(contents), "10.0.0.1", 443, "HTTPS"), None);
    assert_eq!(
        save_service(Some(contents), "10.0.0.1", 22, "ssh"),
        Some("10.0.0.1:22:SSH\n10.0.0.1:443:HTTPS\n10.0.0.1:22:ssh\n".to_string())
    );
    assert_eq!(
        save_service(Some(contents), "10.0.0.2", 22, "SSH"),
        Some("10.0.0.1:22:SSH\n10.0.0.1:443:HTTPS\n10.0.0.2:22:SSH\n".to_string())
    );
}

#[test]
fn saving_a_service_twice_is_saving_it_once() {
    let first = save_service(None, "10.1.1.1", 3306, "MySQL");
    assert_eq!(save_service(first.as_deref(), "10.1.1.1", 3306, "MySQL"), None);
    assert_eq!(
        load_services(first.as_deref()),
        vec![("10.1.1.1".to_string(), 3306, "MySQL".to_string())]
    );
}

#[test]
fn services_are_read_line_by_line() {
    assert_eq!(
        load_services(Some("10.0.0.1:22:SSH\n10.0.0.2:8080:HTTP-Proxy\n")),
        vec![
            ("10.0.0.1".to_string(), 22, "SSH".to_string()),
            ("10.0.0.2".to_string(), 8080, "HTTP-Proxy".to_string()),
        ]
    );
}

#[test]
fn malformed_service_lines_are_skipped() {
    let contents = "h:80:HTTP\nbad\nh:xx:HTTP\nh:70000:X\nh:22\n\nh::SSH\nh:-1:x\nh: 22:x\ng:443:HTTPS\n";
    assert_eq!(
        load_services(Some(contents)),
        vec![
            ("h".to_string(), 80, "HTTP".to_string()),
            ("g".to_string(), 443, "HTTPS".to_string()),
        ]
    );
}

#[test]
fn a_service_label_may_hold_colons() {
    assert_eq!(
        load_services(Some("h:22:SSH:extra:more\nh:23:\n:24:x\n")),
        vec![
            ("h".to_string(), 22, "SSH:extra:more".to_string()),
            ("h".to_string(), 23, "".to_string()),
            ("".to_string(), 24, "x".to_string()),
        ]
    );
}

#[test]
fn a_service_that_occurs_twice_is_loaded_once() {
    assert_eq!(
        load_services(Some("h:80:HTTP\nh:080:HTTP\nh:+80:HTTP\nh:80:HTTP\nh:81:HTTP\n")),
        vec![
            ("h".to_string(), 80, "HTTP".to_string()),
            ("h".to_string(), 81, "HTTP".to_string()),
        ]
    );
}

#[test]
fn store_files_lie_under_the_home_directory() {
    assert_eq!(
        db_path_in(Some("/home/alice"), "/tmp", "hosts.db"),
        "/home/alice/.network_scanner/hosts.db"
    );
    assert_eq!(
        db_path_in(Some("/home/alice/"), "/tmp", "hosts.db"),
        "/home/alice/.network_scanner/hosts.db"
    );
    assert_eq!(db_path_in(Some("/"), "/tmp", "hosts.db"), "/.network_scanner/hosts.db");
}

#[test]
fn without_a_home_directory_the_fallback_is_used() {
    assert_eq!(db_path_in(None, "/tmp", "hosts.db"), "/tmp/.network_scanner/hosts.db");
    assert_eq!(db_path_in(None, ".", "hosts.db"), "./.network_scanner/hosts.db");
    assert_eq!(db_path_in(None, "", "hosts.db"), ".network_scanner/hosts.db");
}

#[test]
fn the_store_files_have_fixed_names() {
    assert_eq!(HOSTS_DB_FILE, "network_scanner_hosts.db");
    assert_eq!(SERVICES_DB_FILE, "network_scanner_services.db");
}

#[test]
fn the_store_directory_is_named_before_it_is_made() {
    assert_eq!(db_directory_in(Some("/home/alice"), "/tmp"), "/home/alice/.network_scanner");
    assert_eq!(db_directory_in(Some("/home/alice/"), "/tmp"), "/home/alice/.network_scanner");
    assert_eq!(db_directory_in(None, "/tmp"), "/tmp/.network_scanner");
    assert_eq!(db_directory_in(None, ""), ".network_scanner");
    let directory = get_db_directory("/tmp");
    assert!(directory.ends_with(".network_scanner"));
    assert_ne!(directory, ".network_scanner");
}

#[test]
fn a_store_file_lies_in_the_store_directory_when_it_is_ready() {
    assert_eq!(
        store_path_in(Some("/home/alice"), "/tmp", "hosts.db", true),
        "/home/alice/.network_scanner/hosts.db"
    );
    assert_eq!(store_path_in(None, "/tmp", "hosts.db", true), "/tmp/.network_scanner/hosts.db");
    let directory = get_db_directory("/tmp");
    let hosts = get_db_path(HOSTS_DB_FILE, "/tmp", true);
    assert_eq!(hosts, format!("{}/network_scanner_hosts.db", directory));
    let services = get_db_path(SERVICES_DB_FILE, "/tmp", true);
    assert_eq!(services, format!("{}/network_scanner_services.db", directory));
}

#[test]
fn a_store_directory_that_cannot_be_made_degrades_to_the_fallback() {
    assert_eq!(store_path_in(Some("/home/alice"), "/tmp", "hosts.db", false), "/tmp/hosts.db");
    assert_eq!(store_path_in(None, "/tmp", "hosts.db", false), "/tmp/hosts.db");
    assert_eq!(store_path_in(None, ".", "hosts.db", false), "./hosts.db");
    assert_eq!(store_path_in(None, "", "hosts.db", false), "hosts.db");
    assert_eq!(get_db_path(HOSTS_DB_FILE, "/tmp", false), "/tmp/network_scanner_hosts.db");
    assert_eq!(get_db_path(SERVICES_DB_FILE, ".", false), "./network_scanner_services.db");
    assert_eq!(get_db_path("hosts.db", "", false), "hosts.db");
}

#[test]
fn without_a_store_directory_the_file_lies_in_the_fallback() {
    assert_eq!(degraded_db_path("/tmp", "hosts.db"), "/tmp/hosts.db");
    assert_eq!(degraded_db_path("/tmp/", "hosts.db"), "/tmp/hosts.db");
    assert_eq!(degraded_db_path("", "hosts.db"), "hosts.db");
}
