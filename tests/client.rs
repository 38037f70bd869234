use modfinder::modrinth::{projects_path, projects_request_path, request_url, Modrinth};
use modfinder::wanted::{ProjectData, WantedProjects};

fn headers(items: &[(&str, &str)]) -> Vec<(String, String)> {
    items.iter().map(|(n, v)| (n.to_string(), v.to_string())).collect()
}

#[test]
fn new_client_has_default_rate_limit() {
    let m = Modrinth::new("ModFinder (test)".to_string());
    assert_eq!(m.limit(), 300);
    assert_eq!(m.remaining(), 300);
    assert_eq!(m.reset(), 60);
    assert_eq!(m.user_agent(), "ModFinder (test)");
    assert_eq!(m.wait_before_request(), None);
}

#[test]
fn absent_header_leaves_field_untouched() {
    let mut m = Modrinth::new("ua".to_string());
    m.update_from_headers(&headers(&[("x-ratelimit-remaining", "10")]));
    assert_eq!(m.remaining(), 10);
    m.update_from_headers(&headers(&[("content-type", "application/json"), ("x-ratelimit-limit", "250")]));
    assert_eq!(m.limit(), 250);
    assert_eq!(m.remaining(), 10);
    assert_eq!(m.reset(), 60);
}

#[test]
fn all_three_headers_are_read() {
    let mut m = Modrinth::new("ua".to_string());
    m.update_from_headers(&headers(&[
        ("x-ratelimit-limit", "100"),
        ("x-ratelimit-remaining", "7"),
        ("x-ratelimit-reset", "42"),
    ]));
    assert_eq!((m.limit(), m.remaining(), m.reset()), (100, 7, 42));
}

#[test]
fn unparseable_header_leaves_field_untouched() {
    let mut m = Modrinth::new("ua".to_string());
    m.update_from_headers(&headers(&[
        ("x-ratelimit-limit", "lots"),
        ("x-ratelimit-remaining", " 5"),
        ("x-ratelimit-reset", "2147483648"),
    ]));
    assert_eq!((m.limit(), m.remaining(), m.reset()), (300, 300, 60));
}

#[test]
fn signed_header_values_are_read() {
    let mut m = Modrinth::new("ua".to_string());
    m.update_from_headers(&headers(&[("x-ratelimit-limit", "+12"), ("x-ratelimit-reset", "-3")]));
    assert_eq!(m.limit(), 12);
    assert_eq!(m.reset(), -3);
}

#[test]
fn last_header_of_a_name_wins() {
    let mut m = Modrinth::new("ua".to_string());
    m.update_from_headers(&headers(&[
        ("x-ratelimit-remaining", "9"),
        ("x-ratelimit-remaining", "4"),
        ("x-ratelimit-remaining", "junk"),
    ]));
    assert_eq!(m.remaining(), 4);
}

#[test]
fn record_header_ignores_other_names() {
    let mut m = Modrinth::new("ua".to_string());
    m.record_header(&"x-ratelimit".to_string(), Some(1));
    assert_eq!((m.limit(), m.remaining(), m.reset()), (300, 300, 60));
    m.record_header(&"x-ratelimit-reset".to_string(), None);
    assert_eq!(m.reset(), 60);
    m.record_header(&"x-ratelimit-reset".to_string(), Some(5));
    assert_eq!(m.reset(), 5);
}

#[test]
fn exhausted_quota_waits_for_reset() {
    let mut m = Modrinth::new("ua".to_string());
    m.update_from_headers(&headers(&[("x-ratelimit-remaining", "0"), ("x-ratelimit-reset", "17")]));
    assert_eq!(m.wait_before_request(), Some(17));
}

#[test]
fn negative_reset_waits_zero() {
    let mut m = Modrinth::new("ua".to_string());
    m.update_from_headers(&headers(&[("x-ratelimit-remaining", "0"), ("x-ratelimit-reset", "-1")]));
    assert_eq!(m.wait_before_request(), Some(0));
}

#[test]
fn remaining_quota_does_not_wait() {
    let mut m = Modrinth::new("ua".to_string());
    m.update_from_headers(&headers(&[("x-ratelimit-remaining", "1"), ("x-ratelimit-reset", "17")]));
    assert_eq!(m.wait_before_request(), None);
}

#[test]
fn projects_request_path_encodes_ids_as_json() {
    let ids = vec!["AANobbMI".to_string(), "P7dR8mSH".to_string()];
    assert_eq!(projects_request_path(&ids), "/projects?ids=[\"AANobbMI\",\"P7dR8mSH\"]");
    assert_eq!(projects_request_path(&Vec::new()), "/projects?ids=[]");
    let quoted = vec!["a\"b".to_string()];
    assert_eq!(projects_request_path(&quoted), "/projects?ids=[\"a\\\"b\"]");
}

#[test]
fn paths_and_urls() {
    assert_eq!(projects_path("[\"a\"]"), "/projects?ids=[\"a\"]");
    assert_eq!(request_url("/projects?ids=[]"), "https://api.modrinth.com/v2/projects?ids=[]");
}

#[test]
fn wanted_ids_in_order() {
    let wanted = WantedProjects {
        mods: vec![
            ProjectData { name: "Sodium".to_string(), id: "AANobbMI".to_string() },
            ProjectData { name: "Fabric API".to_string(), id: "P7dR8mSH".to_string() },
        ],
    };
    assert_eq!(wanted.ids(), vec!["AANobbMI".to_string(), "P7dR8mSH".to_string()]);
    assert!(WantedProjects { mods: Vec::new() }.ids().is_empty());
}

#[test]
fn header_names_ignore_ascii_case() {
    let mut m = Modrinth::new("ua".to_string());
    m.update_from_headers(&headers(&[("X-RateLimit-Limit", "120"), ("X-RATELIMIT-RESET", "30")]));
    assert_eq!(m.limit(), 120);
    assert_eq!(m.reset(), 30);
    assert_eq!(m.remaining(), 300);
}

#[test]
fn negative_remaining_is_ignored() {
    let mut m = Modrinth::new("ua".to_string());
    m.update_from_headers(&headers(&[("x-ratelimit-remaining", "10")]));
    m.update_from_headers(&headers(&[("x-ratelimit-remaining", "-5"), ("x-ratelimit-limit", "-2")]));
    assert_eq!(m.remaining(), 10);
    assert_eq!(m.limit(), -2);
    m.record_header(&"x-ratelimit-remaining".to_string(), Some(-1));
    assert_eq!(m.remaining(), 10);
    m.record_header(&"x-ratelimit-remaining".to_string(), Some(0));
    assert_eq!(m.remaining(), 0);
}
