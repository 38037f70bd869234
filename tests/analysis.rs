use modfinder::projects::{count_incomplete, find_most_compatible_mods, Project, Result};

fn strings(items: &[&str]) -> Vec<String> {
    items.iter().map(|s| s.to_string()).collect()
}

fn project(title: &str, versions: Option<&[&str]>, loaders: Option<&[&str]>) -> Project {
    Project {
        slug: title.to_lowercase(),
        title: title.to_string(),
        description: String::new(),
        categories: Vec::new(),
        client_side: "required".to_string(),
        server_side: "optional".to_string(),
        body: String::new(),
        status: "approved".to_string(),
        requested_status: None,
        issues_url: None,
        source_url: None,
        wiki_url: None,
        discord_url: None,
        project_type: "mod".to_string(),
        downloads: 0,
        icon_url: None,
        color: None,
        thread_id: None,
        id: title.to_string(),
        team: String::new(),
        published: String::new(),
        updated: String::new(),
        approved: None,
        queued: None,
        followers: 0,
        versions: None,
        game_versions: versions.map(strings),
        loaders: loaders.map(strings),
    }
}

fn summary(results: &[Result]) -> Vec<(String, String, i32, Vec<String>)> {
    results
        .iter()
        .map(|r| (r.version.clone(), r.loader.clone(), r.count, r.mods.clone()))
        .collect()
}

fn two_projects() -> Vec<Project> {
    vec![
        project("P1", Some(&["1.20"]), Some(&["fabric"])),
        project("P2", Some(&["1.20", "1.19"]), Some(&["fabric", "forge"])),
    ]
}

#[test]
fn two_projects_ranked_buckets() {
    let results = find_most_compatible_mods(&two_projects());
    let expected = vec![
        ("1.20".to_string(), "fabric".to_string(), 2, strings(&["P1", "P2"])),
        ("1.19".to_string(), "fabric".to_string(), 1, strings(&["P2"])),
        ("1.20".to_string(), "forge".to_string(), 1, strings(&["P2"])),
        ("1.19".to_string(), "forge".to_string(), 1, strings(&["P2"])),
    ];
    assert_eq!(summary(&results), expected);
}

#[test]
fn no_projects_no_buckets() {
    let results = find_most_compatible_mods(&Vec::new());
    assert!(results.is_empty());
}

#[test]
fn analysis_twice_gives_same_output() {
    let projects = two_projects();
    let first = summary(&find_most_compatible_mods(&projects));
    let second = summary(&find_most_compatible_mods(&projects));
    assert_eq!(first, second);
}

#[test]
fn one_bucket_per_pair_including_empty_ones() {
    let projects = vec![
        project("A", Some(&["1.18"]), Some(&["quilt"])),
        project("B", Some(&["1.19", "1.20"]), Some(&["forge"])),
        project("C", Some(&["1.18"]), Some(&["forge", "quilt"])),
    ];
    let results = find_most_compatible_mods(&projects);
    // loaders: quilt, forge; versions: 1.18, 1.19, 1.20
    assert_eq!(results.len(), 2 * 3);
    assert!(results.iter().any(|r| r.count == 0 && r.mods.is_empty()));
    for r in results.iter() {
        assert_eq!(r.count as usize, r.mods.len());
    }
}

#[test]
fn buckets_in_descending_count_order() {
    let projects = vec![
        project("A", Some(&["1.18", "1.19"]), Some(&["forge"])),
        project("B", Some(&["1.19"]), Some(&["forge", "fabric"])),
        project("C", Some(&["1.19"]), Some(&["fabric"])),
        project("D", Some(&["1.17"]), Some(&["fabric"])),
    ];
    let results = find_most_compatible_mods(&projects);
    for w in results.windows(2) {
        assert!(w[0].count >= w[1].count);
    }
    assert_eq!(results[0].version, "1.19");
    assert_eq!(results[0].count, 2);
}

#[test]
fn ties_keep_loader_then_version_discovery_order() {
    let projects = vec![project("X", Some(&["b", "a"]), Some(&["l2", "l1"]))];
    let results = find_most_compatible_mods(&projects);
    let pairs: Vec<(String, String)> =
        results.iter().map(|r| (r.version.clone(), r.loader.clone())).collect();
    assert_eq!(
        pairs,
        vec![
            ("b".to_string(), "l2".to_string()),
            ("a".to_string(), "l2".to_string()),
            ("b".to_string(), "l1".to_string()),
            ("a".to_string(), "l1".to_string()),
        ]
    );
}

#[test]
fn project_without_lists_supports_nothing() {
    let projects = vec![
        project("Full", Some(&["1.20"]), Some(&["fabric"])),
        project("NoLoaders", Some(&["1.20", "1.21"]), None),
        project("NoVersions", None, Some(&["fabric"])),
    ];
    let results = find_most_compatible_mods(&projects);
    assert_eq!(
        summary(&results),
        vec![
            ("1.20".to_string(), "fabric".to_string(), 1, strings(&["Full"])),
            ("1.21".to_string(), "fabric".to_string(), 0, Vec::new()),
        ]
    );
    assert_eq!(count_incomplete(&projects), 2);
}

#[test]
fn repeated_entries_make_one_bucket() {
    let projects = vec![
        project("A", Some(&["1.20", "1.20"]), Some(&["fabric"])),
        project("B", Some(&["1.20"]), Some(&["fabric", "fabric"])),
    ];
    let results = find_most_compatible_mods(&projects);
    assert_eq!(
        summary(&results),
        vec![("1.20".to_string(), "fabric".to_string(), 2, strings(&["A", "B"]))]
    );
}

#[test]
fn count_incomplete_of_complete_projects_is_zero() {
    assert_eq!(count_incomplete(&two_projects()), 0);
    assert_eq!(count_incomplete(&Vec::new()), 0);
}

#[test]
fn new_bucket_is_empty() {
    let r = Result::new("1.20".to_string(), "fabric".to_string());
    assert_eq!(r.version, "1.20");
    assert_eq!(r.loader, "fabric");
    assert_eq!(r.count, 0);
    assert!(r.mods.is_empty());
}

#[test]
fn add_appends_and_counts() {
    let mut r = Result::new("1.20".to_string(), "fabric".to_string());
    r.add("Sodium".to_string());
    r.add("Lithium".to_string());
    assert_eq!(r.count, 2);
    assert_eq!(r.mods, strings(&["Sodium", "Lithium"]));
}
