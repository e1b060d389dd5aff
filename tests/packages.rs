use packager::package::{split_lines, Config, Package, PackageError};
use packager::package_manager::{PackageEntry, PackageManager};

fn entry(name: &str, is_dir: bool, config: Option<Config>, ignore: Option<&str>) -> PackageEntry {
    PackageEntry { name: name.to_string(), is_dir, config, namcap_ignore: ignore.map(|s| s.to_string()) }
}

fn sample_entries() -> Vec<PackageEntry> {
    vec![
        entry("alpha", true, None, Some("rule-one\nrule-two\n")),
        entry("README.md", false, None, None),
        entry(
            "beta",
            true,
            Some(Config { upstream: Some(vec![("pypi".to_string(), "beta".to_string())]), history: None }),
            None,
        ),
    ]
}

#[test]
fn manager_test_working() {
    PackageManager::from_dir("packages", sample_entries()).unwrap();
}

#[test]
fn lib_test_working() {
    PackageManager::from_dir("../packages", sample_entries()).unwrap();
}

#[test]
fn package_manager_test_working() {
    PackageManager::from_dir("../", sample_entries()).unwrap();
}

#[test]
fn manager_keeps_directories_only() {
    let m = PackageManager::from_dir("base", sample_entries()).unwrap();
    assert_eq!(m.get_package_names(), vec!["alpha".to_string(), "beta".to_string()]);
    assert_eq!(m.packages().len(), 2);
    assert_eq!(m.get_packages()[0].namcap_ignores(), &vec!["rule-one".to_string(), "rule-two".to_string()]);
    assert_eq!(m.base_path(), "base");
}

#[test]
fn manager_finds_packages_by_name() {
    let m = PackageManager::from_dir("base", sample_entries()).unwrap();
    assert_eq!(m.get_package_by_name("beta").unwrap().get_name(), "beta");
    assert_eq!(m.get_package_by_name("README.md").unwrap_err(), PackageError::NoSuchPackage("README.md".to_string()));
}

#[test]
fn invalid_upstream_is_refused() {
    let bad = Config { upstream: Some(vec![("cpan".to_string(), "x".to_string())]), history: None };
    assert_eq!(bad.validate(), Err(PackageError::InvalidUpstream("cpan".to_string())));
    let entries = vec![entry("gamma", true, Some(bad.clone()), None)];
    assert_eq!(
        PackageManager::from_dir("base", entries).unwrap_err(),
        PackageError::InvalidUpstream("cpan".to_string())
    );
    // a file entry is not read as a package
    assert!(PackageManager::from_dir("base", vec![entry("notes", false, Some(bad), None)]).is_ok());
}

#[test]
fn known_upstreams_are_accepted() {
    let good = Config {
        upstream: Some(vec![("github".to_string(), "a/b".to_string()), ("pypi".to_string(), "b".to_string())]),
        history: Some(vec![("1.0".to_string(), "x".to_string())]),
    };
    assert_eq!(good.validate(), Ok(()));
    assert_eq!(Config::empty().validate(), Ok(()));
}

#[test]
fn package_from_dir_reads_ignores() {
    let p = Package::from_dir("delta", None, Some("a\r\nb\n\nc".to_string())).unwrap();
    assert_eq!(p.name(), "delta");
    assert_eq!(p.namcap_ignores(), &vec!["a".to_string(), "b".to_string(), "".to_string(), "c".to_string()]);
    let q = Package::from_dir("eps", None, None).unwrap();
    assert!(q.namcap_ignores().is_empty());
}

#[test]
fn lines_are_split_like_a_reader() {
    assert_eq!(split_lines(""), Vec::<String>::new());
    assert_eq!(split_lines("one"), vec!["one".to_string()]);
    assert_eq!(split_lines("one\n"), vec!["one".to_string()]);
    assert_eq!(split_lines("one\r\ntwo\r"), vec!["one".to_string(), "two\r".to_string()]);
    assert_eq!(split_lines("\n\n"), vec!["".to_string(), "".to_string()]);
    assert_eq!(split_lines("é\nü"), vec!["é".to_string(), "ü".to_string()]);
}
