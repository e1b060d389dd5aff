use packager::aur::{is_constrained_dep, InfoResponse, PackageInfo, ResolveError};
use packager::index::resolve_in_index;
use packager::batch::{pack_batches, request_url, ARG_SEPARATOR, BASE_URL, MAX_REQUEST_LEN};
use packager::order::install_order;
use packager::resolver::Resolver;

fn info(name: &str, depends: &[&str], make_depends: &[&str]) -> PackageInfo {
    PackageInfo {
        name: name.to_string(),
        depends: if depends.is_empty() { None } else { Some(depends.iter().map(|s| s.to_string()).collect()) },
        make_depends: if make_depends.is_empty() {
            None
        } else {
            Some(make_depends.iter().map(|s| s.to_string()).collect())
        },
    }
}

fn response(results: Vec<PackageInfo>) -> InfoResponse {
    InfoResponse { version: 5, type_field: "multiinfo".to_string(), resultcount: results.len() as i64, results }
}

/// Drives a resolution against a fixed set of entries standing for the service.
fn resolve(root: &str, index: &[PackageInfo]) -> (Result<Vec<String>, ResolveError>, Vec<Vec<String>>, Vec<String>) {
    let mut r = Resolver::new(root);
    let mut batches = Vec::new();
    while !r.is_done() {
        let batch = match r.next_batch() {
            Ok(b) => b,
            Err(e) => return (Err(e), batches, r.diagnostics().clone()),
        };
        let found: Vec<PackageInfo> = index.iter().filter(|i| batch.contains(&i.name)).cloned().collect();
        batches.push(batch);
        if let Err(e) = r.handle_response(response(found)) {
            return (Err(e), batches, r.diagnostics().clone());
        }
    }
    (r.finish(), batches, r.diagnostics().clone())
}

#[test]
fn root_with_one_dependency() {
    let index = vec![info("X", &["Y"], &[]), info("Y", &[], &[])];
    let (r, batches, _) = resolve("X", &index);
    assert_eq!(r.unwrap(), vec!["Y".to_string(), "X".to_string()]);
    assert_eq!(batches, vec![vec!["X".to_string()], vec!["Y".to_string()]]);
}

#[test]
fn root_not_in_index() {
    let (r, _, _) = resolve("Z", &[]);
    assert_eq!(r.unwrap(), vec!["Z".to_string()]);
}

#[test]
fn two_packages_in_a_cycle() {
    let index = vec![info("A", &["B"], &[]), info("B", &["A"], &[])];
    let (r, _, _) = resolve("A", &index);
    match r {
        Err(ResolveError::CircularDependency(n)) => assert!(n == "A" || n == "B"),
        other => panic!("unexpected {:?}", other),
    }
}

#[test]
fn self_dependency_is_a_cycle() {
    let index = vec![info("A", &["A"], &[])];
    let (r, _, _) = resolve("A", &index);
    assert_eq!(r, Err(ResolveError::CircularDependency("A".to_string())));
}

#[test]
fn constrained_dependencies_are_not_followed() {
    let index = vec![info("P", &["lib=1.0", "Q"], &["tool>=2"]), info("Q", &[], &[]), info("lib=1.0", &[], &[])];
    let (r, batches, diags) = resolve("P", &index);
    assert_eq!(r.unwrap(), vec!["Q".to_string(), "P".to_string()]);
    assert_eq!(batches, vec![vec!["P".to_string()], vec!["Q".to_string()]]);
    assert_eq!(diags, vec!["lib=1.0".to_string(), "tool>=2".to_string()]);
}

#[test]
fn dependencies_outside_the_index_are_left_out() {
    let index = vec![info("app", &["python", "helper"], &["make"]), info("helper", &["python"], &[])];
    let (r, batches, _) = resolve("app", &index);
    assert_eq!(r.unwrap(), vec!["helper".to_string(), "app".to_string()]);
    assert_eq!(batches.len(), 2);
    assert_eq!(batches[1], vec!["python".to_string(), "helper".to_string(), "make".to_string()]);
}

#[test]
fn shared_dependency_is_asked_for_once() {
    let index = vec![
        info("top", &["left", "right"], &[]),
        info("left", &["base"], &[]),
        info("right", &["base"], &[]),
        info("base", &[], &[]),
    ];
    let (r, batches, _) = resolve("top", &index);
    let order = r.unwrap();
    assert_eq!(order.len(), 4);
    assert_eq!(order[0], "base");
    assert_eq!(order[3], "top");
    let asked: Vec<String> = batches.concat();
    assert_eq!(asked.iter().filter(|n| n.as_str() == "base").count(), 1);
}

#[test]
fn wrong_protocol_version_fails() {
    let mut r = Resolver::new("X");
    r.next_batch().unwrap();
    let mut resp = response(vec![info("X", &[], &[])]);
    resp.version = 4;
    assert_eq!(r.handle_response(resp), Err(ResolveError::WrongVersion(4)));
}

#[test]
fn wrong_result_type_fails() {
    let mut r = Resolver::new("X");
    r.next_batch().unwrap();
    let mut resp = response(vec![]);
    resp.type_field = "search".to_string();
    assert_eq!(r.handle_response(resp.clone()), Err(ResolveError::WrongType("search".to_string())));
    assert_eq!(resp.validate(), Err(ResolveError::WrongType("search".to_string())));
}

#[test]
fn unrequested_entries_are_ignored() {
    let mut r = Resolver::new("X");
    r.next_batch().unwrap();
    r.handle_response(response(vec![info("X", &[], &[]), info("other", &[], &[])])).unwrap();
    assert!(r.is_done());
    assert_eq!(r.finish().unwrap(), vec!["X".to_string()]);
}

#[test]
fn order_puts_dependencies_first() {
    let recs = vec![info("c", &["b"], &[]), info("b", &[], &["a"]), info("a", &[], &[])];
    assert_eq!(install_order(&recs).unwrap(), vec!["a".to_string(), "b".to_string(), "c".to_string()]);
}

#[test]
fn get_depends_joins_both_lists() {
    let i = info("p", &["a", "b"], &["c"]);
    assert_eq!(i.get_depends(), vec!["a".to_string(), "b".to_string(), "c".to_string()]);
    assert_eq!(info("q", &[], &[]).get_depends(), Vec::<String>::new());
}

#[test]
fn constraint_marker_is_found() {
    assert!(is_constrained_dep(&"foo=1.2".to_string()));
    assert!(is_constrained_dep(&"foo>=1.2".to_string()));
    assert!(!is_constrained_dep(&"foo".to_string()));
    assert!(!is_constrained_dep(&"".to_string()));
}

#[test]
fn request_url_joins_the_names() {
    assert_eq!(BASE_URL.len(), 51);
    assert_eq!(ARG_SEPARATOR.len(), 7);
    assert_eq!(MAX_REQUEST_LEN, 4443);
    let batch = vec!["a".to_string(), "bc".to_string()];
    assert_eq!(request_url(&batch), "https://aur.archlinux.org/rpc/?v=5&type=info&arg[]=a&arg[]=bc");
    assert_eq!(request_url(&vec!["one".to_string()]), format!("{}one", BASE_URL));
    assert_eq!(request_url(&Vec::new()), BASE_URL);
}

#[test]
fn many_short_names_make_several_batches() {
    let names: Vec<String> = (0..1000).map(|i| format!("pkg{:04}", i)).collect();
    let batches = pack_batches(&names, MAX_REQUEST_LEN).unwrap();
    assert!(batches.len() > 1);
    // each name costs 7 + 7 bytes; (4443 - 51) / 14 = 313 names fit in one request
    assert_eq!(batches[0].len(), 313);
    assert_eq!(batches.len(), 4);
    assert_eq!(batches.concat(), names);
    for b in &batches {
        assert!(request_url(b).len() <= MAX_REQUEST_LEN);
    }
    // the first name of the next batch would not have fitted
    let mut longer = batches[0].clone();
    longer.push(batches[1][0].clone());
    assert!(request_url(&longer).len() + ARG_SEPARATOR.len() > MAX_REQUEST_LEN);
}

#[test]
fn one_name_near_the_limit_makes_one_batch() {
    let name = "n".repeat(MAX_REQUEST_LEN - BASE_URL.len() - ARG_SEPARATOR.len());
    let batches = pack_batches(&vec![name.clone()], MAX_REQUEST_LEN).unwrap();
    assert_eq!(batches, vec![vec![name.clone()]]);
    assert!(request_url(&batches[0]).len() <= MAX_REQUEST_LEN);
}

#[test]
fn name_over_the_limit_is_refused() {
    let name = "n".repeat(MAX_REQUEST_LEN - BASE_URL.len() - ARG_SEPARATOR.len() + 1);
    assert_eq!(pack_batches(&vec!["a".to_string(), name.clone()], MAX_REQUEST_LEN), Err(ResolveError::NameTooLong(name.clone())));
    let mut r = Resolver::new(&name);
    assert_eq!(r.next_batch(), Err(ResolveError::NameTooLong(name)));
}

#[test]
fn no_names_make_no_batches() {
    assert_eq!(pack_batches(&Vec::new(), MAX_REQUEST_LEN).unwrap(), Vec::<Vec<String>>::new());
}

#[test]
fn index_resolution_of_root_with_dependency() {
    let index = vec![info("X", &["Y"], &[]), info("Y", &[], &[])];
    let (r, session) = resolve_in_index("X", &index);
    assert_eq!(r.unwrap(), vec!["Y".to_string(), "X".to_string()]);
    assert!(session.is_done());
}

#[test]
fn index_resolution_of_absent_root() {
    let (r, _) = resolve_in_index("Z", &Vec::new());
    assert_eq!(r.unwrap(), vec!["Z".to_string()]);
}

#[test]
fn index_resolution_of_cycle() {
    let index = vec![info("A", &["B"], &[]), info("B", &["A"], &[])];
    let (r, _) = resolve_in_index("A", &index);
    assert_eq!(r, Err(ResolveError::CircularDependency("A".to_string())));
}

#[test]
fn index_resolution_keeps_constrained_aside() {
    let index = vec![info("P", &["Q", "lib=1.0"], &[]), info("Q", &["R"], &[]), info("R", &[], &[])];
    let (r, session) = resolve_in_index("P", &index);
    assert_eq!(r.unwrap(), vec!["R".to_string(), "Q".to_string(), "P".to_string()]);
    assert_eq!(session.diagnostics(), &vec!["lib=1.0".to_string()]);
}
