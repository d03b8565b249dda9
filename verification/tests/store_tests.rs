use cli_project_manager::CandidateEntry;
use cli_project_manager::DirTimes;
use cli_project_manager::ProjectErrorTypes;
use cli_project_manager::ProjectManager;
use cli_project_manager::ScanEntry;
use cli_project_manager::SortOrder;

fn strings(xs: &[&str]) -> Vec<String> {
    xs.iter().map(|s| s.to_string()).collect()
}

fn as_set(mut xs: Vec<String>) -> Vec<String> {
    xs.sort();
    xs
}

fn candidate(name: &str, data: &str, times: DirTimes) -> ScanEntry {
    ScanEntry::Candidate(CandidateEntry {
        name: Some(name.to_string()),
        data: Ok(data.to_string()),
        meta: Ok(times),
    })
}

fn no_times() -> DirTimes {
    DirTimes { created: None, accessed: None }
}

#[test]
fn non_existing_dir() {
    let (manager, errors) = ProjectManager::load(
        "/tmp/projects".to_string(),
        Err("No such file or directory".to_string()),
    );
    assert!(
        manager.get_projects(SortOrder::AccessTime).is_empty(),
        "Empty project list with non existing root directory"
    );
    assert!(
        errors.len() == 1 && errors[0].typ == ProjectErrorTypes::DirectoryRead,
        "Only one error of DirectoryRead with non existing root directory"
    );
}

#[test]
fn general() {
    // empty root directory
    let (mut manager, errors) = ProjectManager::load("/tmp/projects".to_string(), Ok(Vec::new()));
    assert!(
        manager.get_projects(SortOrder::AccessTime).is_empty(),
        "Empty project list in empty root directory"
    );
    assert!(errors.is_empty(), "Empty error list in empty root directory");
    assert!(manager.get_tags().is_empty(), "Empty tag list in empty root directory");

    // correct path
    assert_eq!(manager.get_path("test"), "/tmp/projects/test");

    // project creation
    let tags = strings(&["rust"]);
    let req = manager.create(&"proj0".to_string(), &tags, 100).expect("Valid project creation");
    assert_eq!(req.dir_path, "/tmp/projects/proj0");
    assert_eq!(req.gitignore_path, "/tmp/projects/proj0/.gitignore");
    assert_eq!(req.gitignore_line, ".project.json");
    assert_eq!(req.sidecar_path, "/tmp/projects/proj0/.project.json");
    let proj0_sidecar = req.sidecar_content.clone();
    assert!(manager.create_finish("proj0".to_string(), &tags, 100, Ok(())).is_ok());
    assert_eq!(as_set(manager.get_tags()), as_set(tags.clone()));

    // creating a project with the same name
    assert!(
        manager
            .create(&"proj0".to_string(), &Vec::new(), 150)
            .is_err_and(|e| e.typ == ProjectErrorTypes::ProjectWrite),
        "Invalid creation of project with the same name."
    );
    // the failed creation altered nothing
    let ps = manager.get_projects(SortOrder::Name);
    assert!(ps.len() == 1 && ps[0].get_name() == "proj0");
    assert_eq!(ps[0].get_tags(), tags);
    assert_eq!(as_set(manager.get_tags()), as_set(tags.clone()));

    // listing in different orders
    let tags1 = strings(&["python"]);
    let req = manager.create(&"proj1".to_string(), &tags1, 200).unwrap();
    let proj1_sidecar = req.sidecar_content.clone();
    manager.create_finish("proj1".to_string(), &tags1, 200, Ok(())).unwrap();

    let projects_by_atime = manager.get_projects(SortOrder::AccessTime);
    assert!(projects_by_atime.len() == 2);
    assert!(projects_by_atime[0].get_name() == "proj1");
    assert!(projects_by_atime[1].get_name() == "proj0");

    // reloading from what was written reproduces the store
    let scan = vec![
        candidate("proj0", &proj0_sidecar, no_times()),
        candidate("proj1", &proj1_sidecar, no_times()),
    ];
    let (mut manager, errors) = ProjectManager::load("/tmp/projects".to_string(), Ok(scan));
    assert!(errors.is_empty());
    assert_eq!(as_set(manager.get_tags()), as_set(strings(&["python", "rust"])));

    let projects_by_ctime = manager.get_projects(SortOrder::Creation);
    assert!(projects_by_ctime.len() == 2 && projects_by_ctime[0].get_name() == "proj1");

    let projects_by_name = manager.get_projects(SortOrder::Name);
    assert!(projects_by_name.len() == 2 && projects_by_name[0].get_name() == "proj0");

    // invalid renames
    assert!(
        manager
            .rename("proj", "proj2", false)
            .is_err_and(|e| e.typ == ProjectErrorTypes::NonExistingProject)
    );
    assert!(
        manager
            .rename("proj0", "proj1", true)
            .is_err_and(|e| e.typ == ProjectErrorTypes::DirectoryWrite),
        "Rename to existing project"
    );

    // valid rename
    let req = manager.rename("proj0", "proj2", false).expect("Valid project rename");
    assert_eq!(req.src_path, "/tmp/projects/proj0");
    assert_eq!(req.dst_path, "/tmp/projects/proj2");
    let req = manager.rename_finish("proj0", "proj2", 300, Ok(())).expect("check rename");
    assert_eq!(req.path, "/tmp/projects/proj2/.project.json");
    let projects_by_atime = manager.get_projects(SortOrder::AccessTime);
    assert!(
        projects_by_atime[0].get_name() == "proj2",
        "access time order change after rename"
    );

    // modify replaces a project's tags and extends the index
    let new_tags = strings(&["c"]);
    let req = manager.modify("proj2", &new_tags, 400).unwrap();
    assert_eq!(req.path, "/tmp/projects/proj2/.project.json");
    manager.modify_finish(&new_tags, Ok(())).unwrap();
    assert_eq!(
        as_set(manager.get_tags()),
        as_set(strings(&["c", "python", "rust"])),
        "correct tags after modification of a project"
    );

    let proj2 = manager.get_mut_project("proj2");
    assert!(
        proj2.is_ok(),
        "retrieval of renamed project(get_mut_project is also first tested here)"
    );
    assert_eq!(proj2.unwrap().get_tags(), new_tags, "check modified tags");
}

#[test]
fn failed_sidecar_write_keeps_project_out() {
    let (mut manager, _) = ProjectManager::load("/r".to_string(), Ok(Vec::new()));
    let tags = strings(&["rust"]);
    assert!(manager.create(&"p".to_string(), &tags, 10).is_ok());
    let r = manager.create_finish("p".to_string(), &tags, 10, Err("disk full".to_string()));
    assert!(r.is_err_and(|e| e.typ == ProjectErrorTypes::ProjectWrite));
    assert!(manager.get_projects(SortOrder::Name).is_empty());
    // the tags were merged before persisting, and stay
    assert_eq!(manager.get_tags(), tags);
}

#[test]
fn failed_directory_rename_leaves_store_unchanged() {
    let scan = vec![candidate("a", "{\"created\":1,\"accessed\":2}", no_times())];
    let (mut manager, _) = ProjectManager::load("/r".to_string(), Ok(scan));
    let r = manager.rename_finish("a", "b", 50, Err("permission denied".to_string()));
    assert!(r.is_err_and(|e| e.typ == ProjectErrorTypes::ProjectWrite));
    let ps = manager.get_projects(SortOrder::Name);
    assert_eq!(ps.len(), 1);
    assert_eq!(ps[0].get_name(), "a");
}

#[test]
fn exec_prepare_unknown_name_fails() {
    let (mut manager, _) = ProjectManager::load("/r".to_string(), Ok(Vec::new()));
    let r = manager.exec_prepare("ghost", 5);
    assert!(r.is_err_and(|e| e.typ == ProjectErrorTypes::NonExistingProject));
}

#[test]
fn modify_unknown_name_fails() {
    let (mut manager, _) = ProjectManager::load("/r".to_string(), Ok(Vec::new()));
    let r = manager.modify("ghost", &strings(&["x"]), 5);
    assert!(r.is_err_and(|e| e.typ == ProjectErrorTypes::NonExistingProject));
    assert!(manager.get_tags().is_empty());
}

#[test]
fn broken_sidecar_skips_only_that_project() {
    let scan = vec![
        candidate("good", "{\"created\":1,\"accessed\":2,\"tags\":[\"t\"]}", no_times()),
        candidate("bad", "{ not json at all", no_times()),
        candidate("alsogood", "{}", no_times()),
    ];
    let (manager, errors) = ProjectManager::load("/r".to_string(), Ok(scan));
    let ps = manager.get_projects(SortOrder::Name);
    assert_eq!(ps.len(), 2);
    assert_eq!(ps[0].get_name(), "alsogood");
    assert_eq!(ps[1].get_name(), "good");
    assert_eq!(errors.len(), 1);
    assert_eq!(errors[0].typ, ProjectErrorTypes::ProjectRead);
    assert_eq!(manager.get_tags(), strings(&["t"]));
}

#[test]
fn load_records_each_failure_kind() {
    let scan = vec![
        ScanEntry::Faulty("io error".to_string()),
        ScanEntry::Candidate(CandidateEntry {
            name: Some("unreadable".to_string()),
            data: Err("permission denied".to_string()),
            meta: Ok(no_times()),
        }),
        ScanEntry::Candidate(CandidateEntry {
            name: None,
            data: Ok("{}".to_string()),
            meta: Ok(no_times()),
        }),
        ScanEntry::Candidate(CandidateEntry {
            name: Some("nometa".to_string()),
            data: Ok("{}".to_string()),
            meta: Err("stat failed".to_string()),
        }),
        // when several reads fail, the directory metadata failure wins
        ScanEntry::Candidate(CandidateEntry {
            name: Some("allbroken".to_string()),
            data: Err("unreadable too".to_string()),
            meta: Err("stat failed".to_string()),
        }),
    ];
    let (manager, errors) = ProjectManager::load("/r".to_string(), Ok(scan));
    assert!(manager.get_projects(SortOrder::Name).is_empty());
    assert_eq!(errors.len(), 5);
    assert_eq!(errors[0].typ, ProjectErrorTypes::DirectoryRead);
    assert_eq!(errors[1].typ, ProjectErrorTypes::ProjectRead);
    assert_eq!(errors[2].typ, ProjectErrorTypes::DirectoryRead);
    assert_eq!(errors[3].typ, ProjectErrorTypes::DirectoryRead);
    assert_eq!(errors[4].typ, ProjectErrorTypes::DirectoryRead);
    assert_eq!(errors[0].msg, "couldn't read an entry of the root directory /r: io error");
    assert_eq!(
        errors[1].msg,
        "couldn't read the sidecar file /r/unreadable/.project.json: permission denied"
    );
    assert_eq!(errors[2].msg, "non-UTF-8 project directory names are not supported under /r");
    assert_eq!(errors[3].msg, "couldn't read directory metadata under /r: stat failed");
    assert_eq!(errors[4].msg, "couldn't read directory metadata under /r: stat failed");
}

#[test]
fn error_messages_name_what_failed() {
    // a failed root scan names the root
    let (_, errors) =
        ProjectManager::load("/tmp/projects".to_string(), Err("No such file".to_string()));
    assert_eq!(errors[0].msg, "couldn't read the root directory /tmp/projects: No such file");

    // a broken sidecar names its path
    let scan = vec![candidate("bad", "not json", no_times())];
    let (mut manager, errors) = ProjectManager::load("/r".to_string(), Ok(scan));
    assert_eq!(errors[0].msg, "broken sidecar file /r/bad/.project.json");

    // lookups name the missing project
    let r = manager.modify("ghost", &strings(&["x"]), 5);
    assert_eq!(r.unwrap_err().msg, "no project named ghost");
    let r = manager.get_mut_project("ghost");
    assert_eq!(r.unwrap_err().msg, "no project named ghost");
    let r = manager.rename("ghost", "elsewhere", false);
    assert_eq!(r.unwrap_err().msg, "no project named ghost");

    // a failed directory rename names both paths
    let scan = vec![candidate("a", "{}", no_times())];
    let (mut manager, _) = ProjectManager::load("/r".to_string(), Ok(scan));
    let r = manager.rename_finish("a", "b", 9, Err("permission denied".to_string()));
    assert_eq!(r.unwrap_err().msg, "couldn't rename /r/a to /r/b: permission denied");

    // a name conflict names the taken name
    let tags = strings(&["t"]);
    let r = manager.create(&"a".to_string(), &tags, 9);
    assert_eq!(r.unwrap_err().msg, "a project already exists with the name a");
}

#[test]
fn create_recovers_after_failed_root_read() {
    // a store loaded from a missing root is still usable: the next
    // create goes through (the driver recreates the directory lazily)
    let (mut manager, errors) =
        ProjectManager::load("/r".to_string(), Err("No such file".to_string()));
    assert_eq!(errors.len(), 1);
    let tags = strings(&["rust"]);
    let req = manager.create(&"p".to_string(), &tags, 3).expect("create after failed load");
    assert_eq!(req.dir_path, "/r/p");
    manager.create_finish("p".to_string(), &tags, 3, Ok(())).unwrap();
    let ps = manager.get_projects(SortOrder::Name);
    assert!(ps.len() == 1 && ps[0].get_name() == "p");
}

#[test]
fn missing_timestamps_fall_back_to_directory_times() {
    let scan = vec![
        candidate("withmeta", "{}", DirTimes { created: Some(7), accessed: Some(9) }),
        candidate("onlycreated", "{}", DirTimes { created: Some(7), accessed: None }),
        candidate("nothing", "{}", no_times()),
        candidate("fromfile", "{\"created\":1,\"accessed\":2}", DirTimes {
            created: Some(7),
            accessed: Some(9),
        }),
    ];
    let (manager, errors) = ProjectManager::load("/r".to_string(), Ok(scan));
    assert!(errors.is_empty());
    // `nothing` falls back to the epoch for both, `onlycreated` reuses its
    // creation time for the access time, and sidecar fields win over
    // directory metadata: most recently accessed first.
    let ps = manager.get_projects(SortOrder::AccessTime);
    assert_eq!(ps[0].get_name(), "withmeta");
    assert_eq!(ps[1].get_name(), "onlycreated");
    assert_eq!(ps[2].get_name(), "fromfile");
    assert_eq!(ps[3].get_name(), "nothing");
}

#[test]
fn duplicate_tags_collapse() {
    let scan = vec![candidate(
        "p",
        "{\"tags\":[\"a\",\"b\",\"a\",\"a\",\"b\"]}",
        no_times(),
    )];
    let (mut manager, errors) = ProjectManager::load("/r".to_string(), Ok(scan));
    assert!(errors.is_empty());
    assert_eq!(manager.get_tags(), strings(&["a", "b"]));
    assert_eq!(manager.get_mut_project("p").unwrap().get_tags(), strings(&["a", "b"]));
}

#[test]
fn name_order_breaks_timestamp_ties() {
    let scan = vec![
        candidate("b", "{\"created\":5,\"accessed\":5}", no_times()),
        candidate("a", "{\"created\":5,\"accessed\":5}", no_times()),
        candidate("c", "{\"created\":5,\"accessed\":6}", no_times()),
    ];
    let (manager, _) = ProjectManager::load("/r".to_string(), Ok(scan));
    let ps = manager.get_projects(SortOrder::AccessTime);
    assert_eq!(ps[0].get_name(), "c");
    assert_eq!(ps[1].get_name(), "a");
    assert_eq!(ps[2].get_name(), "b");
}

#[test]
fn insert_tag_deduplicates() {
    let (mut manager, _) = ProjectManager::load("/r".to_string(), Ok(Vec::new()));
    manager.insert_tag("x".to_string());
    manager.insert_tag("y".to_string());
    manager.insert_tag("x".to_string());
    assert_eq!(manager.get_tags(), strings(&["x", "y"]));
}

#[test]
fn exec_resolves_the_command() {
    let scan = vec![candidate("p", "{}", no_times())];
    let (mut manager, _) = ProjectManager::load("/home/u".to_string(), Ok(scan));

    let req = manager.exec_prepare("p", 77).expect("project exists");
    assert_eq!(req.path, "/home/u/p/.project.json");
    // the refreshed access time is what gets persisted
    let pd = cli_project_manager::parse_sidecar(&req.content).unwrap();
    assert_eq!(pd.accessed, Some(77));

    let req = manager.exec("p", "bash".to_string(), "vim {} {}").unwrap();
    assert_eq!(req.dir, "/home/u/p");
    assert_eq!(req.argv, strings(&["vim", "/home/u/p", "/home/u/p"]));

    let scan = vec![candidate("p", "{}", no_times())];
    let (manager, _) = ProjectManager::load("/home/u".to_string(), Ok(scan));
    let req = manager.exec("p", "bash".to_string(), "").unwrap();
    assert_eq!(req.argv, strings(&["bash"]));

    let (manager, _) = ProjectManager::load("/home/u".to_string(), Ok(Vec::new()));
    let r = manager.exec("ghost", "bash".to_string(), "");
    assert!(r.is_err_and(|e| e.typ == ProjectErrorTypes::NonExistingProject));
}
