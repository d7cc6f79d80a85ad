use std::cell::RefCell;
use std::rc::Rc;

use kubefs::fs::create_file_attr;
use kubefs::fs::KubeFS;
use kubefs::fs::SWAP_FILE_START_INO;
use kubefs::ids::path_ino;
use kubefs::inode::kube_objects;
use kubefs::inode::K8sInteractions;
use kubefs::inode::KubeFSInodeError;
use kubefs::inode::KubeFSLevel;

/// A scriptable in-memory stand-in for the remote resource provider.
struct ScriptedClient {
    namespaces: Rc<RefCell<Vec<String>>>,
    objects: Rc<RefCell<Vec<String>>>,
    documents: Rc<RefCell<Vec<(String, String)>>>,
    fail_listings: Rc<RefCell<bool>>,
}

fn scripted() -> (
    ScriptedClient,
    Rc<RefCell<Vec<String>>>,
    Rc<RefCell<Vec<String>>>,
    Rc<RefCell<Vec<(String, String)>>>,
    Rc<RefCell<bool>>,
) {
    let namespaces = Rc::new(RefCell::new(vec![
        String::from("default"),
        String::from("dev"),
    ]));
    let objects = Rc::new(RefCell::new(vec![
        String::from("deploy-1"),
        String::from("deploy-2"),
    ]));
    let documents = Rc::new(RefCell::new(vec![(
        String::from("deploy-1"),
        String::from("Data"),
    )]));
    let fail_listings = Rc::new(RefCell::new(false));
    let client = ScriptedClient {
        namespaces: namespaces.clone(),
        objects: objects.clone(),
        documents: documents.clone(),
        fail_listings: fail_listings.clone(),
    };
    (client, namespaces, objects, documents, fail_listings)
}

impl K8sInteractions for ScriptedClient {
    fn get_namespaces(&mut self) -> Result<Vec<String>, KubeFSInodeError> {
        if *self.fail_listings.borrow() {
            return Err(KubeFSInodeError::Unavailable);
        }
        Ok(self.namespaces.borrow().clone())
    }

    fn get_objects(
        &mut self,
        namespace: &str,
        object_name: &str,
    ) -> Result<Vec<String>, KubeFSInodeError> {
        if *self.fail_listings.borrow() {
            return Err(KubeFSInodeError::Unavailable);
        }
        if namespace == "default" && object_name == "deployments" {
            Ok(self.objects.borrow().clone())
        } else {
            Ok(vec![])
        }
    }

    fn update_object(
        &mut self,
        name: &str,
        _namespace: &str,
        _object_name: &str,
        data: &str,
    ) -> Result<(), KubeFSInodeError> {
        let mut docs = self.documents.borrow_mut();
        for entry in docs.iter_mut() {
            if entry.0 == name {
                entry.1 = String::from(data);
                return Ok(());
            }
        }
        docs.push((String::from(name), String::from(data)));
        Ok(())
    }

    fn get_object_data_as_yaml(
        &mut self,
        name: &str,
        _namespace: &str,
        _object_name: &str,
    ) -> Result<String, KubeFSInodeError> {
        for entry in self.documents.borrow().iter() {
            if entry.0 == name {
                return Ok(entry.1.clone());
            }
        }
        Ok(String::new())
    }

    fn create_namespace(&mut self, name: &str) -> Result<(), KubeFSInodeError> {
        self.namespaces.borrow_mut().push(String::from(name));
        Ok(())
    }

    fn remove_namespace(&mut self, name: &str) -> Result<(), KubeFSInodeError> {
        self.namespaces.borrow_mut().retain(|n| n != name);
        Ok(())
    }
}

fn deployments_ino() -> u64 {
    let default_ino = path_ino(1, KubeFSLevel::Namespace, "default");
    path_ino(default_ino, KubeFSLevel::Object, "deployments")
}

fn deploy_1_ino() -> u64 {
    path_ino(deployments_ino(), KubeFSLevel::File, "deploy-1")
}

/// Walk the tree so that the `deploy-1` object node exists in the table.
fn populate_to_objects(fs: &mut KubeFS<ScriptedClient>) {
    fs.lookup(1, "default", 0).unwrap();
    let default_ino = path_ino(1, KubeFSLevel::Namespace, "default");
    fs.lookup(default_ino, "deployments", 0).unwrap();
    fs.lookup(deployments_ino(), "deploy-1", 0).unwrap();
}

#[test]
fn scenario_root_population_and_lookup() {
    let (client, _, _, _, _) = scripted();
    let mut fs = KubeFS::new(client);

    // the root starts with no children; one lookup populates it
    let found = fs.lookup(1, "default", 0).unwrap();
    assert_eq!(found.name, "default");
    assert_eq!(found.level, KubeFSLevel::Namespace);
    assert_eq!(found.parent, Some(1));

    let dev = fs.lookup(1, "dev", 0).unwrap();
    assert_eq!(dev.name, "dev");

    assert!(matches!(
        fs.lookup(1, "prod", 0),
        Err(KubeFSInodeError::MissingInode)
    ));
}

#[test]
fn scenario_namespace_lists_fixed_kind_set() {
    let (client, _, _, _, _) = scripted();
    let mut fs = KubeFS::new(client);

    let default_node = fs.lookup(1, "default", 0).unwrap();
    let listing = fs.list_directory(default_node.ino, 0).unwrap();

    let mut names: Vec<String> = listing.iter().map(|n| n.name.clone()).collect();
    let mut expected = kube_objects();
    names.sort();
    expected.sort();
    assert_eq!(names, expected);
}

#[test]
fn scenario_object_removal_keeps_sibling_id() {
    let (client, _, objects, _, _) = scripted();
    let mut fs = KubeFS::new(client);
    populate_to_objects(&mut fs);

    let before = fs.list_directory(deployments_ino(), 0).unwrap();
    assert_eq!(before.len(), 2);
    let deploy_1_before = before.iter().find(|n| n.name == "deploy-1").unwrap().ino;
    let deploy_2_before = before.iter().find(|n| n.name == "deploy-2").unwrap().ino;

    // the remote listing loses deploy-2; repopulate after the freshness window
    objects.borrow_mut().retain(|o| o != "deploy-2");
    let after = fs.list_directory(deployments_ino(), 5000).unwrap();

    assert_eq!(after.len(), 1);
    assert_eq!(after[0].name, "deploy-1");
    assert_eq!(after[0].ino, deploy_1_before);
    assert!(fs.attributes(&deploy_2_before).is_none());
}

#[test]
fn scenario_write_then_read_round_trip() {
    let (client, _, _, documents, _) = scripted();
    let mut fs = KubeFS::new(client);
    populate_to_objects(&mut fs);

    let ino = deploy_1_ino();
    fs.open_object(ino).unwrap();
    let doc = b"kind: Deployment\nname: deploy-1\n";
    assert_eq!(fs.write_object(ino, 0, doc), Ok(doc.len() as u32));
    fs.flush_object(ino).unwrap();

    // the store accepted the document unchanged
    assert_eq!(documents.borrow()[0].1.as_bytes(), &doc[..]);

    // reading it back after the session closed returns byte-identical content
    let read = fs.read_object(ino, 0).unwrap();
    assert_eq!(read, doc.to_vec());
}

#[test]
fn partial_writes_are_buffered_not_committed() {
    let (client, _, _, documents, _) = scripted();
    let mut fs = KubeFS::new(client);
    populate_to_objects(&mut fs);

    let ino = deploy_1_ino();
    fs.open_object(ino).unwrap();
    fs.write_object(ino, 0, b"AAAA").unwrap();
    // no fragment reaches the remote store before the session ends
    assert_eq!(documents.borrow()[0].1, "Data");

    fs.write_object(ino, 4, b"-BB").unwrap();
    fs.flush_object(ino).unwrap();
    assert_eq!(documents.borrow()[0].1, "AAAA-BB");

    // a second write session splices at its offset over the fetched document
    fs.open_object(ino).unwrap();
    fs.write_object(ino, 1, b"XX").unwrap();
    fs.flush_object(ino).unwrap();
    assert_eq!(documents.borrow()[0].1, "AXXA-BB");
}

#[test]
fn write_beyond_end_zero_pads() {
    let (client, _, _, documents, _) = scripted();
    let mut fs = KubeFS::new(client);
    populate_to_objects(&mut fs);

    let ino = deploy_1_ino();
    fs.open_object(ino).unwrap();
    fs.write_object(ino, 6, b"XY").unwrap();
    fs.flush_object(ino).unwrap();
    assert_eq!(documents.borrow()[0].1.as_bytes(), &b"Data\0\0XY"[..]);

    // reading past the content returns empty, not an error
    assert_eq!(fs.read_object(ino, 100).unwrap(), Vec::<u8>::new());
}

#[test]
fn invalid_document_bytes_are_rejected_on_commit() {
    let (client, _, _, documents, _) = scripted();
    let mut fs = KubeFS::new(client);
    populate_to_objects(&mut fs);

    let ino = deploy_1_ino();
    fs.open_object(ino).unwrap();
    fs.write_object(ino, 0, &[0xff, 0xfe]).unwrap();
    assert_eq!(fs.flush_object(ino), Err(KubeFSInodeError::Invalid));
    // the remote document is untouched
    assert_eq!(documents.borrow()[0].1, "Data");
}

#[test]
fn write_without_open_session_is_invalid() {
    let (client, _, _, _, _) = scripted();
    let mut fs = KubeFS::new(client);
    populate_to_objects(&mut fs);

    assert_eq!(
        fs.write_object(deploy_1_ino(), 0, b"doc"),
        Err(KubeFSInodeError::Invalid)
    );
}

#[test]
fn scenario_stale_cache_survives_listing_failure() {
    let (client, _, _, _, fail_listings) = scripted();
    let mut fs = KubeFS::new(client);

    let before = fs.list_directory(1, 0).unwrap();
    assert_eq!(before.len(), 2);

    // the remote listing starts failing; the freshness window has passed
    *fail_listings.borrow_mut() = true;
    let after = fs.list_directory(1, 5000).unwrap();

    let mut before_names: Vec<String> = before.iter().map(|n| n.name.clone()).collect();
    let mut after_names: Vec<String> = after.iter().map(|n| n.name.clone()).collect();
    before_names.sort();
    after_names.sort();
    assert_eq!(before_names, after_names);

    // with nothing cached, the failure is surfaced instead
    let (failing, _, _, _, fail2) = scripted();
    *fail2.borrow_mut() = true;
    let mut empty_fs = KubeFS::new(failing);
    assert!(matches!(
        empty_fs.list_directory(1, 0),
        Err(KubeFSInodeError::Unavailable)
    ));
}

#[test]
fn attributes_report_fixed_modes() {
    let (client, _, _, _, _) = scripted();
    let mut fs = KubeFS::new(client);
    populate_to_objects(&mut fs);

    let root_attr = fs.attributes(&1).unwrap();
    assert!(root_attr.is_dir);
    assert_eq!(root_attr.perm, 0o755);
    assert_eq!(root_attr.size, 10000);
    assert_eq!(root_attr.nlink, 2);

    let file_attr = fs.attributes(&deploy_1_ino()).unwrap();
    assert!(!file_attr.is_dir);
    assert_eq!(file_attr.perm, 0o644);

    assert!(fs.attributes(&987654321).is_none());
}

#[test]
fn swap_files_live_outside_the_tree() {
    let (client, _, _, _, _) = scripted();
    let mut fs = KubeFS::new(client);

    fs.create_empty_swap_file(".deploy-1.yaml.swp");
    let attr = fs.create_swap_file_attr(".deploy-1.yaml.swp").unwrap();
    assert_eq!(attr.ino, SWAP_FILE_START_INO);
    assert_eq!(attr.perm, 0o644);
    assert!(!attr.is_dir);

    // visible via direct lookup-by-name, under any parent
    let node = fs.lookup(1, ".deploy-1.yaml.swp", 0).unwrap();
    assert_eq!(node.ino, SWAP_FILE_START_INO);
    assert_eq!(node.level, KubeFSLevel::File);

    // but never enumerated in a directory listing
    let listing = fs.list_directory(1, 0).unwrap();
    assert!(listing.iter().all(|n| n.name != ".deploy-1.yaml.swp"));

    fs.remove_swap_file(".deploy-1.yaml.swp");
    assert!(fs.create_swap_file_attr(".deploy-1.yaml.swp").is_none());
}

#[test]
fn make_and_remove_namespace_under_root_only() {
    let (client, namespaces, _, _, _) = scripted();
    let mut fs = KubeFS::new(client);

    let node = fs.make_namespace(1, "staging").unwrap();
    assert_eq!(node.name, "staging");
    assert_eq!(node.parent, Some(1));
    assert!(namespaces.borrow().contains(&String::from("staging")));

    // the synthesized node is recorded directly, without a re-listing
    assert!(fs.attributes(&node.ino).is_some());

    let default_ino = path_ino(1, KubeFSLevel::Namespace, "default");
    fs.lookup(1, "default", 0).unwrap();
    assert!(matches!(
        fs.make_namespace(default_ino, "x"),
        Err(KubeFSInodeError::Invalid)
    ));

    fs.remove_namespace(1, "staging").unwrap();
    assert!(!namespaces.borrow().contains(&String::from("staging")));
    assert!(fs.attributes(&node.ino).is_none());
}

#[test]
fn remove_namespace_drops_cached_subtree() {
    let (client, _, _, _, _) = scripted();
    let mut fs = KubeFS::new(client);
    populate_to_objects(&mut fs);

    fs.remove_namespace(1, "default").unwrap();

    assert!(fs
        .attributes(&path_ino(1, KubeFSLevel::Namespace, "default"))
        .is_none());
    assert!(fs.attributes(&deployments_ino()).is_none());
    assert!(fs.attributes(&deploy_1_ino()).is_none());
}

#[test]
fn freshness_window_avoids_remote_contact() {
    let (client, _, _, _, fail_listings) = scripted();
    let mut fs = KubeFS::new(client);

    let before = fs.list_directory(1, 0).unwrap();
    // within the freshness window a failing remote is never consulted
    *fail_listings.borrow_mut() = true;
    let within = fs.list_directory(1, 500).unwrap();
    assert_eq!(before.len(), within.len());
}

#[test]
fn file_attr_matches_levels() {
    let node = kubefs::inode::KubeFSInode {
        ino: 42,
        parent: Some(1),
        name: String::from("dir"),
        level: KubeFSLevel::Namespace,
        last_populated: None,
    };
    let attr = create_file_attr(&node);
    assert_eq!(attr.ino, 42);
    assert!(attr.is_dir);
    assert_eq!(attr.perm, 0o755);
}
