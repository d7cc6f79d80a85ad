use kubefs::ids::path_ino;
use kubefs::inode::kube_objects;
use kubefs::inode::K8sInteractions;
use kubefs::inode::KubeFSInode;
use kubefs::inode::KubeFSInodeError;
use kubefs::inode::KubeFSINodes;
use kubefs::inode::KubeFSLevel;

struct MockClient {}

impl MockClient {
    pub fn new() -> Self {
        MockClient {}
    }
}

impl K8sInteractions for MockClient {
    fn get_namespaces(&mut self) -> Result<Vec<String>, KubeFSInodeError> {
        Ok(vec![
            String::from("default"),
            String::from("dev"),
            String::from("prod"),
        ])
    }

    fn get_objects(
        &mut self,
        namespace: &str,
        object_name: &str,
    ) -> Result<Vec<String>, KubeFSInodeError> {
        if namespace == "default" && object_name == "deployments" {
            Ok(vec![
                String::from("deploy-1"),
                String::from("deploy-2"),
                String::from("deploy-3"),
            ])
        } else {
            Ok(vec![])
        }
    }

    fn update_object(
        &mut self,
        _name: &str,
        _namespace: &str,
        _object_name: &str,
        _data: &str,
    ) -> Result<(), KubeFSInodeError> {
        Ok(())
    }

    fn get_object_data_as_yaml(
        &mut self,
        name: &str,
        namespace: &str,
        object_name: &str,
    ) -> Result<String, KubeFSInodeError> {
        if name == "deploy-1" && namespace == "default" && object_name == "deployments" {
            Ok(String::from("Data"))
        } else {
            Ok(String::new())
        }
    }

    fn create_namespace(&mut self, _name: &str) -> Result<(), KubeFSInodeError> {
        Ok(())
    }

    fn remove_namespace(&mut self, _name: &str) -> Result<(), KubeFSInodeError> {
        Ok(())
    }
}

fn namespace_node(ino: u64, parent: Option<u64>, name: &str) -> KubeFSInode {
    KubeFSInode {
        ino,
        parent,
        name: String::from(name),
        level: KubeFSLevel::Namespace,
        last_populated: None,
    }
}

#[test]
fn test_find_inode_by_parent_root() {
    let mut inodes = KubeFSINodes::new(MockClient::new());

    inodes.insert_inode(namespace_node(2, Some(1), "default"));
    inodes.insert_inode(namespace_node(3, Some(1), "dev"));
    inodes.insert_inode(namespace_node(4, Some(2), "prod"));

    let child_inodes = inodes.find_inode_by_parent(&1);

    assert_eq!(child_inodes.len(), 2);
}

#[test]
fn test_find_inode_by_parent_when_parent_does_not_exist() {
    let inodes = KubeFSINodes::new(MockClient::new());

    let child_inodes = inodes.find_inode_by_parent(&2);

    assert_eq!(child_inodes.len(), 0);
}

#[test]
fn test_lookup_inode_by_parent_and_name() {
    let mut inodes = KubeFSINodes::new(MockClient::new());

    inodes.insert_inode(namespace_node(2, Some(1), "default"));
    inodes.insert_inode(namespace_node(3, Some(1), "dev"));

    let inode = inodes.lookup_inode_by_parent_and_name(&1, "dev");

    assert_ne!(true, inode.is_none());

    if let Some(n) = inode {
        assert_eq!(n.ino, 3);
    }
}

#[test]
fn test_lookup_inode_by_parent_when_no_node_exists() {
    let inodes = KubeFSINodes::new(MockClient::new());
    let inode = inodes.lookup_inode_by_parent_and_name(&1, "dev");

    assert_eq!(true, inode.is_none());
}

#[test]
fn test_delete_by_parent_ino() {
    let mut inodes = KubeFSINodes::new(MockClient::new());
    inodes.insert_inode(namespace_node(2, Some(1), "default"));
    inodes.insert_inode(namespace_node(3, Some(1), "dev"));
    inodes.insert_inode(namespace_node(4, None, "dev"));

    assert_eq!(inodes.len(), 4);

    inodes.delete_by_parent_ino(&1);
    assert_eq!(inodes.len(), 2);
}

#[test]
fn test_fetch_child_nodes_for_node_when_root() -> Result<(), KubeFSInodeError> {
    let mut inodes = KubeFSINodes::new(MockClient::new());

    inodes.fetch_child_nodes_for_node(&1)?;
    assert_eq!(inodes.len(), 4);

    let default_ino = path_ino(1, KubeFSLevel::Namespace, "default");
    assert_eq!(inodes.get_inode(&default_ino).unwrap().name, "default");

    Ok(())
}

#[test]
fn test_fetch_child_nodes_for_node_when_namespace() -> Result<(), KubeFSInodeError> {
    let mut inodes = KubeFSINodes::new(MockClient::new());

    inodes.fetch_child_nodes_for_node(&1)?;

    let default_ino = path_ino(1, KubeFSLevel::Namespace, "default");
    inodes.fetch_child_nodes_for_node(&default_ino)?;

    let kinds = kube_objects();
    assert_eq!(inodes.len(), 4 + kinds.len());

    let first_kind_ino = path_ino(default_ino, KubeFSLevel::Object, &kinds[0]);
    assert_eq!(inodes.get_inode(&first_kind_ino).unwrap().name, kinds[0]);

    Ok(())
}

#[test]
fn test_fetch_child_nodes_for_node_when_object() -> Result<(), KubeFSInodeError> {
    let mut inodes = KubeFSINodes::new(MockClient::new());

    inodes.fetch_child_nodes_for_node(&1)?;

    let default_ino = path_ino(1, KubeFSLevel::Namespace, "default");
    inodes.fetch_child_nodes_for_node(&default_ino)?;

    let deployments_ino = path_ino(default_ino, KubeFSLevel::Object, "deployments");
    inodes.fetch_child_nodes_for_node(&deployments_ino)?;

    assert_eq!(inodes.len(), 7 + kube_objects().len());

    let deploy_1_ino = path_ino(deployments_ino, KubeFSLevel::File, "deploy-1");
    assert_eq!(inodes.get_inode(&deploy_1_ino).unwrap().name, "deploy-1");

    Ok(())
}

#[test]
fn test_get_yaml_for_file() -> Result<(), KubeFSInodeError> {
    let mut inodes = KubeFSINodes::new(MockClient::new());

    inodes.fetch_child_nodes_for_node(&1)?;

    let default_ino = path_ino(1, KubeFSLevel::Namespace, "default");
    inodes.fetch_child_nodes_for_node(&default_ino)?;

    let deployments_ino = path_ino(default_ino, KubeFSLevel::Object, "deployments");
    inodes.fetch_child_nodes_for_node(&deployments_ino)?;

    let deploy_1_ino = path_ino(deployments_ino, KubeFSLevel::File, "deploy-1");

    let contents = inodes.get_file_contents(&deploy_1_ino)?;

    assert_eq!(contents, "Data");

    Ok(())
}

#[test]
fn test_create_object_creates_namespace() -> Result<(), KubeFSInodeError> {
    let client = MockClient::new();
    let mut inodes = KubeFSINodes::new(client);

    inodes.create_object("test", &1, &Vec::new())?;

    Ok(())
}

#[test]
fn fetch_assigns_deterministic_path_hashed_ids() {
    assert_eq!(
        path_ino(1, KubeFSLevel::Namespace, "default"),
        14389082240276668966
    );
    let default_ino = path_ino(1, KubeFSLevel::Namespace, "default");
    assert_eq!(
        path_ino(default_ino, KubeFSLevel::Object, "deployments"),
        356227634070446082
    );
    // identical paths hash identically; different paths differ
    assert_eq!(
        path_ino(1, KubeFSLevel::Namespace, "default"),
        path_ino(1, KubeFSLevel::Namespace, "default")
    );
    assert_ne!(
        path_ino(1, KubeFSLevel::Namespace, "default"),
        path_ino(1, KubeFSLevel::Namespace, "dev")
    );
    assert_ne!(
        path_ino(1, KubeFSLevel::Namespace, "default"),
        path_ino(2, KubeFSLevel::Namespace, "default")
    );
    assert_ne!(
        path_ino(1, KubeFSLevel::Namespace, "default"),
        path_ino(1, KubeFSLevel::Object, "default")
    );
}

#[test]
fn kind_set_is_fixed_configuration() {
    let kinds = kube_objects();
    assert_eq!(
        kinds,
        vec![
            "deployments",
            "services",
            "pods",
            "statefulsets",
            "configmaps",
            "secrets",
            "serviceaccounts"
        ]
    );
}

#[test]
fn error_messages_are_stable() {
    assert_eq!(KubeFSInodeError::MissingInode.message(), "Missing Inode");
    assert_eq!(
        KubeFSInodeError::Unavailable.message(),
        "Remote temporarily unavailable"
    );
}

#[test]
fn update_object_rejects_directory_nodes() {
    let mut inodes = KubeFSINodes::new(MockClient::new());
    // the root is not an object node
    assert_eq!(
        inodes.update_object(&1, "doc"),
        Err(KubeFSInodeError::Invalid)
    );
    // a missing identifier is "not found"
    assert_eq!(
        inodes.update_object(&99, "doc"),
        Err(KubeFSInodeError::MissingInode)
    );
}

#[test]
fn create_object_rejects_non_root_parents() -> Result<(), KubeFSInodeError> {
    let mut inodes = KubeFSINodes::new(MockClient::new());
    inodes.fetch_child_nodes_for_node(&1)?;
    let default_ino = path_ino(1, KubeFSLevel::Namespace, "default");
    assert_eq!(
        inodes.create_object("x", &default_ino, &Vec::new()),
        Err(KubeFSInodeError::Invalid)
    );
    assert_eq!(
        inodes.create_object("x", &99, &Vec::new()),
        Err(KubeFSInodeError::MissingInode)
    );
    Ok(())
}

#[test]
fn reconcile_rejects_malformed_hierarchy() {
    let mut inodes = KubeFSINodes::new(MockClient::new());
    // two nodes that each claim the other as parent
    inodes.insert_inode(KubeFSInode {
        ino: 5,
        parent: Some(6),
        name: String::from("c"),
        level: KubeFSLevel::Namespace,
        last_populated: None,
    });
    inodes.insert_inode(KubeFSInode {
        ino: 6,
        parent: Some(5),
        name: String::from("d"),
        level: KubeFSLevel::Namespace,
        last_populated: None,
    });

    // reconciling the children of 5 against an empty listing would have to
    // delete 6's subtree, beneath which 5 itself hangs: rejected as a whole
    let r = inodes.reconcile_children(5, KubeFSLevel::File, &Vec::new());
    assert_eq!(r, Err(KubeFSInodeError::Invalid));
    assert_eq!(inodes.len(), 3);

    // a well-formed listing for the same parent is accepted
    let r2 = inodes.reconcile_children(6, KubeFSLevel::File, &vec![String::from("c")]);
    assert_eq!(r2, Ok(()));
}

#[test]
fn delete_by_parent_ino_removes_grandchildren() -> Result<(), KubeFSInodeError> {
    let mut inodes = KubeFSINodes::new(MockClient::new());
    inodes.fetch_child_nodes_for_node(&1)?;
    let default_ino = path_ino(1, KubeFSLevel::Namespace, "default");
    inodes.fetch_child_nodes_for_node(&default_ino)?;
    // root + 3 namespaces + 7 kinds
    assert_eq!(inodes.len(), 11);

    // removing the root's children also removes the kind nodes beneath them
    inodes.delete_by_parent_ino(&1);
    assert_eq!(inodes.len(), 1);
    Ok(())
}

#[test]
fn delete_object_removes_whole_subtree() -> Result<(), KubeFSInodeError> {
    let mut inodes = KubeFSINodes::new(MockClient::new());

    inodes.fetch_child_nodes_for_node(&1)?;
    let default_ino = path_ino(1, KubeFSLevel::Namespace, "default");
    inodes.fetch_child_nodes_for_node(&default_ino)?;
    let deployments_ino = path_ino(default_ino, KubeFSLevel::Object, "deployments");
    inodes.fetch_child_nodes_for_node(&deployments_ino)?;
    // root + 3 namespaces + 7 kinds + 3 objects
    assert_eq!(inodes.len(), 14);

    inodes.delete_object("default", &1)?;

    // the namespace, its 7 kind nodes and its 3 object nodes are all gone
    assert_eq!(inodes.len(), 3);
    assert!(inodes.get_inode(&default_ino).is_none());
    assert!(inodes.get_inode(&deployments_ino).is_none());
    assert!(inodes
        .get_inode(&path_ino(deployments_ino, KubeFSLevel::File, "deploy-1"))
        .is_none());
    // the sibling namespaces survive with their identifiers
    assert!(inodes
        .get_inode(&path_ino(1, KubeFSLevel::Namespace, "dev"))
        .is_some());
    Ok(())
}
