//! The inode table: the in-memory map from numeric node identifiers to node
//! records, owning identity allocation and the parent/child relation, with
//! lazy population against a remote resource provider.

use vstd::prelude::*;

verus! {

use crate::ids::path_ino;
use crate::ids::spec_path_ino;

/// The four hierarchy levels of the tree: the root, a namespace directory, a
/// resource-kind directory, and an individual object presented as a file.
#[derive(Debug, Clone, Copy, PartialEq, Eq, Structural)]
pub enum KubeFSLevel {
    Root,
    Namespace,
    Object,
    File,
}

/// Errors surfaced by table and adapter operations.
///
/// `MissingInode` is the "not found" condition; `Unavailable` a transient
/// remote failure that leaves the cache untouched; `Invalid` a structurally
/// disallowed operation or a malformed document; `PermissionDenied` is passed
/// through unmodified from the remote provider.
#[derive(Debug, Clone, Copy, PartialEq, Eq, Structural)]
pub enum KubeFSInodeError {
    MissingInode,
    Unavailable,
    Invalid,
    PermissionDenied,
}

impl KubeFSInodeError {
    /// A human-readable description of the error.
    pub fn message(&self) -> (r: String)
        ensures
            r@ == match self {
                KubeFSInodeError::MissingInode => "Missing Inode"@,
                KubeFSInodeError::Unavailable => "Remote temporarily unavailable"@,
                KubeFSInodeError::Invalid => "Invalid operation or document"@,
                KubeFSInodeError::PermissionDenied => "Permission denied"@,
            },
    {
        match self {
            KubeFSInodeError::MissingInode => "Missing Inode".to_owned(),
            KubeFSInodeError::Unavailable => "Remote temporarily unavailable".to_owned(),
            KubeFSInodeError::Invalid => "Invalid operation or document".to_owned(),
            KubeFSInodeError::PermissionDenied => "Permission denied".to_owned(),
        }
    }
}

/// One entry of the inode table.
///
/// `last_populated` records, for directory levels, when the node's children
/// were last fetched from the remote provider (a caller-supplied clock value
/// in milliseconds); it is `None` until the first population.
#[derive(Debug)]
pub struct KubeFSInode {
    pub ino: u64,
    pub parent: Option<u64>,
    pub name: String,
    pub level: KubeFSLevel,
    pub last_populated: Option<u64>,
}

/// The mathematical abstraction of one node record: the name is a character
/// sequence rather than a heap string.
#[verifier::ext_equal]
pub struct InodeView {
    pub ino: u64,
    pub parent: Option<u64>,
    pub name: Seq<char>,
    pub level: KubeFSLevel,
    pub last_populated: Option<u64>,
}

impl View for KubeFSInode {
    type V = InodeView;

    open spec fn view(&self) -> InodeView {
        InodeView {
            ino: self.ino,
            parent: self.parent,
            name: self.name@,
            level: self.level,
            last_populated: self.last_populated,
        }
    }
}

impl Clone for KubeFSInode {
    fn clone(&self) -> (r: Self)
        ensures
            r@ == self@,
    {
        KubeFSInode {
            ino: self.ino,
            parent: self.parent,
            name: self.name.clone(),
            level: self.level,
            last_populated: self.last_populated,
        }
    }
}

/// The reserved identifier of the root node, which exists for the whole
/// lifetime of the table and is never deleted.
pub const ROOT_INO: u64 = 1;

/// The interface to the remote resource provider. The table consumes it and
/// never implements it; a concrete binding is injected by the embedding
/// program (and, in tests, by a fake provider).
pub trait K8sInteractions {
    /// List the names of all namespaces.
    fn get_namespaces(&mut self) -> Result<Vec<String>, KubeFSInodeError>;

    /// List the names of the objects of kind `object_name` in `namespace`.
    fn get_objects(&mut self, namespace: &str, object_name: &str) -> Result<
        Vec<String>,
        KubeFSInodeError,
    >;

    /// Replace the document of object `name` of kind `object_name` in
    /// `namespace` with `data`.
    fn update_object(
        &mut self,
        name: &str,
        namespace: &str,
        object_name: &str,
        data: &str,
    ) -> Result<(), KubeFSInodeError>;

    /// Fetch the serialized document of object `name` of kind `object_name`
    /// in `namespace`.
    fn get_object_data_as_yaml(
        &mut self,
        name: &str,
        namespace: &str,
        object_name: &str,
    ) -> Result<String, KubeFSInodeError>;

    /// Create a namespace named `name`.
    fn create_namespace(&mut self, name: &str) -> Result<(), KubeFSInodeError>;

    /// Delete the namespace named `name`.
    fn remove_namespace(&mut self, name: &str) -> Result<(), KubeFSInodeError>;
}

/// No two entries of the sequence carry the same identifier.
pub open spec fn unique_inos(s: Seq<KubeFSInode>) -> bool {
    forall|i: int, j: int| 0 <= i < j < s.len() ==> s[i].ino != s[j].ino
}

/// No two entries of the sequence carry the same `(parent, name)` pair.
pub open spec fn sibling_unique(s: Seq<KubeFSInode>) -> bool {
    forall|i: int, j: int|
        #![trigger s[i], s[j]]
        0 <= i < s.len() && 0 <= j < s.len() && i != j ==> !(s[i].parent == s[j].parent
            && s[i].name@ == s[j].name@)
}

/// Some entry of the sequence carries the identifier `ino`.
pub open spec fn seq_has_ino(s: Seq<KubeFSInode>, ino: u64) -> bool {
    exists|i: int| 0 <= i < s.len() && s[i].ino == ino
}

/// The index of the entry carrying `ino` (meaningful when one exists).
pub open spec fn ino_index(s: Seq<KubeFSInode>, ino: u64) -> int {
    choose|i: int| 0 <= i < s.len() && s[i].ino == ino
}

/// The map from identifiers to node records that a sequence of entries
/// represents.
pub open spec fn seq_map(s: Seq<KubeFSInode>) -> Map<u64, InodeView> {
    Map::new(|ino: u64| seq_has_ino(s, ino), |ino: u64| s[ino_index(s, ino)]@)
}

/// Well-formedness of a represented table: every record is keyed by its own
/// identifier, and `(parent, name)` is unique among all nodes.
pub open spec fn table_wf(m: Map<u64, InodeView>) -> bool {
    &&& forall|k: u64| #[trigger] m.dom().contains(k) ==> m[k].ino == k
    &&& forall|k1: u64, k2: u64|
        #![trigger m[k1], m[k2]]
        m.dom().contains(k1) && m.dom().contains(k2) && k1 != k2 ==> !(m[k1].parent == m[k2].parent
            && m[k1].name == m[k2].name)
}

proof fn lemma_seq_map_index(s: Seq<KubeFSInode>, i: int)
    requires
        unique_inos(s),
        0 <= i < s.len(),
    ensures
        seq_map(s).dom().contains(s[i].ino),
        seq_map(s)[s[i].ino] == s[i]@,
{
    assert(seq_has_ino(s, s[i].ino));
    let j = ino_index(s, s[i].ino);
    assert(0 <= j < s.len() && s[j].ino == s[i].ino);
    if i != j {
        assert(false);
    }
}

proof fn lemma_seq_map_contains(s: Seq<KubeFSInode>, ino: u64)
    requires
        unique_inos(s),
        seq_map(s).dom().contains(ino),
    ensures
        seq_has_ino(s, ino),
        0 <= ino_index(s, ino) < s.len(),
        s[ino_index(s, ino)].ino == ino,
        seq_map(s)[ino] == s[ino_index(s, ino)]@,
{
}

/// The sequence of identifiers carried by the entries.
pub open spec fn ino_seq(s: Seq<KubeFSInode>) -> Seq<u64> {
    s.map_values(|n: KubeFSInode| n.ino)
}

proof fn lemma_seq_map_dom(s: Seq<KubeFSInode>)
    ensures
        seq_map(s).dom() =~= ino_seq(s).to_set(),
{
    assert forall|k: u64| seq_map(s).dom().contains(k) implies ino_seq(s).to_set().contains(
        k,
    ) by {
        let i = ino_index(s, k);
        assert(ino_seq(s)[i] == k);
    }
    assert forall|k: u64| ino_seq(s).to_set().contains(k) implies seq_map(s).dom().contains(
        k,
    ) by {
        let i = choose|i: int| 0 <= i < ino_seq(s).len() && ino_seq(s)[i] == k;
        assert(s[i].ino == k);
    }
}

proof fn lemma_seq_map_len(s: Seq<KubeFSInode>)
    requires
        unique_inos(s),
    ensures
        seq_map(s).dom().finite(),
        seq_map(s).dom().len() == s.len(),
{
    broadcast use vstd::seq_lib::group_seq_lib_default;

    lemma_seq_map_dom(s);
    assert(ino_seq(s).no_duplicates()) by {
        assert forall|i: int, j: int|
            0 <= i < ino_seq(s).len() && 0 <= j < ino_seq(s).len() && i != j implies ino_seq(s)[i]
            != ino_seq(s)[j] by {
            assert(ino_seq(s)[i] == s[i].ino && ino_seq(s)[j] == s[j].ino);
        }
    }
    ino_seq(s).unique_seq_to_set();
}

/// Relates a subsequence of kept entries to its source: `idxs` names, in
/// increasing order, the source positions of the entries of `post`, which are
/// exactly the entries of `pre` satisfying `keep` — with records unchanged.
proof fn lemma_filter_view(
    pre: Seq<KubeFSInode>,
    post: Seq<KubeFSInode>,
    idxs: Seq<int>,
    keep: spec_fn(InodeView) -> bool,
)
    requires
        unique_inos(pre),
        sibling_unique(pre),
        idxs.len() == post.len(),
        forall|m: int| 0 <= m < idxs.len() ==> 0 <= #[trigger] idxs[m] < pre.len(),
        forall|m: int|
            0 <= m < idxs.len() ==> post[m]@ == pre[#[trigger] idxs[m]]@ && keep(pre[idxs[m]]@),
        forall|m1: int, m2: int| 0 <= m1 < m2 < idxs.len() ==> idxs[m1] < idxs[m2],
        forall|j: int|
            0 <= j < pre.len() && keep(#[trigger] pre[j]@) ==> exists|m: int|
                0 <= m < idxs.len() && idxs[m] == j,
    ensures
        unique_inos(post),
        sibling_unique(post),
        forall|k: u64|
            #[trigger] seq_map(post).dom().contains(k) <==> seq_map(pre).dom().contains(k) && keep(
                seq_map(pre)[k],
            ),
        forall|k: u64|
            #[trigger] seq_map(post).dom().contains(k) ==> seq_map(post)[k] == seq_map(pre)[k],
{
    assert forall|m1: int, m2: int| 0 <= m1 < m2 < post.len() implies post[m1].ino
        != post[m2].ino by {
        assert(post[m1]@ == pre[idxs[m1]]@);
        assert(post[m2]@ == pre[idxs[m2]]@);
        assert(idxs[m1] < idxs[m2]);
    }
    assert(unique_inos(post));
    assert forall|m1: int, m2: int|
        0 <= m1 < post.len() && 0 <= m2 < post.len() && m1 != m2 implies !(post[m1].parent
        == post[m2].parent && post[m1].name@ == post[m2].name@) by {
        assert(post[m1]@ == pre[idxs[m1]]@);
        assert(post[m2]@ == pre[idxs[m2]]@);
        if m1 < m2 {
            assert(idxs[m1] < idxs[m2]);
        } else {
            assert(idxs[m2] < idxs[m1]);
        }
        assert(!(pre[idxs[m1]].parent == pre[idxs[m2]].parent && pre[idxs[m1]].name@
            == pre[idxs[m2]].name@));
    }
    assert(sibling_unique(post));
    assert forall|k: u64| #[trigger] seq_map(post).dom().contains(k) implies seq_map(
        pre,
    ).dom().contains(k) && keep(seq_map(pre)[k]) && seq_map(post)[k] == seq_map(pre)[k] by {
        lemma_seq_map_contains(post, k);
        let m = ino_index(post, k);
        let j = idxs[m];
        assert(post[m]@ == pre[j]@ && keep(pre[j]@));
        assert(pre[j].ino == k);
        lemma_seq_map_index(pre, j);
        lemma_seq_map_index(post, m);
    }
    assert forall|k: u64|
        seq_map(pre).dom().contains(k) && keep(seq_map(pre)[k]) implies #[trigger] seq_map(
        post,
    ).dom().contains(k) by {
        lemma_seq_map_contains(pre, k);
        let j = ino_index(pre, k);
        assert(keep(pre[j]@));
        let m = choose|m: int| 0 <= m < idxs.len() && idxs[m] == j;
        assert(post[m]@ == pre[j]@);
        assert(post[m].ino == k);
        lemma_seq_map_index(post, m);
    }
}

proof fn lemma_view_after_push(pre: Seq<KubeFSInode>, x: KubeFSInode)
    requires
        unique_inos(pre),
        !seq_has_ino(pre, x.ino),
    ensures
        unique_inos(pre.push(x)),
        seq_map(pre.push(x)) == seq_map(pre).insert(x.ino, x@),
{
    let s = pre.push(x);
    assert forall|i: int, j: int| 0 <= i < j < s.len() implies s[i].ino != s[j].ino by {
        if j == s.len() - 1 {
            assert(s[i] == pre[i]);
            if pre[i].ino == x.ino {
                assert(seq_has_ino(pre, x.ino));
            }
        }
    }
    assert forall|k: u64| seq_map(s).dom().contains(k) implies seq_map(pre).insert(
        x.ino,
        x@,
    ).dom().contains(k) by {
        let i = ino_index(s, k);
        if i < pre.len() {
            assert(pre[i].ino == k);
        }
    }
    assert forall|k: u64| seq_map(pre).insert(x.ino, x@).dom().contains(k) implies seq_map(
        s,
    ).dom().contains(k) by {
        if k == x.ino {
            assert(s[s.len() - 1].ino == k);
        } else {
            let i = ino_index(pre, k);
            assert(s[i].ino == k);
        }
    }
    assert forall|k: u64| seq_map(s).dom().contains(k) implies seq_map(s)[k] == seq_map(pre).insert(
        x.ino,
        x@,
    )[k] by {
        if k == x.ino {
            lemma_seq_map_index(s, s.len() - 1);
        } else {
            let i = ino_index(s, k);
            assert(0 <= i < s.len() && s[i].ino == k);
            assert(i < pre.len());
            lemma_seq_map_index(s, i);
            lemma_seq_map_index(pre, i);
        }
    }
    assert(seq_map(s) =~= seq_map(pre).insert(x.ino, x@));
}

proof fn lemma_view_after_update(pre: Seq<KubeFSInode>, at: int, x: KubeFSInode)
    requires
        unique_inos(pre),
        0 <= at < pre.len(),
        pre[at].ino == x.ino,
    ensures
        unique_inos(pre.update(at, x)),
        seq_map(pre.update(at, x)) == seq_map(pre).insert(x.ino, x@),
{
    let s = pre.update(at, x);
    assert forall|i: int, j: int| 0 <= i < j < s.len() implies s[i].ino != s[j].ino by {
        assert(pre[i].ino != pre[j].ino);
    }
    assert forall|k: u64| seq_map(s).dom().contains(k) implies seq_map(pre).insert(
        x.ino,
        x@,
    ).dom().contains(k) by {
        let i = ino_index(s, k);
        assert(pre[i].ino == s[i].ino);
    }
    assert forall|k: u64| seq_map(pre).insert(x.ino, x@).dom().contains(k) implies seq_map(
        s,
    ).dom().contains(k) by {
        if k == x.ino {
            assert(s[at].ino == k);
        } else {
            let i = ino_index(pre, k);
            assert(s[i].ino == k);
        }
    }
    assert forall|k: u64| seq_map(s).dom().contains(k) implies seq_map(s)[k] == seq_map(pre).insert(
        x.ino,
        x@,
    )[k] by {
        if k == x.ino {
            lemma_seq_map_index(s, at);
        } else {
            let i = ino_index(s, k);
            assert(0 <= i < s.len() && s[i].ino == k);
            assert(i != at);
            lemma_seq_map_index(s, i);
            lemma_seq_map_index(pre, i);
        }
    }
    assert(seq_map(s) =~= seq_map(pre).insert(x.ino, x@));
}

proof fn lemma_sibling_after_insert(pre: Seq<KubeFSInode>, post: Seq<KubeFSInode>, x: KubeFSInode)
    requires
        unique_inos(pre),
        sibling_unique(pre),
        forall|k: u64|
            #[trigger] seq_map(pre).dom().contains(k) && k != x.ino ==> !(seq_map(pre)[k].parent
                == x.parent && seq_map(pre)[k].name == x.name@),
        unique_inos(post),
        post == pre.push(x) || (exists|at: int|
            0 <= at < pre.len() && pre[at].ino == x.ino && post == pre.update(at, x)),
    ensures
        sibling_unique(post),
{
    assert forall|i: int, j: int|
        #![trigger post[i], post[j]]
        0 <= i < post.len() && 0 <= j < post.len() && i != j implies !(post[i].parent
        == post[j].parent && post[i].name@ == post[j].name@) by {
        if post == pre.push(x) {
            if i < pre.len() && j < pre.len() {
                assert(post[i] == pre[i] && post[j] == pre[j]);
            } else {
                let o = if i < pre.len() {
                    i
                } else {
                    j
                };
                assert(0 <= o < pre.len());
                lemma_seq_map_index(pre, o);
                assert(pre[o].ino != x.ino);
            }
        } else {
            let at = choose|at: int|
                0 <= at < pre.len() && pre[at].ino == x.ino && post == pre.update(at, x);
            if i != at && j != at {
                assert(post[i] == pre[i] && post[j] == pre[j]);
            } else {
                let o = if i == at {
                    j
                } else {
                    i
                };
                assert(0 <= o < pre.len() && o != at);
                lemma_seq_map_index(pre, o);
                assert(pre[o].ino != x.ino);
            }
        }
    }
}

/// The parent of `x`'s record in `m` is one of the identifiers in `ks`.
pub open spec fn parent_in(m: Map<u64, InodeView>, x: u64, ks: Seq<u64>) -> bool {
    match m[x].parent {
        Some(p) => ks.contains(p),
        None => false,
    }
}

/// `x` is gone: it is the removed root, or it was in the table and is no
/// longer.
pub open spec fn removed_in(
    pre: Map<u64, InodeView>,
    post: Map<u64, InodeView>,
    root: u64,
    x: u64,
) -> bool {
    x == root || (pre.dom().contains(x) && !post.dom().contains(x))
}

/// What removing the subtree rooted at `root` means: the root is gone;
/// surviving records are unchanged; every node that hung beneath a removed
/// node is itself removed (no orphan survives); and nothing else is removed —
/// every removed node is the root or hung beneath a removed node.
pub open spec fn subtree_removed(
    pre: Map<u64, InodeView>,
    post: Map<u64, InodeView>,
    root: u64,
) -> bool {
    &&& !post.dom().contains(root)
    &&& forall|k: u64|
        #[trigger] post.dom().contains(k) ==> pre.dom().contains(k) && post[k] == pre[k]
    &&& forall|k: u64|
        #[trigger] pre.dom().contains(k) && (match pre[k].parent {
            Some(p) => removed_in(pre, post, root, p),
            None => false,
        }) ==> !post.dom().contains(k)
    &&& forall|k: u64|
        #[trigger] pre.dom().contains(k) && !post.dom().contains(k) ==> (k == root || (
        match pre[k].parent {
            Some(p) => removed_in(pre, post, root, p),
            None => false,
        }))
}

fn vec_contains_u64(v: &Vec<u64>, x: u64) -> (r: bool)
    ensures
        r == v@.contains(x),
{
    let mut i: usize = 0;
    while i < v.len()
        invariant
            0 <= i <= v@.len(),
            forall|j: int| 0 <= j < i ==> v@[j] != x,
        decreases v@.len() - i,
    {
        if v[i] == x {
            proof {
                assert(v@[i as int] == x);
            }
            return true;
        }
        i = i + 1;
    }
    proof {
        if v@.contains(x) {
            let j = choose|j: int| 0 <= j < v@.len() && v@[j] == x;
            assert(false);
        }
    }
    false
}

proof fn lemma_contains_after_push(s: Seq<u64>, v: u64, x: u64)
    requires
        s.contains(x) || v == x,
    ensures
        s.push(v).contains(x),
{
    if s.contains(x) {
        let j = choose|j: int| 0 <= j < s.len() && s[j] == x;
        assert(s.push(v)[j] == x);
    } else {
        assert(s.push(v)[s.len() as int] == x);
    }
}

proof fn lemma_bounded_len(k: Seq<u64>, roots: Seq<u64>, m: Map<u64, InodeView>, n: int)
    requires
        k.no_duplicates(),
        forall|i: int| 0 <= i < k.len() ==> roots.contains(#[trigger] k[i]) || m.dom().contains(k[i]),
        m.dom().finite(),
        m.dom().len() <= n,
    ensures
        k.len() <= roots.len() + n,
{
    broadcast use vstd::seq_lib::seq_to_set_is_finite;

    k.unique_seq_to_set();
    assert forall|x: u64| k.to_set().contains(x) implies roots.to_set().union(m.dom()).contains(
        x,
    ) by {
        assert(k.contains(x));
        if roots.contains(x) {
            assert(roots.to_set().contains(x));
        } else {
            let i = choose|i: int| 0 <= i < k.len() && k[i] == x;
            assert(m.dom().contains(x));
        }
    }
    vstd::set_lib::lemma_len_union(roots.to_set(), m.dom());
    vstd::set_lib::lemma_len_subset(k.to_set(), roots.to_set().union(m.dom()));
    roots.lemma_cardinality_of_set();
}

/// What one reconciliation pass of the children of `parent` against the
/// fresh listing `fresh` (all at level `level`) means:
/// - an existing child whose name is listed keeps its identifier and record;
/// - every record that survives is unchanged;
/// - a node new to the table is a listed child at `level`, keyed by the hash
///   of its path, and not yet populated;
/// - every listed name is a child afterwards, and every child afterwards is
///   listed;
/// - a node is removed only if it was an unlisted child or hung beneath a
///   removed node, and nothing surviving hangs beneath a removed node.
pub open spec fn reconciled(
    pre: Map<u64, InodeView>,
    post: Map<u64, InodeView>,
    parent: u64,
    level: KubeFSLevel,
    fresh: Seq<Seq<char>>,
) -> bool {
    &&& forall|k: u64|
        #[trigger] pre.dom().contains(k) && pre[k].parent == Some(parent) && fresh.contains(
            pre[k].name,
        ) ==> post.dom().contains(k) && post[k] == pre[k]
    &&& forall|k: u64|
        pre.dom().contains(k) && #[trigger] post.dom().contains(k) ==> post[k] == pre[k]
    &&& forall|k: u64|
        #[trigger] post.dom().contains(k) && !pre.dom().contains(k) ==> post[k].parent == Some(
            parent,
        ) && fresh.contains(post[k].name) && post[k].level == level && post[k].ino == k && k
            == spec_path_ino(parent, level, post[k].name) && post[k].last_populated is None
    &&& forall|n: Seq<char>|
        #[trigger] fresh.contains(n) ==> exists|k: u64|
            #[trigger] post.dom().contains(k) && post[k].parent == Some(parent) && post[k].name
                == n
    &&& forall|k: u64|
        #[trigger] post.dom().contains(k) && post[k].parent == Some(parent) ==> fresh.contains(
            post[k].name,
        )
    &&& forall|k: u64|
        #[trigger] pre.dom().contains(k) && !post.dom().contains(k) ==> ((pre[k].parent == Some(
            parent,
        ) && !fresh.contains(pre[k].name)) || (match pre[k].parent {
            Some(p) => pre.dom().contains(p) && !post.dom().contains(p),
            None => false,
        }))
    &&& forall|k: u64|
        pre.dom().contains(k) && #[trigger] post.dom().contains(k) ==> (match pre[k].parent {
            Some(p) => pre.dom().contains(p) ==> post.dom().contains(p),
            None => true,
        })
}

/// The freshness window within which a directory's children are not fetched
/// again, in milliseconds.
pub const POPULATE_TTL_MS: u64 = 1000;

/// The names of the fixed, configured set of resource kinds, identical at
/// every namespace. This set is configuration, never fetched remotely.
pub open spec fn kube_object_names() -> Seq<Seq<char>> {
    seq![
        "deployments"@,
        "services"@,
        "pods"@,
        "statefulsets"@,
        "configmaps"@,
        "secrets"@,
        "serviceaccounts"@,
    ]
}

/// The fixed kind set, as heap strings.
pub fn kube_objects() -> (r: Vec<String>)
    ensures
        r.deep_view() == kube_object_names(),
{
    let mut v: Vec<String> = Vec::new();
    v.push("deployments".to_owned());
    v.push("services".to_owned());
    v.push("pods".to_owned());
    v.push("statefulsets".to_owned());
    v.push("configmaps".to_owned());
    v.push("secrets".to_owned());
    v.push("serviceaccounts".to_owned());
    proof {
        assert(v.deep_view() =~= kube_object_names());
    }
    v
}

/// What one successful population pass of the children of `ino` means, by
/// the level of the node: the root's children are reconciled against some
/// remote namespace listing; a namespace's children against the fixed kind
/// set; a kind's children against some remote object listing; a file has no
/// children and nothing changes.
pub open spec fn children_fetched(
    pre: Map<u64, InodeView>,
    post: Map<u64, InodeView>,
    ino: u64,
) -> bool {
    match pre[ino].level {
        KubeFSLevel::Root => exists|ns: Seq<Seq<char>>|
            reconciled(pre, post, ino, KubeFSLevel::Namespace, ns),
        KubeFSLevel::Namespace => reconciled(
            pre,
            post,
            ino,
            KubeFSLevel::Object,
            kube_object_names(),
        ),
        KubeFSLevel::Object => exists|objs: Seq<Seq<char>>|
            reconciled(pre, post, ino, KubeFSLevel::File, objs),
        KubeFSLevel::File => post == pre,
    }
}

/// Children fetched within the freshness window need not be fetched again.
pub open spec fn fresh_enough(last_populated: Option<u64>, now_ms: u64) -> bool {
    match last_populated {
        Some(t) => t <= now_ms < t + POPULATE_TTL_MS,
        None => false,
    }
}

/// The map `m` with the population timestamp of `ino` set to `now_ms` (when
/// `ino` is present).
pub open spec fn stamp_node(m: Map<u64, InodeView>, ino: u64, now_ms: u64) -> Map<u64, InodeView> {
    if m.dom().contains(ino) {
        m.insert(
            ino,
            InodeView {
                ino: m[ino].ino,
                parent: m[ino].parent,
                name: m[ino].name,
                level: m[ino].level,
                last_populated: Some(now_ms),
            },
        )
    } else {
        m
    }
}

/// One full (non-cached) population: children fetched and reconciled, then
/// the node stamped as freshly populated.
pub open spec fn populated_at(
    pre: Map<u64, InodeView>,
    post: Map<u64, InodeView>,
    ino: u64,
    now_ms: u64,
) -> bool {
    exists|mid: Map<u64, InodeView>|
        #[trigger] children_fetched(pre, mid, ino) && post == stamp_node(mid, ino, now_ms)
}

/// What a successful `ensure_populated` call guarantees: a file node and a
/// node whose children are still fresh are left untouched; otherwise the
/// children were fetched, reconciled and stamped.
pub open spec fn ensure_populated_post(
    pre: Map<u64, InodeView>,
    post: Map<u64, InodeView>,
    ino: u64,
    now_ms: u64,
) -> bool {
    &&& pre.dom().contains(ino)
    &&& if pre[ino].level == KubeFSLevel::File {
        post == pre
    } else if fresh_enough(pre[ino].last_populated, now_ms) {
        post == pre
    } else {
        populated_at(pre, post, ino, now_ms)
    }
}

/// `k` is currently a child of `parent` whose name the fresh listing no
/// longer carries.
pub open spec fn stale_child(
    m: Map<u64, InodeView>,
    parent: u64,
    fresh: Seq<Seq<char>>,
    k: u64,
) -> bool {
    m.dom().contains(k) && m[k].parent == Some(parent) && !fresh.contains(m[k].name)
}

/// Following parent links upward from `x` through the table for at most `n`
/// steps reaches one of the identifiers in `tops`.
pub open spec fn links_up_to(m: Map<u64, InodeView>, tops: Seq<u64>, x: u64, n: nat) -> bool
    decreases n,
{
    tops.contains(x) || (n > 0 && m.dom().contains(x) && (match m[x].parent {
        Some(p) => links_up_to(m, tops, p, (n - 1) as nat),
        None => false,
    }))
}

/// Following parent links upward from `x` eventually reaches one of the
/// identifiers in `tops`.
pub open spec fn links_up(m: Map<u64, InodeView>, tops: Seq<u64>, x: u64) -> bool {
    exists|n: nat| links_up_to(m, tops, x, n)
}

/// Following parent links upward from `x` for at most `n` steps reaches a
/// stale child of `parent`.
pub open spec fn hangs_below_stale(
    m: Map<u64, InodeView>,
    parent: u64,
    fresh: Seq<Seq<char>>,
    x: u64,
    n: nat,
) -> bool
    decreases n,
{
    stale_child(m, parent, fresh, x) || (n > 0 && m.dom().contains(x) && (match m[x].parent {
        Some(p) => hangs_below_stale(m, parent, fresh, p, (n - 1) as nat),
        None => false,
    }))
}

/// The parent itself hangs beneath one of its own stale children: a malformed
/// hierarchy that no single reconciliation pass can resolve coherently.
pub open spec fn parent_beneath_stale(
    m: Map<u64, InodeView>,
    parent: u64,
    fresh: Seq<Seq<char>>,
) -> bool {
    exists|n: nat| hangs_below_stale(m, parent, fresh, parent, n)
}

/// The listing carries the name `n` and no current child of `parent` is
/// named `n`, so reconciliation would create a node for it.
pub open spec fn needs_creation(
    m: Map<u64, InodeView>,
    parent: u64,
    fresh: Seq<Seq<char>>,
    n: Seq<char>,
) -> bool {
    fresh.contains(n) && !(exists|k: u64|
        #[trigger] m.dom().contains(k) && m[k].parent == Some(parent) && m[k].name == n)
}

/// Some node to be created would collide: its computed identifier is already
/// present in the table, or two listed names compute the same identifier.
pub open spec fn id_collision(
    m: Map<u64, InodeView>,
    parent: u64,
    level: KubeFSLevel,
    fresh: Seq<Seq<char>>,
) -> bool {
    ||| exists|n: Seq<char>|
        #[trigger] needs_creation(m, parent, fresh, n) && m.dom().contains(
            spec_path_ino(parent, level, n),
        )
    ||| exists|n1: Seq<char>, n2: Seq<char>|
        #![trigger needs_creation(m, parent, fresh, n1), needs_creation(m, parent, fresh, n2)]
        needs_creation(m, parent, fresh, n1) && needs_creation(m, parent, fresh, n2) && n1 != n2
            && spec_path_ino(parent, level, n1) == spec_path_ino(parent, level, n2)
}

/// Exactly when a reconciliation pass is rejected as a whole: the parent
/// hangs beneath one of its own stale children, or a computed identifier
/// collides. Both conditions are functions of the table and the listing
/// alone; on every other input reconciliation succeeds.
pub open spec fn reconcile_rejected(
    m: Map<u64, InodeView>,
    parent: u64,
    level: KubeFSLevel,
    fresh: Seq<Seq<char>>,
) -> bool {
    parent_beneath_stale(m, parent, fresh) || id_collision(m, parent, level, fresh)
}

/// `n` is the name of a current child of `parent`, or of one of the nodes
/// planned in `adds`.
spec fn covered_name(
    m: Map<u64, InodeView>,
    parent: u64,
    n: Seq<char>,
    adds: Seq<KubeFSInode>,
) -> bool {
    (exists|k: u64|
        #[trigger] m.dom().contains(k) && m[k].parent == Some(parent) && m[k].name == n) || (
    exists|mm: int| 0 <= mm < adds.len() && adds[mm].name@ == n)
}

/// Every one of the first `upto` listed names is covered.
spec fn listing_covered(
    m: Map<u64, InodeView>,
    parent: u64,
    fresh: Seq<Seq<char>>,
    adds: Seq<KubeFSInode>,
    upto: int,
) -> bool {
    forall|jj: int|
        #![trigger fresh[jj]]
        0 <= jj < upto ==> covered_name(m, parent, fresh[jj], adds)
}

proof fn lemma_links_to_stale(
    m: Map<u64, InodeView>,
    tops: Seq<u64>,
    parent: u64,
    fresh: Seq<Seq<char>>,
    x: u64,
    n: nat,
)
    requires
        forall|y: u64| #[trigger] tops.contains(y) <==> stale_child(m, parent, fresh, y),
    ensures
        links_up_to(m, tops, x, n) == hangs_below_stale(m, parent, fresh, x, n),
    decreases n,
{
    assert(tops.contains(x) <==> stale_child(m, parent, fresh, x));
    if n > 0 && m.dom().contains(x) {
        match m[x].parent {
            Some(p) => {
                lemma_links_to_stale(m, tops, parent, fresh, p, (n - 1) as nat);
            },
            None => {},
        }
    }
}

proof fn lemma_chain_in_kill(
    m: Map<u64, InodeView>,
    tops: Seq<u64>,
    kill: Seq<u64>,
    x: u64,
    n: nat,
)
    requires
        links_up_to(m, tops, x, n),
        forall|y: u64| #[trigger] tops.contains(y) ==> kill.contains(y),
        forall|y: u64| #[trigger] m.dom().contains(y) && parent_in(m, y, kill) ==> kill.contains(y),
    ensures
        kill.contains(x),
    decreases n,
{
    if !tops.contains(x) {
        match m[x].parent {
            Some(p) => {
                lemma_chain_in_kill(m, tops, kill, p, (n - 1) as nat);
                assert(parent_in(m, x, kill));
            },
            None => {},
        }
    }
}

/// The parent of `x`'s record in `m` is missing from the table.
pub open spec fn parent_missing(m: Map<u64, InodeView>, ino: u64) -> bool {
    match m[ino].parent {
        None => true,
        Some(p) => !m.dom().contains(p),
    }
}

/// What removing the children of `parent`, each with its whole subtree,
/// means: surviving records are unchanged; no child of `parent` survives;
/// every node that hung beneath a removed node is itself removed; and nothing
/// else is removed.
pub open spec fn children_removed(
    pre: Map<u64, InodeView>,
    post: Map<u64, InodeView>,
    parent: u64,
) -> bool {
    &&& forall|k: u64|
        #[trigger] post.dom().contains(k) ==> pre.dom().contains(k) && post[k] == pre[k]
    &&& forall|k: u64|
        #[trigger] pre.dom().contains(k) && pre[k].parent == Some(parent)
            ==> !post.dom().contains(k)
    &&& forall|k: u64|
        #[trigger] pre.dom().contains(k) && (match pre[k].parent {
            Some(p) => pre.dom().contains(p) && !post.dom().contains(p),
            None => false,
        }) ==> !post.dom().contains(k)
    &&& forall|k: u64|
        #[trigger] pre.dom().contains(k) && !post.dom().contains(k) ==> (pre[k].parent == Some(
            parent,
        ) || (match pre[k].parent {
            Some(p) => pre.dom().contains(p) && !post.dom().contains(p),
            None => false,
        }))
}

/// The object's kind or namespace ancestor is missing from the table.
pub open spec fn chain_broken(m: Map<u64, InodeView>, ino: u64) -> bool {
    match m[ino].parent {
        None => true,
        Some(p) => !m.dom().contains(p) || (match m[p].parent {
            None => true,
            Some(g) => !m.dom().contains(g),
        }),
    }
}

/// The record of the root node as first created.
pub open spec fn root_inode_view() -> InodeView {
    InodeView {
        ino: ROOT_INO,
        parent: None,
        name: "Root"@,
        level: KubeFSLevel::Root,
        last_populated: None,
    }
}

/// The inode table, together with the injected remote provider. Identity
/// allocation, the parent/child relation and node lifetime are owned here.
pub struct KubeFSINodes<C: K8sInteractions> {
    inodes: Vec<KubeFSInode>,
    client: C,
}

impl<C: K8sInteractions> View for KubeFSINodes<C> {
    type V = Map<u64, InodeView>;

    closed spec fn view(&self) -> Map<u64, InodeView> {
        seq_map(self.inodes@)
    }
}

impl<C: K8sInteractions> KubeFSINodes<C> {
    /// Internal invariant: identifiers are unique and `(parent, name)` pairs
    /// do not repeat.
    pub closed spec fn wf(&self) -> bool {
        unique_inos(self.inodes@) && sibling_unique(self.inodes@)
    }

    /// A well-formed table represents a well-formed map.
    pub proof fn lemma_wf_table(&self)
        requires
            self.wf(),
        ensures
            table_wf(self@),
    {
        assert forall|k: u64| #[trigger] self@.dom().contains(k) implies self@[k].ino == k by {
            lemma_seq_map_contains(self.inodes@, k);
        }
        assert forall|k1: u64, k2: u64|
            #![trigger self@[k1], self@[k2]]
            self@.dom().contains(k1) && self@.dom().contains(k2) && k1 != k2 implies !(
        self@[k1].parent == self@[k2].parent && self@[k1].name == self@[k2].name) by {
            lemma_seq_map_contains(self.inodes@, k1);
            lemma_seq_map_contains(self.inodes@, k2);
            let i1 = ino_index(self.inodes@, k1);
            let i2 = ino_index(self.inodes@, k2);
            assert(i1 != i2);
        }
    }

    /// A fresh table: the root node alone, with its reserved identifier.
    pub fn new(client: C) -> (r: Self)
        ensures
            r.wf(),
            r@ == Map::<u64, InodeView>::empty().insert(ROOT_INO, root_inode_view()),
    {
        let root = KubeFSInode {
            ino: ROOT_INO,
            parent: None,
            name: "Root".to_owned(),
            level: KubeFSLevel::Root,
            last_populated: None,
        };
        let mut inodes: Vec<KubeFSInode> = Vec::new();
        inodes.push(root);
        let r = KubeFSINodes { inodes, client };
        proof {
            assert forall|k: u64| r@.dom().contains(k) implies k == ROOT_INO by {
                let i = ino_index(r.inodes@, k);
                assert(i == 0);
            }
            assert(seq_has_ino(r.inodes@, ROOT_INO)) by {
                assert(r.inodes@[0].ino == ROOT_INO);
            }
            lemma_seq_map_index(r.inodes@, 0);
            assert(r@ =~= Map::<u64, InodeView>::empty().insert(ROOT_INO, root_inode_view()));
        }
        r
    }

    fn index_of_ino(&self, ino: u64) -> (r: Option<usize>)
        ensures
            match r {
                Some(i) => 0 <= i < self.inodes@.len() && self.inodes@[i as int].ino == ino,
                None => !seq_has_ino(self.inodes@, ino),
            },
    {
        let mut i: usize = 0;
        while i < self.inodes.len()
            invariant
                0 <= i <= self.inodes@.len(),
                forall|j: int| 0 <= j < i ==> self.inodes@[j].ino != ino,
            decreases self.inodes@.len() - i,
        {
            if self.inodes[i].ino == ino {
                return Some(i);
            }
            i = i + 1;
        }
        None
    }

    /// Look a node up by identifier. No side effects.
    pub fn get_inode(&self, ino: &u64) -> (r: Option<&KubeFSInode>)
        requires
            self.wf(),
        ensures
            match r {
                Some(n) => self@.dom().contains(*ino) && n@ == self@[*ino],
                None => !self@.dom().contains(*ino),
            },
    {
        match self.index_of_ino(*ino) {
            Some(i) => {
                proof {
                    lemma_seq_map_index(self.inodes@, i as int);
                }
                Some(&self.inodes[i])
            },
            None => None,
        }
    }

    /// The number of nodes in the table.
    pub fn len(&self) -> (r: usize)
        requires
            self.wf(),
        ensures
            r == self@.dom().len(),
    {
        proof {
            lemma_seq_map_len(self.inodes@);
        }
        self.inodes.len()
    }

    /// Insert a node keyed by its identifier, replacing any node that already
    /// carries the same identifier.
    pub fn insert_inode(&mut self, inode: KubeFSInode)
        requires
            old(self).wf(),
            forall|k: u64|
                #[trigger] old(self)@.dom().contains(k) && k != inode.ino ==> !(old(self)@[k].parent == inode.parent && old(self)@[k].name == inode.name@),
        ensures
            final(self).wf(),
            final(self)@ == old(self)@.insert(inode.ino, inode@),
    {
        let ghost pre = self.inodes@;
        match self.index_of_ino(inode.ino) {
            Some(i) => {
                self.inodes.remove(i);
                self.inodes.insert(i, inode);
                proof {
                    assert(self.inodes@ =~= pre.update(i as int, inode));
                    lemma_view_after_update(pre, i as int, inode);
                }
            },
            None => {
                self.inodes.push(inode);
                proof {
                    lemma_view_after_push(pre, inode);
                }
            },
        }
        proof {
            assert(seq_map(pre) == old(self)@);
            assert forall|k: u64|
                #[trigger] seq_map(pre).dom().contains(k) && k != inode.ino implies !(seq_map(
                pre,
            )[k].parent == inode.parent && seq_map(pre)[k].name == inode.name@) by {
                assert(old(self)@.dom().contains(k));
            }
            lemma_sibling_after_insert(pre, self.inodes@, inode);
        }
    }

    /// The current children of `parent`: a snapshot; does not trigger
    /// population. The order is unspecified but stable within the snapshot.
    pub fn find_inode_by_parent(&self, parent: &u64) -> (r: Vec<KubeFSInode>)
        requires
            self.wf(),
        ensures
            forall|m: int|
                0 <= m < r@.len() ==> self@.dom().contains((#[trigger] r@[m]).ino) && r@[m]@
                    == self@[r@[m].ino] && r@[m].parent == Some(*parent),
            forall|k: u64|
                #[trigger] self@.dom().contains(k) && self@[k].parent == Some(*parent)
                    ==> exists|m: int| 0 <= m < r@.len() && r@[m].ino == k,
            unique_inos(r@),
    {
        let ghost s = self.inodes@;
        let ghost keep = |v: InodeView| v.parent == Some(*parent);
        let mut r: Vec<KubeFSInode> = Vec::new();
        let ghost mut idxs = Seq::<int>::empty();
        let mut i: usize = 0;
        while i < self.inodes.len()
            invariant
                self.wf(),
                s == self.inodes@,
                keep == (|v: InodeView| v.parent == Some(*parent)),
                0 <= i <= s.len(),
                idxs.len() == r@.len(),
                forall|m: int| 0 <= m < idxs.len() ==> 0 <= #[trigger] idxs[m] < i,
                forall|m: int|
                    0 <= m < idxs.len() ==> r@[m]@ == s[#[trigger] idxs[m]]@ && keep(s[idxs[m]]@),
                forall|m1: int, m2: int| 0 <= m1 < m2 < idxs.len() ==> idxs[m1] < idxs[m2],
                forall|j: int|
                    0 <= j < i && keep(#[trigger] s[j]@) ==> exists|m: int|
                        0 <= m < idxs.len() && idxs[m] == j,
            decreases s.len() - i,
        {
            let matches = match self.inodes[i].parent {
                Some(p) => p == *parent,
                None => false,
            };
            let ghost idxs0 = idxs;
            if matches {
                r.push(self.inodes[i].clone());
                proof {
                    idxs = idxs.push(i as int);
                    assert(idxs[idxs.len() - 1] == i as int);
                    assert(r@[idxs.len() - 1]@ == s[i as int]@);
                }
            }
            i = i + 1;
            proof {
                assert forall|j: int| 0 <= j < i && keep(#[trigger] s[j]@) implies exists|m: int|
                    0 <= m < idxs.len() && idxs[m] == j by {
                    if j == i - 1 {
                        assert(matches);
                        assert(idxs[idxs.len() - 1] == j);
                    } else {
                        let m = choose|m: int| 0 <= m < idxs0.len() && idxs0[m] == j;
                        assert(idxs[m] == j);
                    }
                }
            }
        }
        proof {
            lemma_filter_view(s, r@, idxs, keep);
            assert forall|m: int| 0 <= m < r@.len() implies self@.dom().contains(
                (#[trigger] r@[m]).ino,
            ) && r@[m]@ == self@[r@[m].ino] && r@[m].parent == Some(*parent) by {
                lemma_seq_map_index(r@, m);
                assert(seq_map(r@).dom().contains(r@[m].ino));
            }
            assert forall|k: u64|
                #[trigger] self@.dom().contains(k) && self@[k].parent == Some(
                    *parent,
                ) implies exists|m: int| 0 <= m < r@.len() && r@[m].ino == k by {
                assert(keep(seq_map(s)[k]));
                assert(seq_map(r@).dom().contains(k));
                lemma_seq_map_contains(r@, k);
                let m = ino_index(r@, k);
                assert(0 <= m < r@.len() && r@[m].ino == k);
            }
        }
        r
    }

    /// Look a child up among the current children of `parent` by name; does
    /// not trigger population.
    pub fn lookup_inode_by_parent_and_name(&self, parent: &u64, name: &str) -> (r: Option<
        KubeFSInode,
    >)
        requires
            self.wf(),
        ensures
            match r {
                Some(n) => self@.dom().contains(n.ino) && n@ == self@[n.ino] && n.parent == Some(
                    *parent,
                ) && n.name@ == name@,
                None => forall|k: u64|
                    #[trigger] self@.dom().contains(k) ==> !(self@[k].parent == Some(*parent)
                        && self@[k].name == name@),
            },
    {
        let ghost s = self.inodes@;
        let owned = name.to_owned();
        let mut i: usize = 0;
        while i < self.inodes.len()
            invariant
                self.wf(),
                s == self.inodes@,
                owned@ == name@,
                0 <= i <= s.len(),
                forall|j: int|
                    0 <= j < i ==> !((#[trigger] s[j]).parent == Some(*parent) && s[j].name@
                        == name@),
            decreases s.len() - i,
        {
            let matches = match self.inodes[i].parent {
                Some(p) => p == *parent,
                None => false,
            };
            if matches && self.inodes[i].name.eq(&owned) {
                proof {
                    lemma_seq_map_index(s, i as int);
                }
                return Some(self.inodes[i].clone());
            }
            i = i + 1;
        }
        proof {
            assert forall|k: u64| #[trigger] self@.dom().contains(k) implies !(self@[k].parent
                == Some(*parent) && self@[k].name == name@) by {
                lemma_seq_map_contains(s, k);
            }
        }
        None
    }

    /// Remove the direct children of `parent` and, transitively, every node
    /// that hangs beneath one of them; no orphan survives and all other
    /// records are kept unchanged.
    pub fn delete_by_parent_ino(&mut self, parent: &u64)
        requires
            old(self).wf(),
        ensures
            final(self).wf(),
            children_removed(old(self)@, final(self)@, *parent),
    {
        let ghost pre_s = self.inodes@;
        let ghost pre = self@;
        let mut kids: Vec<u64> = Vec::new();
        let ghost mut sidx = Seq::<int>::empty();
        let mut i: usize = 0;
        while i < self.inodes.len()
            invariant
                self.wf(),
                pre_s == self.inodes@,
                pre == self@,
                0 <= i <= pre_s.len(),
                sidx.len() == kids@.len(),
                forall|m: int| 0 <= m < sidx.len() ==> 0 <= #[trigger] sidx[m] < i,
                forall|m: int|
                    0 <= m < sidx.len() ==> kids@[m] == pre_s[#[trigger] sidx[m]].ino
                        && pre_s[sidx[m]].parent == Some(*parent),
                forall|m1: int, m2: int| 0 <= m1 < m2 < sidx.len() ==> sidx[m1] < sidx[m2],
                forall|jj: int|
                    0 <= jj < i && (#[trigger] pre_s[jj]).parent == Some(*parent)
                        ==> kids@.contains(pre_s[jj].ino),
            decreases pre_s.len() - i,
        {
            let pmatch = match self.inodes[i].parent {
                Some(p) => p == *parent,
                None => false,
            };
            let ghost sidx0 = sidx;
            let ghost kids0 = kids@;
            if pmatch {
                kids.push(self.inodes[i].ino);
                proof {
                    sidx = sidx.push(i as int);
                    assert(sidx[sidx.len() - 1] == i as int);
                    assert(kids@[sidx.len() - 1] == pre_s[i as int].ino);
                }
            }
            i = i + 1;
            proof {
                assert forall|jj: int|
                    0 <= jj < i && (#[trigger] pre_s[jj]).parent == Some(
                        *parent,
                    ) implies kids@.contains(pre_s[jj].ino) by {
                    if jj == i - 1 {
                        assert(kids@[kids@.len() - 1] == pre_s[jj].ino);
                    } else {
                        assert(kids0.contains(pre_s[jj].ino));
                        let m = choose|m: int| 0 <= m < kids0.len() && kids0[m] == pre_s[jj].ino;
                        assert(kids@[m] == pre_s[jj].ino);
                    }
                }
            }
        }
        let ghost kids_v = kids@;
        proof {
            assert(kids@.no_duplicates()) by {
                assert forall|m1: int, m2: int|
                    0 <= m1 < kids_v.len() && 0 <= m2 < kids_v.len() && m1 != m2 implies kids_v[m1]
                    != kids_v[m2] by {
                    if m1 < m2 {
                        assert(sidx[m1] < sidx[m2]);
                    } else {
                        assert(sidx[m2] < sidx[m1]);
                    }
                }
            }
            assert forall|m: int| 0 <= m < kids_v.len() implies pre.dom().contains(
                #[trigger] kids_v[m],
            ) && pre[kids_v[m]].parent == Some(*parent) by {
                lemma_seq_map_index(pre_s, sidx[m]);
            }
            assert forall|k: u64|
                #[trigger] pre.dom().contains(k) && pre[k].parent == Some(
                    *parent,
                ) implies kids_v.contains(k) by {
                lemma_seq_map_contains(pre_s, k);
                let jj = ino_index(pre_s, k);
                assert(pre_s[jj].parent == Some(*parent));
            }
        }
        let kill = self.collect_descendants(&kids);
        self.retain_not_killed(&kill);
        proof {
            let post = final(self)@;
            assert forall|k: u64|
                #[trigger] pre.dom().contains(k) && pre[k].parent == Some(
                    *parent,
                ) implies !post.dom().contains(k) by {
                assert(kids_v.contains(k));
                assert(kill@.contains(k));
            }
            assert forall|k: u64|
                #[trigger] pre.dom().contains(k) && (match pre[k].parent {
                    Some(p) => pre.dom().contains(p) && !post.dom().contains(p),
                    None => false,
                }) implies !post.dom().contains(k) by {
                match pre[k].parent {
                    Some(p) => {
                        assert(kill@.contains(p));
                        assert(parent_in(pre, k, kill@));
                        assert(kill@.contains(k));
                    },
                    None => {},
                }
            }
            assert forall|k: u64|
                #[trigger] pre.dom().contains(k) && !post.dom().contains(k) implies (pre[k].parent
                == Some(*parent) || (match pre[k].parent {
                Some(p) => pre.dom().contains(p) && !post.dom().contains(p),
                None => false,
            })) by {
                assert(kill@.contains(k));
                if pre[k].parent != Some(*parent) {
                    let m = choose|m: int| 0 <= m < kill@.len() && kill@[m] == k;
                    assert(kids_v.contains(k) || (pre.dom().contains(k) && parent_in(
                        pre,
                        k,
                        kill@,
                    )));
                    if kids_v.contains(k) {
                        let sm = choose|sm: int| 0 <= sm < kids_v.len() && kids_v[sm] == k;
                        assert(pre[k].parent == Some(*parent));
                    } else {
                        match pre[k].parent {
                            Some(p) => {
                                assert(kill@.contains(p));
                                let mp = choose|mp: int| 0 <= mp < kill@.len() && kill@[mp] == p;
                                assert(kids_v.contains(p) || pre.dom().contains(p));
                                if kids_v.contains(p) {
                                    let sp = choose|sp: int|
                                        0 <= sp < kids_v.len() && kids_v[sp] == p;
                                    assert(pre.dom().contains(p));
                                }
                                assert(!post.dom().contains(p));
                            },
                            None => {},
                        }
                    }
                }
            }
        }
    }

    /// Collect `roots` and, transitively, every node that hangs beneath one
    /// of them.
    fn collect_descendants(&self, roots: &Vec<u64>) -> (k: Vec<u64>)
        requires
            self.wf(),
            roots@.no_duplicates(),
        ensures
            k@.no_duplicates(),
            forall|x: u64| roots@.contains(x) ==> k@.contains(x),
            forall|m: int|
                0 <= m < k@.len() ==> roots@.contains(#[trigger] k@[m]) || (self@.dom().contains(
                    k@[m],
                ) && parent_in(self@, k@[m], k@)),
            forall|x: u64| #[trigger] self@.dom().contains(x) && parent_in(self@, x, k@)
                ==> k@.contains(x),
            forall|mi: int| 0 <= mi < k@.len() ==> links_up(self@, roots@, #[trigger] k@[mi]),
    {
        let ghost rs = roots@;
        let ghost n = self.inodes@.len() as int;
        proof {
            lemma_seq_map_len(self.inodes@);
        }
        let mut k: Vec<u64> = Vec::new();
        let mut r0: usize = 0;
        while r0 < roots.len()
            invariant
                0 <= r0 <= roots@.len(),
                k@ == roots@.take(r0 as int),
            decreases roots@.len() - r0,
        {
            k.push(roots[r0]);
            proof {
                assert(roots@.take(r0 + 1) =~= roots@.take(r0 as int).push(roots@[r0 as int]));
            }
            r0 = r0 + 1;
        }
        proof {
            assert(k@ =~= rs);
        }
        let ghost mut depths = Seq::<nat>::new(k@.len(), |x: int| 0nat);
        proof {
            assert forall|mi: int| 0 <= mi < k@.len() implies links_up_to(
                self@,
                rs,
                #[trigger] k@[mi],
                depths[mi],
            ) by {
                assert(rs.contains(k@[mi]));
            }
        }
        let mut i: usize = 0;
        while i < k.len()
            invariant
                self.wf(),
                self@.dom().finite(),
                self@.dom().len() <= n,
                0 <= i <= k@.len(),
                k@.len() <= rs.len() + n,
                k@.no_duplicates(),
                forall|x: u64| rs.contains(x) ==> k@.contains(x),
                depths.len() == k@.len(),
                forall|mi: int|
                    0 <= mi < k@.len() ==> links_up_to(self@, rs, #[trigger] k@[mi], depths[mi]),
                forall|m: int|
                    0 <= m < k@.len() ==> rs.contains(#[trigger] k@[m]) || (self@.dom().contains(
                        k@[m],
                    ) && parent_in(self@, k@[m], k@)),
                forall|x: u64|
                    #[trigger] self@.dom().contains(x) && (match self@[x].parent {
                        Some(p) => exists|m: int| 0 <= m < i && k@[m] == p,
                        None => false,
                    }) ==> k@.contains(x),
            decreases rs.len() + n - i,
        {
            let cur = k[i];
            let ghost s = self.inodes@;
            let mut j: usize = 0;
            while j < self.inodes.len()
                invariant
                    self.wf(),
                    self@.dom().finite(),
                    self@.dom().len() <= n,
                    s == self.inodes@,
                    0 <= i < k@.len(),
                    cur == k@[i as int],
                    0 <= j <= s.len(),
                    k@.len() <= rs.len() + n,
                    k@.no_duplicates(),
                    forall|x: u64| rs.contains(x) ==> k@.contains(x),
                    depths.len() == k@.len(),
                    forall|mi: int|
                        0 <= mi < k@.len() ==> links_up_to(
                            self@,
                            rs,
                            #[trigger] k@[mi],
                            depths[mi],
                        ),
                    forall|m: int|
                        0 <= m < k@.len() ==> rs.contains(#[trigger] k@[m]) || (
                        self@.dom().contains(k@[m]) && parent_in(self@, k@[m], k@)),
                    forall|x: u64|
                        #[trigger] self@.dom().contains(x) && (match self@[x].parent {
                            Some(p) => exists|m: int| 0 <= m < i && k@[m] == p,
                            None => false,
                        }) ==> k@.contains(x),
                    forall|jj: int|
                        0 <= jj < j && (#[trigger] s[jj]).parent == Some(cur) ==> k@.contains(
                            s[jj].ino,
                        ),
                decreases s.len() - j,
            {
                let node_matches = match self.inodes[j].parent {
                    Some(p) => p == cur,
                    None => false,
                };
                if node_matches {
                    let ino_j = self.inodes[j].ino;
                    if !vec_contains_u64(&k, ino_j) {
                        let ghost k0 = k@;
                        k.push(ino_j);
                        proof {
                            assert(k@ == k0.push(ino_j));
                            lemma_seq_map_index(s, j as int);
                            assert(self@.dom().contains(ino_j));
                            assert(self@[ino_j] == s[j as int]@);
                            assert(k@[k@.len() - 1] == ino_j);
                            assert(k@.no_duplicates()) by {
                                assert forall|m1: int, m2: int|
                                    0 <= m1 < k@.len() && 0 <= m2 < k@.len() && m1
                                        != m2 implies k@[m1] != k@[m2] by {
                                    if m1 < k0.len() && m2 < k0.len() {
                                        assert(k0[m1] != k0[m2]);
                                    } else {
                                        let o = if m1 < k0.len() {
                                            m1
                                        } else {
                                            m2
                                        };
                                        assert(k@[o] == k0[o]);
                                        assert(!k0.contains(ino_j));
                                    }
                                }
                            }
                            assert forall|x: u64| rs.contains(x) implies k@.contains(x) by {
                                lemma_contains_after_push(k0, ino_j, x);
                            }
                            assert forall|m: int| 0 <= m < k@.len() implies rs.contains(
                                #[trigger] k@[m],
                            ) || (self@.dom().contains(k@[m]) && parent_in(self@, k@[m], k@)) by {
                                if m < k0.len() {
                                    if !rs.contains(k0[m]) {
                                        let p0 = self@[k0[m]].parent;
                                        match p0 {
                                            Some(p) => {
                                                lemma_contains_after_push(k0, ino_j, p);
                                            },
                                            None => {},
                                        }
                                    }
                                } else {
                                    assert(k@[m] == ino_j);
                                    assert(self@[ino_j].parent == Some(cur));
                                    lemma_contains_after_push(k0, ino_j, cur);
                                }
                            }
                            assert forall|x: u64|
                                #[trigger] self@.dom().contains(x) && (match self@[x].parent {
                                    Some(p) => exists|m: int| 0 <= m < i && k@[m] == p,
                                    None => false,
                                }) implies k@.contains(x) by {
                                match self@[x].parent {
                                    Some(p) => {
                                        let m = choose|m: int| 0 <= m < i && k@[m] == p;
                                        assert(k0[m] == p);
                                        assert(k0.contains(x));
                                        lemma_contains_after_push(k0, ino_j, x);
                                    },
                                    None => {},
                                }
                            }
                            lemma_bounded_len(k@, rs, self@, n);
                            depths = depths.push((depths[i as int] + 1) as nat);
                            assert forall|mi: int| 0 <= mi < k@.len() implies links_up_to(
                                self@,
                                rs,
                                #[trigger] k@[mi],
                                depths[mi],
                            ) by {
                                if mi < k0.len() {
                                    assert(k@[mi] == k0[mi] && depths[mi] == depths[mi]);
                                } else {
                                    assert(k@[mi] == ino_j);
                                    assert(links_up_to(self@, rs, cur, depths[i as int]));
                                    assert(self@[ino_j].parent == Some(cur));
                                }
                            }
                            assert forall|jj: int|
                                0 <= jj < j + 1 && (#[trigger] s[jj]).parent == Some(
                                    cur,
                                ) implies k@.contains(s[jj].ino) by {
                                if jj < j {
                                    lemma_contains_after_push(k0, ino_j, s[jj].ino);
                                } else {
                                    assert(k@[k@.len() - 1] == ino_j);
                                }
                            }
                        }
                    } else {
                        proof {
                            lemma_seq_map_index(s, j as int);
                        }
                    }
                }
                j = j + 1;
            }
            i = i + 1;
            proof {
                assert forall|x: u64|
                    #[trigger] self@.dom().contains(x) && (match self@[x].parent {
                        Some(p) => exists|m: int| 0 <= m < i && k@[m] == p,
                        None => false,
                    }) implies k@.contains(x) by {
                    match self@[x].parent {
                        Some(p) => {
                            let m = choose|m: int| 0 <= m < i && k@[m] == p;
                            if m == i - 1 {
                                lemma_seq_map_contains(self.inodes@, x);
                                let jx = ino_index(self.inodes@, x);
                                assert(self.inodes@[jx].parent == Some(cur));
                            }
                        },
                        None => {},
                    }
                }
            }
        }
        proof {
            assert forall|mi: int| 0 <= mi < k@.len() implies links_up(
                self@,
                roots@,
                #[trigger] k@[mi],
            ) by {
                assert(links_up_to(self@, roots@, k@[mi], depths[mi]));
            }
            assert forall|x: u64| #[trigger] self@.dom().contains(x) && parent_in(
                self@,
                x,
                k@,
            ) implies k@.contains(x) by {
                match self@[x].parent {
                    Some(p) => {
                        let m = choose|m: int| 0 <= m < k@.len() && k@[m] == p;
                        assert(0 <= m < i);
                    },
                    None => {},
                }
            }
        }
        k
    }

    /// Remove exactly the entries whose identifier is listed in `kill`,
    /// keeping all other records unchanged.
    fn retain_not_killed(&mut self, kill: &Vec<u64>)
        requires
            old(self).wf(),
        ensures
            final(self).wf(),
            forall|k: u64|
                #[trigger] final(self)@.dom().contains(k) <==> (old(self)@.dom().contains(k)
                    && !kill@.contains(k)),
            forall|k: u64|
                #[trigger] final(self)@.dom().contains(k) ==> final(self)@[k] == old(self)@[k],
    {
        let ghost s = self.inodes@;
        let ghost keep = |v: InodeView| !kill@.contains(v.ino);
        let mut kept: Vec<KubeFSInode> = Vec::new();
        let ghost mut idxs = Seq::<int>::empty();
        let mut i: usize = 0;
        while i < self.inodes.len()
            invariant
                self.wf(),
                s == self.inodes@,
                keep == (|v: InodeView| !kill@.contains(v.ino)),
                0 <= i <= s.len(),
                idxs.len() == kept@.len(),
                forall|m: int| 0 <= m < idxs.len() ==> 0 <= #[trigger] idxs[m] < i,
                forall|m: int|
                    0 <= m < idxs.len() ==> kept@[m]@ == s[#[trigger] idxs[m]]@ && keep(
                        s[idxs[m]]@,
                    ),
                forall|m1: int, m2: int| 0 <= m1 < m2 < idxs.len() ==> idxs[m1] < idxs[m2],
                forall|j: int|
                    0 <= j < i && keep(#[trigger] s[j]@) ==> exists|m: int|
                        0 <= m < idxs.len() && idxs[m] == j,
            decreases s.len() - i,
        {
            let killed = vec_contains_u64(kill, self.inodes[i].ino);
            let ghost idxs0 = idxs;
            if !killed {
                kept.push(self.inodes[i].clone());
                proof {
                    idxs = idxs.push(i as int);
                    assert(idxs[idxs.len() - 1] == i as int);
                    assert(kept@[idxs.len() - 1]@ == s[i as int]@);
                }
            }
            i = i + 1;
            proof {
                assert forall|j: int| 0 <= j < i && keep(#[trigger] s[j]@) implies exists|m: int|
                    0 <= m < idxs.len() && idxs[m] == j by {
                    if j == i - 1 {
                        assert(!killed);
                        assert(idxs[idxs.len() - 1] == j);
                    } else {
                        let m = choose|m: int| 0 <= m < idxs0.len() && idxs0[m] == j;
                        assert(idxs[m] == j);
                    }
                }
            }
        }
        self.inodes = kept;
        proof {
            lemma_filter_view(s, self.inodes@, idxs, keep);
            assert forall|k: u64| #[trigger] final(self)@.dom().contains(k) implies (old(self)@.dom().contains(k) && !kill@.contains(k) && final(self)@[k] == old(self)@[k]) by {
                assert(seq_map(self.inodes@).dom().contains(k));
                assert(keep(seq_map(s)[k]));
                lemma_seq_map_contains(s, k);
            }
            assert forall|k: u64|
                old(self)@.dom().contains(k) && !kill@.contains(k) implies #[trigger] final(self)@.dom().contains(k) by {
                lemma_seq_map_contains(s, k);
                assert(seq_map(s)[k].ino == k);
                assert(keep(seq_map(s)[k]));
            }
        }
    }

    /// Delete the node `ino` and, transitively, every node that hangs beneath
    /// it. All other records are kept unchanged.
    pub fn remove_subtree(&mut self, ino: &u64)
        requires
            old(self).wf(),
        ensures
            final(self).wf(),
            subtree_removed(old(self)@, final(self)@, *ino),
    {
        let mut roots_v: Vec<u64> = Vec::new();
        roots_v.push(*ino);
        proof {
            assert(roots_v@.no_duplicates());
            assert(roots_v@[0] == *ino);
        }
        let kill = self.collect_descendants(&roots_v);
        let ghost pre = self@;
        self.retain_not_killed(&kill);
        proof {
            let post = final(self)@;
            let root = *ino;
            assert(kill@.contains(root));
            assert(!post.dom().contains(root));
            assert forall|k: u64|
                #[trigger] pre.dom().contains(k) && (match pre[k].parent {
                    Some(p) => removed_in(pre, post, root, p),
                    None => false,
                }) implies !post.dom().contains(k) by {
                match pre[k].parent {
                    Some(p) => {
                        if p == root {
                            assert(parent_in(pre, k, kill@));
                        } else {
                            assert(pre.dom().contains(p) && !post.dom().contains(p));
                            assert(kill@.contains(p));
                            assert(parent_in(pre, k, kill@));
                        }
                        assert(kill@.contains(k));
                    },
                    None => {},
                }
            }
            assert forall|k: u64|
                #[trigger] pre.dom().contains(k) && !post.dom().contains(k) implies (k == root || (
            match pre[k].parent {
                Some(p) => removed_in(pre, post, root, p),
                None => false,
            })) by {
                assert(kill@.contains(k));
                if k != root {
                    let m = choose|m: int| 0 <= m < kill@.len() && kill@[m] == k;
                    assert(roots_v@.contains(k) || (pre.dom().contains(k) && parent_in(
                        pre,
                        k,
                        kill@,
                    )));
                    if roots_v@.contains(k) {
                        assert(k == root);
                    } else {
                        match pre[k].parent {
                            Some(p) => {
                                assert(kill@.contains(p));
                                if p != root {
                                    let mp = choose|mp: int|
                                        0 <= mp < kill@.len() && kill@[mp] == p;
                                    assert(roots_v@.contains(p) || pre.dom().contains(p));
                                    assert(pre.dom().contains(p));
                                    assert(!post.dom().contains(p));
                                }
                            },
                            None => {},
                        }
                    }
                }
            }
        }
    }

    /// Reconcile the children of `parent` against a freshly fetched listing
    /// of names, all at level `level`: children whose name is listed are kept
    /// with their identifier unchanged; listed names without a child are
    /// created with a path-hashed identifier; unlisted children are deleted
    /// together with their whole subtree. The pass is rejected as a whole,
    /// leaving the table untouched, exactly when a computed identifier
    /// collides with an existing one (or with a sibling's), or the malformed
    /// hierarchy hangs `parent` beneath one of its own stale children; on
    /// every other input it succeeds.
    pub fn reconcile_children(
        &mut self,
        parent: u64,
        level: KubeFSLevel,
        fresh: &Vec<String>,
    ) -> (r: Result<(), KubeFSInodeError>)
        requires
            old(self).wf(),
        ensures
            final(self).wf(),
            r is Ok ==> reconciled(old(self)@, final(self)@, parent, level, fresh.deep_view()),
            r is Err ==> final(self)@ == old(self)@ && r == Err::<(), KubeFSInodeError>(
                KubeFSInodeError::Invalid,
            ),
            r is Ok <==> !reconcile_rejected(old(self)@, parent, level, fresh.deep_view()),
    {
        let ghost pre_s = self.inodes@;
        let ghost pre = self@;
        let ghost f = fresh.deep_view();

        // Which current children are stale (their name is not listed).
        let mut stale: Vec<u64> = Vec::new();
        let ghost mut sidx = Seq::<int>::empty();
        let mut i: usize = 0;
        while i < self.inodes.len()
            invariant
                self.wf(),
                pre_s == self.inodes@,
                pre == self@,
                f == fresh.deep_view(),
                0 <= i <= pre_s.len(),
                sidx.len() == stale@.len(),
                forall|m: int| 0 <= m < sidx.len() ==> 0 <= #[trigger] sidx[m] < i,
                forall|m: int|
                    0 <= m < sidx.len() ==> stale@[m] == pre_s[#[trigger] sidx[m]].ino
                        && pre_s[sidx[m]].parent == Some(parent) && !f.contains(
                        pre_s[sidx[m]].name@,
                    ),
                forall|m1: int, m2: int| 0 <= m1 < m2 < sidx.len() ==> sidx[m1] < sidx[m2],
                forall|jj: int|
                    0 <= jj < i && (#[trigger] pre_s[jj]).parent == Some(parent) && !f.contains(
                        pre_s[jj].name@,
                    ) ==> stale@.contains(pre_s[jj].ino),
            decreases pre_s.len() - i,
        {
            let pmatch = match self.inodes[i].parent {
                Some(p) => p == parent,
                None => false,
            };
            let ghost sidx0 = sidx;
            let ghost stale0 = stale@;
            if pmatch && !names_contain(fresh, &self.inodes[i].name) {
                stale.push(self.inodes[i].ino);
                proof {
                    sidx = sidx.push(i as int);
                    assert(sidx[sidx.len() - 1] == i as int);
                    assert(stale@[sidx.len() - 1] == pre_s[i as int].ino);
                }
            }
            i = i + 1;
            proof {
                assert forall|jj: int|
                    0 <= jj < i && (#[trigger] pre_s[jj]).parent == Some(parent) && !f.contains(
                        pre_s[jj].name@,
                    ) implies stale@.contains(pre_s[jj].ino) by {
                    if jj == i - 1 {
                        assert(stale@[stale@.len() - 1] == pre_s[jj].ino);
                    } else {
                        assert(stale0.contains(pre_s[jj].ino));
                        let m = choose|m: int| 0 <= m < stale0.len() && stale0[m] == pre_s[jj].ino;
                        assert(stale@[m] == pre_s[jj].ino);
                    }
                }
            }
        }
        let ghost stale_v = stale@;
        proof {
            assert(stale@.no_duplicates()) by {
                assert forall|m1: int, m2: int|
                    0 <= m1 < stale_v.len() && 0 <= m2 < stale_v.len() && m1 != m2 implies stale_v[m1]
                    != stale_v[m2] by {
                    if m1 < m2 {
                        assert(sidx[m1] < sidx[m2]);
                    } else {
                        assert(sidx[m2] < sidx[m1]);
                    }
                }
            }
            // stale members, as map facts
            assert forall|m: int| 0 <= m < stale_v.len() implies pre.dom().contains(
                #[trigger] stale_v[m],
            ) && pre[stale_v[m]].parent == Some(parent) && !f.contains(pre[stale_v[m]].name) by {
                lemma_seq_map_index(pre_s, sidx[m]);
            }
            assert forall|k: u64|
                #[trigger] pre.dom().contains(k) && pre[k].parent == Some(parent) && !f.contains(
                    pre[k].name,
                ) implies stale_v.contains(k) by {
                lemma_seq_map_contains(pre_s, k);
                let jj = ino_index(pre_s, k);
                assert(pre_s[jj].parent == Some(parent) && !f.contains(pre_s[jj].name@));
            }
            assert forall|y: u64| #[trigger] stale_v.contains(y) implies stale_child(
                pre,
                parent,
                f,
                y,
            ) by {
                let sm = choose|sm: int| 0 <= sm < stale_v.len() && stale_v[sm] == y;
            }
            assert forall|y: u64| stale_child(pre, parent, f, y) implies #[trigger] stale_v.contains(
                y,
            ) by {
                assert(pre.dom().contains(y));
            }
        }
        let kill = self.collect_descendants(&stale);

        // A malformed hierarchy in which the parent hangs beneath one of its
        // own (stale) children cannot be reconciled coherently: reject it.
        if vec_contains_u64(&kill, parent) {
            proof {
                let km = choose|km: int| 0 <= km < kill@.len() && kill@[km] == parent;
                assert(links_up(pre, stale_v, parent));
                let nn = choose|nn: nat| links_up_to(pre, stale_v, parent, nn);
                lemma_links_to_stale(pre, stale_v, parent, f, parent, nn);
                assert(hangs_below_stale(pre, parent, f, parent, nn));
                assert(parent_beneath_stale(pre, parent, f));
            }
            return Err(KubeFSInodeError::Invalid);
        }
        proof {
            assert(!parent_beneath_stale(pre, parent, f)) by {
                if parent_beneath_stale(pre, parent, f) {
                    let nn = choose|nn: nat| hangs_below_stale(pre, parent, f, parent, nn);
                    lemma_links_to_stale(pre, stale_v, parent, f, parent, nn);
                    lemma_chain_in_kill(pre, stale_v, kill@, parent, nn);
                    assert(false);
                }
            }
        }

        // Which listed names need a new node.
        let mut adds: Vec<KubeFSInode> = Vec::new();
        let mut j: usize = 0;
        while j < fresh.len()
            invariant
                self.wf(),
                pre_s == self.inodes@,
                pre == self@,
                f == fresh.deep_view(),
                0 <= j <= f.len(),
                f.len() == fresh@.len(),
                forall|m: int|
                    0 <= m < adds@.len() ==> (#[trigger] adds@[m]).parent == Some(parent)
                        && adds@[m].level == level && adds@[m].last_populated is None && f.contains(
                        adds@[m].name@,
                    ) && adds@[m].ino == spec_path_ino(parent, level, adds@[m].name@),
                forall|m1: int, m2: int|
                    0 <= m1 < m2 < adds@.len() ==> adds@[m1].name@ != adds@[m2].name@,
                forall|m: int, k: u64|
                    0 <= m < adds@.len() && #[trigger] pre.dom().contains(k) ==> !(pre[k].parent
                        == Some(parent) && pre[k].name == (#[trigger] adds@[m]).name@),
                listing_covered(pre, parent, f, adds@, j as int),
            decreases f.len() - j,
        {
            let name = &fresh[j];
            proof {
                assert(f[j as int] == fresh@[j as int]@);
            }
            let ghost adds0 = adds@;
            match self.lookup_inode_by_parent_and_name(&parent, name.as_str()) {
                Some(_) => {},
                None => {
                    if !adds_contain_name(&adds, name) {
                        let ino = path_ino(parent, level, name.as_str());
                        adds.push(
                            KubeFSInode {
                                ino,
                                parent: Some(parent),
                                name: name.clone(),
                                level,
                                last_populated: None,
                            },
                        );
                        proof {
                            assert(adds@[adds@.len() - 1].name@ == f[j as int]);
                        }
                    }
                },
            }
            j = j + 1;
            proof {
                assert forall|jj: int| #![trigger f[jj]] 0 <= jj < j implies covered_name(
                    pre,
                    parent,
                    f[jj],
                    adds@,
                ) by {
                    if jj < j - 1 {
                        assert(covered_name(pre, parent, f[jj], adds0));
                        if exists|mm: int| 0 <= mm < adds0.len() && adds0[mm].name@ == f[jj] {
                            let mm = choose|mm: int|
                                0 <= mm < adds0.len() && adds0[mm].name@ == f[jj];
                            assert(adds@[mm].name@ == f[jj]);
                        }
                    }
                }
                assert(listing_covered(pre, parent, f, adds@, j as int));
            }
        }

        proof {
            assert(j as int == f.len());
            assert(listing_covered(pre, parent, f, adds@, f.len() as int));
        }

        // A computed identifier that collides with an existing node or with a
        // sibling's identifier is rejected as a whole.
        let mut m: usize = 0;
        while m < adds.len()
            invariant
                self.wf(),
                pre_s == self.inodes@,
                pre == self@,
                pre == old(self)@,
                f == fresh.deep_view(),
                forall|mm: int|
                    0 <= mm < adds@.len() ==> (#[trigger] adds@[mm]).parent == Some(parent)
                        && adds@[mm].level == level && adds@[mm].last_populated is None
                        && f.contains(adds@[mm].name@) && adds@[mm].ino == spec_path_ino(
                        parent,
                        level,
                        adds@[mm].name@,
                    ),
                forall|ma: int, mb: int|
                    0 <= ma < mb < adds@.len() ==> adds@[ma].name@ != adds@[mb].name@,
                forall|mm: int, k: u64|
                    0 <= mm < adds@.len() && #[trigger] pre.dom().contains(k) ==> !(pre[k].parent
                        == Some(parent) && pre[k].name == (#[trigger] adds@[mm]).name@),
                listing_covered(pre, parent, f, adds@, f.len() as int),
                0 <= m <= adds@.len(),
                forall|mm: int|
                    0 <= mm < m ==> !seq_has_ino(pre_s, (#[trigger] adds@[mm]).ino),
                forall|m1: int, m2: int| 0 <= m1 < m2 < m ==> adds@[m1].ino != adds@[m2].ino,
            decreases adds@.len() - m,
        {
            match self.index_of_ino(adds[m].ino) {
                Some(_) => {
                    proof {
                        let nm = adds@[m as int].name@;
                        assert(seq_has_ino(pre_s, adds@[m as int].ino));
                        assert(pre.dom().contains(spec_path_ino(parent, level, nm)));
                        assert(needs_creation(pre, parent, f, nm));
                        assert(id_collision(pre, parent, level, f));
                    }
                    return Err(KubeFSInodeError::Invalid);
                },
                None => {},
            }
            let mut m2: usize = 0;
            while m2 < m
                invariant
                    self.wf(),
                    pre_s == self.inodes@,
                    pre == self@,
                    pre == old(self)@,
                    f == fresh.deep_view(),
                    forall|mm: int|
                        0 <= mm < adds@.len() ==> (#[trigger] adds@[mm]).parent == Some(parent)
                            && adds@[mm].level == level && adds@[mm].last_populated is None
                            && f.contains(adds@[mm].name@) && adds@[mm].ino == spec_path_ino(
                            parent,
                            level,
                            adds@[mm].name@,
                        ),
                    forall|ma: int, mb: int|
                        0 <= ma < mb < adds@.len() ==> adds@[ma].name@ != adds@[mb].name@,
                    forall|mm: int, k: u64|
                        0 <= mm < adds@.len() && #[trigger] pre.dom().contains(k) ==> !(pre[k].parent
                            == Some(parent) && pre[k].name == (#[trigger] adds@[mm]).name@),
                    listing_covered(pre, parent, f, adds@, f.len() as int),
                    0 <= m2 <= m < adds@.len(),
                    forall|mm: int| 0 <= mm < m2 ==> adds@[mm].ino != adds@[m as int].ino,
                decreases m - m2,
            {
                if adds[m2].ino == adds[m].ino {
                    proof {
                        let n1 = adds@[m2 as int].name@;
                        let n2 = adds@[m as int].name@;
                        assert(needs_creation(pre, parent, f, n1));
                        assert(needs_creation(pre, parent, f, n2));
                        assert(n1 != n2);
                        assert(spec_path_ino(parent, level, n1) == spec_path_ino(parent, level, n2));
                        assert(id_collision(pre, parent, level, f));
                    }
                    return Err(KubeFSInodeError::Invalid);
                }
                m2 = m2 + 1;
            }
            m = m + 1;
        }

        // Commit: delete the stale subtrees, then record the new children.
        self.retain_not_killed(&kill);
        let ghost mid = self@;
        let mut t: usize = 0;
        while t < adds.len()
            invariant
                self.wf(),
                pre == seq_map(pre_s),
                f == fresh.deep_view(),
                0 <= t <= adds@.len(),
                forall|m: int|
                    0 <= m < adds@.len() ==> (#[trigger] adds@[m]).parent == Some(parent)
                        && adds@[m].level == level && adds@[m].last_populated is None && f.contains(
                        adds@[m].name@,
                    ) && adds@[m].ino == spec_path_ino(parent, level, adds@[m].name@),
                forall|m1: int, m2: int|
                    0 <= m1 < m2 < adds@.len() ==> adds@[m1].name@ != adds@[m2].name@,
                forall|m: int, k: u64|
                    0 <= m < adds@.len() && #[trigger] pre.dom().contains(k) ==> !(pre[k].parent
                        == Some(parent) && pre[k].name == (#[trigger] adds@[m]).name@),
                forall|mm: int|
                    0 <= mm < adds@.len() ==> !seq_has_ino(pre_s, (#[trigger] adds@[mm]).ino),
                forall|m1: int, m2: int|
                    0 <= m1 < m2 < adds@.len() ==> adds@[m1].ino != adds@[m2].ino,
                listing_covered(pre, parent, f, adds@, f.len() as int),
                forall|k: u64|
                    #[trigger] mid.dom().contains(k) ==> pre.dom().contains(k) && mid[k] == pre[k],
                forall|k: u64|
                    #[trigger] self@.dom().contains(k) <==> (mid.dom().contains(k) || (exists|
                        mm: int,
                    |
                        0 <= mm < t && (#[trigger] adds@[mm]).ino == k)),
                forall|k: u64|
                    #[trigger] mid.dom().contains(k) ==> self@.dom().contains(k) && self@[k]
                        == mid[k],
                forall|mm: int|
                    0 <= mm < t ==> self@.dom().contains((#[trigger] adds@[mm]).ino)
                        && self@[adds@[mm].ino] == adds@[mm]@,
            decreases adds@.len() - t,
        {
            let ghost view0 = self@;
            let node = adds[t].clone();
            proof {
                assert(node@ == adds@[t as int]@);
                assert(node.ino == adds@[t as int].ino);
                assert forall|k: u64|
                    #[trigger] view0.dom().contains(k) && k != node.ino implies !(view0[k].parent
                    == node.parent && view0[k].name == node.name@) by {
                    if mid.dom().contains(k) {
                        assert(view0[k] == pre[k]);
                        assert(pre.dom().contains(k));
                    } else {
                        let mm = choose|mm: int| 0 <= mm < t && adds@[mm].ino == k;
                        assert(view0[k] == adds@[mm]@);
                        assert(mm != t);
                        assert(adds@[mm].name@ != adds@[t as int].name@);
                    }
                }
            }
            self.insert_inode(node);
            t = t + 1;
            proof {
                assert forall|k: u64| #[trigger] self@.dom().contains(k) implies (
                mid.dom().contains(k) || (exists|mm: int|
                    0 <= mm < t && (#[trigger] adds@[mm]).ino == k)) by {
                    if k != adds@[t - 1].ino {
                        assert(view0.dom().contains(k));
                    }
                }
            }
        }

        // What was established, restated over the whole pass.
        proof {
            let post = self@;
            assert forall|k: u64|
                #[trigger] pre.dom().contains(k) && pre[k].parent == Some(parent) && f.contains(
                    pre[k].name,
                ) implies post.dom().contains(k) && post[k] == pre[k] by {
                if kill@.contains(k) {
                    let km = choose|km: int| 0 <= km < kill@.len() && kill@[km] == k;
                    assert(stale_v.contains(k) || (pre.dom().contains(k) && parent_in(
                        pre,
                        k,
                        kill@,
                    )));
                    if stale_v.contains(k) {
                        let sm = choose|sm: int| 0 <= sm < stale_v.len() && stale_v[sm] == k;
                        assert(!f.contains(pre[k].name));
                    } else {
                        assert(kill@.contains(parent));
                    }
                    assert(false);
                }
                assert(mid.dom().contains(k));
            }
            assert forall|k: u64|
                pre.dom().contains(k) && #[trigger] post.dom().contains(k) implies post[k]
                == pre[k] by {
                if !mid.dom().contains(k) {
                    let mm = choose|mm: int|
                        0 <= mm < adds@.len() && (#[trigger] adds@[mm]).ino == k;
                    assert(!seq_has_ino(pre_s, adds@[mm].ino));
                    lemma_seq_map_contains(pre_s, k);
                    assert(false);
                }
            }
            assert forall|k: u64|
                #[trigger] post.dom().contains(k) && !pre.dom().contains(k) implies post[k].parent
                == Some(parent) && f.contains(post[k].name) && post[k].level == level
                && post[k].ino == k && k == spec_path_ino(parent, level, post[k].name)
                && post[k].last_populated is None by {
                assert(!mid.dom().contains(k));
                let mm = choose|mm: int| 0 <= mm < adds@.len() && (#[trigger] adds@[mm]).ino == k;
                assert(post[k] == adds@[mm]@);
            }
            assert forall|n: Seq<char>| #[trigger] f.contains(n) implies exists|k: u64|
                #[trigger] post.dom().contains(k) && post[k].parent == Some(parent) && post[k].name
                    == n by {
                let jj = choose|jj: int| 0 <= jj < f.len() && f[jj] == n;
                if exists|k: u64|
                    #[trigger] pre.dom().contains(k) && pre[k].parent == Some(parent) && pre[k].name
                        == f[jj] {
                    let k = choose|k: u64|
                        #[trigger] pre.dom().contains(k) && pre[k].parent == Some(parent)
                            && pre[k].name == f[jj];
                    assert(post.dom().contains(k) && post[k] == pre[k]);
                } else {
                    assert(covered_name(pre, parent, f[jj], adds@));
                    let mm = choose|mm: int| 0 <= mm < adds@.len() && adds@[mm].name@ == f[jj];
                    let k = adds@[mm].ino;
                    assert(post.dom().contains(k) && post[k] == adds@[mm]@);
                }
            }
            assert forall|k: u64|
                #[trigger] post.dom().contains(k) && post[k].parent == Some(
                    parent,
                ) implies f.contains(post[k].name) by {
                if mid.dom().contains(k) {
                    assert(post[k] == pre[k]);
                    if !f.contains(pre[k].name) {
                        assert(stale_v.contains(k));
                        let sm = choose|sm: int| 0 <= sm < stale_v.len() && stale_v[sm] == k;
                        assert(kill@.contains(k));
                        assert(!mid.dom().contains(k));
                    }
                } else {
                    let mm = choose|mm: int|
                        0 <= mm < adds@.len() && (#[trigger] adds@[mm]).ino == k;
                    assert(post[k] == adds@[mm]@);
                }
            }
            assert forall|k: u64|
                #[trigger] pre.dom().contains(k) && !post.dom().contains(k) implies ((pre[k].parent
                == Some(parent) && !f.contains(pre[k].name)) || (match pre[k].parent {
                Some(p) => pre.dom().contains(p) && !post.dom().contains(p),
                None => false,
            })) by {
                assert(!mid.dom().contains(k));
                assert(kill@.contains(k));
                let km = choose|km: int| 0 <= km < kill@.len() && kill@[km] == k;
                if stale_v.contains(k) {
                    let sm = choose|sm: int| 0 <= sm < stale_v.len() && stale_v[sm] == k;
                    assert(pre[k].parent == Some(parent) && !f.contains(pre[k].name));
                } else {
                    assert(parent_in(pre, k, kill@));
                    match pre[k].parent {
                        Some(p) => {
                            assert(kill@.contains(p));
                            let pm = choose|pm: int| 0 <= pm < kill@.len() && kill@[pm] == p;
                            if stale_v.contains(p) {
                                let spm = choose|spm: int|
                                    0 <= spm < stale_v.len() && stale_v[spm] == p;
                                assert(pre.dom().contains(p));
                            }
                            assert(pre.dom().contains(p));
                            assert(!mid.dom().contains(p));
                            if post.dom().contains(p) {
                                let pmm = choose|pmm: int|
                                    0 <= pmm < adds@.len() && (#[trigger] adds@[pmm]).ino == p;
                                assert(!seq_has_ino(pre_s, p));
                                lemma_seq_map_contains(pre_s, p);
                                assert(false);
                            }
                        },
                        None => {},
                    }
                }
            }
            assert forall|k: u64|
                pre.dom().contains(k) && #[trigger] post.dom().contains(k) implies (match
                pre[k].parent {
                Some(p) => pre.dom().contains(p) ==> post.dom().contains(p),
                None => true,
            }) by {
                match pre[k].parent {
                    Some(p) => {
                        if pre.dom().contains(p) && !post.dom().contains(p) {
                            assert(!mid.dom().contains(p));
                            assert(kill@.contains(p));
                            assert(parent_in(pre, k, kill@));
                            assert(kill@.contains(k));
                            assert(!mid.dom().contains(k));
                            let kmm = choose|kmm: int|
                                0 <= kmm < adds@.len() && (#[trigger] adds@[kmm]).ino == k;
                            assert(!seq_has_ino(pre_s, k));
                            lemma_seq_map_contains(pre_s, k);
                            assert(false);
                        }
                    },
                    None => {},
                }
            }
            assert(!id_collision(pre, parent, level, f)) by {
                if exists|n: Seq<char>|
                    #[trigger] needs_creation(pre, parent, f, n) && pre.dom().contains(
                        spec_path_ino(parent, level, n),
                    ) {
                    let nm = choose|n: Seq<char>|
                        #[trigger] needs_creation(pre, parent, f, n) && pre.dom().contains(
                            spec_path_ino(parent, level, n),
                        );
                    assert(f.contains(nm));
                    let jj = choose|jj: int| 0 <= jj < f.len() && f[jj] == nm;
                    assert(covered_name(pre, parent, f[jj], adds@));
                    assert(exists|mm: int| 0 <= mm < adds@.len() && adds@[mm].name@ == f[jj]);
                    let madd = choose|mm: int| 0 <= mm < adds@.len() && adds@[mm].name@ == f[jj];
                    assert(adds@[madd].ino == spec_path_ino(parent, level, nm));
                    assert(seq_has_ino(pre_s, adds@[madd].ino));
                    assert(false);
                }
                if exists|n1: Seq<char>, n2: Seq<char>|
                    #![trigger needs_creation(pre, parent, f, n1), needs_creation(pre, parent, f, n2)]
                    needs_creation(pre, parent, f, n1) && needs_creation(pre, parent, f, n2) && n1
                        != n2 && spec_path_ino(parent, level, n1) == spec_path_ino(
                        parent,
                        level,
                        n2,
                    ) {
                    let (n1, n2) = choose|n1: Seq<char>, n2: Seq<char>|
                        #![trigger needs_creation(pre, parent, f, n1), needs_creation(pre, parent, f, n2)]
                        needs_creation(pre, parent, f, n1) && needs_creation(pre, parent, f, n2)
                            && n1 != n2 && spec_path_ino(parent, level, n1) == spec_path_ino(
                            parent,
                            level,
                            n2,
                        );
                    let jj1 = choose|jj: int| 0 <= jj < f.len() && f[jj] == n1;
                    assert(covered_name(pre, parent, f[jj1], adds@));
                    assert(exists|mm: int| 0 <= mm < adds@.len() && adds@[mm].name@ == f[jj1]);
                    let ma = choose|mm: int| 0 <= mm < adds@.len() && adds@[mm].name@ == f[jj1];
                    let jj2 = choose|jj: int| 0 <= jj < f.len() && f[jj] == n2;
                    assert(covered_name(pre, parent, f[jj2], adds@));
                    assert(exists|mm: int| 0 <= mm < adds@.len() && adds@[mm].name@ == f[jj2]);
                    let mb = choose|mm: int| 0 <= mm < adds@.len() && adds@[mm].name@ == f[jj2];
                    assert(ma != mb);
                    assert(adds@[ma].ino == spec_path_ino(parent, level, n1));
                    assert(adds@[mb].ino == spec_path_ino(parent, level, n2));
                    if ma < mb {
                        assert(adds@[ma].ino != adds@[mb].ino);
                    } else {
                        assert(adds@[mb].ino != adds@[ma].ino);
                    }
                    assert(false);
                }
            }
            assert(!reconcile_rejected(pre, parent, level, f));
        }
        Ok(())
    }

    /// Fetch and reconcile the children of `ino` from their source of truth:
    /// the remote namespace listing under the root, the fixed kind set under
    /// a namespace, the remote object listing under a kind. A fetch failure
    /// leaves the cached children untouched; a file node has no children.
    pub fn fetch_child_nodes_for_node(&mut self, ino: &u64) -> (r: Result<(), KubeFSInodeError>)
        requires
            old(self).wf(),
        ensures
            final(self).wf(),
            r is Err ==> final(self)@ == old(self)@,
            !old(self)@.dom().contains(*ino) ==> r == Err::<(), KubeFSInodeError>(
                KubeFSInodeError::MissingInode,
            ),
            r is Ok ==> old(self)@.dom().contains(*ino) && children_fetched(
                old(self)@,
                final(self)@,
                *ino,
            ),
            old(self)@.dom().contains(*ino) && old(self)@[*ino].level == KubeFSLevel::File ==> r
                is Ok && final(self)@ == old(self)@,
            old(self)@.dom().contains(*ino) && old(self)@[*ino].level == KubeFSLevel::Namespace
                ==> (r is Ok <==> !reconcile_rejected(
                old(self)@,
                *ino,
                KubeFSLevel::Object,
                kube_object_names(),
            )),
            old(self)@.dom().contains(*ino) && old(self)@[*ino].level == KubeFSLevel::Object
                && parent_missing(old(self)@, *ino) ==> r == Err::<(), KubeFSInodeError>(
                KubeFSInodeError::MissingInode,
            ),
    {
        let inode = match self.get_inode(ino) {
            None => {
                return Err(KubeFSInodeError::MissingInode);
            },
            Some(n) => n.clone(),
        };
        proof {
            self.lemma_wf_table();
            assert(inode.ino == *ino);
        }
        match inode.level {
            KubeFSLevel::Root => {
                let namespaces = match self.client.get_namespaces() {
                    Ok(v) => v,
                    Err(e) => {
                        return Err(e);
                    },
                };
                let r = self.reconcile_children(*ino, KubeFSLevel::Namespace, &namespaces);
                proof {
                    if r is Ok {
                        assert(reconciled(
                            old(self)@,
                            final(self)@,
                            *ino,
                            KubeFSLevel::Namespace,
                            namespaces.deep_view(),
                        ));
                    }
                }
                r
            },
            KubeFSLevel::Namespace => {
                let kinds = kube_objects();
                self.reconcile_children(*ino, KubeFSLevel::Object, &kinds)
            },
            KubeFSLevel::Object => {
                let parent_ino = match inode.parent {
                    Some(p) => p,
                    None => {
                        return Err(KubeFSInodeError::MissingInode);
                    },
                };
                let namespace_inode = match self.get_inode(&parent_ino) {
                    None => {
                        return Err(KubeFSInodeError::MissingInode);
                    },
                    Some(n) => n.clone(),
                };
                let objects = match self.client.get_objects(
                    namespace_inode.name.as_str(),
                    inode.name.as_str(),
                ) {
                    Ok(v) => v,
                    Err(e) => {
                        return Err(e);
                    },
                };
                let r = self.reconcile_children(*ino, KubeFSLevel::File, &objects);
                proof {
                    if r is Ok {
                        assert(reconciled(
                            old(self)@,
                            final(self)@,
                            *ino,
                            KubeFSLevel::File,
                            objects.deep_view(),
                        ));
                    }
                }
                r
            },
            KubeFSLevel::File => Ok(()),
        }
    }

    /// Ensure the children of `ino` are populated, without double-fetching:
    /// when the node was populated within the freshness window, return
    /// without remote contact; otherwise fetch, reconcile, and stamp the node
    /// with the caller's clock value `now_ms`. A failure leaves the cached
    /// children untouched.
    pub fn ensure_populated(&mut self, ino: &u64, now_ms: u64) -> (r: Result<
        (),
        KubeFSInodeError,
    >)
        requires
            old(self).wf(),
        ensures
            final(self).wf(),
            r is Err ==> final(self)@ == old(self)@,
            !old(self)@.dom().contains(*ino) ==> r == Err::<(), KubeFSInodeError>(
                KubeFSInodeError::MissingInode,
            ),
            r is Ok ==> ensure_populated_post(old(self)@, final(self)@, *ino, now_ms),
            old(self)@.dom().contains(*ino) && (old(self)@[*ino].level == KubeFSLevel::File
                || fresh_enough(old(self)@[*ino].last_populated, now_ms)) ==> r is Ok
                && final(self)@ == old(self)@,
            old(self)@.dom().contains(*ino) && old(self)@[*ino].level == KubeFSLevel::Namespace
                && !reconcile_rejected(
                old(self)@,
                *ino,
                KubeFSLevel::Object,
                kube_object_names(),
            ) ==> r is Ok,
    {
        let node = match self.get_inode(ino) {
            None => {
                return Err(KubeFSInodeError::MissingInode);
            },
            Some(n) => n.clone(),
        };
        proof {
            self.lemma_wf_table();
            assert(node.ino == *ino);
        }
        match node.level {
            KubeFSLevel::File => {
                return Ok(());
            },
            _ => {},
        }
        let still_fresh = match node.last_populated {
            Some(t) => t <= now_ms && now_ms - t < POPULATE_TTL_MS,
            None => false,
        };
        if still_fresh {
            return Ok(());
        }
        match self.fetch_child_nodes_for_node(ino) {
            Err(e) => {
                return Err(e);
            },
            Ok(()) => {},
        }
        let ghost mid = self@;
        let stamped = match self.get_inode(ino) {
            Some(n) => {
                let mut c = n.clone();
                c.last_populated = Some(now_ms);
                Some(c)
            },
            None => None,
        };
        match stamped {
            Some(c) => {
                proof {
                    self.lemma_wf_table();
                    assert forall|k: u64|
                        #[trigger] self@.dom().contains(k) && k != c.ino implies !(self@[k].parent
                        == c.parent && self@[k].name == c.name@) by {
                        assert(self@[*ino].parent == c.parent && self@[*ino].name == c.name@);
                    }
                }
                self.insert_inode(c);
                proof {
                    assert(final(self)@ =~= stamp_node(mid, *ino, now_ms));
                }
            },
            None => {
                proof {
                    assert(final(self)@ =~= stamp_node(mid, *ino, now_ms));
                }
            },
        }
        proof {
            assert(children_fetched(old(self)@, mid, *ino));
            assert(populated_at(old(self)@, final(self)@, *ino, now_ms));
        }
        Ok(())
    }

    /// Fetch the serialized document of the object node `ino` from the
    /// remote provider. Directory-level nodes read as empty. The table is
    /// never changed.
    pub fn get_file_contents(&mut self, ino: &u64) -> (r: Result<String, KubeFSInodeError>)
        requires
            old(self).wf(),
        ensures
            final(self).wf(),
            final(self)@ == old(self)@,
            !old(self)@.dom().contains(*ino) ==> r == Err::<String, KubeFSInodeError>(
                KubeFSInodeError::MissingInode,
            ),
            old(self)@.dom().contains(*ino) && old(self)@[*ino].level != KubeFSLevel::File ==> (
            match r {
                Ok(s) => s@ == Seq::<char>::empty(),
                Err(_) => false,
            }),
            old(self)@.dom().contains(*ino) && old(self)@[*ino].level == KubeFSLevel::File
                && chain_broken(old(self)@, *ino) ==> r == Err::<String, KubeFSInodeError>(
                KubeFSInodeError::MissingInode,
            ),
    {
        let inode = match self.get_inode(ino) {
            None => {
                return Err(KubeFSInodeError::MissingInode);
            },
            Some(n) => n.clone(),
        };
        proof {
            self.lemma_wf_table();
        }
        match inode.level {
            KubeFSLevel::File => {
                let parent_ino = match inode.parent {
                    Some(p) => p,
                    None => {
                        return Err(KubeFSInodeError::MissingInode);
                    },
                };
                let object = match self.get_inode(&parent_ino) {
                    None => {
                        return Err(KubeFSInodeError::MissingInode);
                    },
                    Some(n) => n.clone(),
                };
                let ns_ino = match object.parent {
                    Some(p) => p,
                    None => {
                        return Err(KubeFSInodeError::MissingInode);
                    },
                };
                let namespace = match self.get_inode(&ns_ino) {
                    None => {
                        return Err(KubeFSInodeError::MissingInode);
                    },
                    Some(n) => n.clone(),
                };
                self.client.get_object_data_as_yaml(
                    inode.name.as_str(),
                    namespace.name.as_str(),
                    object.name.as_str(),
                )
            },
            _ => Ok(String::new()),
        }
    }

    /// Create a remote object named `name` under the directory `parent_ino`.
    /// Only namespace creation directly under the root is supported; the new
    /// node is recorded directly with its path-hashed identifier, without a
    /// forced re-listing.
    pub fn create_object(&mut self, name: &str, parent_ino: &u64, _data: &[u8]) -> (r: Result<
        (),
        KubeFSInodeError,
    >)
        requires
            old(self).wf(),
        ensures
            final(self).wf(),
            r is Err ==> final(self)@ == old(self)@,
            !old(self)@.dom().contains(*parent_ino) ==> r == Err::<(), KubeFSInodeError>(
                KubeFSInodeError::MissingInode,
            ),
            old(self)@.dom().contains(*parent_ino) && old(self)@[*parent_ino].level
                != KubeFSLevel::Root ==> r == Err::<(), KubeFSInodeError>(KubeFSInodeError::Invalid),
            r is Ok ==> old(self)@.dom().contains(*parent_ino)
                && old(self)@[*parent_ino].level == KubeFSLevel::Root && ({
                let new_ino = spec_path_ino(*parent_ino, KubeFSLevel::Namespace, name@);
                if exists|k: u64|
                    #[trigger] old(self)@.dom().contains(k) && old(self)@[k].parent == Some(
                        *parent_ino,
                    ) && old(self)@[k].name == name@ {
                    final(self)@ == old(self)@
                } else {
                    final(self)@ == old(self)@.insert(
                        new_ino,
                        InodeView {
                            ino: new_ino,
                            parent: Some(*parent_ino),
                            name: name@,
                            level: KubeFSLevel::Namespace,
                            last_populated: None,
                        },
                    )
                }
            }),
            r is Ok ==> exists|k: u64|
                #[trigger] final(self)@.dom().contains(k) && final(self)@[k].parent == Some(
                    *parent_ino,
                ) && final(self)@[k].name == name@,
    {
        let inode = match self.get_inode(parent_ino) {
            None => {
                return Err(KubeFSInodeError::MissingInode);
            },
            Some(n) => n.clone(),
        };
        match inode.level {
            KubeFSLevel::Root => {
                match self.client.create_namespace(name) {
                    Ok(()) => {},
                    Err(e) => {
                        return Err(e);
                    },
                }
                match self.lookup_inode_by_parent_and_name(parent_ino, name) {
                    Some(child) => {
                        proof {
                            assert(final(self)@.dom().contains(child.ino) && final(self)@[child.ino].parent == Some(*parent_ino) && final(self)@[child.ino].name
                                == name@);
                        }
                        Ok(())
                    },
                    None => {
                        let new_ino = path_ino(*parent_ino, KubeFSLevel::Namespace, name);
                        match self.get_inode(&new_ino) {
                            Some(_) => {
                                // the computed identifier aliases an unrelated
                                // node: refuse to record an alias; a later
                                // listing reconciles the namespace naturally
                                Err(KubeFSInodeError::Invalid)
                            },
                            None => {
                                let node = KubeFSInode {
                                    ino: new_ino,
                                    parent: Some(*parent_ino),
                                    name: name.to_owned(),
                                    level: KubeFSLevel::Namespace,
                                    last_populated: None,
                                };
                                self.insert_inode(node);
                                proof {
                                    assert(final(self)@.dom().contains(new_ino) && final(self)@[new_ino].parent == Some(*parent_ino) && final(self)@[new_ino].name == name@);
                                }
                                Ok(())
                            },
                        }
                    },
                }
            },
            _ => Err(KubeFSInodeError::Invalid),
        }
    }

    /// Replace the document of the object node `ino` with `data` at the
    /// remote provider. The table is never changed.
    pub fn update_object(&mut self, ino: &u64, data: &str) -> (r: Result<(), KubeFSInodeError>)
        requires
            old(self).wf(),
        ensures
            final(self).wf(),
            final(self)@ == old(self)@,
            !old(self)@.dom().contains(*ino) ==> r == Err::<(), KubeFSInodeError>(
                KubeFSInodeError::MissingInode,
            ),
            old(self)@.dom().contains(*ino) && old(self)@[*ino].level != KubeFSLevel::File ==> r
                == Err::<(), KubeFSInodeError>(KubeFSInodeError::Invalid),
            old(self)@.dom().contains(*ino) && old(self)@[*ino].level == KubeFSLevel::File
                && chain_broken(old(self)@, *ino) ==> r == Err::<(), KubeFSInodeError>(
                KubeFSInodeError::MissingInode,
            ),
    {
        let inode = match self.get_inode(ino) {
            None => {
                return Err(KubeFSInodeError::MissingInode);
            },
            Some(n) => n.clone(),
        };
        proof {
            self.lemma_wf_table();
        }
        match inode.level {
            KubeFSLevel::File => {
                let parent_ino = match inode.parent {
                    Some(p) => p,
                    None => {
                        return Err(KubeFSInodeError::MissingInode);
                    },
                };
                let object = match self.get_inode(&parent_ino) {
                    None => {
                        return Err(KubeFSInodeError::MissingInode);
                    },
                    Some(n) => n.clone(),
                };
                let ns_ino = match object.parent {
                    Some(p) => p,
                    None => {
                        return Err(KubeFSInodeError::MissingInode);
                    },
                };
                let namespace = match self.get_inode(&ns_ino) {
                    None => {
                        return Err(KubeFSInodeError::MissingInode);
                    },
                    Some(n) => n.clone(),
                };
                self.client.update_object(
                    inode.name.as_str(),
                    namespace.name.as_str(),
                    object.name.as_str(),
                    data,
                )
            },
            _ => Err(KubeFSInodeError::Invalid),
        }
    }

    /// Delete the remote object named `name` under the directory
    /// `parent_ino`. Only namespace deletion directly under the root is
    /// supported; on success the cached node and its whole subtree are
    /// removed.
    pub fn delete_object(&mut self, name: &str, parent_ino: &u64) -> (r: Result<
        (),
        KubeFSInodeError,
    >)
        requires
            old(self).wf(),
        ensures
            final(self).wf(),
            r is Err ==> final(self)@ == old(self)@,
            !old(self)@.dom().contains(*parent_ino) ==> r == Err::<(), KubeFSInodeError>(
                KubeFSInodeError::MissingInode,
            ),
            old(self)@.dom().contains(*parent_ino) && old(self)@[*parent_ino].level
                != KubeFSLevel::Root ==> r == Err::<(), KubeFSInodeError>(KubeFSInodeError::Invalid),
            r is Ok ==> old(self)@.dom().contains(*parent_ino)
                && old(self)@[*parent_ino].level == KubeFSLevel::Root && (if exists|k: u64|
                #[trigger] old(self)@.dom().contains(k) && old(self)@[k].parent == Some(
                    *parent_ino,
                ) && old(self)@[k].name == name@ {
                exists|c: u64|
                    #[trigger] old(self)@.dom().contains(c) && old(self)@[c].parent == Some(
                        *parent_ino,
                    ) && old(self)@[c].name == name@ && subtree_removed(
                        old(self)@,
                        final(self)@,
                        c,
                    )
            } else {
                final(self)@ == old(self)@
            }),
    {
        let inode = match self.get_inode(parent_ino) {
            None => {
                return Err(KubeFSInodeError::MissingInode);
            },
            Some(n) => n.clone(),
        };
        match inode.level {
            KubeFSLevel::Root => {
                match self.client.remove_namespace(name) {
                    Ok(()) => {},
                    Err(e) => {
                        return Err(e);
                    },
                }
                match self.lookup_inode_by_parent_and_name(parent_ino, name) {
                    Some(child) => {
                        self.remove_subtree(&child.ino);
                        Ok(())
                    },
                    None => Ok(()),
                }
            },
            _ => Err(KubeFSInodeError::Invalid),
        }
    }
}

/// Law — id stability: a child whose `(parent, name)` is unchanged across two
/// successive reconciliation passes of the same parent carries the same
/// identifier after each pass.
pub proof fn lemma_id_stability(
    m0: Map<u64, InodeView>,
    m1: Map<u64, InodeView>,
    m2: Map<u64, InodeView>,
    parent: u64,
    level1: KubeFSLevel,
    level2: KubeFSLevel,
    fresh1: Seq<Seq<char>>,
    fresh2: Seq<Seq<char>>,
    n: Seq<char>,
    k1: u64,
    k2: u64,
)
    requires
        table_wf(m2),
        reconciled(m0, m1, parent, level1, fresh1),
        reconciled(m1, m2, parent, level2, fresh2),
        fresh2.contains(n),
        m1.dom().contains(k1) && m1[k1].parent == Some(parent) && m1[k1].name == n,
        m2.dom().contains(k2) && m2[k2].parent == Some(parent) && m2[k2].name == n,
    ensures
        k1 == k2,
        m2.dom().contains(k1) && m2[k1] == m1[k1],
{
    assert(m2.dom().contains(k1) && m2[k1] == m1[k1]);
    if k1 != k2 {
        assert(!(m2[k1].parent == m2[k2].parent && m2[k1].name == m2[k2].name));
        assert(false);
    }
}

/// Law — reconciliation completeness: after a reconciliation pass, the
/// children of the parent, as a set of names, equal the fresh listing, as a
/// set of names, exactly.
pub proof fn lemma_reconciliation_completeness(
    pre: Map<u64, InodeView>,
    post: Map<u64, InodeView>,
    parent: u64,
    level: KubeFSLevel,
    fresh: Seq<Seq<char>>,
    n: Seq<char>,
)
    requires
        reconciled(pre, post, parent, level, fresh),
    ensures
        fresh.contains(n) <==> exists|k: u64|
            #[trigger] post.dom().contains(k) && post[k].parent == Some(parent) && post[k].name
                == n,
{
    if exists|k: u64|
        #[trigger] post.dom().contains(k) && post[k].parent == Some(parent) && post[k].name == n {
        let k = choose|k: u64|
            #[trigger] post.dom().contains(k) && post[k].parent == Some(parent) && post[k].name
                == n;
        assert(fresh.contains(post[k].name));
    }
}

/// Law — subtree deletion: removing a node removes every node beneath it; no
/// surviving record changes, no surviving node hangs beneath a removed one,
/// and nothing outside the removed subtree is deleted.
pub proof fn lemma_subtree_deletion(
    pre: Map<u64, InodeView>,
    post: Map<u64, InodeView>,
    root: u64,
    k: u64,
)
    requires
        subtree_removed(pre, post, root),
        post.dom().contains(k),
    ensures
        !post.dom().contains(root),
        pre.dom().contains(k) && post[k] == pre[k],
        match post[k].parent {
            Some(p) => !removed_in(pre, post, root, p),
            None => true,
        },
{
    assert(pre.dom().contains(k) && post[k] == pre[k]);
    match post[k].parent {
        Some(p) => {
            if removed_in(pre, post, root, p) {
                assert(!post.dom().contains(k));
            }
        },
        None => {},
    }
}

/// Whether `name` occurs in the listing `fresh`.
fn names_contain(fresh: &Vec<String>, name: &String) -> (r: bool)
    ensures
        r == fresh.deep_view().contains(name@),
{
    let ghost f = fresh.deep_view();
    let mut j: usize = 0;
    while j < fresh.len()
        invariant
            f == fresh.deep_view(),
            f.len() == fresh@.len(),
            0 <= j <= fresh@.len(),
            forall|jj: int| 0 <= jj < j ==> f[jj] != name@,
        decreases fresh@.len() - j,
    {
        if fresh[j].eq(name) {
            proof {
                assert(f[j as int] == name@);
            }
            return true;
        }
        proof {
            assert(f[j as int] == fresh@[j as int]@);
        }
        j = j + 1;
    }
    proof {
        if f.contains(name@) {
            let jj = choose|jj: int| 0 <= jj < f.len() && f[jj] == name@;
            assert(false);
        }
    }
    false
}

/// Whether a node named `name` is already among the planned additions.
fn adds_contain_name(adds: &Vec<KubeFSInode>, name: &String) -> (r: bool)
    ensures
        r == exists|m: int| 0 <= m < adds@.len() && (#[trigger] adds@[m]).name@ == name@,
{
    let mut m: usize = 0;
    while m < adds.len()
        invariant
            0 <= m <= adds@.len(),
            forall|mm: int| 0 <= mm < m ==> (#[trigger] adds@[mm]).name@ != name@,
        decreases adds@.len() - m,
    {
        if adds[m].name.eq(name) {
            proof {
                assert(adds@[m as int].name@ == name@);
            }
            return true;
        }
        m = m + 1;
    }
    proof {
        if exists|mm: int| 0 <= mm < adds@.len() && (#[trigger] adds@[mm]).name@ == name@ {
            let mm = choose|mm: int| 0 <= mm < adds@.len() && (#[trigger] adds@[mm]).name@ == name@;
            assert(false);
        }
    }
    false
}

} // verus!
