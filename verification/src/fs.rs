//! The filesystem operation adapter: maps lookup, attributes, directory
//! listing, object read, buffered object write (edit sessions) and namespace
//! create/remove onto the inode table and the remote provider, and keeps the
//! ephemeral sidecar registry of editor swap files outside the main tree.

use vstd::prelude::*;

verus! {

use crate::content::apply_write;
use crate::content::bytes_from;
use crate::content::document_bytes;
use crate::content::read_from;
use crate::content::string_from_utf8;
use crate::content::write_into;
use crate::inode::chain_broken;
use crate::inode::ensure_populated_post;
use crate::inode::fresh_enough;
use crate::inode::InodeView;
use crate::inode::K8sInteractions;
use crate::inode::KubeFSInode;
use crate::inode::KubeFSInodeError;
use crate::inode::KubeFSINodes;
use crate::inode::KubeFSLevel;
use crate::inode::root_inode_view;
use crate::inode::ROOT_INO;
use vstd::utf8::encode_utf8;
use vstd::utf8::valid_utf8;

/// The first identifier handed out to sidecar entries; the registry is a
/// separate name-keyed map, never part of the inode table.
pub const SWAP_FILE_START_INO: u64 = 1000000;

/// The estimated size reported for every node; object content is not fetched
/// just to stat it, and reading past the reported size is legal.
pub const REPORTED_SIZE: u64 = 10000;

/// One entry of the ephemeral sidecar registry: an editor lock/swap artifact,
/// fabricated with fixed attributes, never persisted and never sent to the
/// remote store.
struct SwapFile {
    name: String,
    ino: u64,
}

/// One open edit session: the buffered document of an object node between
/// open and commit. Writes are spliced into the buffer; the remote object is
/// replaced only when the session is flushed.
struct EditSession {
    ino: u64,
    buffer: Vec<u8>,
}

/// Plain file attributes as the adapter reports them: a fixed directory or
/// regular-file mode by level and an estimated size.
#[derive(Debug, Clone, Copy, PartialEq, Eq, Structural)]
pub struct FsAttr {
    pub ino: u64,
    pub size: u64,
    pub perm: u16,
    pub nlink: u32,
    pub is_dir: bool,
}

/// The attributes reported for a node record.
pub open spec fn spec_file_attr(v: InodeView) -> FsAttr {
    FsAttr {
        ino: v.ino,
        size: REPORTED_SIZE,
        perm: if v.level == KubeFSLevel::File {
            0o644
        } else {
            0o755
        },
        nlink: 2,
        is_dir: v.level != KubeFSLevel::File,
    }
}

/// Build the attributes of a node: directories get a fixed directory mode,
/// object nodes a fixed regular-file mode.
pub fn create_file_attr(inode: &KubeFSInode) -> (r: FsAttr)
    ensures
        r == spec_file_attr(inode@),
{
    FsAttr {
        ino: inode.ino,
        size: REPORTED_SIZE,
        perm: match inode.level {
            KubeFSLevel::File => 0o644,
            _ => 0o755,
        },
        nlink: 2,
        is_dir: match inode.level {
            KubeFSLevel::File => false,
            _ => true,
        },
    }
}

/// The node record fabricated for a sidecar entry.
pub open spec fn swap_node_view(name: Seq<char>, ino: u64) -> InodeView {
    InodeView { ino, parent: None, name, level: KubeFSLevel::File, last_populated: None }
}

/// The three bytes of the editor-artifact marker.
pub open spec fn swp_marker() -> Seq<u8> {
    seq![115u8, 119u8, 112u8]
}

/// A name marks an editor artifact when its UTF-8 bytes contain `swp`.
pub open spec fn is_swap_name(name: Seq<char>) -> bool {
    exists|i: int|
        #![trigger encode_utf8(name).subrange(i, i + 3)]
        0 <= i && i + 3 <= encode_utf8(name).len() && encode_utf8(name).subrange(i, i + 3)
            == swp_marker()
}

/// Whether `name` marks an editor artifact.
pub fn name_is_swap(name: &str) -> (r: bool)
    ensures
        r == is_swap_name(name@),
{
    let bytes = document_bytes(name);
    let ghost b = bytes@;
    if bytes.len() < 3 {
        proof {
            if is_swap_name(name@) {
                let i = choose|i: int|
                    #![trigger b.subrange(i, i + 3)]
                    0 <= i && i + 3 <= b.len() && b.subrange(i, i + 3) == swp_marker();
                assert(false);
            }
        }
        return false;
    }
    let mut i: usize = 0;
    while i <= bytes.len() - 3
        invariant
            b == bytes@,
            b == encode_utf8(name@),
            b.len() >= 3,
            0 <= i <= b.len() - 3 + 1,
            forall|j: int| 0 <= j < i ==> #[trigger] b.subrange(j, j + 3) != swp_marker(),
        decreases b.len() - i,
    {
        if bytes[i] == 115 && bytes[i + 1] == 119 && bytes[i + 2] == 112 {
            proof {
                assert(b.subrange(i as int, i + 3) =~= swp_marker());
                assert(encode_utf8(name@).subrange(i as int, i + 3) == swp_marker());
                assert(is_swap_name(name@));
            }
            return true;
        }
        proof {
            assert(b.subrange(i as int, i + 3) != swp_marker()) by {
                if b.subrange(i as int, i + 3) == swp_marker() {
                    assert(b.subrange(i as int, i + 3)[0] == 115);
                    assert(b.subrange(i as int, i + 3)[1] == 119);
                    assert(b.subrange(i as int, i + 3)[2] == 112);
                }
            }
        }
        i = i + 1;
    }
    proof {
        if is_swap_name(name@) {
            let j = choose|j: int|
                #![trigger b.subrange(j, j + 3)]
                0 <= j && j + 3 <= b.len() && b.subrange(j, j + 3) == swp_marker();
            assert(false);
        }
    }
    false
}

spec fn swap_has_name(s: Seq<SwapFile>, n: Seq<char>) -> bool {
    exists|i: int| 0 <= i < s.len() && s[i].name@ == n
}

spec fn swap_index(s: Seq<SwapFile>, n: Seq<char>) -> int {
    choose|i: int| 0 <= i < s.len() && s[i].name@ == n
}

spec fn swap_map(s: Seq<SwapFile>) -> Map<Seq<char>, u64> {
    Map::new(|n: Seq<char>| swap_has_name(s, n), |n: Seq<char>| s[swap_index(s, n)].ino)
}

spec fn unique_swap_names(s: Seq<SwapFile>) -> bool {
    forall|i: int, j: int| 0 <= i < j < s.len() ==> s[i].name@ != s[j].name@
}

proof fn lemma_swap_map_index(s: Seq<SwapFile>, i: int)
    requires
        unique_swap_names(s),
        0 <= i < s.len(),
    ensures
        swap_map(s).dom().contains(s[i].name@),
        swap_map(s)[s[i].name@] == s[i].ino,
{
    assert(swap_has_name(s, s[i].name@));
    let j = swap_index(s, s[i].name@);
    assert(0 <= j < s.len() && s[j].name@ == s[i].name@);
    if i != j {
        assert(false);
    }
}

proof fn lemma_swap_map_contains(s: Seq<SwapFile>, n: Seq<char>)
    requires
        unique_swap_names(s),
        swap_map(s).dom().contains(n),
    ensures
        0 <= swap_index(s, n) < s.len(),
        s[swap_index(s, n)].name@ == n,
        swap_map(s)[n] == s[swap_index(s, n)].ino,
{
}

spec fn session_has_ino(s: Seq<EditSession>, ino: u64) -> bool {
    exists|i: int| 0 <= i < s.len() && s[i].ino == ino
}

spec fn session_index(s: Seq<EditSession>, ino: u64) -> int {
    choose|i: int| 0 <= i < s.len() && s[i].ino == ino
}

spec fn session_map(s: Seq<EditSession>) -> Map<u64, Seq<u8>> {
    Map::new(|ino: u64| session_has_ino(s, ino), |ino: u64| s[session_index(s, ino)].buffer@)
}

spec fn unique_session_inos(s: Seq<EditSession>) -> bool {
    forall|i: int, j: int| 0 <= i < j < s.len() ==> s[i].ino != s[j].ino
}

proof fn lemma_session_map_index(s: Seq<EditSession>, i: int)
    requires
        unique_session_inos(s),
        0 <= i < s.len(),
    ensures
        session_map(s).dom().contains(s[i].ino),
        session_map(s)[s[i].ino] == s[i].buffer@,
{
    assert(session_has_ino(s, s[i].ino));
    let j = session_index(s, s[i].ino);
    assert(0 <= j < s.len() && s[j].ino == s[i].ino);
    if i != j {
        assert(false);
    }
}

proof fn lemma_session_map_contains(s: Seq<EditSession>, ino: u64)
    requires
        unique_session_inos(s),
        session_map(s).dom().contains(ino),
    ensures
        0 <= session_index(s, ino) < s.len(),
        s[session_index(s, ino)].ino == ino,
        session_map(s)[ino] == s[session_index(s, ino)].buffer@,
{
}

proof fn lemma_session_push(pre: Seq<EditSession>, x: EditSession)
    requires
        unique_session_inos(pre),
        !session_has_ino(pre, x.ino),
    ensures
        unique_session_inos(pre.push(x)),
        session_map(pre.push(x)) == session_map(pre).insert(x.ino, x.buffer@),
{
    let s = pre.push(x);
    assert forall|i: int, j: int| 0 <= i < j < s.len() implies s[i].ino != s[j].ino by {
        if j == s.len() - 1 {
            assert(s[i] == pre[i]);
            if pre[i].ino == x.ino {
                assert(session_has_ino(pre, x.ino));
            }
        }
    }
    assert forall|n: u64| #[trigger] session_map(s).dom().contains(n) implies session_map(
        pre,
    ).insert(x.ino, x.buffer@).dom().contains(n) by {
        let i = session_index(s, n);
        if i < pre.len() {
            lemma_session_map_index(pre, i);
        }
    }
    assert forall|n: u64| session_map(pre).insert(x.ino, x.buffer@).dom().contains(
        n,
    ) implies #[trigger] session_map(s).dom().contains(n) by {
        if n == x.ino {
            assert(s[s.len() - 1].ino == n);
        } else {
            lemma_session_map_contains(pre, n);
            let i = session_index(pre, n);
            assert(s[i].ino == n);
        }
    }
    assert forall|n: u64| #[trigger] session_map(s).dom().contains(n) implies session_map(s)[n]
        == session_map(pre).insert(x.ino, x.buffer@)[n] by {
        if n == x.ino {
            lemma_session_map_index(s, s.len() - 1);
        } else {
            lemma_session_map_contains(s, n);
            let i = session_index(s, n);
            assert(i < pre.len());
            lemma_session_map_index(s, i);
            lemma_session_map_index(pre, i);
        }
    }
    assert(session_map(s) =~= session_map(pre).insert(x.ino, x.buffer@));
}

proof fn lemma_session_update(pre: Seq<EditSession>, at: int, x: EditSession)
    requires
        unique_session_inos(pre),
        0 <= at < pre.len(),
        pre[at].ino == x.ino,
    ensures
        unique_session_inos(pre.update(at, x)),
        session_map(pre.update(at, x)) == session_map(pre).insert(x.ino, x.buffer@),
{
    let s = pre.update(at, x);
    assert forall|i: int, j: int| 0 <= i < j < s.len() implies s[i].ino != s[j].ino by {
        assert(pre[i].ino != pre[j].ino);
    }
    assert forall|n: u64| #[trigger] session_map(s).dom().contains(n) implies session_map(
        pre,
    ).insert(x.ino, x.buffer@).dom().contains(n) by {
        let i = session_index(s, n);
        if i != at {
            lemma_session_map_index(pre, i);
        }
    }
    assert forall|n: u64| session_map(pre).insert(x.ino, x.buffer@).dom().contains(
        n,
    ) implies #[trigger] session_map(s).dom().contains(n) by {
        if n == x.ino {
            assert(s[at].ino == n);
        } else {
            lemma_session_map_contains(pre, n);
            let i = session_index(pre, n);
            assert(i != at);
            assert(s[i].ino == n);
        }
    }
    assert forall|n: u64| #[trigger] session_map(s).dom().contains(n) implies session_map(s)[n]
        == session_map(pre).insert(x.ino, x.buffer@)[n] by {
        if n == x.ino {
            lemma_session_map_index(s, at);
        } else {
            lemma_session_map_contains(s, n);
            let i = session_index(s, n);
            assert(i != at);
            lemma_session_map_index(s, i);
            lemma_session_map_index(pre, i);
        }
    }
    assert(session_map(s) =~= session_map(pre).insert(x.ino, x.buffer@));
}

proof fn lemma_session_remove(pre: Seq<EditSession>, at: int)
    requires
        unique_session_inos(pre),
        0 <= at < pre.len(),
    ensures
        unique_session_inos(pre.remove(at)),
        session_map(pre.remove(at)) == session_map(pre).remove(pre[at].ino),
{
    let s = pre.remove(at);
    assert forall|i: int, j: int| 0 <= i < j < s.len() implies s[i].ino != s[j].ino by {
        let oi = if i < at {
            i
        } else {
            i + 1
        };
        let oj = if j < at {
            j
        } else {
            j + 1
        };
        assert(s[i] == pre[oi] && s[j] == pre[oj]);
    }
    assert forall|n: u64| #[trigger] session_map(s).dom().contains(n) implies session_map(
        pre,
    ).remove(pre[at].ino).dom().contains(n) by {
        let i = session_index(s, n);
        let oi = if i < at {
            i
        } else {
            i + 1
        };
        assert(s[i] == pre[oi]);
        lemma_session_map_index(pre, oi);
        assert(oi != at);
        assert(pre[oi].ino != pre[at].ino);
    }
    assert forall|n: u64| session_map(pre).remove(pre[at].ino).dom().contains(
        n,
    ) implies #[trigger] session_map(s).dom().contains(n) by {
        lemma_session_map_contains(pre, n);
        let oi = session_index(pre, n);
        assert(oi != at);
        let i = if oi < at {
            oi
        } else {
            oi - 1
        };
        assert(s[i] == pre[oi]);
    }
    assert forall|n: u64| #[trigger] session_map(s).dom().contains(n) implies session_map(s)[n]
        == session_map(pre).remove(pre[at].ino)[n] by {
        lemma_session_map_contains(s, n);
        let i = session_index(s, n);
        let oi = if i < at {
            i
        } else {
            i + 1
        };
        assert(s[i] == pre[oi]);
        lemma_session_map_index(pre, oi);
    }
    assert(session_map(s) =~= session_map(pre).remove(pre[at].ino));
}

/// The filesystem adapter: the inode table with its remote provider, the
/// sidecar registry of editor swap files, and the open edit sessions.
pub struct KubeFS<C: K8sInteractions> {
    inodes: KubeFSINodes<C>,
    swap_files: Vec<SwapFile>,
    sessions: Vec<EditSession>,
}

impl<C: K8sInteractions> KubeFS<C> {
    /// The inode table as a map from identifiers to node records.
    pub closed spec fn table(&self) -> Map<u64, InodeView> {
        self.inodes@
    }

    /// The sidecar registry as a map from artifact names to identifiers.
    pub closed spec fn swaps(&self) -> Map<Seq<char>, u64> {
        swap_map(self.swap_files@)
    }

    /// How many sidecar entries are registered.
    pub closed spec fn swap_count(&self) -> nat {
        self.swap_files@.len()
    }

    /// The open edit sessions as a map from object identifiers to buffered
    /// document bytes.
    pub closed spec fn buffers(&self) -> Map<u64, Seq<u8>> {
        session_map(self.sessions@)
    }

    /// Internal invariant: the table is well-formed, and both side maps have
    /// unique keys.
    pub closed spec fn wf(&self) -> bool {
        &&& self.inodes.wf()
        &&& unique_swap_names(self.swap_files@)
        &&& unique_session_inos(self.sessions@)
    }

    /// A fresh filesystem over the injected remote provider: the root node
    /// alone, no sidecar entries, no open sessions.
    pub fn new(client: C) -> (r: Self)
        ensures
            r.wf(),
            r.table() == Map::<u64, InodeView>::empty().insert(ROOT_INO, root_inode_view()),
            r.swaps() == Map::<Seq<char>, u64>::empty(),
            r.buffers() == Map::<u64, Seq<u8>>::empty(),
    {
        let r = KubeFS {
            inodes: KubeFSINodes::new(client),
            swap_files: Vec::new(),
            sessions: Vec::new(),
        };
        proof {
            assert(r.swaps() =~= Map::<Seq<char>, u64>::empty());
            assert(r.buffers() =~= Map::<u64, Seq<u8>>::empty());
        }
        r
    }

    /// Register an empty sidecar entry under `name`, assigning it the next
    /// identifier of the sidecar range. An entry already registered under the
    /// same name is replaced.
    pub fn create_empty_swap_file(&mut self, name: &str)
        requires
            old(self).wf(),
            SWAP_FILE_START_INO + old(self).swap_count() <= u64::MAX,
        ensures
            final(self).wf(),
            final(self).table() == old(self).table(),
            final(self).buffers() == old(self).buffers(),
            final(self).swaps() == old(self).swaps().insert(
                name@,
                (SWAP_FILE_START_INO + old(self).swap_count()) as u64,
            ),
    {
        let ghost pre = self.swap_files@;
        let ino = SWAP_FILE_START_INO + (self.swap_files.len() as u64);
        let entry = SwapFile { name: name.to_owned(), ino };
        let found = self.find_swap_index(name);
        if let Some(at) = found {
            self.swap_files.remove(at);
            self.swap_files.insert(at, entry);
            proof {
                assert(self.swap_files@ =~= pre.update(at as int, entry));
                let s = self.swap_files@;
                assert(s[at as int].name@ == name@);
                assert forall|i: int, j: int| 0 <= i < j < s.len() implies s[i].name@
                    != s[j].name@ by {
                    assert(pre[i].name@ != pre[j].name@);
                }
                assert forall|n: Seq<char>| #[trigger] swap_map(s).dom().contains(n) implies
                    old(self).swaps().insert(name@, ino).dom().contains(n) by {
                    let i = swap_index(s, n);
                    if i != at {
                        assert(pre[i].name@ == n);
                        lemma_swap_map_index(pre, i);
                    }
                }
                assert forall|n: Seq<char>|
                    old(self).swaps().insert(name@, ino).dom().contains(n) implies #[trigger]
                    swap_map(s).dom().contains(n) by {
                    if n == name@ {
                        assert(s[at as int].name@ == n);
                    } else {
                        lemma_swap_map_contains(pre, n);
                        let i = swap_index(pre, n);
                        assert(i != at);
                        assert(s[i].name@ == n);
                    }
                }
                assert forall|n: Seq<char>| #[trigger] swap_map(s).dom().contains(n) implies
                    swap_map(s)[n] == old(self).swaps().insert(name@, ino)[n] by {
                    if n == name@ {
                        lemma_swap_map_index(s, at as int);
                    } else {
                        lemma_swap_map_contains(s, n);
                        let i = swap_index(s, n);
                        assert(i != at);
                        lemma_swap_map_index(s, i);
                        lemma_swap_map_index(pre, i);
                    }
                }
                assert(final(self).swaps() =~= old(self).swaps().insert(name@, ino));
            }
        } else {
            proof {
                if swap_has_name(pre, name@) {
                    let i = swap_index(pre, name@);
                    lemma_swap_map_index(pre, i);
                    assert(false);
                }
            }
            self.swap_files.push(entry);
            proof {
                let s = self.swap_files@;
                assert forall|i: int, j: int| 0 <= i < j < s.len() implies s[i].name@
                    != s[j].name@ by {
                    if j == s.len() - 1 {
                        assert(s[i] == pre[i]);
                        if pre[i].name@ == name@ {
                            assert(swap_has_name(pre, name@));
                        }
                    }
                }
                assert forall|n: Seq<char>| #[trigger] swap_map(s).dom().contains(n) implies
                    old(self).swaps().insert(name@, ino).dom().contains(n) by {
                    let i = swap_index(s, n);
                    if i < pre.len() {
                        lemma_swap_map_index(pre, i);
                    }
                }
                assert forall|n: Seq<char>|
                    old(self).swaps().insert(name@, ino).dom().contains(n) implies #[trigger]
                    swap_map(s).dom().contains(n) by {
                    if n == name@ {
                        assert(s[s.len() - 1].name@ == n);
                    } else {
                        lemma_swap_map_contains(pre, n);
                        let i = swap_index(pre, n);
                        assert(s[i].name@ == n);
                    }
                }
                assert forall|n: Seq<char>| #[trigger] swap_map(s).dom().contains(n) implies
                    swap_map(s)[n] == old(self).swaps().insert(name@, ino)[n] by {
                    if n == name@ {
                        lemma_swap_map_index(s, s.len() - 1);
                    } else {
                        lemma_swap_map_contains(s, n);
                        let i = swap_index(s, n);
                        assert(i < pre.len());
                        lemma_swap_map_index(s, i);
                        lemma_swap_map_index(pre, i);
                    }
                }
                assert(final(self).swaps() =~= old(self).swaps().insert(name@, ino));
            }
        }
    }

    fn find_swap_index(&self, name: &str) -> (r: Option<usize>)
        requires
            self.wf(),
        ensures
            match r {
                Some(i) => 0 <= i < self.swap_files@.len() && self.swap_files@[i as int].name@
                    == name@ && self.swaps().dom().contains(name@) && self.swaps()[name@]
                    == self.swap_files@[i as int].ino,
                None => !self.swaps().dom().contains(name@),
            },
    {
        let owned = name.to_owned();
        let mut i: usize = 0;
        while i < self.swap_files.len()
            invariant
                self.wf(),
                owned@ == name@,
                0 <= i <= self.swap_files@.len(),
                forall|j: int| 0 <= j < i ==> self.swap_files@[j].name@ != name@,
            decreases self.swap_files@.len() - i,
        {
            if self.swap_files[i].name.eq(&owned) {
                proof {
                    lemma_swap_map_index(self.swap_files@, i as int);
                }
                return Some(i);
            }
            i = i + 1;
        }
        proof {
            if swap_has_name(self.swap_files@, name@) {
                let j = swap_index(self.swap_files@, name@);
                assert(false);
            }
        }
        None
    }

    /// The fabricated attributes of the sidecar entry registered under
    /// `name`, if one is.
    pub fn create_swap_file_attr(&self, name: &str) -> (r: Option<FsAttr>)
        requires
            self.wf(),
        ensures
            match r {
                Some(a) => self.swaps().dom().contains(name@) && a == spec_file_attr(
                    swap_node_view(name@, self.swaps()[name@]),
                ),
                None => !self.swaps().dom().contains(name@),
            },
    {
        match self.find_swap_index(name) {
            Some(i) => {
                let inode = KubeFSInode {
                    ino: self.swap_files[i].ino,
                    parent: None,
                    name: self.swap_files[i].name.clone(),
                    level: KubeFSLevel::File,
                    last_populated: None,
                };
                Some(create_file_attr(&inode))
            },
            None => None,
        }
    }

    /// Drop the sidecar entry registered under `name`, if one is. Sidecar
    /// entries are discarded locally and never trigger a remote call.
    pub fn remove_swap_file(&mut self, name: &str)
        requires
            old(self).wf(),
        ensures
            final(self).wf(),
            final(self).table() == old(self).table(),
            final(self).buffers() == old(self).buffers(),
            final(self).swaps() == old(self).swaps().remove(name@),
    {
        let ghost pre = self.swap_files@;
        match self.find_swap_index(name) {
            Some(i) => {
                self.swap_files.remove(i);
                proof {
                    let s = self.swap_files@;
                    assert(s =~= pre.remove(i as int));
                    assert forall|i1: int, j1: int| 0 <= i1 < j1 < s.len() implies s[i1].name@
                        != s[j1].name@ by {
                        let oi = if i1 < i as int {
                            i1
                        } else {
                            i1 + 1
                        };
                        let oj = if j1 < i as int {
                            j1
                        } else {
                            j1 + 1
                        };
                        assert(s[i1] == pre[oi] && s[j1] == pre[oj]);
                    }
                    assert forall|n: Seq<char>| #[trigger] swap_map(s).dom().contains(n) implies
                        old(self).swaps().remove(name@).dom().contains(n) by {
                        let i2 = swap_index(s, n);
                        let oi = if i2 < i as int {
                            i2
                        } else {
                            i2 + 1
                        };
                        assert(s[i2] == pre[oi]);
                        lemma_swap_map_index(pre, oi);
                        assert(oi != i);
                        assert(pre[oi].name@ != name@);
                    }
                    assert forall|n: Seq<char>|
                        old(self).swaps().remove(name@).dom().contains(n) implies #[trigger]
                        swap_map(s).dom().contains(n) by {
                        lemma_swap_map_contains(pre, n);
                        let oi = swap_index(pre, n);
                        assert(oi != i);
                        let i2 = if oi < i as int {
                            oi
                        } else {
                            oi - 1
                        };
                        assert(s[i2] == pre[oi]);
                    }
                    assert forall|n: Seq<char>| #[trigger] swap_map(s).dom().contains(n) implies
                        swap_map(s)[n] == old(self).swaps().remove(name@)[n] by {
                        lemma_swap_map_contains(s, n);
                        let i2 = swap_index(s, n);
                        let oi = if i2 < i as int {
                            i2
                        } else {
                            i2 + 1
                        };
                        assert(s[i2] == pre[oi]);
                        lemma_swap_map_index(pre, oi);
                    }
                    assert(final(self).swaps() =~= old(self).swaps().remove(name@));
                }
            },
            None => {
                proof {
                    assert(final(self).swaps() =~= old(self).swaps().remove(name@));
                }
            },
        }
    }

    fn find_session_index(&self, ino: u64) -> (r: Option<usize>)
        requires
            self.wf(),
        ensures
            match r {
                Some(i) => 0 <= i < self.sessions@.len() && self.sessions@[i as int].ino == ino
                    && self.buffers().dom().contains(ino) && self.buffers()[ino]
                    == self.sessions@[i as int].buffer@,
                None => !self.buffers().dom().contains(ino),
            },
    {
        let mut i: usize = 0;
        while i < self.sessions.len()
            invariant
                self.wf(),
                0 <= i <= self.sessions@.len(),
                forall|j: int| 0 <= j < i ==> self.sessions@[j].ino != ino,
            decreases self.sessions@.len() - i,
        {
            if self.sessions[i].ino == ino {
                proof {
                    lemma_session_map_index(self.sessions@, i as int);
                }
                return Some(i);
            }
            i = i + 1;
        }
        proof {
            if session_has_ino(self.sessions@, ino) {
                let j = session_index(self.sessions@, ino);
                assert(false);
            }
        }
        None
    }

    fn set_session(&mut self, ino: u64, buffer: Vec<u8>)
        requires
            old(self).wf(),
        ensures
            final(self).wf(),
            final(self).table() == old(self).table(),
            final(self).swaps() == old(self).swaps(),
            final(self).buffers() == old(self).buffers().insert(ino, buffer@),
    {
        let ghost pre = self.sessions@;
        let ghost bufv = buffer@;
        let entry = EditSession { ino, buffer };
        match self.find_session_index(ino) {
            Some(at) => {
                self.sessions.remove(at);
                self.sessions.insert(at, entry);
                proof {
                    assert(self.sessions@ =~= pre.update(at as int, entry));
                    lemma_session_update(pre, at as int, entry);
                }
            },
            None => {
                self.sessions.push(entry);
                proof {
                    lemma_session_push(pre, entry);
                }
            },
        }
    }

    /// The attributes of node `ino`: directories get a fixed directory mode,
    /// object nodes a fixed regular-file mode, and the size is an estimate.
    pub fn attributes(&self, ino: &u64) -> (r: Option<FsAttr>)
        requires
            self.wf(),
        ensures
            match r {
                Some(a) => self.table().dom().contains(*ino) && a == spec_file_attr(
                    self.table()[*ino],
                ),
                None => !self.table().dom().contains(*ino),
            },
    {
        match self.inodes.get_inode(ino) {
            Some(n) => Some(create_file_attr(n)),
            None => None,
        }
    }

    /// Look `name` up under `parent`. A registered sidecar entry is visible
    /// by direct name lookup only; a miss in the table triggers one
    /// population pass of the parent and a retry; a name still missing is
    /// "not found".
    pub fn lookup(&mut self, parent: u64, name: &str, now_ms: u64) -> (r: Result<
        KubeFSInode,
        KubeFSInodeError,
    >)
        requires
            old(self).wf(),
        ensures
            final(self).wf(),
            final(self).swaps() == old(self).swaps(),
            final(self).buffers() == old(self).buffers(),
            final(self).table() == old(self).table() || ensure_populated_post(
                old(self).table(),
                final(self).table(),
                parent,
                now_ms,
            ),
            match r {
                Ok(n) => (is_swap_name(name@) && old(self).swaps().dom().contains(name@) && n@
                    == swap_node_view(name@, old(self).swaps()[name@]) && final(self).table()
                    == old(self).table()) || (final(self).table().dom().contains(n.ino) && final(self).table()[n.ino] == n@ && n.parent == Some(parent) && n.name@ == name@),
                Err(e) => e == KubeFSInodeError::MissingInode ==> forall|k: u64|
                    #[trigger] final(self).table().dom().contains(k) ==> !(final(self).table()[k].parent == Some(parent) && final(self).table()[k].name == name@),
            },
            is_swap_name(name@) && old(self).swaps().dom().contains(name@) ==> final(self).table()
                == old(self).table() && (match r {
                Ok(n) => n@ == swap_node_view(name@, old(self).swaps()[name@]),
                Err(_) => false,
            }),
            (exists|k: u64|
                #[trigger] old(self).table().dom().contains(k) && old(self).table()[k].parent
                    == Some(parent) && old(self).table()[k].name == name@) ==> r is Ok,
    {
        if name_is_swap(name) {
            match self.find_swap_index(name) {
                Some(i) => {
                    let node = KubeFSInode {
                        ino: self.swap_files[i].ino,
                        parent: None,
                        name: self.swap_files[i].name.clone(),
                        level: KubeFSLevel::File,
                        last_populated: None,
                    };
                    return Ok(node);
                },
                None => {},
            }
        }
        match self.inodes.lookup_inode_by_parent_and_name(&parent, name) {
            Some(n) => Ok(n),
            None => {
                match self.inodes.ensure_populated(&parent, now_ms) {
                    Ok(()) => {},
                    Err(e) => {
                        return Err(e);
                    },
                }
                match self.inodes.lookup_inode_by_parent_and_name(&parent, name) {
                    Some(n) => Ok(n),
                    None => Err(KubeFSInodeError::MissingInode),
                }
            },
        }
    }

    /// List the children of the directory `ino`, populating it first. The
    /// returned entries are exactly the live children at the moment of the
    /// call; when the remote listing fails while children are already cached,
    /// the cached children are returned rather than an empty list or an
    /// error.
    pub fn list_directory(&mut self, ino: u64, now_ms: u64) -> (r: Result<
        Vec<KubeFSInode>,
        KubeFSInodeError,
    >)
        requires
            old(self).wf(),
        ensures
            final(self).wf(),
            final(self).swaps() == old(self).swaps(),
            final(self).buffers() == old(self).buffers(),
            final(self).table() == old(self).table() || ensure_populated_post(
                old(self).table(),
                final(self).table(),
                ino,
                now_ms,
            ),
            !old(self).table().dom().contains(ino) ==> r == Err::<
                Vec<KubeFSInode>,
                KubeFSInodeError,
            >(KubeFSInodeError::MissingInode),
            match r {
                Ok(v) => {
                    &&& forall|m: int|
                        0 <= m < v@.len() ==> final(self).table().dom().contains(
                            (#[trigger] v@[m]).ino,
                        ) && v@[m]@ == final(self).table()[v@[m].ino] && v@[m].parent == Some(ino)
                    &&& forall|k: u64|
                        #[trigger] final(self).table().dom().contains(k) && final(self).table()[k].parent == Some(ino) ==> exists|m: int|
                            0 <= m < v@.len() && v@[m].ino == k
                    &&& crate::inode::unique_inos(v@)
                },
                Err(_) => final(self).table() == old(self).table() && (!old(
                    self,
                ).table().dom().contains(ino) || forall|k: u64|
                    #[trigger] old(self).table().dom().contains(k) ==> old(self).table()[k].parent
                        != Some(ino)),
            },
            old(self).table().dom().contains(ino) && (old(self).table()[ino].level
                == KubeFSLevel::File || fresh_enough(
                old(self).table()[ino].last_populated,
                now_ms,
            )) ==> r is Ok,
    {
        match self.inodes.get_inode(&ino) {
            None => {
                return Err(KubeFSInodeError::MissingInode);
            },
            Some(_) => {},
        }
        match self.inodes.ensure_populated(&ino, now_ms) {
            Ok(()) => Ok(self.inodes.find_inode_by_parent(&ino)),
            Err(e) => {
                let cached = self.inodes.find_inode_by_parent(&ino);
                if cached.len() > 0 {
                    Ok(cached)
                } else {
                    proof {
                        assert forall|k: u64|
                            #[trigger] old(self).table().dom().contains(k) implies old(self).table()[k].parent != Some(ino) by {
                            if old(self).table()[k].parent == Some(ino) {
                                let m = choose|m: int|
                                    0 <= m < cached@.len() && cached@[m].ino == k;
                                assert(false);
                            }
                        }
                    }
                    Err(e)
                }
            },
        }
    }

    /// Read the document of the object node `ino` from byte offset `offset`
    /// on; an offset beyond the content reads as empty. Only object nodes can
    /// be read; the table is never changed.
    pub fn read_object(&mut self, ino: u64, offset: u64) -> (r: Result<Vec<u8>, KubeFSInodeError>)
        requires
            old(self).wf(),
        ensures
            final(self).wf(),
            final(self).table() == old(self).table(),
            final(self).swaps() == old(self).swaps(),
            final(self).buffers() == old(self).buffers(),
            !old(self).table().dom().contains(ino) ==> r == Err::<Vec<u8>, KubeFSInodeError>(
                KubeFSInodeError::MissingInode,
            ),
            old(self).table().dom().contains(ino) && old(self).table()[ino].level
                != KubeFSLevel::File ==> r == Err::<Vec<u8>, KubeFSInodeError>(
                KubeFSInodeError::MissingInode,
            ),
            old(self).table().dom().contains(ino) && old(self).table()[ino].level
                == KubeFSLevel::File && chain_broken(old(self).table(), ino) ==> r == Err::<
                Vec<u8>,
                KubeFSInodeError,
            >(KubeFSInodeError::MissingInode),
            match r {
                Ok(v) => exists|doc: Seq<char>|
                    v@ == bytes_from(#[trigger] encode_utf8(doc), offset as int),
                Err(_) => true,
            },
    {
        let node = match self.inodes.get_inode(&ino) {
            None => {
                return Err(KubeFSInodeError::MissingInode);
            },
            Some(n) => n.clone(),
        };
        match node.level {
            KubeFSLevel::File => {},
            _ => {
                return Err(KubeFSInodeError::MissingInode);
            },
        }
        let doc = match self.inodes.get_file_contents(&ino) {
            Ok(d) => d,
            Err(e) => {
                return Err(e);
            },
        };
        let bytes = document_bytes(doc.as_str());
        let out = read_from(&bytes, offset);
        proof {
            assert(out@ == bytes_from(encode_utf8(doc@), offset as int));
        }
        Ok(out)
    }

    /// Begin an edit session on the object node `ino`: fetch its document and
    /// buffer it. Writes are spliced into the buffer; the remote object is
    /// replaced only when the session is flushed.
    pub fn open_object(&mut self, ino: u64) -> (r: Result<(), KubeFSInodeError>)
        requires
            old(self).wf(),
        ensures
            final(self).wf(),
            final(self).table() == old(self).table(),
            final(self).swaps() == old(self).swaps(),
            r is Err ==> final(self).buffers() == old(self).buffers(),
            !old(self).table().dom().contains(ino) ==> r == Err::<(), KubeFSInodeError>(
                KubeFSInodeError::MissingInode,
            ),
            old(self).table().dom().contains(ino) && old(self).table()[ino].level
                != KubeFSLevel::File ==> r == Err::<(), KubeFSInodeError>(KubeFSInodeError::Invalid),
            old(self).table().dom().contains(ino) && old(self).table()[ino].level
                == KubeFSLevel::File && chain_broken(old(self).table(), ino) ==> r == Err::<
                (),
                KubeFSInodeError,
            >(KubeFSInodeError::MissingInode),
            r is Ok ==> exists|doc: Seq<char>|
                final(self).buffers() == old(self).buffers().insert(
                    ino,
                    #[trigger] encode_utf8(doc),
                ),
    {
        let node = match self.inodes.get_inode(&ino) {
            None => {
                return Err(KubeFSInodeError::MissingInode);
            },
            Some(n) => n.clone(),
        };
        match node.level {
            KubeFSLevel::File => {},
            _ => {
                return Err(KubeFSInodeError::Invalid);
            },
        }
        let doc = match self.inodes.get_file_contents(&ino) {
            Ok(d) => d,
            Err(e) => {
                return Err(e);
            },
        };
        let bytes = document_bytes(doc.as_str());
        self.set_session(ino, bytes);
        proof {
            assert(final(self).buffers() == old(self).buffers().insert(ino, encode_utf8(doc@)));
        }
        Ok(())
    }

    /// Buffer one write of `data` at byte offset `offset` against the open
    /// edit session of `ino`. Nothing is sent to the remote store: partial or
    /// out-of-order writes must not each overwrite the remote object with a
    /// fragment. Returns the number of bytes accepted.
    pub fn write_object(&mut self, ino: u64, offset: u64, data: &[u8]) -> (r: Result<
        u32,
        KubeFSInodeError,
    >)
        requires
            old(self).wf(),
            data@.len() <= u32::MAX,
            offset + data@.len() <= usize::MAX,
        ensures
            final(self).wf(),
            final(self).table() == old(self).table(),
            final(self).swaps() == old(self).swaps(),
            !old(self).buffers().dom().contains(ino) ==> r == Err::<u32, KubeFSInodeError>(
                KubeFSInodeError::Invalid,
            ) && final(self).buffers() == old(self).buffers(),
            old(self).buffers().dom().contains(ino) ==> r == Ok::<u32, KubeFSInodeError>(
                data@.len() as u32,
            ) && final(self).buffers() == old(self).buffers().insert(
                ino,
                apply_write(old(self).buffers()[ino], offset as int, data@),
            ),
    {
        let ghost pre = self.sessions@;
        match self.find_session_index(ino) {
            None => Err(KubeFSInodeError::Invalid),
            Some(at) => {
                let mut session = self.sessions.remove(at);
                write_into(&mut session.buffer, offset, data);
                self.sessions.insert(at, session);
                proof {
                    let entry = self.sessions@[at as int];
                    assert(self.sessions@ =~= pre.update(at as int, entry));
                    lemma_session_update(pre, at as int, entry);
                }
                Ok(data.len() as u32)
            },
        }
    }

    /// End the edit session of `ino`: decode the buffered document and commit
    /// it to the remote store as a whole. A buffer that is not a valid
    /// document is rejected; a remote failure keeps the session (and the
    /// table) untouched, so the commit can be retried.
    pub fn flush_object(&mut self, ino: u64) -> (r: Result<(), KubeFSInodeError>)
        requires
            old(self).wf(),
        ensures
            final(self).wf(),
            final(self).table() == old(self).table(),
            final(self).swaps() == old(self).swaps(),
            !old(self).buffers().dom().contains(ino) ==> r is Ok && final(self).buffers() == old(self).buffers(),
            r is Err ==> final(self).buffers() == old(self).buffers(),
            old(self).buffers().dom().contains(ino) && !valid_utf8(old(self).buffers()[ino]) ==> r
                == Err::<(), KubeFSInodeError>(KubeFSInodeError::Invalid),
            r is Ok && old(self).buffers().dom().contains(ino) ==> valid_utf8(
                old(self).buffers()[ino],
            ) && final(self).buffers() == old(self).buffers().remove(ino),
    {
        let ghost pre = self.sessions@;
        match self.find_session_index(ino) {
            None => Ok(()),
            Some(at) => {
                let doc = match string_from_utf8(&self.sessions[at].buffer) {
                    None => {
                        return Err(KubeFSInodeError::Invalid);
                    },
                    Some(s) => s,
                };
                match self.inodes.update_object(&ino, doc.as_str()) {
                    Err(e) => Err(e),
                    Ok(()) => {
                        self.sessions.remove(at);
                        proof {
                            lemma_session_remove(pre, at as int);
                        }
                        Ok(())
                    },
                }
            },
        }
    }

    /// Create a namespace named `name` under the directory `parent` (legal
    /// only directly under the root) and return its node, recorded directly
    /// without a forced re-listing.
    pub fn make_namespace(&mut self, parent: u64, name: &str) -> (r: Result<
        KubeFSInode,
        KubeFSInodeError,
    >)
        requires
            old(self).wf(),
        ensures
            final(self).wf(),
            final(self).swaps() == old(self).swaps(),
            final(self).buffers() == old(self).buffers(),
            r is Err ==> final(self).table() == old(self).table(),
            !old(self).table().dom().contains(parent) ==> r == Err::<
                KubeFSInode,
                KubeFSInodeError,
            >(KubeFSInodeError::MissingInode),
            old(self).table().dom().contains(parent) && old(self).table()[parent].level
                != KubeFSLevel::Root ==> r == Err::<KubeFSInode, KubeFSInodeError>(
                KubeFSInodeError::Invalid,
            ),
            match r {
                Ok(n) => {
                    let new_ino = crate::ids::spec_path_ino(parent, KubeFSLevel::Namespace, name@);
                    let new_view = InodeView {
                        ino: new_ino,
                        parent: Some(parent),
                        name: name@,
                        level: KubeFSLevel::Namespace,
                        last_populated: None,
                    };
                    &&& n.name@ == name@
                    &&& n.parent == Some(parent)
                    &&& final(self).table().dom().contains(n.ino)
                    &&& final(self).table()[n.ino] == n@
                    &&& (final(self).table() == old(self).table() || (final(self).table() == old(
                        self,
                    ).table().insert(new_ino, new_view) && n@ == new_view))
                },
                Err(_) => true,
            },
    {
        let no_data: Vec<u8> = Vec::new();
        let ghost pre = self.inodes@;
        match self.inodes.create_object(name, &parent, no_data.as_slice()) {
            Err(e) => Err(e),
            Ok(()) => {
                let ghost new_ino = crate::ids::spec_path_ino(parent, KubeFSLevel::Namespace, name@);
                match self.inodes.lookup_inode_by_parent_and_name(&parent, name) {
                    Some(n) => {
                        proof {
                            if !(exists|k: u64|
                                #[trigger] pre.dom().contains(k) && pre[k].parent == Some(parent)
                                    && pre[k].name == name@) {
                                // the table grew by exactly the new record, so
                                // the child found is that record
                                if n.ino != new_ino {
                                    assert(pre.dom().contains(n.ino) && pre[n.ino] == n@);
                                }
                            }
                        }
                        Ok(n)
                    },
                    None => {
                        // `create_object` guarantees a child under this name
                        proof {
                            let k = choose|k: u64|
                                #[trigger] self.inodes@.dom().contains(k) && self.inodes@[k].parent
                                    == Some(parent) && self.inodes@[k].name == name@;
                            assert(false);
                        }
                        Err(KubeFSInodeError::MissingInode)
                    },
                }
            },
        }
    }

    /// Delete the namespace named `name` under the directory `parent` (legal
    /// only directly under the root); on success the cached node and its
    /// whole subtree are removed.
    pub fn remove_namespace(&mut self, parent: u64, name: &str) -> (r: Result<
        (),
        KubeFSInodeError,
    >)
        requires
            old(self).wf(),
        ensures
            final(self).wf(),
            final(self).swaps() == old(self).swaps(),
            final(self).buffers() == old(self).buffers(),
            r is Err ==> final(self).table() == old(self).table(),
            !old(self).table().dom().contains(parent) ==> r == Err::<(), KubeFSInodeError>(
                KubeFSInodeError::MissingInode,
            ),
            old(self).table().dom().contains(parent) && old(self).table()[parent].level
                != KubeFSLevel::Root ==> r == Err::<(), KubeFSInodeError>(KubeFSInodeError::Invalid),
            r is Ok ==> (if exists|k: u64|
                #[trigger] old(self).table().dom().contains(k) && old(self).table()[k].parent
                    == Some(parent) && old(self).table()[k].name == name@ {
                exists|c: u64|
                    #[trigger] old(self).table().dom().contains(c) && old(self).table()[c].parent
                        == Some(parent) && old(self).table()[c].name == name@
                        && crate::inode::subtree_removed(old(self).table(), final(self).table(), c)
            } else {
                final(self).table() == old(self).table()
            }),
    {
        self.inodes.delete_object(name, &parent)
    }
}

} // verus!
